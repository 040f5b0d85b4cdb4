//! Transactions: the canonical byte encoding that is signed and hashed, and
//! transaction identifiers (SHA-256 of that encoding) with hex display.

use vstd::bytes::{spec_u64_to_le_bytes, u64_to_le_bytes};
use vstd::prelude::*;
use vstd::string::StringExecFns;
use vstd::string::StringSliceAdditionalSpecFns;
use vstd::std_specs::cmp::PartialEqSpecImpl;

use crate::merkle::sha256;

verus! {

/// An Ed25519 public key, held as its 32 compressed bytes.
#[derive(Debug, Clone, Copy, Eq, Hash)]
pub struct HashablePublicKey(pub [u8; 32]);

impl PartialEq for HashablePublicKey {
    fn eq(&self, other: &Self) -> (r: bool) {
        crate::merkle::hash_eq(&self.0, &other.0)
    }
}

impl PartialEqSpecImpl for HashablePublicKey {
    open spec fn obeys_eq_spec() -> bool {
        true
    }

    open spec fn eq_spec(&self, other: &Self) -> bool {
        self.0@ == other.0@
    }
}

/// A transfer of `amount` from one key to another; `nonce` orders the
/// sender's transactions and prevents replays.
#[derive(Debug, Clone, Copy, PartialEq, Eq)]
pub struct Transaction {
    /// Sender
    pub from_pubkey: HashablePublicKey,
    /// Recipient
    pub to_pubkey: HashablePublicKey,
    /// Amount transferred
    pub amount: u64,
    /// Sender's sequence number
    pub nonce: u64,
}

/// A transaction identifier: SHA-256 of the transaction's encoding.
#[derive(Debug, Clone, Copy, Eq, Hash)]
pub struct TxId(pub [u8; 32]);

impl PartialEq for TxId {
    fn eq(&self, other: &Self) -> (r: bool) {
        crate::merkle::hash_eq(&self.0, &other.0)
    }
}

impl PartialEqSpecImpl for TxId {
    open spec fn obeys_eq_spec() -> bool {
        true
    }

    open spec fn eq_spec(&self, other: &Self) -> bool {
        self.0@ == other.0@
    }
}

/// The encoding of a transaction: sender key, recipient key, then amount
/// and nonce as little-endian 64-bit integers (80 bytes).
pub open spec fn tx_bytes(tx: Transaction) -> Seq<u8> {
    tx.from_pubkey.0@ + tx.to_pubkey.0@ + spec_u64_to_le_bytes(tx.amount) + spec_u64_to_le_bytes(
        tx.nonce,
    )
}

/// The identifier of a transaction.
pub open spec fn tx_id_of(tx: Transaction) -> Seq<u8> {
    sha256(tx_bytes(tx))
}

/// The lowercase hex digit of a value below 16.
pub open spec fn hex_digit(n: nat) -> char {
    if n < 10 {
        (48 + n) as char
    } else {
        (87 + n) as char
    }
}

/// Lowercase hex text of bytes: two digits per byte, high nibble first.
pub open spec fn hex_text(b: Seq<u8>) -> Seq<char> {
    Seq::new(
        2 * b.len(),
        |i: int|
            if i % 2 == 0 {
                hex_digit(b[i / 2] as nat / 16)
            } else {
                hex_digit(b[i / 2] as nat % 16)
            },
    )
}

/// Whether a byte is an ASCII hex digit (either case).
pub open spec fn is_hex_byte(c: u8) -> bool {
    (48 <= c <= 57) || (65 <= c <= 70) || (97 <= c <= 102)
}

/// The value of an ASCII hex digit.
pub open spec fn hex_byte_value(c: u8) -> nat {
    if 48 <= c <= 57 {
        (c - 48) as nat
    } else if 65 <= c <= 70 {
        (c - 55) as nat
    } else {
        (c - 87) as nat
    }
}

/// The bytes that an even-length hex text stands for.
pub open spec fn hex_decoded(text: Seq<u8>) -> Seq<u8> {
    Seq::new(
        text.len() / 2,
        |i: int| (16 * hex_byte_value(text[2 * i]) + hex_byte_value(text[2 * i + 1])) as u8,
    )
}

/// Why hex text could not be decoded into an identifier.
#[derive(Debug, Clone, Copy, PartialEq, Eq, Structural)]
pub enum HexError {
    /// A character that is not a hex digit, and its position
    InvalidHexCharacter { c: char, index: usize },
    /// The text has an odd number of characters
    OddLength,
    /// The text does not stand for exactly 32 bytes
    InvalidStringLength,
}

/// `hex::encode`. Trusted: the lowercase hex text of the bytes, two digits
/// per byte, high nibble first, as `hex` documents.
#[verifier::external_body]
fn hex_encode(data: &[u8; 32]) -> (s: String)
    ensures
        s@ == hex_text(data@),
{
    hex::encode(data)
}

/// `hex::decode` on the bytes of a text. Trusted: an odd length is
/// `OddLength`; otherwise the first byte that is not a hex digit is
/// reported with its position; otherwise the bytes that each pair of digits
/// stands for, as the crate's source shows. The error is carried over
/// variant by variant.
#[verifier::external_body]
fn hex_decode(text: &[u8]) -> (r: Result<Vec<u8>, HexError>)
    ensures
        text@.len() % 2 == 1 <==> r matches Err(HexError::OddLength),
        r matches Err(HexError::InvalidHexCharacter { c, index }) ==> ({
            &&& text@.len() % 2 == 0
            &&& index < text@.len()
            &&& !is_hex_byte(text@[index as int])
            &&& c == text@[index as int] as char
            &&& forall|j: int| 0 <= j < index ==> is_hex_byte(#[trigger] text@[j])
        }),
        !(r matches Err(HexError::InvalidStringLength)),
        r is Ok <==> text@.len() % 2 == 0 && forall|j: int| 0 <= j < text@.len() ==> is_hex_byte(
            #[trigger] text@[j],
        ),
        r matches Ok(v) ==> v@ == hex_decoded(text@),
{
    match hex::decode(text) {
        Ok(v) => Ok(v),
        Err(hex::FromHexError::InvalidHexCharacter { c, index }) => Err(
            HexError::InvalidHexCharacter { c, index },
        ),
        Err(hex::FromHexError::OddLength) => Err(HexError::OddLength),
        Err(hex::FromHexError::InvalidStringLength) => Err(HexError::InvalidStringLength),
    }
}

/// `a` followed by `b`.
fn append_bytes(a: &mut Vec<u8>, b: &[u8])
    ensures
        final(a)@ == old(a)@ + b@,
{
    let mut i: usize = 0;
    while i < b.len()
        invariant
            0 <= i <= b@.len(),
            a@ == old(a)@ + b@.subrange(0, i as int),
        decreases b@.len() - i,
    {
        a.push(b[i]);
        i = i + 1;
        assert(a@ =~= old(a)@ + b@.subrange(0, i as int));
    }
    assert(b@.subrange(0, b@.len() as int) =~= b@);
}

impl Transaction {
    /// A transaction from `from_pubkey` to `to_pubkey`.
    pub fn new(from_pubkey: HashablePublicKey, to_pubkey: HashablePublicKey, amount: u64, nonce: u64) -> (tx: Self)
        ensures
            tx.from_pubkey == from_pubkey,
            tx.to_pubkey == to_pubkey,
            tx.amount == amount,
            tx.nonce == nonce,
    {
        Transaction { from_pubkey, to_pubkey, amount, nonce }
    }

    /// The canonical encoding that is signed and hashed.
    pub fn serialize(&self) -> (bytes: Vec<u8>)
        ensures
            bytes@ == tx_bytes(*self),
            bytes@.len() == 80,
    {
        let mut bytes: Vec<u8> = Vec::new();
        append_bytes(&mut bytes, self.from_pubkey.0.as_slice());
        append_bytes(&mut bytes, self.to_pubkey.0.as_slice());
        let amount = u64_to_le_bytes(self.amount);
        append_bytes(&mut bytes, amount.as_slice());
        let nonce = u64_to_le_bytes(self.nonce);
        append_bytes(&mut bytes, nonce.as_slice());
        assert(bytes@ =~= tx_bytes(*self));
        bytes
    }

    /// The identifier: SHA-256 of the encoding.
    pub fn compute_id(&self) -> (id: TxId)
        ensures
            id.0@ == tx_id_of(*self),
    {
        let bytes = self.serialize();
        TxId(crate::merkle::sha256_digest(bytes.as_slice()))
    }
}

impl TxId {
    /// The identifier of a transaction.
    pub fn from_tx(tx: &Transaction) -> (id: TxId)
        ensures
            id.0@ == tx_id_of(*tx),
    {
        tx.compute_id()
    }

    /// Lowercase hex text of the identifier (64 digits).
    pub fn to_hex(&self) -> (s: String)
        ensures
            s@ == hex_text(self.0@),
    {
        hex_encode(&self.0)
    }

    /// `0x` followed by the hex text.
    pub fn to_string(&self) -> (s: String)
        ensures
            s@ == seq!['0', 'x'] + hex_text(self.0@),
    {
        let mut s = String::from_str("0x");
        proof {
            reveal_strlit("0x");
        }
        let h = self.to_hex();
        s.append(h.as_str());
        s
    }

    /// Parses 64 hex digits (either case) into an identifier.
    pub fn from_hex(hex_str: &str) -> (r: Result<TxId, HexError>)
        ensures
            ({
                let t = hex_str.spec_bytes();
                &&& (t.len() % 2 == 1 <==> r matches Err(HexError::OddLength))
                &&& (r matches Err(HexError::InvalidHexCharacter { c, index }) ==> {
                    &&& t.len() % 2 == 0
                    &&& index < t.len()
                    &&& !is_hex_byte(t[index as int])
                    &&& c == t[index as int] as char
                    &&& forall|j: int| 0 <= j < index ==> is_hex_byte(#[trigger] t[j])
                })
                &&& ((r matches Err(HexError::InvalidStringLength)) <==> (t.len() % 2
                    == 0 && (forall|j: int| 0 <= j < t.len() ==> is_hex_byte(#[trigger] t[j]))
                    && t.len() != 64))
                &&& (r matches Ok(id) ==> id.0@ == hex_decoded(t))
                &&& (r is Ok <==> (t.len() == 64 && forall|j: int|
                    0 <= j < t.len() ==> is_hex_byte(#[trigger] t[j])))
            }),
    {
        let text = hex_str.as_bytes();
        let bytes = match hex_decode(text) {
            Ok(v) => v,
            Err(e) => {
                return Err(e);
            },
        };
        if bytes.len() != 32 {
            return Err(HexError::InvalidStringLength);
        }
        let mut array = [0u8; 32];
        let mut i: usize = 0;
        while i < 32
            invariant
                0 <= i <= 32,
                bytes@.len() == 32,
                forall|j: int| 0 <= j < i ==> array@[j] == bytes@[j],
            decreases 32 - i,
        {
            array[i] = bytes[i];
            i = i + 1;
        }
        assert(array@ =~= bytes@);
        Ok(TxId(array))
    }
}

/// The ASCII bytes of a text whose characters are all ASCII.
pub open spec fn ascii_bytes(t: Seq<char>) -> Seq<u8> {
    t.map_values(|c: char| c as u8)
}

/// One byte's two hex digits decode back to the byte.
proof fn lemma_hex_byte_round_trip(v: u8)
    ensures
        is_hex_byte(hex_digit(v as nat / 16) as u8),
        is_hex_byte(hex_digit(v as nat % 16) as u8),
        hex_byte_value(hex_digit(v as nat / 16) as u8) == v as nat / 16,
        hex_byte_value(hex_digit(v as nat % 16) as u8) == v as nat % 16,
        (16 * hex_byte_value(hex_digit(v as nat / 16) as u8) + hex_byte_value(
            hex_digit(v as nat % 16) as u8,
        )) as u8 == v,
{
    let hi = v as nat / 16;
    let lo = v as nat % 16;
    assert(hi < 16);
    assert(lo < 16);
    assert(16 * hi + lo == v as nat);
}

/// Hex round trip: the hex text of any bytes consists of hex digits, has
/// two digits per byte, and decodes back to the same bytes.
pub proof fn lemma_hex_round_trip(b: Seq<u8>)
    ensures
        ascii_bytes(hex_text(b)).len() == 2 * b.len(),
        forall|j: int| 0 <= j < 2 * b.len() ==> is_hex_byte(#[trigger] ascii_bytes(hex_text(b))[j]),
        hex_decoded(ascii_bytes(hex_text(b))) == b,
{
    let t = ascii_bytes(hex_text(b));
    assert forall|j: int| 0 <= j < 2 * b.len() implies is_hex_byte(#[trigger] t[j]) by {
        lemma_hex_byte_round_trip(b[j / 2]);
    }
    assert forall|i: int| 0 <= i < b.len() implies #[trigger] hex_decoded(t)[i] == b[i] by {
        lemma_hex_byte_round_trip(b[i]);
        assert(t[2 * i] == hex_digit(b[i] as nat / 16) as u8);
        assert(t[2 * i + 1] == hex_digit(b[i] as nat % 16) as u8);
    }
    assert(hex_decoded(t) =~= b);
}

/// The encoding determines the transaction: different transactions have
/// different encodings, so equal identifiers come only from equal
/// transactions or from a SHA-256 collision.
pub proof fn lemma_tx_bytes_injective(a: Transaction, b: Transaction)
    requires
        tx_bytes(a) == tx_bytes(b),
    ensures
        a == b,
{
    vstd::bytes::lemma_auto_spec_u64_to_from_le_bytes();
    let ta = tx_bytes(a);
    let tb = tx_bytes(b);
    assert(a.from_pubkey.0@ =~= ta.subrange(0, 32));
    assert(b.from_pubkey.0@ =~= tb.subrange(0, 32));
    assert(a.to_pubkey.0@ =~= ta.subrange(32, 64));
    assert(b.to_pubkey.0@ =~= tb.subrange(32, 64));
    assert(spec_u64_to_le_bytes(a.amount) =~= ta.subrange(64, 72));
    assert(spec_u64_to_le_bytes(b.amount) =~= tb.subrange(64, 72));
    assert(spec_u64_to_le_bytes(a.nonce) =~= ta.subrange(72, 80));
    assert(spec_u64_to_le_bytes(b.nonce) =~= tb.subrange(72, 80));
    assert(a.from_pubkey.0 =~= b.from_pubkey.0) by {
        assert forall|i: int| 0 <= i < 32 implies a.from_pubkey.0[i] == b.from_pubkey.0[i] by {
            assert(a.from_pubkey.0@[i] == ta[i]);
            assert(b.from_pubkey.0@[i] == tb[i]);
        }
    }
    assert(a.to_pubkey.0 =~= b.to_pubkey.0) by {
        assert forall|i: int| 0 <= i < 32 implies a.to_pubkey.0[i] == b.to_pubkey.0[i] by {
            assert(a.to_pubkey.0@[i] == ta[32 + i]);
            assert(b.to_pubkey.0@[i] == tb[32 + i]);
        }
    }
    assert(spec_u64_to_le_bytes(a.amount) == spec_u64_to_le_bytes(b.amount));
    assert(spec_u64_to_le_bytes(a.nonce) == spec_u64_to_le_bytes(b.nonce));
    assert(a.amount == vstd::bytes::spec_u64_from_le_bytes(spec_u64_to_le_bytes(a.amount)));
    assert(b.amount == vstd::bytes::spec_u64_from_le_bytes(spec_u64_to_le_bytes(b.amount)));
    assert(a.nonce == vstd::bytes::spec_u64_from_le_bytes(spec_u64_to_le_bytes(a.nonce)));
    assert(b.nonce == vstd::bytes::spec_u64_from_le_bytes(spec_u64_to_le_bytes(b.nonce)));
}

} // verus!
