//! Ed25519 signatures over transaction encodings, computed by
//! `ed25519-dalek`.

use vstd::prelude::*;
use vstd::std_specs::cmp::PartialEqSpecImpl;

use crate::transaction::{tx_bytes, tx_id_of, HashablePublicKey, Transaction, TxId};

verus! {

/// The public key of an Ed25519 secret key.
pub uninterp spec fn ed25519_public(secret: Seq<u8>) -> Seq<u8>;

/// The Ed25519 signature of `message` under `secret` (signing is
/// deterministic).
pub uninterp spec fn ed25519_signature(secret: Seq<u8>, message: Seq<u8>) -> Seq<u8>;

/// Whether Ed25519 verification accepts `signature` on `message` under
/// `public`.
pub uninterp spec fn ed25519_verifies(public: Seq<u8>, message: Seq<u8>, signature: Seq<u8>) -> bool;

/// `PublicKey::from(&SecretKey)` in `ed25519-dalek`. Trusted: the key is
/// the one named by `ed25519_public` for these secret bytes (the 32-byte
/// `SecretKey::from_bytes` cannot fail).
#[verifier::external_body]
fn dalek_public_key(secret: &[u8; 32]) -> (p: [u8; 32])
    ensures
        p@ == ed25519_public(secret@),
{
    let sk = ed25519_dalek::SecretKey::from_bytes(secret).unwrap();
    ed25519_dalek::PublicKey::from(&sk).to_bytes()
}

/// `Signer::sign` of an `ed25519_dalek::Keypair` made from the secret key
/// and its public key. Trusted: the signature named by
/// `ed25519_signature`, and, as Ed25519 guarantees, one that verification
/// accepts under the matching public key.
#[verifier::external_body]
fn dalek_sign(secret: &[u8; 32], message: &[u8]) -> (s: [u8; 64])
    ensures
        s@ == ed25519_signature(secret@, message@),
        ed25519_verifies(ed25519_public(secret@), message@, s@),
{
    let sk = ed25519_dalek::SecretKey::from_bytes(secret).unwrap();
    let pk = ed25519_dalek::PublicKey::from(&sk);
    let kp = ed25519_dalek::Keypair { secret: sk, public: pk };
    ed25519_dalek::Signer::sign(&kp, message).to_bytes()
}

/// `Verifier::verify` of `ed25519-dalek`, after parsing the key and the
/// signature (bytes that do not parse never verify). Trusted: the outcome
/// named by `ed25519_verifies`.
#[verifier::external_body]
fn dalek_verify(public: &[u8; 32], message: &[u8], signature: &[u8; 64]) -> (ok: bool)
    ensures
        ok == ed25519_verifies(public@, message@, signature@),
{
    match ed25519_dalek::PublicKey::from_bytes(public) {
        Ok(pk) => match ed25519_dalek::Signature::from_bytes(signature) {
            Ok(sig) => ed25519_dalek::Verifier::verify(&pk, message, &sig).is_ok(),
            Err(_) => false,
        },
        Err(_) => false,
    }
}

/// Errors of the signature layer.
#[derive(Debug, Clone, Copy, PartialEq, Eq, Structural)]
pub enum CryptoError {
    /// The signature bytes are malformed
    InvalidSignature,
    /// The signature does not verify
    VerificationFailed,
    /// The transaction cannot be signed
    InvalidTransaction,
}

impl CryptoError {
    /// A description of the error.
    pub fn to_string(&self) -> (s: String)
        ensures
            *self == CryptoError::InvalidSignature ==> s@ == "Invalid signature format"@,
            *self == CryptoError::VerificationFailed ==> s@ == "Signature verification failed"@,
            *self == CryptoError::InvalidTransaction ==> s@ == "Invalid transaction for signing"@,
    {
        match self {
            CryptoError::InvalidSignature => "Invalid signature format".to_string(),
            CryptoError::VerificationFailed => "Signature verification failed".to_string(),
            CryptoError::InvalidTransaction => "Invalid transaction for signing".to_string(),
        }
    }
}

/// An Ed25519 signature: 64 bytes.
#[derive(Debug, Clone, Copy, Eq)]
pub struct Signature(pub [u8; 64]);

impl PartialEq for Signature {
    fn eq(&self, other: &Self) -> (r: bool) {
        crate::security::bytes_equal(self.0.as_slice(), other.0.as_slice())
    }
}

impl PartialEqSpecImpl for Signature {
    open spec fn obeys_eq_spec() -> bool {
        true
    }

    open spec fn eq_spec(&self, other: &Self) -> bool {
        self.0@ == other.0@
    }
}

/// An Ed25519 key pair: the secret key and the public key derived from it.
#[derive(Debug)]
pub struct Keypair {
    secret: [u8; 32],
    public: HashablePublicKey,
}

impl Keypair {
    #[verifier::type_invariant]
    closed spec fn matches(&self) -> bool {
        self.public.0@ == ed25519_public(self.secret@)
    }

    /// The secret key bytes.
    pub closed spec fn secret_bytes(&self) -> Seq<u8> {
        self.secret@
    }

    /// The key pair of a 32-byte secret key.
    pub fn from_secret(secret: [u8; 32]) -> (kp: Keypair)
        ensures
            kp.secret_bytes() == secret@,
    {
        let public = HashablePublicKey(dalek_public_key(&secret));
        Keypair { secret, public }
    }

    /// The public key.
    pub fn public(&self) -> (p: HashablePublicKey)
        ensures
            p.0@ == ed25519_public(self.secret_bytes()),
    {
        proof {
            use_type_invariant(self);
        }
        self.public
    }
}

/// Whether the signature of a signed transaction verifies under its
/// sender's key.
pub open spec fn signature_valid(tx: Transaction, signature: Signature) -> bool {
    ed25519_verifies(tx.from_pubkey.0@, tx_bytes(tx), signature.0@)
}

/// A transaction with its signature and identifier.
#[derive(Debug, Clone, Copy, PartialEq, Eq)]
pub struct SignedTransaction {
    /// The transaction
    pub tx: Transaction,
    /// The sender's signature on its encoding
    pub signature: Signature,
    /// The transaction's identifier
    pub tx_id: TxId,
}

impl SignedTransaction {
    /// A signed transaction, with its identifier computed.
    pub fn new(tx: Transaction, signature: Signature) -> (st: Self)
        ensures
            st.tx == tx,
            st.signature == signature,
            st.tx_id.0@ == tx_id_of(tx),
    {
        let tx_id = TxId::from_tx(&tx);
        SignedTransaction { tx, signature, tx_id }
    }

    /// Whether the signature verifies under the sender's key.
    pub fn verify(&self) -> (ok: bool)
        ensures
            ok == signature_valid(self.tx, self.signature),
    {
        verify(&self.tx, &self.signature)
    }

    /// The identifier.
    pub fn id(&self) -> (id: TxId)
        ensures
            id == self.tx_id,
    {
        self.tx_id
    }

    /// The transaction.
    pub fn transaction(&self) -> (tx: &Transaction)
        ensures
            *tx == self.tx,
    {
        &self.tx
    }

    /// The signature.
    pub fn signature(&self) -> (s: &Signature)
        ensures
            *s == self.signature,
    {
        &self.signature
    }
}

/// Signs the transaction's encoding with the key pair's secret key.
pub fn sign(tx: &Transaction, keypair: &Keypair) -> (s: Signature)
    ensures
        s.0@ == ed25519_signature(keypair.secret_bytes(), tx_bytes(*tx)),
        ed25519_verifies(ed25519_public(keypair.secret_bytes()), tx_bytes(*tx), s.0@),
{
    let tx_bytes = tx.serialize();
    Signature(dalek_sign(&keypair.secret, tx_bytes.as_slice()))
}

/// Whether `signature` verifies on the transaction's encoding under its
/// sender's key.
pub fn verify(tx: &Transaction, signature: &Signature) -> (ok: bool)
    ensures
        ok == signature_valid(*tx, *signature),
{
    let tx_bytes = tx.serialize();
    dalek_verify(&tx.from_pubkey.0, tx_bytes.as_slice(), &signature.0)
}

} // verus!
