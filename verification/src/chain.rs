//! A toy blockchain: accounts, blocks hashed over their JSON encoding, and a
//! block store that follows the highest block (the first one seen wins a
//! tie) and reads the canonical chain back from it.

use vstd::prelude::*;
use vstd::string::StringSliceAdditionalSpecFns;

use crate::crypto::SignedTransaction;
use crate::merkle::sha256;

verus! {

/// A block hash.
pub type Hash = [u8; 32];

/// A block height.
pub type Height = u64;

/// A block timestamp.
pub type Timestamp = u64;

/// An account: its balance and the nonce of its next transaction.
#[derive(Debug, Clone, Copy, PartialEq, Eq, Structural)]
pub struct Account {
    /// Balance
    pub balance: u64,
    /// Next nonce
    pub nonce: u64,
}

impl Account {
    /// An account with the given balance and nonce.
    pub fn new(balance: u64, nonce: u64) -> (a: Self)
        ensures
            a.balance == balance,
            a.nonce == nonce,
    {
        Account { balance, nonce }
    }
}

/// The content of a block.
pub struct BlockData {
    /// Hash of the parent block
    pub prev_hash: Seq<u8>,
    /// Transactions, in order
    pub txs: Seq<SignedTransaction>,
    /// Height in the chain
    pub height: u64,
    /// Creation time
    pub timestamp: u64,
}

/// Whether a block's parent hash is all zero.
pub open spec fn is_genesis_data(b: BlockData) -> bool {
    b.prev_hash == Seq::new(32, |i: int| 0u8)
}

/// The decimal digits of `v`, in ASCII.
pub open spec fn decimal(v: nat) -> Seq<u8>
    decreases v,
{
    if v < 10 {
        seq![(48 + v) as u8]
    } else {
        decimal(v / 10).push((48 + v % 10) as u8)
    }
}

/// The decimal numbers of a list of bytes, separated by commas.
pub open spec fn joined_bytes(b: Seq<u8>) -> Seq<u8>
    decreases b.len(),
{
    if b.len() == 0 {
        Seq::empty()
    } else if b.len() == 1 {
        decimal(b[0] as nat)
    } else {
        joined_bytes(b.drop_last()) + ",".spec_bytes() + decimal(b.last() as nat)
    }
}

/// A JSON array of byte values, as `serde_json` writes byte arrays.
pub open spec fn json_bytes(b: Seq<u8>) -> Seq<u8> {
    "[".spec_bytes() + joined_bytes(b) + "]".spec_bytes()
}

/// The compact JSON of a signed transaction, fields in declaration order.
pub open spec fn json_signed_tx(st: SignedTransaction) -> Seq<u8> {
    "{\"tx\":{\"from_pubkey\":".spec_bytes() + json_bytes(st.tx.from_pubkey.0@)
        + ",\"to_pubkey\":".spec_bytes() + json_bytes(st.tx.to_pubkey.0@) + ",\"amount\":".spec_bytes()
        + decimal(st.tx.amount as nat) + ",\"nonce\":".spec_bytes() + decimal(st.tx.nonce as nat)
        + "},\"signature\":".spec_bytes() + json_bytes(st.signature.0@) + ",\"tx_id\":".spec_bytes()
        + json_bytes(st.tx_id.0@) + "}".spec_bytes()
}

/// The JSON of a list of signed transactions, separated by commas.
pub open spec fn joined_txs(txs: Seq<SignedTransaction>) -> Seq<u8>
    decreases txs.len(),
{
    if txs.len() == 0 {
        Seq::empty()
    } else if txs.len() == 1 {
        json_signed_tx(txs[0])
    } else {
        joined_txs(txs.drop_last()) + ",".spec_bytes() + json_signed_tx(txs.last())
    }
}

/// The compact JSON of a block, fields in declaration order.
pub open spec fn json_block(b: BlockData) -> Seq<u8> {
    "{\"prev_hash\":".spec_bytes() + json_bytes(b.prev_hash) + ",\"txs\":[".spec_bytes()
        + joined_txs(b.txs) + "],\"height\":".spec_bytes() + decimal(b.height as nat)
        + ",\"timestamp\":".spec_bytes() + decimal(b.timestamp as nat) + "}".spec_bytes()
}

/// The hash of a block: SHA-256 of its JSON.
pub open spec fn spec_block_hash(b: BlockData) -> Seq<u8> {
    sha256(json_block(b))
}

/// A block: the hash of its parent, its transactions, its height and time.
#[derive(Debug, Clone, PartialEq, Eq)]
pub struct Block {
    /// Hash of the parent block (all zero for a genesis block)
    pub prev_hash: Hash,
    /// Transactions, in order
    pub txs: Vec<SignedTransaction>,
    /// Height in the chain
    pub height: Height,
    /// Creation time
    pub timestamp: Timestamp,
}

impl View for Block {
    type V = BlockData;

    open spec fn view(&self) -> BlockData {
        BlockData {
            prev_hash: self.prev_hash@,
            txs: self.txs@,
            height: self.height,
            timestamp: self.timestamp,
        }
    }
}

/// Appends the bytes of a text.
fn push_text(buf: &mut Vec<u8>, s: &str)
    ensures
        final(buf)@ == old(buf)@ + s.spec_bytes(),
{
    let b = s.as_bytes();
    let mut i: usize = 0;
    while i < b.len()
        invariant
            0 <= i <= b@.len(),
            b@ == s.spec_bytes(),
            buf@ == old(buf)@ + b@.subrange(0, i as int),
        decreases b@.len() - i,
    {
        buf.push(b[i]);
        i = i + 1;
        assert(buf@ =~= old(buf)@ + b@.subrange(0, i as int));
    }
    assert(b@.subrange(0, b@.len() as int) =~= b@);
}

/// Appends the decimal digits of `v`.
fn push_decimal(buf: &mut Vec<u8>, v: u64)
    ensures
        final(buf)@ == old(buf)@ + decimal(v as nat),
    decreases v,
{
    if v >= 10 {
        push_decimal(buf, v / 10);
    }
    let d = (v % 10) as u8;
    buf.push(48u8 + d);
    if v >= 10 {
        assert(buf@ =~= old(buf)@ + decimal(v as nat));
    } else {
        assert(buf@ =~= old(buf)@ + decimal(v as nat));
    }
}

/// Appends a JSON array of byte values.
fn push_json_bytes(buf: &mut Vec<u8>, b: &[u8])
    ensures
        final(buf)@ == old(buf)@ + json_bytes(b@),
{
    push_text(buf, "[");
    let ghost start = buf@;
    let mut i: usize = 0;
    while i < b.len()
        invariant
            0 <= i <= b@.len(),
            buf@ == start + joined_bytes(b@.subrange(0, i as int)),
        decreases b@.len() - i,
    {
        let ghost pre = b@.subrange(0, i as int);
        let ghost next = b@.subrange(0, i + 1);
        assert(next.drop_last() =~= pre);
        if i > 0 {
            push_text(buf, ",");
        }
        push_decimal(buf, b[i] as u64);
        i = i + 1;
        if i == 1 {
            assert(buf@ =~= start + joined_bytes(next));
        } else {
            assert(buf@ =~= start + joined_bytes(next));
        }
    }
    assert(b@.subrange(0, b@.len() as int) =~= b@);
    push_text(buf, "]");
    assert(buf@ =~= old(buf)@ + json_bytes(b@));
}

/// Appends the JSON of a signed transaction.
#[verifier::rlimit(40)]
fn push_json_signed_tx(buf: &mut Vec<u8>, st: &SignedTransaction)
    ensures
        final(buf)@ == old(buf)@ + json_signed_tx(*st),
{
    let ghost o = old(buf)@;
    push_text(buf, "{\"tx\":{\"from_pubkey\":");
    push_json_bytes(buf, st.tx.from_pubkey.0.as_slice());
    push_text(buf, ",\"to_pubkey\":");
    push_json_bytes(buf, st.tx.to_pubkey.0.as_slice());
    let ghost mid1 = buf@;
    assert(mid1 =~= o + ("{\"tx\":{\"from_pubkey\":".spec_bytes() + json_bytes(st.tx.from_pubkey.0@)
        + ",\"to_pubkey\":".spec_bytes() + json_bytes(st.tx.to_pubkey.0@)));
    push_text(buf, ",\"amount\":");
    push_decimal(buf, st.tx.amount);
    push_text(buf, ",\"nonce\":");
    push_decimal(buf, st.tx.nonce);
    let ghost mid2 = buf@;
    assert(mid2 =~= mid1 + (",\"amount\":".spec_bytes() + decimal(st.tx.amount as nat)
        + ",\"nonce\":".spec_bytes() + decimal(st.tx.nonce as nat)));
    push_text(buf, "},\"signature\":");
    push_json_bytes(buf, st.signature.0.as_slice());
    push_text(buf, ",\"tx_id\":");
    push_json_bytes(buf, st.tx_id.0.as_slice());
    push_text(buf, "}");
    assert(buf@ =~= old(buf)@ + json_signed_tx(*st));
}

/// The compact JSON encoding of a block, as `serde_json::to_vec` writes it.
pub fn block_json(block: &Block) -> (json: Vec<u8>)
    ensures
        json@ == json_block(block@),
{
    let mut buf: Vec<u8> = Vec::new();
    push_text(&mut buf, "{\"prev_hash\":");
    push_json_bytes(&mut buf, block.prev_hash.as_slice());
    push_text(&mut buf, ",\"txs\":[");
    let ghost start = buf@;
    let mut i: usize = 0;
    while i < block.txs.len()
        invariant
            0 <= i <= block.txs@.len(),
            buf@ == start + joined_txs(block.txs@.subrange(0, i as int)),
        decreases block.txs@.len() - i,
    {
        let ghost pre = block.txs@.subrange(0, i as int);
        let ghost next = block.txs@.subrange(0, i + 1);
        assert(next.drop_last() =~= pre);
        if i > 0 {
            push_text(&mut buf, ",");
        }
        push_json_signed_tx(&mut buf, &block.txs[i]);
        i = i + 1;
        assert(buf@ =~= start + joined_txs(next));
    }
    assert(block.txs@.subrange(0, block.txs@.len() as int) =~= block.txs@);
    push_text(&mut buf, "],\"height\":");
    push_decimal(&mut buf, block.height);
    push_text(&mut buf, ",\"timestamp\":");
    push_decimal(&mut buf, block.timestamp);
    push_text(&mut buf, "}");
    assert(buf@ =~= json_block(block@));
    buf
}

/// The hash of a block: SHA-256 of its JSON encoding.
pub fn block_hash(block: &Block) -> (h: Hash)
    ensures
        h@ == spec_block_hash(block@),
{
    let json = block_json(block);
    crate::merkle::sha256_digest(json.as_slice())
}

/// A copy of a list of signed transactions.
fn copy_txs(v: &Vec<SignedTransaction>) -> (r: Vec<SignedTransaction>)
    ensures
        r@ == v@,
{
    let mut r: Vec<SignedTransaction> = Vec::new();
    let mut i: usize = 0;
    while i < v.len()
        invariant
            0 <= i <= v@.len(),
            r@ == v@.subrange(0, i as int),
        decreases v@.len() - i,
    {
        r.push(v[i]);
        i = i + 1;
        assert(r@ =~= v@.subrange(0, i as int));
    }
    assert(r@ =~= v@);
    r
}

impl Block {
    /// A block with the given parent hash, transactions, height and time.
    pub fn new(prev_hash: Hash, txs: Vec<SignedTransaction>, height: Height, timestamp: Timestamp) -> (b: Self)
        ensures
            b.prev_hash == prev_hash,
            b.txs@ == txs@,
            b.height == height,
            b.timestamp == timestamp,
    {
        Block { prev_hash, txs, height, timestamp }
    }

    /// A copy of the block.
    pub fn copy(&self) -> (b: Self)
        ensures
            b@ == self@,
    {
        let txs = copy_txs(&self.txs);
        Block { prev_hash: self.prev_hash, txs, height: self.height, timestamp: self.timestamp }
    }

    /// The block's hash.
    pub fn hash(&self) -> (h: Hash)
        ensures
            h@ == spec_block_hash(self@),
    {
        block_hash(self)
    }

    /// Whether the parent hash is all zero.
    pub fn is_genesis(&self) -> (g: bool)
        ensures
            g == is_genesis_data(self@),
    {
        let zero = [0u8; 32];
        assert(zero@ =~= Seq::new(32, |i: int| 0u8));
        crate::merkle::hash_eq(&self.prev_hash, &zero)
    }
}

/// The blocks of a list of (hash, block) records, by hash; a later record
/// of a hash replaces an earlier one.
pub open spec fn block_map(records: Seq<(Hash, Block)>) -> Map<Seq<u8>, BlockData>
    decreases records.len(),
{
    if records.len() == 0 {
        Map::empty()
    } else {
        block_map(records.drop_last()).insert(records.last().0@, records.last().1@)
    }
}

/// The chain read back from hash `h`: the block stored under `h`, then its
/// parent, and so on until a genesis block, a missing parent, or `fuel`
/// blocks.
pub open spec fn walk_back(m: Map<Seq<u8>, BlockData>, h: Seq<u8>, fuel: nat) -> Seq<BlockData>
    decreases fuel,
{
    if fuel == 0 || !m.contains_key(h) {
        Seq::empty()
    } else if is_genesis_data(m[h]) {
        seq![m[h]]
    } else {
        seq![m[h]] + walk_back(m, m[h].prev_hash, (fuel - 1) as nat)
    }
}

/// The tip after adding a block with hash `h` to the blocks `m` (which
/// already hold it): the first block becomes the tip, and a later block
/// replaces the tip only when it is strictly higher.
pub open spec fn next_tip(m: Map<Seq<u8>, BlockData>, tip: Option<Seq<u8>>, b: BlockData, h: Seq<u8>) -> Option<Seq<u8>> {
    match tip {
        None => Some(h),
        Some(t) => if m.contains_key(t) && b.height > m[t].height {
            Some(h)
        } else {
            tip
        },
    }
}

/// The contents of a list of blocks.
pub open spec fn block_views(s: Seq<Block>) -> Seq<BlockData> {
    s.map_values(|b: Block| b@)
}

/// The canonical chain of a store with tip `tip`: the chain read back from
/// the tip (at most `n` blocks), genesis first.
pub open spec fn canonical(m: Map<Seq<u8>, BlockData>, tip: Option<Seq<u8>>, n: nat) -> Seq<BlockData> {
    match tip {
        None => Seq::empty(),
        Some(t) => walk_back(m, t, n).reverse(),
    }
}

/// Every block is stored under its own hash.
pub open spec fn hash_consistent(m: Map<Seq<u8>, BlockData>) -> bool {
    forall|k: Seq<u8>| #[trigger] m.contains_key(k) ==> spec_block_hash(m[k]) == k
}

/// The tip is at least as high as every stored block.
pub open spec fn tip_is_highest(m: Map<Seq<u8>, BlockData>, tip: Option<Seq<u8>>) -> bool {
    match tip {
        None => forall|k: Seq<u8>| !#[trigger] m.contains_key(k),
        Some(t) => m.contains_key(t) && forall|k: Seq<u8>| #[trigger] m.contains_key(k) ==> m[k].height <= m[t].height,
    }
}

/// Each block of a chain names the hash of the block before it.
pub open spec fn linked(c: Seq<BlockData>) -> bool {
    forall|j: int| 0 <= j < c.len() - 1 ==> #[trigger] c[j + 1].prev_hash == spec_block_hash(c[j])
}

/// Blocks by hash, with the tip of the longest (highest) chain.
#[derive(Debug)]
pub struct Blockchain {
    blocks: Vec<(Hash, Block)>,
    tip: Option<Hash>,
}

impl Blockchain {
    #[verifier::type_invariant]
    closed spec fn well_formed(&self) -> bool {
        &&& forall|i: int, j: int|
            0 <= i < j < self.blocks@.len() ==> #[trigger] self.blocks@[i].0@ != #[trigger] self.blocks@[j].0@
        &&& forall|i: int| 0 <= i < self.blocks@.len() ==> #[trigger] self.blocks@[i].0@ == spec_block_hash(self.blocks@[i].1@)
        &&& (self.tip is None <==> self.blocks@.len() == 0)
        &&& self.tip matches Some(t) ==> block_map(self.blocks@).contains_key(t@)
    }

    /// The stored blocks, by hash.
    pub closed spec fn stored(&self) -> Map<Seq<u8>, BlockData> {
        block_map(self.blocks@)
    }

    /// The hash of the tip, if any.
    pub closed spec fn tip_hash(&self) -> Option<Seq<u8>> {
        match self.tip {
            Some(t) => Some(t@),
            None => None,
        }
    }

    /// The number of stored blocks.
    pub closed spec fn count(&self) -> nat {
        self.blocks@.len()
    }

    /// An empty chain.
    pub fn new() -> (c: Self)
        ensures
            c.stored() == Map::<Seq<u8>, BlockData>::empty(),
            c.tip_hash() is None,
            c.count() == 0,
    {
        Blockchain { blocks: Vec::new(), tip: None }
    }

    /// The number of stored blocks (one per distinct hash).
    pub fn len(&self) -> (n: usize)
        ensures
            n == self.count(),
            n == self.stored().dom().len(),
    {
        proof {
            use_type_invariant(self);
            lemma_block_map_len(self.blocks@);
        }
        self.blocks.len()
    }

    /// Whether no block is stored.
    pub fn is_empty(&self) -> (b: bool)
        ensures
            b == (self.count() == 0),
    {
        self.blocks.len() == 0
    }

    /// The hash of the tip.
    pub fn get_tip(&self) -> (r: Option<&Hash>)
        ensures
            r matches Some(h) ==> self.tip_hash() == Some(h@),
            r is None ==> self.tip_hash() is None,
    {
        match &self.tip {
            Some(h) => Some(h),
            None => None,
        }
    }

    /// The position of the record of hash `hash`, if any.
    fn position(&self, hash: &Hash) -> (r: Option<usize>)
        ensures
            r matches Some(i) ==> i < self.blocks@.len() && self.blocks@[i as int].0@ == hash@,
            r is None ==> forall|j: int| 0 <= j < self.blocks@.len() ==> #[trigger] self.blocks@[j].0@ != hash@,
    {
        let mut i: usize = 0;
        while i < self.blocks.len()
            invariant
                0 <= i <= self.blocks@.len(),
                forall|j: int| 0 <= j < i ==> #[trigger] self.blocks@[j].0@ != hash@,
            decreases self.blocks@.len() - i,
        {
            if crate::merkle::hash_eq(&self.blocks[i].0, hash) {
                return Some(i);
            }
            i = i + 1;
        }
        None
    }

    /// The block stored under `hash`.
    pub fn get_block(&self, hash: &Hash) -> (r: Option<&Block>)
        ensures
            r is None <==> !self.stored().contains_key(hash@),
            r matches Some(b) ==> self.stored()[hash@] == b@,
    {
        proof {
            use_type_invariant(self);
        }
        match self.position(hash) {
            Some(i) => {
                proof {
                    lemma_block_map_index(self.blocks@, i as int);
                }
                Some(&self.blocks[i].1)
            },
            None => {
                proof {
                    lemma_block_map_absent(self.blocks@, hash@);
                }
                None
            },
        }
    }

    /// Stores a block under its hash (replacing a block with the same hash)
    /// and moves the tip to it when it is higher than the current tip.
    #[verifier::rlimit(50)]
    pub fn add_block(&mut self, block: Block) -> (r: Result<(), String>)
        ensures
            r is Ok,
            final(self).stored() == old(self).stored().insert(spec_block_hash(block@), block@),
            final(self).tip_hash() == next_tip(
                final(self).stored(),
                old(self).tip_hash(),
                block@,
                spec_block_hash(block@),
            ),
    {
        let block_hash = block.hash();
        let ghost b = block@;
        let new_height = block.height;
        let mut whole = Blockchain::new();
        std::mem::swap(&mut whole, self);
        proof {
            use_type_invariant(&whole);
        }
        let pos = whole.position(&block_hash);
        let Blockchain { blocks: mut records, tip: old_tip } = whole;
        let ghost old_records = records@;
        let ghost new_record = (block_hash, block);
        assert(records_ok(old_records));
        match pos {
            Some(i) => {
                records.set(i, (block_hash, block));
                proof {
                    lemma_replace_record(old_records, i as int, new_record);
                    assert(records@ == old_records.update(i as int, new_record));
                }
            },
            None => {
                records.push((block_hash, block));
                proof {
                    lemma_append_record(old_records, new_record);
                    assert(records@ == old_records.push(new_record));
                }
            },
        }
        let ghost new_map = block_map(records@);
        let new_tip = match old_tip {
            None => Some(block_hash),
            Some(t) => match lookup_height(&records, &t) {
                Some(h) => {
                    if new_height > h {
                        Some(block_hash)
                    } else {
                        Some(t)
                    }
                },
                None => Some(t),
            },
        };
        proof {
            assert(records@.len() > 0);
            assert(new_map.contains_key(block_hash@));
            if let Some(t) = old_tip {
                assert(block_map(old_records).contains_key(t@));
                assert(new_map.contains_key(t@));
            }
        }
        *self = Blockchain { blocks: records, tip: new_tip };
        Ok(())
    }

    /// The canonical chain, genesis first: the tip, its parent, and so on
    /// back to a genesis block or a missing parent. A chain of stored blocks
    /// has at most as many blocks as are stored, so the walk stops there.
    pub fn get_canonical_chain(&self) -> (r: Vec<Block>)
        ensures
            block_views(r@) == canonical(self.stored(), self.tip_hash(), self.count()),
            linked(block_views(r@)),
            r@.len() > 0 <==> self.tip_hash() is Some,
            r@.len() > 0 ==> self.tip_hash() == Some(spec_block_hash(r@.last()@)),
            forall|j: int| 0 <= j < r@.len() ==> self.stored().contains_key(spec_block_hash(#[trigger] r@[j]@)),
    {
        proof {
            use_type_invariant(self);
            lemma_block_map_hashes(self.blocks@);
        }
        let ghost m = self.stored();
        let ghost n = self.count();
        let mut acc: Vec<Block> = Vec::new();
        let mut cur: Option<Hash> = match &self.tip {
            Some(t) => Some(*t),
            None => None,
        };
        let ghost full: Seq<BlockData> = match self.tip_hash() {
            None => Seq::empty(),
            Some(t) => walk_back(m, t, n),
        };
        let mut fuel: usize = self.blocks.len();
        while fuel > 0
            invariant
                m == self.stored(),
                hash_consistent(m),
                fuel <= n,
                block_views(acc@) + (match cur {
                    None => Seq::<BlockData>::empty(),
                    Some(h) => walk_back(m, h@, fuel as nat),
                }) == full,
            decreases fuel,
        {
            match cur {
                None => {
                    fuel = 0;
                },
                Some(h) => {
                    proof {
                        use_type_invariant(self);
                    }
                    match self.position(&h) {
                        None => {
                            proof {
                                lemma_block_map_absent(self.blocks@, h@);
                                assert(block_views(acc@) + Seq::<BlockData>::empty() =~= block_views(acc@));
                            }
                            cur = None;
                            fuel = 0;
                        },
                        Some(i) => {
                            proof {
                                lemma_block_map_index(self.blocks@, i as int);
                            }
                            let blk = self.blocks[i].1.copy();
                            let ghost before = block_views(acc@);
                            acc.push(blk);
                            assert(block_views(acc@) =~= before.push(m[h@]));
                            if self.blocks[i].1.is_genesis() {
                                assert(block_views(acc@) + Seq::<BlockData>::empty() =~= before + seq![m[h@]]);
                                cur = None;
                                fuel = 0;
                            } else {
                                let p = self.blocks[i].1.prev_hash;
                                assert(block_views(acc@) + walk_back(m, p@, (fuel - 1) as nat) =~= before + (seq![m[h@]] + walk_back(m, p@, (fuel - 1) as nat)));
                                cur = Some(p);
                                fuel = fuel - 1;
                            }
                        },
                    }
                },
            }
        }
        assert(block_views(acc@) =~= full);
        proof {
            lemma_walk_back_facts(m, self.tip_hash(), n);
        }
        let mut r: Vec<Block> = Vec::new();
        let mut k: usize = acc.len();
        while k > 0
            invariant
                k <= acc@.len(),
                r@.len() == acc@.len() - k,
                forall|j: int| 0 <= j < r@.len() ==> #[trigger] r@[j]@ == acc@[acc@.len() - 1 - j]@,
            decreases k,
        {
            k = k - 1;
            let blk = acc[k].copy();
            r.push(blk);
        }
        assert(block_views(r@) =~= block_views(acc@).reverse());
        proof {
            let c = block_views(r@);
            assert forall|j: int| 0 <= j < r@.len() implies self.stored().contains_key(spec_block_hash(#[trigger] r@[j]@)) by {
                assert(c[j] == r@[j]@);
            }
            if r@.len() > 0 {
                assert(c[c.len() - 1] == r@.last()@);
            }
        }
        r
    }
}

/// The height of the block stored under `h`, if any.
fn lookup_height(records: &Vec<(Hash, Block)>, h: &Hash) -> (r: Option<u64>)
    requires
        forall|i: int, j: int| 0 <= i < j < records@.len() ==> #[trigger] records@[i].0@ != #[trigger] records@[j].0@,
    ensures
        r matches Some(ht) ==> block_map(records@).contains_key(h@) && block_map(records@)[h@].height == ht,
        r is None ==> !block_map(records@).contains_key(h@),
{
    let mut i: usize = 0;
    while i < records.len()
        invariant
            0 <= i <= records@.len(),
            forall|j: int| 0 <= j < i ==> #[trigger] records@[j].0@ != h@,
            forall|a: int, c: int| 0 <= a < c < records@.len() ==> #[trigger] records@[a].0@ != #[trigger] records@[c].0@,
        decreases records@.len() - i,
    {
        if crate::merkle::hash_eq(&records[i].0, h) {
            proof {
                lemma_block_map_index(records@, i as int);
            }
            return Some(records[i].1.height);
        }
        i = i + 1;
    }
    proof {
        lemma_block_map_absent(records@, h@);
    }
    None
}

/// Records whose hashes are distinct and are the hashes of their blocks.
spec fn records_ok(n: Seq<(Hash, Block)>) -> bool {
    &&& forall|a: int, b: int| 0 <= a < b < n.len() ==> #[trigger] n[a].0@ != #[trigger] n[b].0@
    &&& forall|a: int| 0 <= a < n.len() ==> #[trigger] n[a].0@ == spec_block_hash(n[a].1@)
}

/// Replacing the record of a hash by another block with that hash keeps the
/// records sound and inserts into the map.
proof fn lemma_replace_record(records: Seq<(Hash, Block)>, i: int, r: (Hash, Block))
    requires
        0 <= i < records.len(),
        records[i].0@ == r.0@,
        r.0@ == spec_block_hash(r.1@),
        records_ok(records),
    ensures
        records_ok(records.update(i, r)),
        block_map(records.update(i, r)) == block_map(records).insert(r.0@, r.1@),
{
    let n = records.update(i, r);
    lemma_block_map_update(records, i, r);
    assert forall|a: int, b: int| 0 <= a < b < n.len() implies #[trigger] n[a].0@ != #[trigger] n[b].0@ by {
        assert(n[a].0@ == records[a].0@);
        assert(n[b].0@ == records[b].0@);
    }
    assert forall|a: int| 0 <= a < n.len() implies #[trigger] n[a].0@ == spec_block_hash(n[a].1@) by {
        if a != i {
            assert(n[a] == records[a]);
        }
    }
}

/// Appending a record of a new hash keeps the records sound and inserts
/// into the map.
proof fn lemma_append_record(records: Seq<(Hash, Block)>, r: (Hash, Block))
    requires
        forall|j: int| 0 <= j < records.len() ==> #[trigger] records[j].0@ != r.0@,
        r.0@ == spec_block_hash(r.1@),
        records_ok(records),
    ensures
        records_ok(records.push(r)),
        block_map(records.push(r)) == block_map(records).insert(r.0@, r.1@),
{
    let n = records.push(r);
    assert(n.drop_last() =~= records);
    assert forall|a: int, b: int| 0 <= a < b < n.len() implies #[trigger] n[a].0@ != #[trigger] n[b].0@ by {
        assert(n[a] == records[a]);
        if b < records.len() {
            assert(n[b] == records[b]);
        }
    }
    assert forall|a: int| 0 <= a < n.len() implies #[trigger] n[a].0@ == spec_block_hash(n[a].1@) by {
        if a < records.len() {
            assert(n[a] == records[a]);
        }
    }
}

/// The number of entries of a map built from records with distinct hashes
/// is the number of records.
proof fn lemma_block_map_len(records: Seq<(Hash, Block)>)
    requires
        forall|i: int, j: int| 0 <= i < j < records.len() ==> #[trigger] records[i].0@ != #[trigger] records[j].0@,
    ensures
        block_map(records).dom().finite(),
        block_map(records).dom().len() == records.len(),
    decreases records.len(),
{
    if records.len() > 0 {
        let d = records.drop_last();
        lemma_distinct_drop_last(records);
        lemma_block_map_len(d);
        lemma_block_map_absent(d, records.last().0@);
    }
}

/// Dropping the last record keeps the hashes distinct.
proof fn lemma_distinct_drop_last(records: Seq<(Hash, Block)>)
    requires
        records.len() > 0,
        forall|a: int, b: int| 0 <= a < b < records.len() ==> #[trigger] records[a].0@ != #[trigger] records[b].0@,
    ensures
        forall|a: int, b: int| 0 <= a < b < records.len() - 1
            ==> #[trigger] records.drop_last()[a].0@ != #[trigger] records.drop_last()[b].0@,
{
    let d = records.drop_last();
    assert forall|a: int, b: int| 0 <= a < b < d.len() implies #[trigger] d[a].0@ != #[trigger] d[b].0@ by {
        assert(d[a] == records[a]);
        assert(d[b] == records[b]);
    }
}

/// A hash that no record carries is not in the map.
proof fn lemma_block_map_absent(records: Seq<(Hash, Block)>, h: Seq<u8>)
    requires
        forall|j: int| 0 <= j < records.len() ==> #[trigger] records[j].0@ != h,
    ensures
        !block_map(records).contains_key(h),
    decreases records.len(),
{
    if records.len() > 0 {
        let d = records.drop_last();
        assert forall|j: int| 0 <= j < d.len() implies #[trigger] d[j].0@ != h by {
            assert(d[j] == records[j]);
        }
        lemma_block_map_absent(d, h);
    }
}

/// With distinct hashes, the map holds each record's block under its hash.
proof fn lemma_block_map_index(records: Seq<(Hash, Block)>, i: int)
    requires
        0 <= i < records.len(),
        forall|a: int, b: int| 0 <= a < b < records.len() ==> #[trigger] records[a].0@ != #[trigger] records[b].0@,
    ensures
        block_map(records).contains_key(records[i].0@),
        block_map(records)[records[i].0@] == records[i].1@,
    decreases records.len(),
{
    if i < records.len() - 1 {
        lemma_distinct_drop_last(records);
        lemma_block_map_index(records.drop_last(), i);
    }
}

/// Replacing a record keeps the map but for its hash.
proof fn lemma_block_map_update(records: Seq<(Hash, Block)>, i: int, r: (Hash, Block))
    requires
        0 <= i < records.len(),
        records[i].0@ == r.0@,
        forall|a: int, b: int| 0 <= a < b < records.len() ==> #[trigger] records[a].0@ != #[trigger] records[b].0@,
    ensures
        block_map(records.update(i, r)) == block_map(records).insert(r.0@, r.1@),
    decreases records.len(),
{
    let u = records.update(i, r);
    if i == records.len() - 1 {
        assert(u.drop_last() =~= records.drop_last());
        assert(block_map(u) =~= block_map(records).insert(r.0@, r.1@));
    } else {
        let d = records.drop_last();
        lemma_distinct_drop_last(records);
        lemma_block_map_update(d, i, r);
        assert(u.drop_last() =~= d.update(i, r));
        assert(records.last().0@ != r.0@);
        assert(block_map(u) =~= block_map(records).insert(r.0@, r.1@));
    }
}

impl Default for Blockchain {
    fn default() -> (c: Self)
        ensures
            c.stored() == Map::<Seq<u8>, BlockData>::empty(),
            c.tip_hash() is None,
            c.count() == 0,
    {
        Blockchain::new()
    }
}

impl Clone for Blockchain {
    fn clone(&self) -> (c: Self)
        ensures
            c.stored() == self.stored(),
            c.tip_hash() == self.tip_hash(),
            c.count() == self.count(),
    {
        proof {
            use_type_invariant(self);
        }
        let mut records: Vec<(Hash, Block)> = Vec::new();
        let mut i: usize = 0;
        while i < self.blocks.len()
            invariant
                0 <= i <= self.blocks@.len(),
                records@.len() == i,
                forall|j: int| 0 <= j < i ==> (#[trigger] records@[j]).0 == self.blocks@[j].0 && records@[j].1@ == self.blocks@[j].1@,
            decreases self.blocks@.len() - i,
        {
            let h = self.blocks[i].0;
            let b = self.blocks[i].1.copy();
            records.push((h, b));
            i = i + 1;
        }
        proof {
            lemma_block_map_same_views(records@, self.blocks@);
            assert(records_ok(self.blocks@));
            assert forall|a: int, b: int| 0 <= a < b < records@.len() implies #[trigger] records@[a].0@ != #[trigger] records@[b].0@ by {
                assert(records@[a].0 == self.blocks@[a].0);
                assert(records@[b].0 == self.blocks@[b].0);
            }
            assert forall|a: int| 0 <= a < records@.len() implies #[trigger] records@[a].0@ == spec_block_hash(records@[a].1@) by {
                assert(records@[a].0 == self.blocks@[a].0);
            }
        }
        let tip = match &self.tip {
            Some(t) => Some(*t),
            None => None,
        };
        Blockchain { blocks: records, tip }
    }
}

/// Records that agree on every hash and block content give the same map.
proof fn lemma_block_map_same_views(r1: Seq<(Hash, Block)>, r2: Seq<(Hash, Block)>)
    requires
        r1.len() == r2.len(),
        forall|j: int| 0 <= j < r1.len() ==> (#[trigger] r1[j]).0 == r2[j].0 && r1[j].1@ == r2[j].1@,
    ensures
        block_map(r1) == block_map(r2),
    decreases r1.len(),
{
    if r1.len() > 0 {
        let d1 = r1.drop_last();
        let d2 = r2.drop_last();
        assert forall|j: int| 0 <= j < d1.len() implies (#[trigger] d1[j]).0 == d2[j].0 && d1[j].1@ == d2[j].1@ by {
            assert(d1[j] == r1[j]);
            assert(d2[j] == r2[j]);
        }
        lemma_block_map_same_views(d1, d2);
        assert(r1.last() == r1[r1.len() - 1]);
        assert(r2.last() == r2[r2.len() - 1]);
    }
}

/// Every key of the record map is the hash of the block it holds, when each
/// record carries its block's hash.
proof fn lemma_block_map_hashes(records: Seq<(Hash, Block)>)
    requires
        forall|i: int| 0 <= i < records.len() ==> #[trigger] records[i].0@ == spec_block_hash(records[i].1@),
    ensures
        hash_consistent(block_map(records)),
    decreases records.len(),
{
    if records.len() > 0 {
        let d = records.drop_last();
        assert forall|i: int| 0 <= i < d.len() implies #[trigger] d[i].0@ == spec_block_hash(d[i].1@) by {
            assert(d[i] == records[i]);
        }
        lemma_block_map_hashes(d);
        assert(records.last() == records[records.len() - 1]);
    }
}

/// What the walk back from a hash gives in a store where every block sits
/// under its own hash: each block's parent hash is the hash of the block
/// after it, every block is stored, and the first one is the block at `h`.
proof fn lemma_walk_back_linked(m: Map<Seq<u8>, BlockData>, h: Seq<u8>, fuel: nat)
    requires
        hash_consistent(m),
    ensures
        forall|j: int| 0 <= j < walk_back(m, h, fuel).len() - 1
            ==> #[trigger] walk_back(m, h, fuel)[j].prev_hash == spec_block_hash(walk_back(m, h, fuel)[j + 1]),
        forall|j: int| 0 <= j < walk_back(m, h, fuel).len()
            ==> m.contains_key(spec_block_hash(#[trigger] walk_back(m, h, fuel)[j])),
        walk_back(m, h, fuel).len() > 0 ==> spec_block_hash(walk_back(m, h, fuel)[0]) == h,
        walk_back(m, h, fuel).len() > 0 <==> (fuel > 0 && m.contains_key(h)),
    decreases fuel,
{
    let w = walk_back(m, h, fuel);
    if fuel > 0 && m.contains_key(h) && !is_genesis_data(m[h]) {
        let p = m[h].prev_hash;
        let rest = walk_back(m, p, (fuel - 1) as nat);
        lemma_walk_back_linked(m, p, (fuel - 1) as nat);
        assert(w == seq![m[h]] + rest);
        assert forall|j: int| 0 <= j < w.len() - 1 implies #[trigger] w[j].prev_hash == spec_block_hash(w[j + 1]) by {
            if j > 0 {
                assert(w[j] == rest[j - 1]);
                assert(w[j + 1] == rest[j]);
            } else {
                assert(w[1] == rest[0]);
            }
        }
        assert forall|j: int| 0 <= j < w.len() implies m.contains_key(spec_block_hash(#[trigger] w[j])) by {
            if j > 0 {
                assert(w[j] == rest[j - 1]);
            }
        }
    }
}

/// The canonical chain is linked from genesis to tip and ends at the tip.
#[verifier::rlimit(40)]
proof fn lemma_walk_back_facts(m: Map<Seq<u8>, BlockData>, tip: Option<Seq<u8>>, n: nat)
    requires
        hash_consistent(m),
        tip matches Some(t) ==> m.contains_key(t) && n > 0,
    ensures
        linked(canonical(m, tip, n)),
        canonical(m, tip, n).len() > 0 <==> tip is Some,
        canonical(m, tip, n).len() > 0 ==> tip == Some(spec_block_hash(canonical(m, tip, n).last())),
        forall|j: int| 0 <= j < canonical(m, tip, n).len() ==> m.contains_key(spec_block_hash(#[trigger] canonical(m, tip, n)[j])),
{
    if let Some(t) = tip {
        let w = walk_back(m, t, n);
        let c = w.reverse();
        lemma_walk_back_linked(m, t, n);
        assert forall|j: int| 0 <= j < c.len() - 1 implies #[trigger] c[j + 1].prev_hash == spec_block_hash(c[j]) by {
            let a = w.len() - 2 - j;
            assert(c[j + 1] == w[a]);
            assert(c[j] == w[a + 1]);
        }
        assert forall|j: int| 0 <= j < c.len() implies m.contains_key(spec_block_hash(#[trigger] c[j])) by {
            assert(c[j] == w[w.len() - 1 - j]);
        }
        assert(c.last() == w[0]);
    }
}

/// Fork choice keeps the tip on a highest block: adding a block to a store
/// whose tip is at least as high as every block leaves a tip that is again
/// at least as high as every block. (A block whose hash is already stored
/// is taken to be the stored block itself.)
pub proof fn lemma_fork_choice_keeps_highest(
    m: Map<Seq<u8>, BlockData>,
    tip: Option<Seq<u8>>,
    b: BlockData,
)
    requires
        tip_is_highest(m, tip),
        m.contains_key(spec_block_hash(b)) ==> m[spec_block_hash(b)] == b,
    ensures
        tip_is_highest(
            m.insert(spec_block_hash(b), b),
            next_tip(m.insert(spec_block_hash(b), b), tip, b, spec_block_hash(b)),
        ),
{
    let h = spec_block_hash(b);
    let m2 = m.insert(h, b);
    match tip {
        None => {},
        Some(t) => {
            assert(m2.contains_key(t));
        },
    }
}

/// A block read back under the hash of a block just added is that block.
pub proof fn lemma_added_block_is_read_back(m: Map<Seq<u8>, BlockData>, b: BlockData)
    ensures
        m.insert(spec_block_hash(b), b).contains_key(spec_block_hash(b)),
        m.insert(spec_block_hash(b), b)[spec_block_hash(b)] == b,
{
}


/// The blocks stored after adding `bs`, in order, to an empty chain: each
/// addition stores the block under its hash (the contract of `add_block`).
pub open spec fn store_after(bs: Seq<BlockData>) -> Map<Seq<u8>, BlockData>
    decreases bs.len(),
{
    if bs.len() == 0 {
        Map::empty()
    } else {
        store_after(bs.drop_last()).insert(spec_block_hash(bs.last()), bs.last())
    }
}

/// The tip after adding `bs`, in order, to an empty chain: each addition
/// moves the tip as `next_tip` says (the contract of `add_block`).
pub open spec fn tip_after(bs: Seq<BlockData>) -> Option<Seq<u8>>
    decreases bs.len(),
{
    if bs.len() == 0 {
        None
    } else {
        next_tip(store_after(bs), tip_after(bs.drop_last()), bs.last(), spec_block_hash(bs.last()))
    }
}

/// No two different blocks of `bs` share a hash.
pub open spec fn no_hash_collision(bs: Seq<BlockData>) -> bool {
    forall|a: int, b: int|
        0 <= a < bs.len() && 0 <= b < bs.len() && #[trigger] spec_block_hash(bs[a])
            == #[trigger] spec_block_hash(bs[b]) ==> bs[a] == bs[b]
}

/// Block `j` is the first of greatest height in `bs`.
pub open spec fn is_first_highest(bs: Seq<BlockData>, j: int) -> bool {
    &&& 0 <= j < bs.len()
    &&& forall|i: int| 0 <= i < bs.len() ==> #[trigger] bs[i].height <= bs[j].height
    &&& forall|i: int| 0 <= i < j ==> #[trigger] bs[i].height < bs[j].height
}

/// One more `add_block` call extends the sequence of added blocks: starting
/// from `Blockchain::new()` (nothing stored, no tip), a chain to which `bs`
/// were added holds `store_after(bs)` with tip `tip_after(bs)`, and adding
/// `b` gives exactly what `add_block` ensures of the next state.
pub proof fn lemma_add_block_extends(bs: Seq<BlockData>, b: BlockData)
    ensures
        store_after(bs.push(b)) == store_after(bs).insert(spec_block_hash(b), b),
        tip_after(bs.push(b)) == next_tip(
            store_after(bs).insert(spec_block_hash(b), b),
            tip_after(bs),
            b,
            spec_block_hash(b),
        ),
{
    assert(bs.push(b).drop_last() =~= bs);
}

/// Every block added is stored under its hash, and only added blocks are
/// stored, when no two different blocks share a hash.
pub proof fn lemma_store_after_holds_blocks(bs: Seq<BlockData>)
    requires
        no_hash_collision(bs),
    ensures
        forall|i: int| 0 <= i < bs.len() ==> {
            &&& store_after(bs).contains_key(spec_block_hash(#[trigger] bs[i]))
            &&& store_after(bs)[spec_block_hash(bs[i])] == bs[i]
        },
        forall|k: Seq<u8>| #[trigger] store_after(bs).contains_key(k) ==> exists|i: int|
            0 <= i < bs.len() && spec_block_hash(#[trigger] bs[i]) == k,
        store_after(bs).dom() == Set::new(
            |k: Seq<u8>| exists|i: int| 0 <= i < bs.len() && spec_block_hash(#[trigger] bs[i]) == k,
        ),
    decreases bs.len(),
{
    if bs.len() > 0 {
        let d = bs.drop_last();
        let n = bs.len() - 1;
        assert(no_hash_collision(d)) by {
            assert forall|a: int, b: int|
                0 <= a < d.len() && 0 <= b < d.len() && #[trigger] spec_block_hash(d[a])
                    == #[trigger] spec_block_hash(d[b]) implies d[a] == d[b] by {
                assert(d[a] == bs[a] && d[b] == bs[b]);
            }
        }
        lemma_store_after_holds_blocks(d);
        assert forall|i: int| 0 <= i < bs.len() implies {
            &&& store_after(bs).contains_key(spec_block_hash(#[trigger] bs[i]))
            &&& store_after(bs)[spec_block_hash(bs[i])] == bs[i]
        } by {
            if i < n {
                assert(d[i] == bs[i]);
                if spec_block_hash(bs[i]) == spec_block_hash(bs[n]) {
                    assert(bs[i] == bs[n]);
                }
            }
        }
        assert forall|k: Seq<u8>| #[trigger] store_after(bs).contains_key(k) implies exists|i: int|
            0 <= i < bs.len() && spec_block_hash(#[trigger] bs[i]) == k by {
            if k == spec_block_hash(bs[n]) {
                assert(spec_block_hash(bs[n]) == k);
            } else {
                assert(store_after(d).contains_key(k));
                let i = choose|i: int| 0 <= i < d.len() && spec_block_hash(#[trigger] d[i]) == k;
                assert(d[i] == bs[i]);
            }
        }
    }
    assert(store_after(bs).dom() =~= Set::new(
        |k: Seq<u8>| exists|i: int| 0 <= i < bs.len() && spec_block_hash(#[trigger] bs[i]) == k,
    ));
}

/// Fork choice over any sequence of `add_block` calls on a new chain: the
/// tip is the hash of the first block of greatest height. A later block of
/// equal height never takes the tip; a strictly higher one always does,
/// whichever branch it extends. (Stated when no two different blocks share
/// a hash.)
pub proof fn lemma_fork_choice(bs: Seq<BlockData>, j: int)
    requires
        no_hash_collision(bs),
        is_first_highest(bs, j),
    ensures
        tip_after(bs) == Some(spec_block_hash(bs[j])),
{
    let f = lemma_tip_after_first_highest(bs);
    if f < j {
        assert(bs[f].height < bs[j].height);
    } else if j < f {
        assert(bs[j].height < bs[f].height);
    }
}

/// The tip after a non-empty sequence of additions is the hash of some
/// first-highest block.
#[verifier::rlimit(80)]
proof fn lemma_tip_after_first_highest(bs: Seq<BlockData>) -> (f: int)
    requires
        no_hash_collision(bs),
        bs.len() > 0,
    ensures
        is_first_highest(bs, f),
        tip_after(bs) == Some(spec_block_hash(bs[f])),
    decreases bs.len(),
{
    let n = bs.len() - 1;
    let last = bs[n];
    let hl = spec_block_hash(last);
    if n == 0 {
        assert(tip_after(bs.drop_last()) is None);
        0
    } else {
        let d = bs.drop_last();
        assert(no_hash_collision(d)) by {
            assert forall|a: int, b: int|
                0 <= a < d.len() && 0 <= b < d.len() && #[trigger] spec_block_hash(d[a])
                    == #[trigger] spec_block_hash(d[b]) implies d[a] == d[b] by {
                assert(d[a] == bs[a] && d[b] == bs[b]);
            }
        }
        let g = lemma_tip_after_first_highest(d);
        lemma_store_after_holds_blocks(d);
        let t = spec_block_hash(d[g]);
        assert(d[g] == bs[g]);
        let m = store_after(bs);
        assert(m == store_after(d).insert(hl, last));
        assert(m.contains_key(t));
        if t == hl {
            assert(bs[g] == bs[n]);
            assert(m[t] == last);
            assert(tip_after(bs) == Some(t));
            assert forall|i: int| 0 <= i < bs.len() implies #[trigger] bs[i].height <= bs[g].height by {
                if i < n {
                    assert(d[i] == bs[i]);
                }
            }
            assert forall|i: int| 0 <= i < g implies #[trigger] bs[i].height < bs[g].height by {
                assert(d[i] == bs[i]);
            }
            g
        } else {
            assert(m[t] == store_after(d)[t]);
            assert(m[t] == bs[g]);
            if last.height > bs[g].height {
                assert(tip_after(bs) == Some(hl));
                assert forall|i: int| 0 <= i < bs.len() implies #[trigger] bs[i].height <= bs[n].height by {
                    if i < n {
                        assert(d[i] == bs[i]);
                    }
                }
                assert forall|i: int| 0 <= i < n implies #[trigger] bs[i].height < bs[n].height by {
                    assert(d[i] == bs[i]);
                }
                n
            } else {
                assert(tip_after(bs) == Some(t));
                assert forall|i: int| 0 <= i < bs.len() implies #[trigger] bs[i].height <= bs[g].height by {
                    if i < n {
                        assert(d[i] == bs[i]);
                    }
                }
                assert forall|i: int| 0 <= i < g implies #[trigger] bs[i].height < bs[g].height by {
                    assert(d[i] == bs[i]);
                }
                g
            }
        }
    }
}

} // verus!
