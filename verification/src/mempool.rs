//! A pool of pending signed transactions with replay protection: each
//! sender's transactions must carry increasing nonces, and a transaction
//! identifier is held at most once.

use vstd::prelude::*;

use crate::crypto::{signature_valid, SignedTransaction};
use crate::transaction::{HashablePublicKey, TxId};

verus! {

/// Errors of the mempool.
#[derive(Debug, Clone, Copy, PartialEq, Eq, Structural)]
pub enum MempoolError {
    /// The signature does not verify
    InvalidSignature,
    /// The nonce is not above the sender's last one
    InvalidNonce,
    /// A transaction with this identifier is already pooled
    DuplicateTransaction,
    /// The transaction is malformed
    InvalidTransaction,
}

impl MempoolError {
    /// A description of the error.
    pub fn to_string(&self) -> (s: String)
        ensures
            *self == MempoolError::InvalidSignature ==> s@ == "Invalid transaction signature"@,
            *self == MempoolError::InvalidNonce ==> s@ == "Invalid transaction nonce"@,
            *self == MempoolError::DuplicateTransaction ==> s@ == "Transaction already exists"@,
            *self == MempoolError::InvalidTransaction ==> s@ == "Invalid transaction format"@,
    {
        match self {
            MempoolError::InvalidSignature => "Invalid transaction signature".to_string(),
            MempoolError::InvalidNonce => "Invalid transaction nonce".to_string(),
            MempoolError::DuplicateTransaction => "Transaction already exists".to_string(),
            MempoolError::InvalidTransaction => "Invalid transaction format".to_string(),
        }
    }
}

/// The last nonce recorded for `key` in a list of (key, nonce) records;
/// zero when there is none.
pub open spec fn nonce_in(records: Seq<(HashablePublicKey, u64)>, key: Seq<u8>) -> u64
    decreases records.len(),
{
    if records.len() == 0 {
        0
    } else if records.last().0.0@ == key {
        records.last().1
    } else {
        nonce_in(records.drop_last(), key)
    }
}

/// Whether some pooled transaction has identifier `id`.
pub open spec fn has_id(pool: Seq<SignedTransaction>, id: Seq<u8>) -> bool {
    exists|i: int| 0 <= i < pool.len() && #[trigger] pool[i].tx_id.0@ == id
}

/// The outcome of adding `st` to a pool with the given nonces: the
/// signature is checked first, then the nonce, then the identifier.
pub open spec fn add_outcome(
    pool: Seq<SignedTransaction>,
    nonces: Seq<(HashablePublicKey, u64)>,
    st: SignedTransaction,
) -> Result<(), MempoolError> {
    if !signature_valid(st.tx, st.signature) {
        Err(MempoolError::InvalidSignature)
    } else if st.tx.nonce <= nonce_in(nonces, st.tx.from_pubkey.0@) {
        Err(MempoolError::InvalidNonce)
    } else if has_id(pool, st.tx_id.0@) {
        Err(MempoolError::DuplicateTransaction)
    } else {
        Ok(())
    }
}

/// Whether a signed transaction was sent by `key`.
pub open spec fn from_key(key: Seq<u8>) -> spec_fn(SignedTransaction) -> bool {
    |st: SignedTransaction| st.tx.from_pubkey.0@ == key
}

/// The transactions of `pool` sent by `key`, in pool order.
pub open spec fn sent_by(pool: Seq<SignedTransaction>, key: Seq<u8>) -> Seq<SignedTransaction> {
    pool.filter(from_key(key))
}

/// Pending transactions, in the order they were added.
#[derive(Debug)]
pub struct Mempool {
    transactions: Vec<SignedTransaction>,
    nonce_tracker: Vec<(HashablePublicKey, u64)>,
}

impl Mempool {
    #[verifier::type_invariant]
    closed spec fn well_formed(&self) -> bool {
        &&& forall|i: int, j: int|
            0 <= i < j < self.transactions@.len() ==> #[trigger] self.transactions@[i].tx_id.0@
                != #[trigger] self.transactions@[j].tx_id.0@
        &&& forall|i: int, j: int|
            0 <= i < j < self.nonce_tracker@.len() ==> #[trigger] self.nonce_tracker@[i].0.0@
                != #[trigger] self.nonce_tracker@[j].0.0@
    }

    /// The pooled transactions, in the order they were added.
    pub closed spec fn pool(&self) -> Seq<SignedTransaction> {
        self.transactions@
    }

    /// The nonce records.
    pub closed spec fn nonces(&self) -> Seq<(HashablePublicKey, u64)> {
        self.nonce_tracker@
    }

    /// The last accepted nonce of `key` (zero when none).
    pub open spec fn nonce_of(&self, key: Seq<u8>) -> u64 {
        nonce_in(self.nonces(), key)
    }

    /// An empty pool.
    pub fn new() -> (m: Self)
        ensures
            m.pool() == Seq::<SignedTransaction>::empty(),
            forall|k: Seq<u8>| #[trigger] m.nonce_of(k) == 0,
    {
        Mempool { transactions: Vec::new(), nonce_tracker: Vec::new() }
    }

    /// The recorded nonce of `key`.
    fn tracked_nonce(&self, key: &HashablePublicKey) -> (n: u64)
        ensures
            n == self.nonce_of(key.0@),
    {
        let mut i = self.nonce_tracker.len();
        assert(self.nonce_tracker@.subrange(0, i as int) =~= self.nonce_tracker@);
        while i > 0
            invariant
                0 <= i <= self.nonce_tracker@.len(),
                nonce_in(self.nonce_tracker@, key.0@) == nonce_in(self.nonce_tracker@.subrange(0, i as int), key.0@),
            decreases i,
        {
            let ghost pre = self.nonce_tracker@.subrange(0, i as int);
            assert(pre.drop_last() =~= self.nonce_tracker@.subrange(0, i - 1));
            if crate::merkle::hash_eq(&self.nonce_tracker[i - 1].0.0, &key.0) {
                return self.nonce_tracker[i - 1].1;
            }
            i = i - 1;
        }
        assert(self.nonce_tracker@.subrange(0, 0) =~= Seq::<(HashablePublicKey, u64)>::empty());
        0
    }

    /// The position of the transaction with identifier `id`, if pooled.
    fn position(&self, id: &TxId) -> (r: Option<usize>)
        ensures
            r matches Some(i) ==> i < self.pool().len() && self.pool()[i as int].tx_id.0@ == id.0@,
            r is None ==> !has_id(self.pool(), id.0@),
    {
        let mut i: usize = 0;
        while i < self.transactions.len()
            invariant
                0 <= i <= self.transactions@.len(),
                forall|j: int| 0 <= j < i ==> #[trigger] self.transactions@[j].tx_id.0@ != id.0@,
            decreases self.transactions@.len() - i,
        {
            if crate::merkle::hash_eq(&self.transactions[i].tx_id.0, &id.0) {
                return Some(i);
            }
            i = i + 1;
        }
        None
    }

    /// The position of the record of `key`, if any.
    fn nonce_position(&self, key: &HashablePublicKey) -> (r: Option<usize>)
        ensures
            r matches Some(i) ==> i < self.nonces().len() && self.nonces()[i as int].0.0@ == key.0@,
            r is None ==> forall|j: int| 0 <= j < self.nonces().len() ==> #[trigger] self.nonces()[j].0.0@ != key.0@,
    {
        let mut i: usize = 0;
        while i < self.nonce_tracker.len()
            invariant
                0 <= i <= self.nonce_tracker@.len(),
                forall|j: int| 0 <= j < i ==> #[trigger] self.nonce_tracker@[j].0.0@ != key.0@,
            decreases self.nonce_tracker@.len() - i,
        {
            if crate::merkle::hash_eq(&self.nonce_tracker[i].0.0, &key.0) {
                return Some(i);
            }
            i = i + 1;
        }
        None
    }

    /// Records `nonce` as the last nonce of `key`.
    fn set_nonce(&mut self, key: HashablePublicKey, nonce: u64)
        ensures
            final(self).pool() == old(self).pool(),
            final(self).nonce_of(key.0@) == nonce,
            forall|k: Seq<u8>| k != key.0@ ==> #[trigger] final(self).nonce_of(k) == old(self).nonce_of(k),
    {
        proof {
            use_type_invariant(&*self);
        }
        let pos = self.nonce_position(&key);
        let ghost old_records = self.nonce_tracker@;
        assert(forall|a: int, b: int| 0 <= a < b < old_records.len() ==> #[trigger] old_records[a].0.0@ != #[trigger] old_records[b].0.0@);
        assert(pos is None ==> forall|j: int| 0 <= j < old_records.len() ==> #[trigger] old_records[j].0.0@ != key.0@) by {
            if pos is None {
                assert forall|j: int| 0 <= j < old_records.len() implies #[trigger] old_records[j].0.0@ != key.0@ by {
                    assert(self.nonces()[j].0.0@ != key.0@);
                }
            }
        }
        let mut records: Vec<(HashablePublicKey, u64)> = Vec::new();
        std::mem::swap(&mut records, &mut self.nonce_tracker);
        match pos {
            Some(i) => {
                records.set(i, (key, nonce));
                proof {
                    assert(records@ == old_records.update(i as int, (key, nonce)));
                    assert(old_records[i as int].0.0@ == key.0@);
                    lemma_nonce_update(old_records, i as int, key, nonce);
                    assert forall|a: int, b: int| 0 <= a < b < records@.len() implies #[trigger] records@[a].0.0@ != #[trigger] records@[b].0.0@ by {
                        assert(records@[a].0.0@ == old_records[a].0.0@);
                        assert(records@[b].0.0@ == old_records[b].0.0@);
                        assert(old_records[a].0.0@ != old_records[b].0.0@);
                    }
                }
            },
            None => {
                records.push((key, nonce));
                proof {
                    assert(records@.drop_last() =~= old_records);
                    assert forall|a: int, b: int| 0 <= a < b < records@.len() implies #[trigger] records@[a].0.0@ != #[trigger] records@[b].0.0@ by {
                        if b == records@.len() - 1 {
                            assert(records@[a] == old_records[a]);
                            assert(old_records[a].0.0@ != key.0@);
                        } else {
                            assert(records@[a] == old_records[a]);
                            assert(records@[b] == old_records[b]);
                            assert(old_records[a].0.0@ != old_records[b].0.0@);
                        }
                    }
                    assert forall|k: Seq<u8>| k != key.0@ implies #[trigger] nonce_in(records@, k) == nonce_in(old_records, k) by {}
                }
            },
        }
        self.nonce_tracker = records;
    }

    /// Adds a signed transaction: its signature must verify, its nonce must
    /// exceed the sender's last accepted nonce, and its identifier must be
    /// new. On success the transaction is appended and its nonce becomes
    /// the sender's last; on failure nothing changes.
    pub fn add_transaction(&mut self, signed_tx: SignedTransaction) -> (r: Result<(), MempoolError>)
        ensures
            r == add_outcome(old(self).pool(), old(self).nonces(), signed_tx),
            signature_valid(signed_tx.tx, signed_tx.signature) && !has_id(old(self).pool(), signed_tx.tx_id.0@)
                && signed_tx.tx.nonce > old(self).nonce_of(signed_tx.tx.from_pubkey.0@) ==> r is Ok,
            r is Ok ==> signature_valid(signed_tx.tx, signed_tx.signature)
                && signed_tx.tx.nonce > old(self).nonce_of(signed_tx.tx.from_pubkey.0@)
                && !has_id(old(self).pool(), signed_tx.tx_id.0@),
            r == Err::<(), MempoolError>(MempoolError::InvalidNonce) <==> signature_valid(signed_tx.tx, signed_tx.signature)
                && signed_tx.tx.nonce <= old(self).nonce_of(signed_tx.tx.from_pubkey.0@),
            r is Ok ==> final(self).pool() == old(self).pool().push(signed_tx),
            r is Ok ==> final(self).nonce_of(signed_tx.tx.from_pubkey.0@) == signed_tx.tx.nonce,
            r is Ok ==> forall|k: Seq<u8>| k != signed_tx.tx.from_pubkey.0@ ==> #[trigger] final(self).nonce_of(k) == old(self).nonce_of(k),
            r is Err ==> final(self).pool() == old(self).pool() && final(self).nonces() == old(self).nonces(),
    {
        if !signed_tx.verify() {
            return Err(MempoolError::InvalidSignature);
        }
        let current_nonce = self.tracked_nonce(&signed_tx.tx.from_pubkey);
        if signed_tx.tx.nonce <= current_nonce {
            return Err(MempoolError::InvalidNonce);
        }
        if self.position(&signed_tx.tx_id).is_some() {
            return Err(MempoolError::DuplicateTransaction);
        }
        proof {
            use_type_invariant(&*self);
        }
        let ghost old_pool = self.transactions@;
        let mut txs: Vec<SignedTransaction> = Vec::new();
        std::mem::swap(&mut txs, &mut self.transactions);
        txs.push(signed_tx);
        proof {
            assert forall|a: int, b: int| 0 <= a < b < txs@.len() implies #[trigger] txs@[a].tx_id.0@ != #[trigger] txs@[b].tx_id.0@ by {
                if b == txs@.len() - 1 {
                    assert(txs@[a] == old_pool[a]);
                } else {
                    assert(txs@[a] == old_pool[a]);
                    assert(txs@[b] == old_pool[b]);
                }
            }
        }
        self.transactions = txs;
        self.set_nonce(signed_tx.tx.from_pubkey, signed_tx.tx.nonce);
        Ok(())
    }

    /// Removes and returns the transaction with identifier `tx_id`.
    pub fn remove_transaction(&mut self, tx_id: &TxId) -> (r: Option<SignedTransaction>)
        ensures
            r is None <==> !has_id(old(self).pool(), tx_id.0@),
            r is None ==> final(self).pool() == old(self).pool(),
            r matches Some(st) ==> st.tx_id.0@ == tx_id.0@ && exists|i: int|
                0 <= i < old(self).pool().len() && old(self).pool()[i] == st && final(self).pool()
                    == #[trigger] old(self).pool().remove(i),
            final(self).nonces() == old(self).nonces(),
    {
        proof {
            use_type_invariant(&*self);
        }
        match self.position(tx_id) {
            Some(i) => {
                let ghost old_pool = self.transactions@;
                let mut txs: Vec<SignedTransaction> = Vec::new();
                std::mem::swap(&mut txs, &mut self.transactions);
                let st = txs.remove(i);
                proof {
                    assert forall|a: int, b: int| 0 <= a < b < txs@.len() implies #[trigger] txs@[a].tx_id.0@ != #[trigger] txs@[b].tx_id.0@ by {
                        if a < i {
                            if b < i {
                            } else {
                                assert(txs@[b] == old_pool[b + 1]);
                            }
                        } else {
                            assert(txs@[a] == old_pool[a + 1]);
                            assert(txs@[b] == old_pool[b + 1]);
                        }
                    }
                }
                self.transactions = txs;
                Some(st)
            },
            None => None,
        }
    }

    /// The transaction with identifier `tx_id`, if pooled.
    pub fn get_transaction(&self, tx_id: &TxId) -> (r: Option<&SignedTransaction>)
        ensures
            r is None <==> !has_id(self.pool(), tx_id.0@),
            r matches Some(st) ==> st.tx_id.0@ == tx_id.0@ && self.pool().contains(*st),
    {
        match self.position(tx_id) {
            Some(i) => Some(&self.transactions[i]),
            None => None,
        }
    }

    /// The pooled transactions, in the order they were added.
    pub fn transactions(&self) -> (r: Vec<&SignedTransaction>)
        ensures
            r@.len() == self.pool().len(),
            forall|i: int| 0 <= i < r@.len() ==> *#[trigger] r@[i] == self.pool()[i],
    {
        let mut r: Vec<&SignedTransaction> = Vec::new();
        let mut i: usize = 0;
        while i < self.transactions.len()
            invariant
                0 <= i <= self.transactions@.len(),
                r@.len() == i,
                forall|j: int| 0 <= j < i ==> *#[trigger] r@[j] == self.transactions@[j],
            decreases self.transactions@.len() - i,
        {
            r.push(&self.transactions[i]);
            i = i + 1;
        }
        r
    }

    /// The number of pooled transactions.
    pub fn len(&self) -> (n: usize)
        ensures
            n == self.pool().len(),
    {
        self.transactions.len()
    }

    /// Whether the pool is empty.
    pub fn is_empty(&self) -> (b: bool)
        ensures
            b == (self.pool().len() == 0),
    {
        self.transactions.len() == 0
    }

    /// The last accepted nonce of `pubkey` (zero when none).
    pub fn get_account_nonce(&self, pubkey: &HashablePublicKey) -> (n: u64)
        ensures
            n == self.nonce_of(pubkey.0@),
    {
        self.tracked_nonce(pubkey)
    }

    /// The identifiers of the pooled transactions, in pool order.
    pub fn transaction_ids(&self) -> (r: Vec<TxId>)
        ensures
            r@.len() == self.pool().len(),
            forall|i: int| 0 <= i < r@.len() ==> #[trigger] r@[i] == self.pool()[i].tx_id,
            forall|i: int, j: int| 0 <= i < j < r@.len() ==> #[trigger] r@[i].0@ != #[trigger] r@[j].0@,
    {
        proof {
            use_type_invariant(self);
        }
        let mut r: Vec<TxId> = Vec::new();
        let mut i: usize = 0;
        while i < self.transactions.len()
            invariant
                0 <= i <= self.transactions@.len(),
                r@.len() == i,
                forall|j: int| 0 <= j < i ==> #[trigger] r@[j] == self.transactions@[j].tx_id,
            decreases self.transactions@.len() - i,
        {
            r.push(self.transactions[i].tx_id);
            i = i + 1;
        }
        r
    }

    /// Empties the pool and forgets every nonce.
    pub fn clear(&mut self)
        ensures
            final(self).pool() == Seq::<SignedTransaction>::empty(),
            forall|k: Seq<u8>| #[trigger] final(self).nonce_of(k) == 0,
    {
        proof {
            use_type_invariant(&*self);
        }
        self.transactions = Vec::new();
        self.nonce_tracker = Vec::new();
    }

    /// The pooled transactions sent by `pubkey`, in pool order.
    pub fn transactions_by_sender(&self, pubkey: &HashablePublicKey) -> (r: Vec<&SignedTransaction>)
        ensures
            r@.map_values(|st: &SignedTransaction| *st) == sent_by(self.pool(), pubkey.0@),
    {
        let ghost pool = self.transactions@;
        let mut r: Vec<&SignedTransaction> = Vec::new();
        let mut i: usize = 0;
        while i < self.transactions.len()
            invariant
                0 <= i <= pool.len(),
                pool == self.transactions@,
                r@.map_values(|st: &SignedTransaction| *st) == sent_by(pool.subrange(0, i as int), pubkey.0@),
            decreases pool.len() - i,
        {
            let st = &self.transactions[i];
            let ghost before = r@.map_values(|st: &SignedTransaction| *st);
            proof {
                assert(pool.subrange(0, i + 1).drop_last() =~= pool.subrange(0, i as int));
                lemma_filter_push(pool.subrange(0, i as int), pool[i as int], pubkey.0@);
                assert(pool.subrange(0, i as int).push(pool[i as int]) =~= pool.subrange(0, i + 1));
            }
            if crate::merkle::hash_eq(&st.tx.from_pubkey.0, &pubkey.0) {
                r.push(st);
                assert(r@.map_values(|st: &SignedTransaction| *st) =~= before.push(*st));
            }
            i = i + 1;
        }
        assert(pool.subrange(0, pool.len() as int) =~= pool);
        r
    }
}

/// Filtering a sequence extended by one element.
proof fn lemma_filter_push(s: Seq<SignedTransaction>, x: SignedTransaction, key: Seq<u8>)
    ensures
        sent_by(s.push(x), key) == if x.tx.from_pubkey.0@ == key {
            sent_by(s, key).push(x)
        } else {
            sent_by(s, key)
        },
{
    s.lemma_filter_push(x, from_key(key));
}

/// Replacing the record of a key that occurs once sets that key's nonce
/// and keeps the others.
proof fn lemma_nonce_update(records: Seq<(HashablePublicKey, u64)>, i: int, key: HashablePublicKey, nonce: u64)
    requires
        0 <= i < records.len(),
        records[i].0.0@ == key.0@,
        forall|a: int, b: int| 0 <= a < b < records.len() ==> #[trigger] records[a].0.0@ != #[trigger] records[b].0.0@,
    ensures
        nonce_in(records.update(i, (key, nonce)), key.0@) == nonce,
        forall|k: Seq<u8>| k != key.0@ ==> #[trigger] nonce_in(records.update(i, (key, nonce)), k) == nonce_in(records, k),
    decreases records.len(),
{
    let u = records.update(i, (key, nonce));
    if i == records.len() - 1 {
        assert(u.drop_last() =~= records.drop_last());
        assert forall|k: Seq<u8>| k != key.0@ implies #[trigger] nonce_in(u, k) == nonce_in(records, k) by {
            assert(nonce_in(u, k) == nonce_in(u.drop_last(), k));
            assert(nonce_in(records, k) == nonce_in(records.drop_last(), k));
        }
    } else {
        let d = records.drop_last();
        lemma_nonce_update(d, i, key, nonce);
        assert(u.drop_last() =~= d.update(i, (key, nonce)));
        assert(records.last().0.0@ != key.0@);
        assert(u.last() == records.last());
        assert forall|k: Seq<u8>| k != key.0@ implies #[trigger] nonce_in(u, k) == nonce_in(records, k) by {
            if records.last().0.0@ != k {
                assert(nonce_in(u, k) == nonce_in(u.drop_last(), k));
                assert(nonce_in(records, k) == nonce_in(d, k));
                assert(nonce_in(d.update(i, (key, nonce)), k) == nonce_in(d, k));
            }
        }
    }
}

/// Replay protection: once a signed transaction has been accepted, adding
/// it again is rejected for its nonce.
pub proof fn lemma_replay_rejected(
    pool: Seq<SignedTransaction>,
    nonces: Seq<(HashablePublicKey, u64)>,
    st: SignedTransaction,
)
    requires
        nonce_in(nonces, st.tx.from_pubkey.0@) == st.tx.nonce,
    ensures
        add_outcome(pool, nonces, st) is Err,
        signature_valid(st.tx, st.signature) ==> add_outcome(pool, nonces, st) == Err::<(), MempoolError>(MempoolError::InvalidNonce),
{
}

/// The nonce rule: a validly signed transaction with a new identifier is
/// admitted whenever its nonce exceeds the sender's last accepted nonce, by
/// any amount, and is refused for its nonce only when the nonce is at most
/// that last one.
pub proof fn lemma_nonce_rule(
    pool: Seq<SignedTransaction>,
    nonces: Seq<(HashablePublicKey, u64)>,
    st: SignedTransaction,
)
    ensures
        signature_valid(st.tx, st.signature) && !has_id(pool, st.tx_id.0@) && (st.tx.nonce as int)
            > (nonce_in(nonces, st.tx.from_pubkey.0@) as int) ==> add_outcome(pool, nonces, st) is Ok,
        add_outcome(pool, nonces, st) == Err::<(), MempoolError>(MempoolError::InvalidNonce) ==> (st.tx.nonce as int)
            <= (nonce_in(nonces, st.tx.from_pubkey.0@) as int),
        add_outcome(pool, nonces, st) is Ok ==> (st.tx.nonce as int) > (nonce_in(nonces, st.tx.from_pubkey.0@) as int),
{
}

/// Two admissions in a row: after a sender's transaction with nonce `n` is
/// admitted, a validly signed transaction of that sender with a new
/// identifier and any nonce above `n` is admitted too, and one with a
/// nonce of at most `n` is refused for its nonce.
pub proof fn lemma_later_nonce_admitted(
    pool: Seq<SignedTransaction>,
    nonces: Seq<(HashablePublicKey, u64)>,
    first: SignedTransaction,
    next_nonces: Seq<(HashablePublicKey, u64)>,
    second: SignedTransaction,
)
    requires
        add_outcome(pool, nonces, first) is Ok,
        nonce_in(next_nonces, first.tx.from_pubkey.0@) == first.tx.nonce,
        second.tx.from_pubkey.0@ == first.tx.from_pubkey.0@,
        signature_valid(second.tx, second.signature),
        !has_id(pool.push(first), second.tx_id.0@),
    ensures
        second.tx.nonce > first.tx.nonce ==> add_outcome(pool.push(first), next_nonces, second) is Ok,
        second.tx.nonce <= first.tx.nonce ==> add_outcome(pool.push(first), next_nonces, second) == Err::<(), MempoolError>(
            MempoolError::InvalidNonce,
        ),
{
}

} // verus!
