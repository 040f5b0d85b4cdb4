//! Simulated attacks on Merkle trees: second preimages, manipulated
//! inclusion proofs and forged roots.

use rand_chacha::ChaCha8Rng;
use vstd::prelude::*;

use crate::merkle::{
    auth_path, hashes_view, leaf_bytes, leaf_level, merkle_root, path_bits, spec_verify, verify,
    Hash32, MerkleProof, MerkleTree,
};
use crate::rng::{create_rng, random_below, random_bytes, random_in_range, random_leaves};
use crate::security::{
    copy_leaves, first_hit, is_root_collision, leaves_equal, message, root_collision_exists, root_of,
    SecurityTestConfig,
};

verus! {

/// The siblings with the lowest bit of their first byte flipped.
pub open spec fn flip_first_bits(sibs: Seq<Seq<u8>>) -> Seq<Seq<u8>> {
    sibs.map_values(|s: Seq<u8>| s.update(0, s[0] ^ 1u8))
}

/// Every path bit negated.
pub open spec fn negate_bits(bits: Seq<bool>) -> Seq<bool> {
    bits.map_values(|b: bool| !b)
}

/// The `k`-th manipulation of the honest proof, each made on a fresh copy of
/// it: every sibling with the lowest bit of its first byte flipped; every
/// path bit negated; the last sibling removed; an all-zero sibling added.
pub open spec fn manipulated(sibs: Seq<Seq<u8>>, bits: Seq<bool>, k: int) -> (Seq<Seq<u8>>, Seq<bool>) {
    if k == 0 {
        (flip_first_bits(sibs), bits)
    } else if k == 1 {
        (sibs, negate_bits(bits))
    } else if k == 2 {
        (drop_last_sibling(sibs), bits)
    } else {
        (sibs.push(zero_hash()), bits)
    }
}

/// The siblings without the last one (none left stays none).
pub open spec fn drop_last_sibling(sibs: Seq<Seq<u8>>) -> Seq<Seq<u8>> {
    if sibs.len() > 0 {
        sibs.drop_last()
    } else {
        sibs
    }
}

/// A manipulated version of the honest proof for leaf `i` of `leaves`
/// links `fake` to the root.
pub open spec fn manipulation_succeeds(leaves: Seq<Seq<u8>>, i: int, fake: Seq<u8>, k: int) -> bool {
    let (sibs, bits) = manipulated(auth_path(leaf_level(leaves), i), path_bits(leaf_level(leaves), i), k);
    &&& 0 <= i < leaves.len()
    &&& 0 <= k < 4
    &&& spec_verify(merkle_root(leaves), fake, sibs, bits)
}

/// Some manipulated proof verifies a fake leaf.
pub open spec fn manipulation_exists() -> bool {
    exists|leaves: Seq<Seq<u8>>, i: int, fake: Seq<u8>, k: int| #[trigger]
        manipulation_succeeds(leaves, i, fake, k)
}

/// An all-zero digest.
pub open spec fn zero_hash() -> Seq<u8> {
    Seq::new(32, |i: int| 0u8)
}

/// A proof of one all-zero sibling and one `false` bit per tree level (the
/// base-two logarithm of the leaf count, rounded up) links `fake` to the
/// root of `leaves`.
pub open spec fn zero_proof_forgery(leaves: Seq<Seq<u8>>, fake: Seq<u8>) -> bool {
    let depth = ceil_log2(leaves.len());
    &&& leaves.len() >= 1
    &&& spec_verify(
        merkle_root(leaves),
        fake,
        Seq::new(depth, |i: int| zero_hash()),
        Seq::new(depth, |i: int| false),
    )
}

/// Some zero proof forges membership.
pub open spec fn zero_proof_forgery_exists() -> bool {
    exists|leaves: Seq<Seq<u8>>, fake: Seq<u8>| #[trigger] zero_proof_forgery(leaves, fake)
}

/// The draw at `i` (a target leaf list and another of the same size) is a
/// second preimage: a different list with the target's root.
pub open spec fn preimage_hit() -> spec_fn(Seq<(Seq<Seq<u8>>, Seq<Seq<u8>>)>, int) -> bool {
    |s: Seq<(Seq<Seq<u8>>, Seq<Seq<u8>>)>, i: int| is_root_collision(s[i].1, s[i].0)
}

/// The outcome `r` of the three attacks follows from the draws `d1`,
/// `d2`, `d3`, whose scans found a success when `f1`, `f2`, `f3`.
pub open spec fn attack_draws_give(
    c: AttackSimConfig,
    r: AttackResults,
    d1: Seq<(Seq<Seq<u8>>, Seq<Seq<u8>>)>,
    d2: Seq<(Seq<Seq<u8>>, int, Seq<u8>)>,
    d3: Seq<(Seq<Seq<u8>>, Seq<u8>)>,
    f1: bool,
    f2: bool,
    f3: bool,
) -> bool {
    &&& first_hit(d1, hundredfold(c.attack_attempts), preimage_hit(), f1) && preimage_draws(d1)
    &&& first_hit(d2, c.attack_attempts as nat, manipulation_hit(), f2) && manipulation_draws(d2)
    &&& first_hit(d3, c.attack_attempts as nat, forgery_hit(), f3) && forgery_draws(d3)
    &&& r.failed == count_if(f1) + count_if(f2) + count_if(f3)
    &&& r.passed == 3 - r.failed
    &&& r.failures@.map_values(|m: String| m@) == attack_failure_texts(f1, f2, f3)
}

/// What the attack simulations report for some draws of their inputs.
pub open spec fn attack_outcome(c: AttackSimConfig, r: AttackResults) -> bool {
    exists|d1: Seq<(Seq<Seq<u8>>, Seq<Seq<u8>>)>, d2: Seq<(Seq<Seq<u8>>, int, Seq<u8>)>, d3: Seq<(Seq<Seq<u8>>, Seq<u8>)>, f1: bool, f2: bool, f3: bool|
        #[trigger] attack_draws_give(c, r, d1, d2, d3, f1, f2, f3)
}

/// One when `b` holds, zero otherwise.
pub open spec fn count_if(b: bool) -> int {
    if b {
        1
    } else {
        0
    }
}

/// The failure messages of the attacks that succeeded, in the order the
/// attacks run.
pub open spec fn attack_failure_texts(f1: bool, f2: bool, f3: bool) -> Seq<Seq<char>> {
    (if f1 {
        seq!["Second preimage attack succeeded!"@]
    } else {
        Seq::empty()
    }) + (if f2 {
        seq!["Proof manipulation attack succeeded!"@]
    } else {
        Seq::empty()
    }) + (if f3 {
        seq!["Root forgery attack succeeded!"@]
    } else {
        Seq::empty()
    })
}

/// The attack reported success.
pub open spec fn succeeded(r: Result<bool, String>) -> bool {
    r == Ok::<bool, String>(true)
}

/// A hundred times `n`.
pub open spec fn hundredfold(n: usize) -> nat {
    (n * 100) as nat
}

/// Each draw is a target of 2 to 8 leaves and an alternative of as many.
pub open spec fn preimage_draws(ds: Seq<(Seq<Seq<u8>>, Seq<Seq<u8>>)>) -> bool {
    forall|i: int| 0 <= i < ds.len() ==> 2 <= (#[trigger] ds[i]).0.len() <= 8 && ds[i].1.len() == ds[i].0.len()
}

/// One of the four manipulated proofs of the draw at `i` (leaves, proven
/// index, fake leaf) verifies the fake leaf.
pub open spec fn manipulation_hit() -> spec_fn(Seq<(Seq<Seq<u8>>, int, Seq<u8>)>, int) -> bool {
    |s: Seq<(Seq<Seq<u8>>, int, Seq<u8>)>, i: int| exists|k: int| #[trigger] manipulation_succeeds(s[i].0, s[i].1, s[i].2, k)
}

/// Each draw is five leaves, an index below five and a 20-byte fake leaf.
pub open spec fn manipulation_draws(ds: Seq<(Seq<Seq<u8>>, int, Seq<u8>)>) -> bool {
    forall|i: int| 0 <= i < ds.len() ==> (#[trigger] ds[i]).0.len() == 5 && 0 <= ds[i].1 < 5 && ds[i].2.len() == 20
}

/// The zero proof forges the fake leaf of the draw at `i` into the root of
/// its leaves.
pub open spec fn forgery_hit() -> spec_fn(Seq<(Seq<Seq<u8>>, Seq<u8>)>, int) -> bool {
    |s: Seq<(Seq<Seq<u8>>, Seq<u8>)>, i: int| zero_proof_forgery(s[i].0, s[i].1)
}

/// Each draw is four leaves and a 20-byte fake leaf.
pub open spec fn forgery_draws(ds: Seq<(Seq<Seq<u8>>, Seq<u8>)>) -> bool {
    forall|i: int| 0 <= i < ds.len() ==> (#[trigger] ds[i]).0.len() == 4 && ds[i].1.len() == 20
}

/// Outcome of the attack simulations: attacks resisted (passed) and
/// attacks that succeeded (failed), with one message per failure.
#[derive(Debug)]
pub struct AttackResults {
    /// Attacks that were resisted
    pub passed: usize,
    /// Attacks that succeeded
    pub failed: usize,
    /// One message per successful attack
    pub failures: Vec<String>,
}

/// Simulates attacks against Merkle trees.
pub struct AttackSimulator {
    /// The simulation settings
    pub config: AttackSimConfig,
}

/// Settings of the attack simulations.
#[derive(Debug, Clone)]
pub struct AttackSimConfig {
    /// Number of attempts per attack
    pub attack_attempts: usize,
    /// Seed for reproducible runs; entropy when absent
    pub seed: Option<u64>,
}

/// The ceiling of the base-two logarithm: the exponent of the least power
/// of two that is at least `n`.
pub open spec fn ceil_log2(n: nat) -> nat
    decreases n,
{
    if n <= 1 {
        0
    } else {
        1 + ceil_log2(((n + 1) / 2) as nat)
    }
}

/// The logarithm is at most the number itself, and at least one above one.
proof fn lemma_ceil_log2_bounds(n: nat)
    ensures
        ceil_log2(n) <= n,
        n > 1 ==> ceil_log2(n) >= 1,
    decreases n,
{
    if n > 1 {
        lemma_ceil_log2_bounds(((n + 1) / 2) as nat);
    }
}

/// `n.next_power_of_two().ilog2()`.
fn next_power_exponent(n: usize) -> (k: usize)
    ensures
        k == ceil_log2(n as nat),
{
    let mut m = n;
    let mut k: usize = 0;
    proof {
        lemma_ceil_log2_bounds(n as nat);
    }
    while m > 1
        invariant
            k + ceil_log2(m as nat) == ceil_log2(n as nat),
            ceil_log2(n as nat) <= n,
        decreases m,
    {
        proof {
            lemma_ceil_log2_bounds(m as nat);
        }
        m = m / 2 + m % 2;
        k = k + 1;
    }
    k
}

impl AttackSimulator {
    /// A simulator with as many attempts per attack as the suite has
    /// iterations.
    pub fn new(security_config: &SecurityTestConfig) -> (s: Self)
        ensures
            s.config.attack_attempts == security_config.test_iterations,
            s.config.seed == security_config.seed,
    {
        AttackSimulator {
            config: AttackSimConfig {
                attack_attempts: security_config.test_iterations,
                seed: security_config.seed,
            },
        }
    }

    /// Runs the three attacks; an attack that succeeds is a failure.
    pub fn run_attacks(&self) -> (r: AttackResults)
        ensures
            r.passed + r.failed == 3,
            r.failures@.len() == r.failed,
            r.failed > 0 ==> root_collision_exists() || manipulation_exists()
                || zero_proof_forgery_exists(),
            attack_outcome(self.config, r),
    {
        let mut passed: usize = 0;
        let mut failed: usize = 0;
        let mut failures: Vec<String> = Vec::new();
        let r1 = self.simulate_second_preimage_attack();
        let r2 = self.simulate_proof_manipulation();
        let r3 = self.simulate_root_forgery();
        let ghost f1 = succeeded(r1);
        let ghost f2 = succeeded(r2);
        let ghost f3 = succeeded(r3);
        let ghost d1 = choose|ds: Seq<(Seq<Seq<u8>>, Seq<Seq<u8>>)>|
            #[trigger] first_hit(ds, hundredfold(self.config.attack_attempts), preimage_hit(), f1) && preimage_draws(ds);
        let ghost d2 = choose|ds: Seq<(Seq<Seq<u8>>, int, Seq<u8>)>|
            #[trigger] first_hit(ds, self.config.attack_attempts as nat, manipulation_hit(), f2) && manipulation_draws(ds);
        let ghost d3 = choose|ds: Seq<(Seq<Seq<u8>>, Seq<u8>)>|
            #[trigger] first_hit(ds, self.config.attack_attempts as nat, forgery_hit(), f3) && forgery_draws(ds);
        if let Ok(true) = r1 {
            failed = failed + 1;
            failures.push(String::from_str("Second preimage attack succeeded!"));
        } else {
            passed = passed + 1;
        }
        let ghost t1 = failures@.map_values(|m: String| m@);
        assert(t1 =~= attack_failure_texts(f1, false, false));
        if let Ok(true) = r2 {
            failed = failed + 1;
            failures.push(String::from_str("Proof manipulation attack succeeded!"));
        } else {
            passed = passed + 1;
        }
        assert(failures@.map_values(|m: String| m@) =~= attack_failure_texts(f1, f2, false));
        if let Ok(true) = r3 {
            failed = failed + 1;
            failures.push(String::from_str("Root forgery attack succeeded!"));
        } else {
            passed = passed + 1;
        }
        assert(failures@.map_values(|m: String| m@) =~= attack_failure_texts(f1, f2, f3));
        let r = AttackResults { passed, failed, failures };
        assert(attack_draws_give(self.config, r, d1, d2, d3, f1, f2, f3));
        r
    }

    /// For each of `attack_attempts` random targets of 2 to 8 leaves, draws
    /// 100 random lists of as many leaves and succeeds at the first that is
    /// a different list with the target's root.
    fn simulate_second_preimage_attack(&self) -> (r: Result<bool, String>)
        ensures
            r is Ok,
            r == Ok::<bool, String>(true) ==> root_collision_exists(),
            exists|ds: Seq<(Seq<Seq<u8>>, Seq<Seq<u8>>)>|
                #[trigger] first_hit(ds, hundredfold(self.config.attack_attempts), preimage_hit(), succeeded(r))
                    && preimage_draws(ds),
    {
        let mut rng = self.create_rng();
        let ghost mut ds: Seq<(Seq<Seq<u8>>, Seq<Seq<u8>>)> = Seq::empty();
        let mut round: usize = 0;
        while round < self.config.attack_attempts
            invariant
                0 <= round <= self.config.attack_attempts,
                ds.len() == round * 100,
                preimage_draws(ds),
                forall|i: int| 0 <= i < ds.len() ==> !#[trigger] preimage_hit()(ds, i),
            decreases self.config.attack_attempts - round,
        {
            let leaf_count = random_in_range(&mut rng, 2, 8);
            let leaves = random_leaves(&mut rng, leaf_count, 1, 20);
            let target_root = root_of(copy_leaves(leaves.as_slice()));
            let mut attempt: usize = 0;
            while attempt < 100
                invariant
                    0 <= attempt <= 100,
                    leaves@.len() == leaf_count,
                    2 <= leaf_count <= 8,
                    target_root@ == merkle_root(leaf_bytes(leaves@)),
                    round < self.config.attack_attempts,
                    ds.len() == round * 100 + attempt,
                    preimage_draws(ds),
                    forall|i: int| 0 <= i < ds.len() ==> !#[trigger] preimage_hit()(ds, i),
                decreases 100 - attempt,
            {
                let alt_leaves = random_leaves(&mut rng, leaf_count, 1, 20);
                let hit = second_preimage_attempt(leaves.as_slice(), &target_root, alt_leaves.as_slice());
                let ghost item = (leaf_bytes(leaves@), leaf_bytes(alt_leaves@));
                let ghost nds = ds.push(item);
                proof {
                    assert forall|i: int| 0 <= i < ds.len() implies !#[trigger] preimage_hit()(nds, i) by {
                        assert(nds[i] == ds[i]);
                        assert(!preimage_hit()(ds, i));
                    }
                    assert forall|i: int| 0 <= i < nds.len() implies 2 <= (#[trigger] nds[i]).0.len() <= 8
                        && nds[i].1.len() == nds[i].0.len() by {
                        if i < ds.len() {
                            assert(nds[i] == ds[i]);
                        }
                    }
                    assert(nds.last() == item);
                }
                if hit {
                    proof {
                        assert(preimage_hit()(nds, nds.len() - 1));
                    }
                    let r: Result<bool, String> = Ok(true);
                    assert(first_hit(nds, hundredfold(self.config.attack_attempts), preimage_hit(), succeeded(r)));
                    return r;
                }
                proof {
                    assert(!preimage_hit()(nds, nds.len() - 1));
                    ds = nds;
                }
                attempt = attempt + 1;
            }
            round = round + 1;
        }
        let r: Result<bool, String> = Ok(false);
        assert(first_hit(ds, hundredfold(self.config.attack_attempts), preimage_hit(), succeeded(r)));
        r
    }

    /// For each of `attack_attempts` random trees of five leaves, takes the
    /// honest proof of a random leaf and a random fake leaf, and succeeds at
    /// the first of the four manipulations of that proof that verifies the
    /// fake leaf.
    fn simulate_proof_manipulation(&self) -> (r: Result<bool, String>)
        ensures
            r is Ok,
            r == Ok::<bool, String>(true) ==> manipulation_exists(),
            exists|ds: Seq<(Seq<Seq<u8>>, int, Seq<u8>)>|
                #[trigger] first_hit(ds, self.config.attack_attempts as nat, manipulation_hit(), succeeded(r))
                    && manipulation_draws(ds),
    {
        let mut rng = self.create_rng();
        let ghost mut ds: Seq<(Seq<Seq<u8>>, int, Seq<u8>)> = Seq::empty();
        let mut round: usize = 0;
        while round < self.config.attack_attempts
            invariant
                0 <= round <= self.config.attack_attempts,
                ds.len() == round,
                manipulation_draws(ds),
                forall|i: int| 0 <= i < ds.len() ==> !#[trigger] manipulation_hit()(ds, i),
            decreases self.config.attack_attempts - round,
        {
            let leaves = random_leaves(&mut rng, 5, 1, 20);
            let leaf_index = random_below(&mut rng, 0, 5);
            let fake_leaf = random_bytes(&mut rng, 20);
            let hit = manipulation_attempt(leaves.as_slice(), leaf_index, fake_leaf.as_slice());
            let ghost item = (leaf_bytes(leaves@), leaf_index as int, fake_leaf@);
            let ghost nds = ds.push(item);
            proof {
                assert forall|i: int| 0 <= i < ds.len() implies !#[trigger] manipulation_hit()(nds, i) by {
                    assert(nds[i] == ds[i]);
                    assert(!manipulation_hit()(ds, i));
                }
                assert forall|i: int| 0 <= i < nds.len() implies (#[trigger] nds[i]).0.len() == 5 && 0
                    <= nds[i].1 < 5 && nds[i].2.len() == 20 by {
                    if i < ds.len() {
                        assert(nds[i] == ds[i]);
                    }
                }
                assert(nds[nds.len() - 1] == item);
                assert(hit == manipulation_hit()(nds, nds.len() - 1));
            }
            if hit {
                let r: Result<bool, String> = Ok(true);
                assert(first_hit(nds, self.config.attack_attempts as nat, manipulation_hit(), succeeded(r)));
                return r;
            }
            proof {
                ds = nds;
            }
            round = round + 1;
        }
        let r: Result<bool, String> = Ok(false);
        assert(first_hit(ds, self.config.attack_attempts as nat, manipulation_hit(), succeeded(r)));
        r
    }

    /// For each of `attack_attempts` random trees of four leaves and a
    /// random 20-byte fake leaf, tries the proof of two zero siblings and
    /// succeeds at the first tree it forges the fake leaf into.
    fn simulate_root_forgery(&self) -> (r: Result<bool, String>)
        ensures
            r is Ok,
            r == Ok::<bool, String>(true) ==> zero_proof_forgery_exists(),
            exists|ds: Seq<(Seq<Seq<u8>>, Seq<u8>)>|
                #[trigger] first_hit(ds, self.config.attack_attempts as nat, forgery_hit(), succeeded(r))
                    && forgery_draws(ds),
    {
        let mut rng = self.create_rng();
        let ghost mut ds: Seq<(Seq<Seq<u8>>, Seq<u8>)> = Seq::empty();
        let mut round: usize = 0;
        while round < self.config.attack_attempts
            invariant
                0 <= round <= self.config.attack_attempts,
                ds.len() == round,
                forgery_draws(ds),
                forall|i: int| 0 <= i < ds.len() ==> !#[trigger] forgery_hit()(ds, i),
            decreases self.config.attack_attempts - round,
        {
            let leaves = random_leaves(&mut rng, 4, 1, 20);
            let fake_leaf = random_bytes(&mut rng, 20);
            let hit = zero_proof_attempt(leaves.as_slice(), fake_leaf.as_slice());
            let ghost item = (leaf_bytes(leaves@), fake_leaf@);
            let ghost nds = ds.push(item);
            proof {
                assert forall|i: int| 0 <= i < ds.len() implies !#[trigger] forgery_hit()(nds, i) by {
                    assert(nds[i] == ds[i]);
                    assert(!forgery_hit()(ds, i));
                }
                assert forall|i: int| 0 <= i < nds.len() implies (#[trigger] nds[i]).0.len() == 4
                    && nds[i].1.len() == 20 by {
                    if i < ds.len() {
                        assert(nds[i] == ds[i]);
                    }
                }
                assert(nds[nds.len() - 1] == item);
                assert(hit == forgery_hit()(nds, nds.len() - 1));
            }
            if hit {
                let r: Result<bool, String> = Ok(true);
                assert(first_hit(nds, self.config.attack_attempts as nat, forgery_hit(), succeeded(r)));
                return r;
            }
            proof {
                ds = nds;
            }
            round = round + 1;
        }
        let r: Result<bool, String> = Ok(false);
        assert(first_hit(ds, self.config.attack_attempts as nat, forgery_hit(), succeeded(r)));
        r
    }

    /// The generator for one simulation.
    fn create_rng(&self) -> ChaCha8Rng {
        create_rng(self.config.seed)
    }
}

/// One second-preimage attempt: whether `alt` is a different, non-empty
/// list of leaves whose Merkle root is `target_root`, the root of `target`.
pub fn second_preimage_attempt(target: &[Vec<u8>], target_root: &Hash32, alt: &[Vec<u8>]) -> (hit: bool)
    requires
        target@.len() >= 1,
        target_root@ == merkle_root(leaf_bytes(target@)),
    ensures
        hit == is_root_collision(leaf_bytes(alt@), leaf_bytes(target@)),
{
    if alt.len() == 0 {
        return false;
    }
    let same_leaves = leaves_equal(alt, target);
    let alt_root = root_of(copy_leaves(alt));
    crate::merkle::hash_eq(&alt_root, target_root) && !same_leaves
}

/// One proof-manipulation attempt: builds the tree of `leaves`, takes the
/// honest proof of leaf `index`, and tries its four manipulations, each on
/// a fresh copy (flipped sibling bits; negated path bits; without the last
/// sibling; with an added zero sibling), on `fake`; whether one of them
/// verifies.
pub fn manipulation_attempt(leaves: &[Vec<u8>], index: usize, fake: &[u8]) -> (hit: bool)
    requires
        index < leaves@.len(),
    ensures
        hit == exists|k: int| #[trigger] manipulation_succeeds(leaf_bytes(leaves@), index as int, fake@, k),
{
    let ghost data = leaf_bytes(leaves@);
    let tree = MerkleTree::from_leaves(copy_leaves(leaves));
    let root = tree.root();
    let proof = tree.prove(index);
    let ghost honest_sibs = proof.siblings_view();
    let ghost honest_bits = proof.path_bits@;
    let mut k: usize = 0;
    while k < 4
        invariant
            0 <= k <= 4,
            root@ == merkle_root(data),
            data == leaf_bytes(leaves@),
            index < data.len(),
            honest_sibs == auth_path(leaf_level(data), index as int),
            honest_bits == path_bits(leaf_level(data), index as int),
            proof.siblings_view() == honest_sibs,
            proof.path_bits@ == honest_bits,
            forall|j: int| 0 <= j < k ==> !#[trigger] manipulation_succeeds(data, index as int, fake@, j),
        decreases 4 - k,
    {
        let mut test_proof = MerkleProof {
            siblings: copy_hash_list(&proof.siblings),
            path_bits: copy_bits(&proof.path_bits),
        };
        assert(test_proof.siblings_view() =~= honest_sibs);
        manipulate(&mut test_proof, k);
        assert((test_proof.siblings_view(), test_proof.path_bits@) == manipulated(
            honest_sibs,
            honest_bits,
            k as int,
        ));
        if verify(root, fake, test_proof) {
            assert(manipulation_succeeds(data, index as int, fake@, k as int));
            return true;
        }
        assert(!manipulation_succeeds(data, index as int, fake@, k as int));
        k = k + 1;
    }
    proof {
        if exists|j: int| #[trigger] manipulation_succeeds(data, index as int, fake@, j) {
            let j = choose|j: int| #[trigger] manipulation_succeeds(data, index as int, fake@, j);
            assert(0 <= j < 4);
        }
    }
    false
}

/// One root-forgery attempt: builds the tree of `leaves` and tries, for
/// `fake`, the proof of one all-zero sibling and one `false` bit per level.
pub fn zero_proof_attempt(leaves: &[Vec<u8>], fake: &[u8]) -> (hit: bool)
    requires
        leaves@.len() >= 1,
    ensures
        hit == zero_proof_forgery(leaf_bytes(leaves@), fake@),
{
    let ghost data = leaf_bytes(leaves@);
    let tree = MerkleTree::from_leaves(copy_leaves(leaves));
    let real_root = tree.root();
    let leaf_hashes = tree.leaves();
    assert(hashes_view(leaf_hashes@).len() == leaf_hashes@.len());
    let depth = next_power_exponent(leaf_hashes.len());
    let mut siblings: Vec<Hash32> = Vec::new();
    let mut bits: Vec<bool> = Vec::new();
    let mut d: usize = 0;
    while d < depth
        invariant
            0 <= d <= depth,
            siblings@.len() == d,
            bits@.len() == d,
            forall|t: int| 0 <= t < d ==> #[trigger] siblings@[t]@ == zero_hash(),
            forall|t: int| 0 <= t < d ==> !#[trigger] bits@[t],
        decreases depth - d,
    {
        let z = [0u8; 32];
        assert(z@ =~= zero_hash());
        siblings.push(z);
        bits.push(false);
        d = d + 1;
    }
    let fake_proof = MerkleProof { siblings, path_bits: bits };
    proof {
        assert(leaf_level(data).len() == data.len());
        assert(fake_proof.siblings_view() =~= Seq::new(ceil_log2(data.len()), |i: int| zero_hash()));
        assert(fake_proof.path_bits@ =~= Seq::new(ceil_log2(data.len()), |i: int| false));
    }
    verify(real_root, fake, fake_proof)
}

/// A copy of a list of digests.
fn copy_hash_list(v: &Vec<Hash32>) -> (r: Vec<Hash32>)
    ensures
        r@ == v@,
{
    let mut r: Vec<Hash32> = Vec::new();
    let mut i: usize = 0;
    while i < v.len()
        invariant
            0 <= i <= v@.len(),
            r@ == v@.subrange(0, i as int),
        decreases v@.len() - i,
    {
        r.push(v[i]);
        i = i + 1;
        assert(r@ =~= v@.subrange(0, i as int));
    }
    assert(r@ =~= v@);
    r
}

/// A copy of a list of path bits.
fn copy_bits(v: &Vec<bool>) -> (r: Vec<bool>)
    ensures
        r@ == v@,
{
    let mut r: Vec<bool> = Vec::new();
    let mut i: usize = 0;
    while i < v.len()
        invariant
            0 <= i <= v@.len(),
            r@ == v@.subrange(0, i as int),
        decreases v@.len() - i,
    {
        r.push(v[i]);
        i = i + 1;
        assert(r@ =~= v@.subrange(0, i as int));
    }
    assert(r@ =~= v@);
    r
}

/// Applies manipulation `k`: flip the lowest bit of each sibling's first
/// byte, negate each path bit, drop the last sibling, or add a zero sibling.
fn manipulate(proof: &mut MerkleProof, k: usize)
    requires
        k < 4,
    ensures
        k == 0 ==> final(proof).siblings_view() == flip_first_bits(old(proof).siblings_view())
            && final(proof).path_bits@ == old(proof).path_bits@,
        k == 1 ==> final(proof).siblings_view() == old(proof).siblings_view()
            && final(proof).path_bits@ == negate_bits(old(proof).path_bits@),
        k == 2 ==> final(proof).siblings_view() == drop_last_sibling(old(proof).siblings_view())
            && final(proof).path_bits@ == old(proof).path_bits@,
        k == 3 ==> final(proof).siblings_view() == old(proof).siblings_view().push(zero_hash())
            && final(proof).path_bits@ == old(proof).path_bits@,
{
    if k == 0 {
        let ghost start = proof.siblings_view();
        let mut i: usize = 0;
        while i < proof.siblings.len()
            invariant
                0 <= i <= proof.siblings@.len(),
                start.len() == proof.siblings@.len(),
                proof.path_bits@ == old(proof).path_bits@,
                start == old(proof).siblings_view(),
                forall|j: int| 0 <= j < i ==> #[trigger] proof.siblings_view()[j] == start[j].update(0, start[j][0] ^ 1u8),
                forall|j: int| i <= j < start.len() ==> #[trigger] proof.siblings_view()[j] == start[j],
            decreases proof.siblings@.len() - i,
        {
            let ghost cur_i = proof.siblings_view()[i as int];
            assert(cur_i == start[i as int]);
            let mut s = proof.siblings[i];
            let b = s[0] ^ 1u8;
            let ghost orig = s@;
            assert(orig == cur_i);
            s[0] = b;
            assert(s@ == orig.update(0, orig[0] ^ 1u8));
            let ghost before = proof.siblings_view();
            proof.siblings.set(i, s);
            assert(proof.siblings_view() =~= before.update(i as int, s@));
            assert(orig == start[i as int]);
            assert forall|j: int| 0 <= j < i + 1 implies #[trigger] proof.siblings_view()[j] == start[j].update(0, start[j][0] ^ 1u8) by {
                if j < i {
                    assert(proof.siblings_view()[j] == before[j]);
                }
            }
            i = i + 1;
        }
        assert(proof.siblings_view() =~= flip_first_bits(start));
    } else if k == 1 {
        let mut i: usize = 0;
        while i < proof.path_bits.len()
            invariant
                0 <= i <= proof.path_bits@.len(),
                proof.path_bits@.len() == old(proof).path_bits@.len(),
                proof.siblings@ == old(proof).siblings@,
                forall|j: int| 0 <= j < i ==> #[trigger] proof.path_bits@[j] == !old(proof).path_bits@[j],
                forall|j: int| i <= j < proof.path_bits@.len() ==> #[trigger] proof.path_bits@[j] == old(proof).path_bits@[j],
            decreases proof.path_bits@.len() - i,
        {
            let b = !proof.path_bits[i];
            proof.path_bits.set(i, b);
            i = i + 1;
        }
        assert(proof.path_bits@ =~= negate_bits(old(proof).path_bits@));
    } else if k == 2 {
        proof.siblings.pop();
        assert(proof.siblings_view() =~= drop_last_sibling(old(proof).siblings_view()));
    } else {
        let z = [0u8; 32];
        assert(z@ =~= zero_hash());
        proof.siblings.push(z);
        assert(proof.siblings_view() =~= old(proof).siblings_view().push(zero_hash()));
    }
}

} // verus!
