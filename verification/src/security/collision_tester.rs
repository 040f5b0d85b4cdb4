//! Collision-resistance tests: roots of random trees, domain separation of
//! leaf and node hashes, and birthday attacks on truncated roots.

use rand_chacha::ChaCha8Rng;
use vstd::prelude::*;

use crate::merkle::{
    hash_eq, hash_internal, hash_leaf, hashes_view, leaf_bytes, merkle_root, root_of_level, spec_hash_leaf,
    spec_hash_node, Hash32, MerkleTree,
};
use crate::rng::{create_rng, random_bytes, random_in_range, random_leaves};
use crate::security::attack_simulator::count_if;
use crate::security::{debug_text, first_hit, hash_debug, hash_lists_equal, message, SecurityTestConfig};

verus! {

/// Two different non-empty lists of leaf hashes reach one root.
pub open spec fn is_hash_list_collision(h1: Seq<Seq<u8>>, h2: Seq<Seq<u8>>) -> bool {
    &&& h1 != h2
    &&& h1.len() >= 1
    &&& h2.len() >= 1
    &&& root_of_level(h1) == root_of_level(h2)
}

/// Some two different leaf-hash lists share a root.
pub open spec fn hash_list_collision_exists() -> bool {
    exists|h1: Seq<Seq<u8>>, h2: Seq<Seq<u8>>| #[trigger] is_hash_list_collision(h1, h2)
}

/// The leaf hash of `d` equals the node hash of two copies of it.
pub open spec fn leaf_equals_self_node(d: Seq<u8>) -> bool {
    spec_hash_leaf(d) == spec_hash_node(spec_hash_leaf(d), spec_hash_leaf(d))
}

/// Some leaf hash equals a node hash over it twice.
pub open spec fn domain_collision_exists() -> bool {
    exists|d: Seq<u8>| #[trigger] leaf_equals_self_node(d)
}

/// The node hash over the leaf hashes of `d1` and `d2` equals one of them.
pub open spec fn node_equals_child(d1: Seq<u8>, d2: Seq<u8>) -> bool {
    let n = spec_hash_node(spec_hash_leaf(d1), spec_hash_leaf(d2));
    n == spec_hash_leaf(d1) || n == spec_hash_leaf(d2)
}

/// Some node hash equals the leaf hash of one of its children.
pub open spec fn node_leaf_collision_exists() -> bool {
    exists|d1: Seq<u8>, d2: Seq<u8>| #[trigger] node_equals_child(d1, d2)
}

/// The drawn input at `i` has a leaf hash equal to the node hash of two
/// copies of it.
pub open spec fn domain_hit() -> spec_fn(Seq<Seq<u8>>, int) -> bool {
    |s: Seq<Seq<u8>>, i: int| leaf_equals_self_node(s[i])
}

/// The node hash over the leaf hashes of the drawn pair at `i` equals one
/// of them.
pub open spec fn node_leaf_hit() -> spec_fn(Seq<(Seq<u8>, Seq<u8>)>, int) -> bool {
    |s: Seq<(Seq<u8>, Seq<u8>)>, i: int| node_equals_child(s[i].0, s[i].1)
}

/// Both inputs of every drawn pair have 32 bytes.
pub open spec fn pairs_of_32(ds: Seq<(Seq<u8>, Seq<u8>)>) -> bool {
    forall|i: int| 0 <= i < ds.len() ==> (#[trigger] ds[i]).0.len() == 32 && ds[i].1.len() == 32
}

/// The message for a node hash equal to a child's leaf hash.
pub open spec fn node_leaf_message(d1: Seq<u8>, d2: Seq<u8>) -> Seq<char> {
    "Internal hash collision with leaf hash: internal="@ + debug_text(
        spec_hash_node(spec_hash_leaf(d1), spec_hash_leaf(d2)),
    ) + ", leaf1="@ + debug_text(spec_hash_leaf(d1)) + ", leaf2="@ + debug_text(spec_hash_leaf(d2))
}

/// The leaf-hash list drawn at `i` has the root of a different list drawn
/// before it.
pub open spec fn repeated_root_hit() -> spec_fn(Seq<Seq<Seq<u8>>>, int) -> bool {
    |s: Seq<Seq<Seq<u8>>>, i: int| exists|j: int| 0 <= j < i && #[trigger] is_hash_list_collision(s[j], s[i])
}

/// Seen entries hold the root of their non-empty leaf-hash list.
pub open spec fn seen_ok(seen: Seq<(Hash32, Vec<Hash32>)>) -> bool {
    forall|t: int| 0 <= t < seen.len() ==> {
        &&& hashes_view(#[trigger] seen[t].1@).len() >= 1
        &&& seen[t].0@ == root_of_level(hashes_view(seen[t].1@))
    }
}

/// Appending a list that collides with draw `j` makes the last draw a hit
/// and keeps the earlier ones free of hits.
proof fn lemma_repeated_root_push(ds: Seq<Seq<Seq<u8>>>, cur: Seq<Seq<u8>>, j: int)
    requires
        0 <= j < ds.len(),
        is_hash_list_collision(ds[j], cur),
        forall|i: int| 0 <= i < ds.len() ==> !#[trigger] repeated_root_hit()(ds, i),
        lists_of_2_to_20(ds),
        2 <= cur.len() <= 20,
    ensures
        repeated_root_hit()(ds.push(cur), ds.len() as int),
        forall|i: int| 0 <= i < ds.len() ==> !#[trigger] repeated_root_hit()(ds.push(cur), i),
        lists_of_2_to_20(ds.push(cur)),
        ds.push(cur).last() == cur,
{
    let nds = ds.push(cur);
    assert(nds[j] == ds[j]);
    assert(nds[ds.len() as int] == cur);
    assert(is_hash_list_collision(nds[j], nds[ds.len() as int]));
    lemma_prefix_hits_unchanged(ds, cur);
    assert forall|i: int| 0 <= i < nds.len() implies 2 <= (#[trigger] nds[i]).len() <= 20 by {
        if i < ds.len() {
            assert(nds[i] == ds[i]);
        }
    }
}

/// Appending a list that collides with no earlier draw keeps every draw
/// free of hits.
proof fn lemma_no_repeated_root_push(ds: Seq<Seq<Seq<u8>>>, cur: Seq<Seq<u8>>)
    requires
        forall|k: int| 0 <= k < ds.len() ==> !#[trigger] is_hash_list_collision(ds[k], cur),
        forall|i: int| 0 <= i < ds.len() ==> !#[trigger] repeated_root_hit()(ds, i),
        lists_of_2_to_20(ds),
        2 <= cur.len() <= 20,
    ensures
        forall|i: int| 0 <= i < ds.len() + 1 ==> !#[trigger] repeated_root_hit()(ds.push(cur), i),
        lists_of_2_to_20(ds.push(cur)),
{
    let nds = ds.push(cur);
    lemma_prefix_hits_unchanged(ds, cur);
    if repeated_root_hit()(nds, ds.len() as int) {
        let k = choose|k: int| 0 <= k < ds.len() && #[trigger] is_hash_list_collision(nds[k], nds[ds.len() as int]);
        assert(nds[k] == ds[k]);
        assert(nds[ds.len() as int] == cur);
    }
    assert forall|i: int| 0 <= i < nds.len() implies 2 <= (#[trigger] nds[i]).len() <= 20 by {
        if i < ds.len() {
            assert(nds[i] == ds[i]);
        }
    }
}

/// Appending a draw does not change whether an earlier draw was a hit.
proof fn lemma_prefix_hits_unchanged(ds: Seq<Seq<Seq<u8>>>, cur: Seq<Seq<u8>>)
    ensures
        forall|i: int| 0 <= i < ds.len() ==> #[trigger] repeated_root_hit()(ds.push(cur), i)
            == repeated_root_hit()(ds, i),
{
    let nds = ds.push(cur);
    assert forall|i: int| 0 <= i < ds.len() implies #[trigger] repeated_root_hit()(nds, i)
        == repeated_root_hit()(ds, i) by {
        if repeated_root_hit()(nds, i) {
            let k = choose|k: int| 0 <= k < i && #[trigger] is_hash_list_collision(nds[k], nds[i]);
            assert(nds[k] == ds[k] && nds[i] == ds[i]);
            assert(is_hash_list_collision(ds[k], ds[i]));
        }
        if repeated_root_hit()(ds, i) {
            let k = choose|k: int| 0 <= k < i && #[trigger] is_hash_list_collision(ds[k], ds[i]);
            assert(nds[k] == ds[k] && nds[i] == ds[i]);
            assert(is_hash_list_collision(nds[k], nds[i]));
        }
    }
}

/// Every drawn leaf-hash list has 2 to 20 hashes.
pub open spec fn lists_of_2_to_20(ds: Seq<Seq<Seq<u8>>>) -> bool {
    forall|i: int| 0 <= i < ds.len() ==> 2 <= (#[trigger] ds[i]).len() <= 20
}

/// The message of the root-collision test for the draws `d`.
pub open spec fn basic_text(d: Seq<Seq<Seq<u8>>>) -> Seq<char> {
    "Collision found! Same root "@ + debug_text(root_of_level(d.last())) + " from different leaf sets"@
}

/// The message of the domain-separation test for the draws `d`.
pub open spec fn domain_text(d: Seq<Seq<u8>>) -> Seq<char> {
    "Domain separation failed! Leaf and internal hashes are equal: "@ + debug_text(spec_hash_leaf(d.last()))
}

/// The failure messages of the collision tests whose scans found a hit.
pub open spec fn collision_failure_texts(
    d1: Seq<Seq<Seq<u8>>>,
    f1: bool,
    d2: Seq<Seq<u8>>,
    f2: bool,
    d3: Seq<(Seq<u8>, Seq<u8>)>,
    f3: bool,
) -> Seq<Seq<char>> {
    (if f1 {
        seq!["Basic collision resistance: "@ + basic_text(d1)]
    } else {
        Seq::empty()
    }) + (if f2 {
        seq!["Domain separation: "@ + domain_text(d2)]
    } else {
        Seq::empty()
    }) + (if f3 {
        seq!["Leaf/internal distinction: "@ + node_leaf_message(d3.last().0, d3.last().1)]
    } else {
        Seq::empty()
    })
}

/// The outcome `r` of the collision tests follows from the draws `d1`
/// (random trees), `d2` (domain inputs) and `d3` (input pairs), whose scans
/// found a hit when `f1`, `f2`, `f3`; the birthday attack always passes.
pub open spec fn collision_draws_give(
    c: CollisionTestConfig,
    r: CollisionTestResults,
    d1: Seq<Seq<Seq<u8>>>,
    d2: Seq<Seq<u8>>,
    d3: Seq<(Seq<u8>, Seq<u8>)>,
    f1: bool,
    f2: bool,
    f3: bool,
) -> bool {
    &&& first_hit(d1, c.hash_attempts as nat, repeated_root_hit(), f1) && lists_of_2_to_20(d1)
    &&& first_hit(d2, 1000, domain_hit(), f2) && inputs_of_length(d2, 32)
    &&& first_hit(d3, 1000, node_leaf_hit(), f3) && pairs_of_32(d3)
    &&& r.failed == count_if(f1) + count_if(f2) + count_if(f3)
    &&& r.passed == 4 - r.failed
    &&& r.failures@.map_values(|m: String| m@) == collision_failure_texts(d1, f1, d2, f2, d3, f3)
    &&& r.birthday_attack_results@.len() == 4
    &&& forall|t: int| 0 <= t < 4 ==> #[trigger] r.birthday_attack_results@[t].hash_output_bits == seq![8usize, 12, 16, 20][t]
        && r.birthday_attack_results@[t].attempts == seq![32usize, 128, 512, 2048][t]
        && birthday_outcome(
            r.birthday_attack_results@[t].hash_output_bits as nat,
            r.birthday_attack_results@[t].attempts as nat,
            r.birthday_attack_results@[t].collision_found,
        )
}

/// What the collision tests report for some draws of their inputs.
pub open spec fn collision_outcome(c: CollisionTestConfig, r: CollisionTestResults) -> bool {
    exists|d1: Seq<Seq<Seq<u8>>>, d2: Seq<Seq<u8>>, d3: Seq<(Seq<u8>, Seq<u8>)>, f1: bool, f2: bool, f3: bool|
        #[trigger] collision_draws_give(c, r, d1, d2, d3, f1, f2, f3)
}

/// The root of the one-leaf tree of `d`, kept to its lowest `bits` bits of
/// the leading word.
pub open spec fn truncated_root(d: Seq<u8>, bits: nat) -> nat {
    leading_word(merkle_root(seq![d])) % vstd::arithmetic::power2::pow2(bits)
}

/// The input drawn at `i` has the truncated root of an earlier one.
pub open spec fn birthday_hit(bits: nat) -> spec_fn(Seq<Seq<u8>>, int) -> bool {
    |s: Seq<Seq<u8>>, i: int| exists|j: int| 0 <= j < i && #[trigger] truncated_root(s[j], bits) == truncated_root(s[i], bits)
}

/// A birthday attack of `attempts` draws on roots kept to `bits` bits
/// found a repeated truncated root exactly when `found`, for some draws of
/// 32-byte inputs.
pub open spec fn birthday_outcome(bits: nat, attempts: nat, found: bool) -> bool {
    exists|ds: Seq<Seq<u8>>| #[trigger] first_hit(ds, attempts, birthday_hit(bits), found) && inputs_of_length(ds, 32)
}

/// Appending a draw does not change whether an earlier draw repeated a
/// truncated root.
proof fn lemma_birthday_prefix(ds: Seq<Seq<u8>>, cur: Seq<u8>, bits: nat)
    ensures
        forall|i: int| 0 <= i < ds.len() ==> #[trigger] birthday_hit(bits)(ds.push(cur), i) == birthday_hit(bits)(ds, i),
{
    let nds = ds.push(cur);
    assert forall|i: int| 0 <= i < ds.len() implies #[trigger] birthday_hit(bits)(nds, i) == birthday_hit(bits)(ds, i) by {
        if birthday_hit(bits)(nds, i) {
            let k = choose|k: int| 0 <= k < i && #[trigger] truncated_root(nds[k], bits) == truncated_root(nds[i], bits);
            assert(nds[k] == ds[k] && nds[i] == ds[i]);
        }
        if birthday_hit(bits)(ds, i) {
            let k = choose|k: int| 0 <= k < i && #[trigger] truncated_root(ds[k], bits) == truncated_root(ds[i], bits);
            assert(nds[k] == ds[k] && nds[i] == ds[i]);
        }
    }
}

/// Every drawn input has `len` bytes.
pub open spec fn inputs_of_length(ds: Seq<Seq<u8>>, len: nat) -> bool {
    forall|i: int| 0 <= i < ds.len() ==> (#[trigger] ds[i]).len() == len
}

/// The first four bytes of a digest as a big-endian number.
pub open spec fn leading_word(h: Seq<u8>) -> nat {
    h[0] as nat * 0x100_0000 + h[1] as nat * 0x1_0000 + h[2] as nat * 0x100 + h[3] as nat
}

/// Settings of the collision tests.
#[derive(Debug, Clone)]
pub struct CollisionTestConfig {
    /// Number of random trees built
    pub hash_attempts: usize,
    /// Number of test rounds
    pub test_rounds: usize,
    /// Seed for reproducible runs; entropy when absent
    pub seed: Option<u64>,
}

impl Default for CollisionTestConfig {
    fn default() -> (r: Self)
        ensures
            r.hash_attempts == 10000,
            r.test_rounds == 100,
            r.seed is None,
    {
        CollisionTestConfig { hash_attempts: 10000, test_rounds: 100, seed: None }
    }
}

/// One birthday attack on roots truncated to `hash_output_bits` bits.
#[derive(Debug, Clone)]
pub struct BirthdayAttackResult {
    /// Bits kept of each root
    pub hash_output_bits: usize,
    /// Roots drawn at most
    pub attempts: usize,
    /// Whether two drawn roots agreed on the kept bits
    pub collision_found: bool,
}

/// Outcome of the collision tests.
#[derive(Debug)]
pub struct CollisionTestResults {
    /// Tests that passed
    pub passed: usize,
    /// Tests that failed
    pub failed: usize,
    /// One message per failure
    pub failures: Vec<String>,
    /// The birthday attacks on truncated roots
    pub birthday_attack_results: Vec<BirthdayAttackResult>,
}

/// Tests collision resistance of Merkle roots and of the domain-separated
/// hashes.
pub struct CollisionTester {
    /// The test settings
    pub config: CollisionTestConfig,
}

impl CollisionTester {
    /// A tester that builds as many trees as the suite has iterations.
    pub fn new(security_config: &SecurityTestConfig) -> (t: Self)
        ensures
            t.config.hash_attempts == security_config.test_iterations,
            t.config.test_rounds == 10,
            t.config.seed == security_config.seed,
    {
        CollisionTester {
            config: CollisionTestConfig {
                hash_attempts: security_config.test_iterations,
                test_rounds: 10,
                seed: security_config.seed,
            },
        }
    }

    /// Runs the four collision tests.
    pub fn run_tests(&self) -> (r: CollisionTestResults)
        ensures
            r.passed + r.failed == 4,
            r.passed >= 1,
            r.failures@.len() == r.failed,
            r.birthday_attack_results@.len() == 4,
            r.failed > 0 ==> hash_list_collision_exists() || domain_collision_exists()
                || node_leaf_collision_exists(),
            collision_outcome(self.config, r),
    {
        let mut passed: usize = 0;
        let mut failed: usize = 0;
        let mut failures: Vec<String> = Vec::new();
        let mut birthday: Vec<BirthdayAttackResult> = Vec::new();
        let r1 = self.test_basic_collision_resistance();
        let r2 = self.test_domain_separation();
        let r3 = self.test_birthday_attack();
        let r4 = self.test_leaf_internal_distinction();
        let ghost f1 = r1 is Err;
        let ghost f2 = r2 is Err;
        let ghost f3 = r4 is Err;
        let ghost d1 = choose|ds: Seq<Seq<Seq<u8>>>|
            #[trigger] first_hit(ds, self.config.hash_attempts as nat, repeated_root_hit(), f1)
                && lists_of_2_to_20(ds) && (r1 matches Err(m) ==> m@ == basic_text(ds));
        let ghost d2 = choose|ds: Seq<Seq<u8>>|
            #[trigger] first_hit(ds, 1000, domain_hit(), f2) && inputs_of_length(ds, 32) && (r2 matches Err(
                m,
            ) ==> m@ == domain_text(ds));
        let ghost d3 = choose|ds: Seq<(Seq<u8>, Seq<u8>)>|
            #[trigger] first_hit(ds, 1000, node_leaf_hit(), f3) && pairs_of_32(ds) && (r4 matches Err(m)
                ==> m@ == node_leaf_message(ds.last().0, ds.last().1));
        match r1 {
            Ok(()) => {
                passed = passed + 1;
            },
            Err(e) => {
                failed = failed + 1;
                failures.push(message("Basic collision resistance: ", e.as_str()));
            },
        }
        assert(failures@.map_values(|m: String| m@) =~= collision_failure_texts(d1, f1, d2, false, d3, false));
        match r2 {
            Ok(()) => {
                passed = passed + 1;
            },
            Err(e) => {
                failed = failed + 1;
                failures.push(message("Domain separation: ", e.as_str()));
            },
        }
        assert(failures@.map_values(|m: String| m@) =~= collision_failure_texts(d1, f1, d2, f2, d3, false));
        match r3 {
            Ok(trials) => {
                passed = passed + 1;
                birthday = trials;
            },
            Err(e) => {
                failed = failed + 1;
                failures.push(message("Birthday attack: ", e.as_str()));
            },
        }
        match r4 {
            Ok(()) => {
                passed = passed + 1;
            },
            Err(e) => {
                failed = failed + 1;
                failures.push(message("Leaf/internal distinction: ", e.as_str()));
            },
        }
        assert(failures@.map_values(|m: String| m@) =~= collision_failure_texts(d1, f1, d2, f2, d3, f3));
        let r = CollisionTestResults { passed, failed, failures, birthday_attack_results: birthday };
        assert(collision_draws_give(self.config, r, d1, d2, d3, f1, f2, f3));
        r
    }

    /// Builds up to `hash_attempts` random trees of 2 to 20 leaves and fails
    /// at the first whose leaf-hash list differs from an earlier one with
    /// the same root.
    fn test_basic_collision_resistance(&self) -> (r: Result<(), String>)
        ensures
            r is Err ==> hash_list_collision_exists(),
            exists|ds: Seq<Seq<Seq<u8>>>|
                #[trigger] first_hit(ds, self.config.hash_attempts as nat, repeated_root_hit(), r is Err)
                    && lists_of_2_to_20(ds) && (r matches Err(m) ==> m@ == basic_text(ds)),
    {
        let mut rng = self.create_rng();
        let mut seen_roots: Vec<(Hash32, Vec<Hash32>)> = Vec::new();
        let ghost mut ds: Seq<Seq<Seq<u8>>> = Seq::empty();
        // `src[t]`: the draw that seen entry `t` records; `rep[j]`: the seen
        // entry holding the list of draw `j`.
        let ghost mut src: Seq<int> = Seq::empty();
        let ghost mut rep: Seq<int> = Seq::empty();
        let mut round: usize = 0;
        while round < self.config.hash_attempts
            invariant
                0 <= round <= self.config.hash_attempts,
                ds.len() == round,
                lists_of_2_to_20(ds),
                forall|i: int| 0 <= i < ds.len() ==> !#[trigger] repeated_root_hit()(ds, i),
                seen_ok(seen_roots@),
                src.len() == seen_roots@.len(),
                rep.len() == ds.len(),
                forall|t: int| 0 <= t < seen_roots@.len() ==> 0 <= #[trigger] src[t] < ds.len()
                    && hashes_view(seen_roots@[t].1@) == ds[src[t]],
                forall|j: int| 0 <= j < ds.len() ==> 0 <= #[trigger] rep[j] < seen_roots@.len()
                    && hashes_view(seen_roots@[rep[j]].1@) == ds[j],
            decreases self.config.hash_attempts - round,
        {
            let leaf_count = random_in_range(&mut rng, 2, 20);
            let leaves = random_leaves(&mut rng, leaf_count, 1, 100);
            let tree = MerkleTree::from_leaves(leaves);
            let root = tree.root();
            let tree_leaves = tree.leaves();
            let ghost cur = hashes_view(tree_leaves@);
            assert(cur.len() == leaf_count);
            let lookup = check_seen_root(&seen_roots, &root, &tree_leaves);
            if let SeenRoot::Conflict(t) = lookup {
                let ghost nds = ds.push(cur);
                proof {
                    assert(0 <= src[t as int] < ds.len());
                    lemma_repeated_root_push(ds, cur, src[t as int]);
                }
                let mut m = message("Collision found! Same root ", hash_debug(&root).as_str());
                m = message(m.as_str(), " from different leaf sets");
                let r: Result<(), String> = Err(m);
                assert(first_hit(nds, self.config.hash_attempts as nat, repeated_root_hit(), r is Err)
                    && lists_of_2_to_20(nds) && (r matches Err(m) ==> m@ == "Collision found! Same root "@
                    + debug_text(root_of_level(nds.last())) + " from different leaf sets"@));
                return r;
            }
            let ghost nds = ds.push(cur);
            proof {
                assert forall|k: int| 0 <= k < ds.len() implies !#[trigger] is_hash_list_collision(ds[k], cur) by {
                    let u = rep[k];
                    if is_hash_list_collision(ds[k], cur) {
                        assert(seen_roots@[u].0@ == root@);
                    }
                }
                lemma_no_repeated_root_push(ds, cur);
            }
            let ghost old_seen = seen_roots@;
            let is_new = match lookup {
                SeenRoot::New => true,
                _ => false,
            };
            if is_new {
                seen_roots.push((root, tree_leaves));
            }
            proof {
                match lookup {
                    SeenRoot::Seen(t) => {
                        rep = rep.push(t as int);
                    },
                    _ => {
                        src = src.push(ds.len() as int);
                        rep = rep.push(old_seen.len() as int);
                    },
                }
                assert forall|u: int| 0 <= u < seen_roots@.len() implies 0 <= #[trigger] src[u] < nds.len()
                    && hashes_view(seen_roots@[u].1@) == nds[src[u]] by {
                    if u < old_seen.len() {
                        assert(seen_roots@[u] == old_seen[u]);
                    }
                }
                assert forall|j: int| 0 <= j < nds.len() implies 0 <= #[trigger] rep[j] < seen_roots@.len()
                    && hashes_view(seen_roots@[rep[j]].1@) == nds[j] by {
                    if j < ds.len() {
                        assert(seen_roots@[rep[j]] == old_seen[rep[j]]);
                    }
                }
                ds = nds;
            }
            round = round + 1;
        }
        assert(first_hit(ds, self.config.hash_attempts as nat, repeated_root_hit(), false));
        Ok(())
    }

    /// Draws up to 1000 random 32-byte inputs and fails at the first whose
    /// leaf hash equals the node hash of two copies of it.
    fn test_domain_separation(&self) -> (r: Result<(), String>)
        ensures
            r is Err ==> domain_collision_exists(),
            exists|ds: Seq<Seq<u8>>|
                #[trigger] first_hit(ds, 1000, domain_hit(), r is Err) && inputs_of_length(ds, 32)
                    && (r matches Err(m) ==> m@ == domain_text(ds)),
    {
        let mut rng = self.create_rng();
        let ghost mut ds: Seq<Seq<u8>> = Seq::empty();
        let mut round: usize = 0;
        while round < 1000
            invariant
                0 <= round <= 1000,
                ds.len() == round,
                inputs_of_length(ds, 32),
                forall|i: int| 0 <= i < ds.len() ==> !#[trigger] domain_hit()(ds, i),
            decreases 1000 - round,
        {
            let data = random_bytes(&mut rng, 32);
            let hit = domain_attempt(data.as_slice());
            let ghost nds = ds.push(data@);
            proof {
                assert forall|i: int| 0 <= i < ds.len() implies !#[trigger] domain_hit()(nds, i) by {
                    assert(nds[i] == ds[i]);
                    assert(!domain_hit()(ds, i));
                }
                assert(nds.last() == data@);
            }
            if hit {
                let leaf = hash_leaf(data.as_slice());
                proof {
                    assert(domain_hit()(nds, nds.len() - 1));
                    assert(first_hit(nds, 1000, domain_hit(), true));
                    assert(inputs_of_length(nds, 32)) by {
                        assert forall|i: int| 0 <= i < nds.len() implies (#[trigger] nds[i]).len() == 32 by {
                            if i < ds.len() {
                                assert(nds[i] == ds[i]);
                            }
                        }
                    }
                }
                let m = message(
                    "Domain separation failed! Leaf and internal hashes are equal: ",
                    hash_debug(&leaf).as_str(),
                );
                let r: Result<(), String> = Err(m);
                assert(first_hit(nds, 1000, domain_hit(), r is Err) && inputs_of_length(nds, 32)
                    && (r matches Err(m) ==> m@ == "Domain separation failed! Leaf and internal hashes are equal: "@
                    + debug_text(spec_hash_leaf(nds.last()))));
                return r;
            }
            proof {
                assert(!domain_hit()(nds, nds.len() - 1));
                assert forall|i: int| 0 <= i < nds.len() implies (#[trigger] nds[i]).len() == 32 by {
                    if i < ds.len() {
                        assert(nds[i] == ds[i]);
                    }
                }
                ds = nds;
            }
            round = round + 1;
        }
        assert(first_hit(ds, 1000, domain_hit(), false));
        Ok(())
    }

    /// Birthday attacks on roots truncated to 8, 12, 16 and 20 bits, with
    /// `2^(bits/2 + 1)` roots drawn for each.
    fn test_birthday_attack(&self) -> (r: Result<Vec<BirthdayAttackResult>, String>)
        ensures
            r matches Ok(v) && v@.len() == 4 && (forall|t: int| 0 <= t < 4 ==> #[trigger] v@[t].hash_output_bits == seq![8usize, 12, 16, 20][t] && v@[t].attempts == seq![32usize, 128, 512, 2048][t]
                && birthday_outcome(v@[t].hash_output_bits as nat, v@[t].attempts as nat, v@[t].collision_found)),
    {
        let mut results: Vec<BirthdayAttackResult> = Vec::new();
        let mut rng = self.create_rng();
        let sizes: [usize; 4] = [8, 12, 16, 20];
        // 2^(bits/2 + 1) draws for each size
        let draws: [usize; 4] = [32, 128, 512, 2048];
        let mut s: usize = 0;
        while s < 4
            invariant
                0 <= s <= 4,
                results@.len() == s,
                sizes@ == seq![8usize, 12, 16, 20],
                draws@ == seq![32usize, 128, 512, 2048],
                forall|t: int| 0 <= t < s ==> #[trigger] results@[t].hash_output_bits == sizes@[t]
                    && results@[t].attempts == draws@[t] && birthday_outcome(
                    results@[t].hash_output_bits as nat,
                    results@[t].attempts as nat,
                    results@[t].collision_found,
                ),
            decreases 4 - s,
        {
            let bits = sizes[s];
            let attempts: usize = draws[s];
            let mut hashes: Vec<u32> = Vec::new();
            let mut collision_found = false;
            let ghost mut ds: Seq<Seq<u8>> = Seq::empty();
            let mut a: usize = 0;
            while a < attempts && !collision_found
                invariant
                    0 <= a <= attempts,
                    bits < 32,
                    inputs_of_length(ds, 32),
                    ds.len() <= attempts,
                    !collision_found ==> ds.len() == a && hashes@.len() == a,
                    !collision_found ==> forall|k: int| 0 <= k < a ==> #[trigger] hashes@[k] as nat == truncated_root(ds[k], bits as nat),
                    !collision_found ==> forall|i: int| 0 <= i < ds.len() ==> !#[trigger] birthday_hit(bits as nat)(ds, i),
                    collision_found ==> first_hit(ds, attempts as nat, birthday_hit(bits as nat), true),
                decreases attempts - a + (if collision_found { 0int } else { 1int }),
            {
                let data = random_bytes(&mut rng, 32);
                let ghost cur = data@;
                let (truncated, hit) = self.birthday_attempt(&hashes, data, bits);
                let ghost nds = ds.push(cur);
                proof {
                    lemma_birthday_prefix(ds, cur, bits as nat);
                    assert(nds[nds.len() - 1] == cur);
                    assert forall|i: int| 0 <= i < nds.len() implies (#[trigger] nds[i]).len() == 32 by {
                        if i < ds.len() {
                            assert(nds[i] == ds[i]);
                        }
                    }
                    if hit {
                        let k = choose|k: int| 0 <= k < hashes@.len() && hashes@[k] == truncated;
                        assert(hashes@[k] as nat == truncated_root(ds[k], bits as nat));
                        assert(nds[k] == ds[k]);
                        assert(truncated_root(nds[k], bits as nat) == truncated_root(nds[nds.len() - 1], bits as nat));
                        assert(birthday_hit(bits as nat)(nds, nds.len() - 1));
                    } else {
                        assert(!birthday_hit(bits as nat)(nds, nds.len() - 1)) by {
                            if birthday_hit(bits as nat)(nds, nds.len() - 1) {
                                let k = choose|k: int| 0 <= k < nds.len() - 1 && #[trigger] truncated_root(nds[k], bits as nat)
                                    == truncated_root(nds[nds.len() - 1], bits as nat);
                                assert(nds[k] == ds[k]);
                                assert(hashes@[k] as nat == truncated_root(ds[k], bits as nat));
                                assert(hashes@.contains(hashes@[k]));
                            }
                        }
                    }
                    ds = nds;
                }
                if hit {
                    collision_found = true;
                } else {
                    let ghost old_h = hashes@;
                    hashes.push(truncated);
                    proof {
                        assert forall|k: int| 0 <= k < a + 1 implies #[trigger] hashes@[k] as nat == truncated_root(ds[k], bits as nat) by {
                            if k < a {
                                assert(hashes@[k] == old_h[k]);
                                assert(ds[k] == nds[k]);
                            }
                        }
                    }
                    a = a + 1;
                }
            }
            proof {
                if !collision_found {
                    assert(first_hit(ds, attempts as nat, birthday_hit(bits as nat), false));
                }
            }
            let ghost last_ds = ds;
            results.push(BirthdayAttackResult { hash_output_bits: bits, attempts, collision_found });
            proof {
                assert(first_hit(last_ds, attempts as nat, birthday_hit(bits as nat), collision_found) && inputs_of_length(last_ds, 32));
                assert(results@[s as int].collision_found == collision_found);
            }
            s = s + 1;
        }
        Ok(results)
    }

    /// Draws up to 1000 pairs of random 32-byte inputs and fails at the first
    /// pair whose node hash equals the leaf hash of one of them.
    fn test_leaf_internal_distinction(&self) -> (r: Result<(), String>)
        ensures
            r is Err ==> node_leaf_collision_exists(),
            exists|ds: Seq<(Seq<u8>, Seq<u8>)>|
                #[trigger] first_hit(ds, 1000, node_leaf_hit(), r is Err) && pairs_of_32(ds) && (r matches Err(
                    m,
                ) ==> m@ == node_leaf_message(ds.last().0, ds.last().1)),
    {
        let mut rng = self.create_rng();
        let ghost mut ds: Seq<(Seq<u8>, Seq<u8>)> = Seq::empty();
        let mut round: usize = 0;
        while round < 1000
            invariant
                0 <= round <= 1000,
                ds.len() == round,
                pairs_of_32(ds),
                forall|i: int| 0 <= i < ds.len() ==> !#[trigger] node_leaf_hit()(ds, i),
            decreases 1000 - round,
        {
            let data1 = random_bytes(&mut rng, 32);
            let data2 = random_bytes(&mut rng, 32);
            let hit = node_leaf_attempt(data1.as_slice(), data2.as_slice());
            let ghost nds = ds.push((data1@, data2@));
            proof {
                assert forall|i: int| 0 <= i < ds.len() implies !#[trigger] node_leaf_hit()(nds, i) by {
                    assert(nds[i] == ds[i]);
                    assert(!node_leaf_hit()(ds, i));
                }
                assert forall|i: int| 0 <= i < nds.len() implies (#[trigger] nds[i]).0.len() == 32 && nds[i].1.len() == 32 by {
                    if i < ds.len() {
                        assert(nds[i] == ds[i]);
                    }
                }
                assert(nds.last() == (data1@, data2@));
            }
            if hit {
                let leaf1 = hash_leaf(data1.as_slice());
                let leaf2 = hash_leaf(data2.as_slice());
                let internal = hash_internal(&leaf1, &leaf2);
                proof {
                    assert(node_leaf_hit()(nds, nds.len() - 1));
                }
                let mut m = message("Internal hash collision with leaf hash: internal=", hash_debug(&internal).as_str());
                m = message(m.as_str(), ", leaf1=");
                m = message(m.as_str(), hash_debug(&leaf1).as_str());
                m = message(m.as_str(), ", leaf2=");
                m = message(m.as_str(), hash_debug(&leaf2).as_str());
                let r: Result<(), String> = Err(m);
                assert(first_hit(nds, 1000, node_leaf_hit(), r is Err) && pairs_of_32(nds) && (r matches Err(
                    m,
                ) ==> m@ == node_leaf_message(nds.last().0, nds.last().1)));
                return r;
            }
            proof {
                assert(!node_leaf_hit()(nds, nds.len() - 1));
                ds = nds;
            }
            round = round + 1;
        }
        assert(first_hit(ds, 1000, node_leaf_hit(), false));
        Ok(())
    }

    /// One birthday draw: the root of the one-leaf tree of `data`, kept to
    /// `bits` bits, and whether it is among the truncated roots `seen`.
    pub fn birthday_attempt(&self, seen: &Vec<u32>, data: Vec<u8>, bits: usize) -> (r: (u32, bool))
        requires
            bits < 32,
        ensures
            r.0 as nat == truncated_root(data@, bits as nat),
            r.1 == seen@.contains(r.0),
    {
        let ghost d = data@;
        let mut one: Vec<Vec<u8>> = Vec::new();
        one.push(data);
        assert(leaf_bytes(one@) =~= seq![d]);
        let tree = MerkleTree::from_leaves(one);
        let full_hash = tree.root();
        let truncated = self.truncate_hash(&full_hash, bits);
        (truncated, contains_word(seen, truncated))
    }

    /// The lowest `bits` bits of the digest's first four bytes read as a
    /// big-endian number.
    pub fn truncate_hash(&self, hash: &Hash32, bits: usize) -> (r: u32)
        requires
            bits < 32,
        ensures
            r as nat == leading_word(hash@) % vstd::arithmetic::power2::pow2(bits as nat),
    {
        let b0 = hash[0] as u32;
        let b1 = hash[1] as u32;
        let b2 = hash[2] as u32;
        let b3 = hash[3] as u32;
        let word = (b0 << 24u32) | (b1 << 16u32) | (b2 << 8u32) | b3;
        let b = bits as u32;
        proof {
            vstd::bits::lemma_u32_pow2_no_overflow(b as nat);
            vstd::arithmetic::power2::lemma_pow2_pos(b as nat);
            vstd::bits::lemma_u32_shl_is_mul(1u32, b);
        }
        let mask = (1u32 << b) - 1;
        let r = word & mask;
        assert(word == b0 * 0x100_0000 + b1 * 0x1_0000 + b2 * 0x100 + b3) by (bit_vector)
            requires
                b0 < 256,
                b1 < 256,
                b2 < 256,
                b3 < 256,
                word == (b0 << 24u32) | (b1 << 16u32) | (b2 << 8u32) | b3,
        ;
        proof {
            vstd::bits::lemma_u32_low_bits_mask_is_mod(word, b as nat);
            assert(mask == vstd::bits::low_bits_mask(b as nat) as u32);
        }
        r
    }

    /// The generator for one test.
    fn create_rng(&self) -> ChaCha8Rng {
        create_rng(self.config.seed)
    }
}

/// Where a tree's root stands among the roots seen so far.
#[derive(Debug, Clone, Copy, PartialEq, Eq, Structural)]
pub enum SeenRoot {
    /// Entry `t` has the same root and a different leaf-hash list (the
    /// first such entry)
    Conflict(usize),
    /// Entries with the same root all hold the same list; `t` is the last
    Seen(usize),
    /// No entry has this root
    New,
}

/// One repeated-root check: compares the root and leaf hashes of a new tree
/// with each seen entry in turn, stopping at the first entry with the same
/// root and different leaf hashes.
pub fn check_seen_root(seen: &Vec<(Hash32, Vec<Hash32>)>, root: &Hash32, leaf_hashes: &Vec<Hash32>) -> (r: SeenRoot)
    requires
        seen_ok(seen@),
        hashes_view(leaf_hashes@).len() >= 1,
        root@ == root_of_level(hashes_view(leaf_hashes@)),
    ensures
        r matches SeenRoot::Conflict(t) ==> {
            &&& t < seen@.len()
            &&& is_hash_list_collision(hashes_view(seen@[t as int].1@), hashes_view(leaf_hashes@))
            &&& forall|u: int| 0 <= u < t && #[trigger] seen@[u].0@ == root@ ==> hashes_view(seen@[u].1@)
                == hashes_view(leaf_hashes@)
        },
        r matches SeenRoot::Seen(t) ==> {
            &&& t < seen@.len()
            &&& seen@[t as int].0@ == root@
            &&& hashes_view(seen@[t as int].1@) == hashes_view(leaf_hashes@)
            &&& forall|u: int| 0 <= u < seen@.len() && #[trigger] seen@[u].0@ == root@ ==> hashes_view(seen@[u].1@)
                == hashes_view(leaf_hashes@)
            &&& forall|u: int| t < u < seen@.len() ==> #[trigger] seen@[u].0@ != root@
        },
        r is New ==> forall|u: int| 0 <= u < seen@.len() ==> #[trigger] seen@[u].0@ != root@,
{
    let ghost cur = hashes_view(leaf_hashes@);
    let mut found: Option<usize> = None;
    let mut t: usize = 0;
    while t < seen.len()
        invariant
            0 <= t <= seen@.len(),
            seen_ok(seen@),
            cur == hashes_view(leaf_hashes@),
            cur.len() >= 1,
            root@ == root_of_level(cur),
            forall|u: int| 0 <= u < t && #[trigger] seen@[u].0@ == root@ ==> hashes_view(seen@[u].1@) == cur,
            found matches Some(f) ==> {
                &&& f < t
                &&& seen@[f as int].0@ == root@
                &&& hashes_view(seen@[f as int].1@) == cur
                &&& forall|u: int| f < u < t ==> #[trigger] seen@[u].0@ != root@
            },
            found is None ==> forall|u: int| 0 <= u < t ==> #[trigger] seen@[u].0@ != root@,
        decreases seen@.len() - t,
    {
        if hash_eq(&seen[t].0, root) {
            if !hash_lists_equal(&seen[t].1, leaf_hashes) {
                assert(hashes_view(seen@[t as int].1@).len() >= 1);
                assert(is_hash_list_collision(hashes_view(seen@[t as int].1@), cur));
                return SeenRoot::Conflict(t);
            }
            found = Some(t);
        }
        t = t + 1;
    }
    match found {
        Some(f) => SeenRoot::Seen(f),
        None => SeenRoot::New,
    }
}

/// One domain-separation check: whether the leaf hash of `data` equals the
/// node hash of two copies of it.
pub fn domain_attempt(data: &[u8]) -> (hit: bool)
    ensures
        hit == leaf_equals_self_node(data@),
{
    let leaf = hash_leaf(data);
    let internal = hash_internal(&leaf, &leaf);
    hash_eq(&leaf, &internal)
}

/// One leaf/internal distinction check: whether the node hash over the leaf
/// hashes of `data1` and `data2` equals one of them.
pub fn node_leaf_attempt(data1: &[u8], data2: &[u8]) -> (hit: bool)
    ensures
        hit == node_equals_child(data1@, data2@),
{
    let leaf1 = hash_leaf(data1);
    let leaf2 = hash_leaf(data2);
    let internal = hash_internal(&leaf1, &leaf2);
    hash_eq(&internal, &leaf1) || hash_eq(&internal, &leaf2)
}

/// Whether `v` holds `x`.
fn contains_word(v: &Vec<u32>, x: u32) -> (r: bool)
    ensures
        r == v@.contains(x),
{
    let mut i: usize = 0;
    while i < v.len()
        invariant
            0 <= i <= v@.len(),
            forall|j: int| 0 <= j < i ==> v@[j] != x,
        decreases v@.len() - i,
    {
        if v[i] == x {
            return true;
        }
        i = i + 1;
    }
    false
}

} // verus!
