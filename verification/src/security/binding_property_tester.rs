//! Binding tests: a root commits to the order, the content and the number
//! of the leaves.

use rand_chacha::ChaCha8Rng;
use vstd::prelude::*;

use crate::merkle::{hash_eq, leaf_bytes, merkle_root, Hash32};
use crate::rng::{create_rng, random_below, random_in_range, random_leaves, shuffle_leaves};
use crate::groth16::{decimal_text, number_text};
use crate::security::attack_simulator::count_if;
use crate::security::collision_tester::SeenRoot;
use crate::security::{
    copy_leaves, debug_text, first_hit, hash_debug, is_root_collision, leaves_equal, message,
    root_collision_exists, root_of, SecurityTestConfig,
};

verus! {

/// The leaves `"a"`, `"b"`, … of the structure test, `count` of them.
pub open spec fn letter_leaves(count: nat) -> Seq<Seq<u8>> {
    Seq::new(count, |i: int| seq![(97 + i) as u8])
}

/// The root of the first `count` letters is the all-zero digest.
pub open spec fn letters_have_zero_root(count: nat) -> bool {
    merkle_root(letter_leaves(count)) == Seq::new(32, |i: int| 0u8)
}

/// The leaf list drawn at `i` has the root of a different list drawn
/// before it.
pub open spec fn repeated_leaf_root_hit() -> spec_fn(Seq<Seq<Seq<u8>>>, int) -> bool {
    |s: Seq<Seq<Seq<u8>>>, i: int| exists|j: int| 0 <= j < i && #[trigger] is_root_collision(s[j], s[i])
}

/// Every drawn leaf list has between `lo` and `hi` leaves.
pub open spec fn lists_sized(ds: Seq<Seq<Seq<u8>>>, lo: nat, hi: nat) -> bool {
    forall|i: int| 0 <= i < ds.len() ==> lo <= (#[trigger] ds[i]).len() <= hi
}

/// Seen entries hold the root of their non-empty leaf list.
pub open spec fn seen_leaves_ok(seen: Seq<(Hash32, Vec<Vec<u8>>)>) -> bool {
    forall|t: int| 0 <= t < seen.len() ==> {
        &&& leaf_bytes(#[trigger] seen[t].1@).len() >= 1
        &&& seen[t].0@ == merkle_root(leaf_bytes(seen[t].1@))
    }
}

/// Appending a draw does not change whether an earlier draw was a hit.
proof fn lemma_leaf_prefix_hits_unchanged(ds: Seq<Seq<Seq<u8>>>, cur: Seq<Seq<u8>>)
    ensures
        forall|i: int| 0 <= i < ds.len() ==> #[trigger] repeated_leaf_root_hit()(ds.push(cur), i)
            == repeated_leaf_root_hit()(ds, i),
{
    let nds = ds.push(cur);
    assert forall|i: int| 0 <= i < ds.len() implies #[trigger] repeated_leaf_root_hit()(nds, i)
        == repeated_leaf_root_hit()(ds, i) by {
        if repeated_leaf_root_hit()(nds, i) {
            let k = choose|k: int| 0 <= k < i && #[trigger] is_root_collision(nds[k], nds[i]);
            assert(nds[k] == ds[k] && nds[i] == ds[i]);
            assert(is_root_collision(ds[k], ds[i]));
        }
        if repeated_leaf_root_hit()(ds, i) {
            let k = choose|k: int| 0 <= k < i && #[trigger] is_root_collision(ds[k], ds[i]);
            assert(nds[k] == ds[k] && nds[i] == ds[i]);
            assert(is_root_collision(nds[k], nds[i]));
        }
    }
}

/// Appending a list that collides with draw `j` makes the last draw a hit
/// and keeps the earlier ones free of hits.
proof fn lemma_leaf_repeated_root_push(ds: Seq<Seq<Seq<u8>>>, cur: Seq<Seq<u8>>, j: int)
    requires
        0 <= j < ds.len(),
        is_root_collision(ds[j], cur),
        forall|i: int| 0 <= i < ds.len() ==> !#[trigger] repeated_leaf_root_hit()(ds, i),
        lists_sized(ds, 2, 8),
        2 <= cur.len() <= 8,
    ensures
        repeated_leaf_root_hit()(ds.push(cur), ds.len() as int),
        forall|i: int| 0 <= i < ds.len() ==> !#[trigger] repeated_leaf_root_hit()(ds.push(cur), i),
        lists_sized(ds.push(cur), 2, 8),
        ds.push(cur).last() == cur,
{
    let nds = ds.push(cur);
    assert(nds[j] == ds[j]);
    assert(nds[ds.len() as int] == cur);
    assert(is_root_collision(nds[j], nds[ds.len() as int]));
    lemma_leaf_prefix_hits_unchanged(ds, cur);
    assert forall|i: int| 0 <= i < nds.len() implies 2 <= (#[trigger] nds[i]).len() <= 8 by {
        if i < ds.len() {
            assert(nds[i] == ds[i]);
        }
    }
}

/// Appending a list that collides with no earlier draw keeps every draw
/// free of hits.
proof fn lemma_leaf_no_repeated_root_push(ds: Seq<Seq<Seq<u8>>>, cur: Seq<Seq<u8>>)
    requires
        forall|k: int| 0 <= k < ds.len() ==> !#[trigger] is_root_collision(ds[k], cur),
        forall|i: int| 0 <= i < ds.len() ==> !#[trigger] repeated_leaf_root_hit()(ds, i),
        lists_sized(ds, 2, 8),
        2 <= cur.len() <= 8,
    ensures
        forall|i: int| 0 <= i < ds.len() + 1 ==> !#[trigger] repeated_leaf_root_hit()(ds.push(cur), i),
        lists_sized(ds.push(cur), 2, 8),
{
    let nds = ds.push(cur);
    lemma_leaf_prefix_hits_unchanged(ds, cur);
    if repeated_leaf_root_hit()(nds, ds.len() as int) {
        let k = choose|k: int| 0 <= k < ds.len() && #[trigger] is_root_collision(nds[k], nds[ds.len() as int]);
        assert(nds[k] == ds[k]);
        assert(nds[ds.len() as int] == cur);
    }
    assert forall|i: int| 0 <= i < nds.len() implies 2 <= (#[trigger] nds[i]).len() <= 8 by {
        if i < ds.len() {
            assert(nds[i] == ds[i]);
        }
    }
}

/// The drawn list at `i` and its reordering are different lists with one
/// root.
pub open spec fn order_hit() -> spec_fn(Seq<(Seq<Seq<u8>>, Seq<Seq<u8>>)>, int) -> bool {
    |s: Seq<(Seq<Seq<u8>>, Seq<Seq<u8>>)>, i: int| is_root_collision(s[i].0, s[i].1)
}

/// The drawn list at `i` and its modified copy have one root.
pub open spec fn content_hit() -> spec_fn(Seq<(Seq<Seq<u8>>, Seq<Seq<u8>>)>, int) -> bool {
    |s: Seq<(Seq<Seq<u8>>, Seq<Seq<u8>>)>, i: int| merkle_root(s[i].0) == merkle_root(s[i].1)
}

/// Each drawn pair is a list of `lo` to `hi` leaves and a second list of
/// the same length (different from the first when `differ`).
pub open spec fn pairs_sized(ds: Seq<(Seq<Seq<u8>>, Seq<Seq<u8>>)>, lo: nat, hi: nat, differ: bool) -> bool {
    forall|i: int|
        0 <= i < ds.len() ==> lo <= (#[trigger] ds[i]).0.len() <= hi && ds[i].1.len() == ds[i].0.len()
            && (differ ==> ds[i].0 != ds[i].1)
}

/// `c` is the least count from two to five whose letter tree has the zero
/// root.
pub open spec fn first_zero_count(c: nat) -> bool {
    &&& 2 <= c <= 5
    &&& letters_have_zero_root(c)
    &&& forall|c2: nat| 2 <= c2 < c ==> !#[trigger] letters_have_zero_root(c2)
}

/// The message of the structure test failing at count `c`.
pub open spec fn structure_text(c: nat) -> Seq<char> {
    "Structure binding failed for "@ + decimal_text(c) + " leaves: zero root"@
}

/// The message of the order test for the draws `d`.
pub open spec fn order_text(d: Seq<(Seq<Seq<u8>>, Seq<Seq<u8>>)>) -> Seq<char> {
    "Order binding failed! Same root from different leaf orders: root="@ + debug_text(merkle_root(d.last().0))
}

/// The message of the content test for the draws `d`.
pub open spec fn content_text(d: Seq<(Seq<Seq<u8>>, Seq<Seq<u8>>)>) -> Seq<char> {
    "Content binding failed! Same root after leaf modification: root="@ + debug_text(merkle_root(d.last().0))
}

/// The message of the alternative-sets test for the draws `d`.
pub open spec fn alternative_text(d: Seq<Seq<Seq<u8>>>) -> Seq<char> {
    "Binding violation! Same root from different leaf sets: root="@ + debug_text(merkle_root(d.last()))
}

/// The failure messages of the binding tests that failed.
pub open spec fn binding_failure_texts(
    d1: Seq<(Seq<Seq<u8>>, Seq<Seq<u8>>)>,
    f1: bool,
    d2: Seq<(Seq<Seq<u8>>, Seq<Seq<u8>>)>,
    f2: bool,
    c3: nat,
    f3: bool,
    d4: Seq<Seq<Seq<u8>>>,
    f4: bool,
) -> Seq<Seq<char>> {
    (if f1 {
        seq!["Leaf order binding: "@ + order_text(d1)]
    } else {
        Seq::empty()
    }) + (if f2 {
        seq!["Content binding: "@ + content_text(d2)]
    } else {
        Seq::empty()
    }) + (if f3 {
        seq!["Structure binding: "@ + structure_text(c3)]
    } else {
        Seq::empty()
    }) + (if f4 {
        seq!["Alternative leaf sets: "@ + alternative_text(d4)]
    } else {
        Seq::empty()
    })
}

/// The outcome `r` of the binding tests follows from the draws of the
/// order (`d1`), content (`d2`) and alternative-sets (`d4`) tests and the
/// fixed structure test (failing at count `c3`), which failed when `f1` to
/// `f4`.
pub open spec fn binding_draws_give(
    c: BindingTestConfig,
    r: BindingTestResults,
    d1: Seq<(Seq<Seq<u8>>, Seq<Seq<u8>>)>,
    f1: bool,
    d2: Seq<(Seq<Seq<u8>>, Seq<Seq<u8>>)>,
    f2: bool,
    c3: nat,
    f3: bool,
    d4: Seq<Seq<Seq<u8>>>,
    f4: bool,
) -> bool {
    &&& first_hit(d1, c.test_attempts as nat, order_hit(), f1) && pairs_sized(d1, 3, 10, false)
    &&& first_hit(d2, c.test_attempts as nat, content_hit(), f2) && pairs_sized(d2, 2, 10, true)
    &&& (f3 <==> exists|k: nat| 2 <= k <= 5 && #[trigger] letters_have_zero_root(k))
    &&& (f3 ==> first_zero_count(c3))
    &&& first_hit(d4, c.test_attempts as nat, repeated_leaf_root_hit(), f4) && lists_sized(d4, 2, 8)
    &&& r.failed == count_if(f1) + count_if(f2) + count_if(f3) + count_if(f4)
    &&& r.passed == 4 - r.failed
    &&& r.failures@.map_values(|m: String| m@) == binding_failure_texts(d1, f1, d2, f2, c3, f3, d4, f4)
}

/// What the binding tests report for some draws of their inputs.
pub open spec fn binding_outcome(c: BindingTestConfig, r: BindingTestResults) -> bool {
    exists|
        d1: Seq<(Seq<Seq<u8>>, Seq<Seq<u8>>)>,
        f1: bool,
        d2: Seq<(Seq<Seq<u8>>, Seq<Seq<u8>>)>,
        f2: bool,
        c3: nat,
        f3: bool,
        d4: Seq<Seq<Seq<u8>>>,
        f4: bool,
    | #[trigger] binding_draws_give(c, r, d1, f1, d2, f2, c3, f3, d4, f4)
}

/// Outcome of the binding tests.
#[derive(Debug)]
pub struct BindingTestResults {
    /// Tests that passed
    pub passed: usize,
    /// Tests that failed
    pub failed: usize,
    /// One message per failure
    pub failures: Vec<String>,
}

/// Tests that roots bind their leaves.
pub struct BindingPropertyTester {
    /// The test settings
    pub config: BindingTestConfig,
}

/// Settings of the binding tests.
#[derive(Debug, Clone)]
pub struct BindingTestConfig {
    /// Number of random trees per test
    pub test_attempts: usize,
    /// Largest number of leaves
    pub max_leaves: usize,
    /// Seed for reproducible runs; entropy when absent
    pub seed: Option<u64>,
}

impl BindingPropertyTester {
    /// A tester with as many attempts as the suite has iterations.
    pub fn new(security_config: &SecurityTestConfig) -> (t: Self)
        ensures
            t.config.test_attempts == security_config.test_iterations,
            t.config.max_leaves == security_config.max_data_size,
            t.config.seed == security_config.seed,
    {
        BindingPropertyTester {
            config: BindingTestConfig {
                test_attempts: security_config.test_iterations,
                max_leaves: security_config.max_data_size,
                seed: security_config.seed,
            },
        }
    }

    /// Runs the four binding tests.
    pub fn run_tests(&self) -> (r: BindingTestResults)
        ensures
            r.passed + r.failed == 4,
            r.failures@.len() == r.failed,
            r.failed > 0 ==> root_collision_exists() || (exists|c: nat|
                2 <= c <= 5 && #[trigger] letters_have_zero_root(c)),
            binding_outcome(self.config, r),
    {
        let mut passed: usize = 0;
        let mut failed: usize = 0;
        let mut failures: Vec<String> = Vec::new();
        let r1 = self.test_leaf_order_binding();
        let r2 = self.test_content_binding();
        let r3 = self.test_structure_binding();
        let r4 = self.test_alternative_leaf_sets();
        let ghost f1 = r1 is Err;
        let ghost f2 = r2 is Err;
        let ghost f3 = r3 is Err;
        let ghost f4 = r4 is Err;
        let ghost d1 = choose|ds: Seq<(Seq<Seq<u8>>, Seq<Seq<u8>>)>|
            #[trigger] first_hit(ds, self.config.test_attempts as nat, order_hit(), f1)
                && pairs_sized(ds, 3, 10, false) && (r1 matches Err(m) ==> m@ == order_text(ds));
        let ghost d2 = choose|ds: Seq<(Seq<Seq<u8>>, Seq<Seq<u8>>)>|
            #[trigger] first_hit(ds, self.config.test_attempts as nat, content_hit(), f2)
                && pairs_sized(ds, 2, 10, true) && (r2 matches Err(m) ==> m@ == content_text(ds));
        let ghost c3 = choose|c: nat| #[trigger] first_zero_count(c) && (r3 matches Err(m) ==> m@ == structure_text(c));
        let ghost d4 = choose|ds: Seq<Seq<Seq<u8>>>|
            #[trigger] first_hit(ds, self.config.test_attempts as nat, repeated_leaf_root_hit(), f4)
                && lists_sized(ds, 2, 8) && (r4 matches Err(m) ==> m@ == alternative_text(ds));
        match r1 {
            Ok(()) => {
                passed = passed + 1;
            },
            Err(e) => {
                failed = failed + 1;
                failures.push(message("Leaf order binding: ", e.as_str()));
            },
        }
        assert(failures@.map_values(|m: String| m@) =~= binding_failure_texts(d1, f1, d2, false, c3, false, d4, false));
        match r2 {
            Ok(()) => {
                passed = passed + 1;
            },
            Err(e) => {
                failed = failed + 1;
                failures.push(message("Content binding: ", e.as_str()));
            },
        }
        assert(failures@.map_values(|m: String| m@) =~= binding_failure_texts(d1, f1, d2, f2, c3, false, d4, false));
        match r3 {
            Ok(()) => {
                passed = passed + 1;
            },
            Err(e) => {
                failed = failed + 1;
                failures.push(message("Structure binding: ", e.as_str()));
            },
        }
        assert(failures@.map_values(|m: String| m@) =~= binding_failure_texts(d1, f1, d2, f2, c3, f3, d4, false));
        match r4 {
            Ok(()) => {
                passed = passed + 1;
            },
            Err(e) => {
                failed = failed + 1;
                failures.push(message("Alternative leaf sets: ", e.as_str()));
            },
        }
        assert(failures@.map_values(|m: String| m@) =~= binding_failure_texts(d1, f1, d2, f2, c3, f3, d4, f4));
        let r = BindingTestResults { passed, failed, failures };
        assert(binding_draws_give(self.config, r, d1, f1, d2, f2, c3, f3, d4, f4));
        r
    }

    /// Draws up to `test_attempts` random lists of 3 to 10 leaves, shuffles
    /// each, and fails at the first whose reordering is a different list
    /// with the same root.
    fn test_leaf_order_binding(&self) -> (r: Result<(), String>)
        ensures
            r is Err ==> root_collision_exists(),
            exists|ds: Seq<(Seq<Seq<u8>>, Seq<Seq<u8>>)>|
                #[trigger] first_hit(ds, self.config.test_attempts as nat, order_hit(), r is Err)
                    && pairs_sized(ds, 3, 10, false) && (r matches Err(m) ==> m@ == order_text(ds)),
    {
        let mut rng = self.create_rng();
        let ghost mut ds: Seq<(Seq<Seq<u8>>, Seq<Seq<u8>>)> = Seq::empty();
        let mut round: usize = 0;
        while round < self.config.test_attempts
            invariant
                0 <= round <= self.config.test_attempts,
                ds.len() == round,
                pairs_sized(ds, 3, 10, false),
                forall|i: int| 0 <= i < ds.len() ==> !#[trigger] order_hit()(ds, i),
            decreases self.config.test_attempts - round,
        {
            let leaf_count = random_in_range(&mut rng, 3, 10);
            let leaves = random_leaves(&mut rng, leaf_count, 1, 50);
            let mut shuffled = copy_leaves(leaves.as_slice());
            let ghost before_shuffle = shuffled@;
            shuffle_leaves(&mut rng, &mut shuffled);
            proof {
                vstd::seq_lib::to_multiset_len(shuffled@);
                vstd::seq_lib::to_multiset_len(before_shuffle);
                assert(shuffled@.len() == leaves@.len());
            }
            let hit = order_attempt(leaves.as_slice(), shuffled.as_slice());
            let ghost item = (leaf_bytes(leaves@), leaf_bytes(shuffled@));
            let ghost nds = ds.push(item);
            proof {
                assert forall|i: int| 0 <= i < ds.len() implies !#[trigger] order_hit()(nds, i) by {
                    assert(nds[i] == ds[i]);
                    assert(!order_hit()(ds, i));
                }
                assert forall|i: int| 0 <= i < nds.len() implies 3 <= (#[trigger] nds[i]).0.len() <= 10
                    && nds[i].1.len() == nds[i].0.len() && (false ==> nds[i].0 != nds[i].1) by {
                    if i < ds.len() {
                        assert(nds[i] == ds[i]);
                    }
                }
                assert(nds.last() == item);
            }
            if hit {
                let root1 = root_of(copy_leaves(leaves.as_slice()));
                proof {
                    assert(order_hit()(nds, nds.len() - 1));
                }
                let m = message(
                    "Order binding failed! Same root from different leaf orders: root=",
                    hash_debug(&root1).as_str(),
                );
                let r: Result<(), String> = Err(m);
                assert(first_hit(nds, self.config.test_attempts as nat, order_hit(), r is Err)
                    && pairs_sized(nds, 3, 10, false) && (r matches Err(m) ==> m@
                    == "Order binding failed! Same root from different leaf orders: root="@ + debug_text(
                    merkle_root(nds.last().0),
                )));
                return r;
            }
            proof {
                assert(!order_hit()(nds, nds.len() - 1));
                ds = nds;
            }
            round = round + 1;
        }
        assert(first_hit(ds, self.config.test_attempts as nat, order_hit(), false));
        Ok(())
    }

    /// Draws up to `test_attempts` random lists of 2 to 10 leaves, changes
    /// one leaf of each, and fails at the first whose changed copy keeps
    /// the root.
    fn test_content_binding(&self) -> (r: Result<(), String>)
        ensures
            r is Err ==> root_collision_exists(),
            exists|ds: Seq<(Seq<Seq<u8>>, Seq<Seq<u8>>)>|
                #[trigger] first_hit(ds, self.config.test_attempts as nat, content_hit(), r is Err)
                    && pairs_sized(ds, 2, 10, true) && (r matches Err(m) ==> m@ == content_text(ds)),
    {
        let mut rng = self.create_rng();
        let ghost mut ds: Seq<(Seq<Seq<u8>>, Seq<Seq<u8>>)> = Seq::empty();
        let mut round: usize = 0;
        while round < self.config.test_attempts
            invariant
                0 <= round <= self.config.test_attempts,
                ds.len() == round,
                pairs_sized(ds, 2, 10, true),
                forall|i: int| 0 <= i < ds.len() ==> !#[trigger] content_hit()(ds, i),
            decreases self.config.test_attempts - round,
        {
            let leaf_count = random_in_range(&mut rng, 2, 10);
            let leaves = random_leaves(&mut rng, leaf_count, 1, 50);
            let mut modified = copy_leaves(leaves.as_slice());
            let modify_index = random_below(&mut rng, 0, modified.len());
            let mut leaf = copy_leaf(&modified[modify_index]);
            if leaf.len() == 0 {
                leaf.push(1);
            } else {
                let pos = random_below(&mut rng, 0, leaf.len());
                let old_byte = leaf[pos];
                let flipped = old_byte ^ 1u8;
                assert(flipped != old_byte) by (bit_vector)
                    requires
                        flipped == old_byte ^ 1u8,
                ;
                leaf.set(pos, flipped);
                assert(leaf@[pos as int] != old_byte);
            }
            let ghost old_leaf = modified@[modify_index as int]@;
            modified.set(modify_index, leaf);
            proof {
                assert(leaf_bytes(modified@)[modify_index as int] != leaf_bytes(leaves@)[modify_index as int]);
            }
            let ghost mod_data = leaf_bytes(modified@);
            let ghost item = (leaf_bytes(leaves@), mod_data);
            let ghost nds = ds.push(item);
            proof {
                assert(mod_data != leaf_bytes(leaves@));
                assert forall|i: int| 0 <= i < ds.len() implies !#[trigger] content_hit()(nds, i) by {
                    assert(nds[i] == ds[i]);
                    assert(!content_hit()(ds, i));
                }
                assert forall|i: int| 0 <= i < nds.len() implies 2 <= (#[trigger] nds[i]).0.len() <= 10
                    && nds[i].1.len() == nds[i].0.len() && (true ==> nds[i].0 != nds[i].1) by {
                    if i < ds.len() {
                        assert(nds[i] == ds[i]);
                    }
                }
                assert(nds.last() == item);
            }
            let hit = content_attempt(leaves.as_slice(), modified.as_slice());
            if hit {
                let root1 = root_of(copy_leaves(leaves.as_slice()));
                proof {
                    assert(is_root_collision(leaf_bytes(leaves@), mod_data));
                    assert(content_hit()(nds, nds.len() - 1));
                }
                let m = message(
                    "Content binding failed! Same root after leaf modification: root=",
                    hash_debug(&root1).as_str(),
                );
                let r: Result<(), String> = Err(m);
                assert(first_hit(nds, self.config.test_attempts as nat, content_hit(), r is Err)
                    && pairs_sized(nds, 2, 10, true) && (r matches Err(m) ==> m@
                    == "Content binding failed! Same root after leaf modification: root="@ + debug_text(
                    merkle_root(nds.last().0),
                )));
                return r;
            }
            proof {
                assert(!content_hit()(nds, nds.len() - 1));
                ds = nds;
            }
            round = round + 1;
        }
        assert(first_hit(ds, self.config.test_attempts as nat, content_hit(), false));
        Ok(())
    }

    /// Trees of two to five one-letter leaves must not have the zero root;
    /// fails at the first count whose tree does.
    fn test_structure_binding(&self) -> (r: Result<(), String>)
        ensures
            r is Err <==> exists|c: nat| 2 <= c <= 5 && #[trigger] letters_have_zero_root(c),
            r matches Err(m) ==> exists|c: nat| #[trigger] first_zero_count(c) && m@ == structure_text(c),
    {
        let mut count: usize = 2;
        while count <= 5
            invariant
                2 <= count <= 6,
                forall|c: nat| 2 <= c < count ==> !#[trigger] letters_have_zero_root(c),
            decreases 6 - count,
        {
            let leaves = letters(count);
            let root = root_of(leaves);
            let zero = [0u8; 32];
            assert(zero@ =~= Seq::new(32, |i: int| 0u8));
            if hash_eq(&root, &zero) {
                assert(letters_have_zero_root(count as nat));
                assert(first_zero_count(count as nat));
                let mut m = String::from_str("Structure binding failed for ");
                m.append(number_text(count).as_str());
                m.append(" leaves: zero root");
                assert(m@ == structure_text(count as nat));
                return Err(m);
            }
            count = count + 1;
        }
        Ok(())
    }

    /// Draws up to `test_attempts` random leaf lists of 2 to 8 leaves,
    /// remembers the list of each root seen, and fails at the first list
    /// that differs from an earlier one with the same root.
    fn test_alternative_leaf_sets(&self) -> (r: Result<(), String>)
        ensures
            r is Err ==> root_collision_exists(),
            exists|ds: Seq<Seq<Seq<u8>>>|
                #[trigger] first_hit(ds, self.config.test_attempts as nat, repeated_leaf_root_hit(), r is Err)
                    && lists_sized(ds, 2, 8) && (r matches Err(m) ==> m@ == alternative_text(ds)),
    {
        let mut rng = self.create_rng();
        let mut seen_roots: Vec<(Hash32, Vec<Vec<u8>>)> = Vec::new();
        let ghost mut ds: Seq<Seq<Seq<u8>>> = Seq::empty();
        // `src[t]`: the draw that seen entry `t` records; `rep[j]`: the seen
        // entry holding the list of draw `j`.
        let ghost mut src: Seq<int> = Seq::empty();
        let ghost mut rep: Seq<int> = Seq::empty();
        let mut round: usize = 0;
        while round < self.config.test_attempts
            invariant
                0 <= round <= self.config.test_attempts,
                ds.len() == round,
                lists_sized(ds, 2, 8),
                forall|i: int| 0 <= i < ds.len() ==> !#[trigger] repeated_leaf_root_hit()(ds, i),
                seen_leaves_ok(seen_roots@),
                src.len() == seen_roots@.len(),
                rep.len() == ds.len(),
                forall|t: int| 0 <= t < seen_roots@.len() ==> 0 <= #[trigger] src[t] < ds.len()
                    && leaf_bytes(seen_roots@[t].1@) == ds[src[t]],
                forall|j: int| 0 <= j < ds.len() ==> 0 <= #[trigger] rep[j] < seen_roots@.len()
                    && leaf_bytes(seen_roots@[rep[j]].1@) == ds[j],
            decreases self.config.test_attempts - round,
        {
            let leaf_count = random_in_range(&mut rng, 2, 8);
            let leaves = random_leaves(&mut rng, leaf_count, 1, 20);
            let root = root_of(copy_leaves(leaves.as_slice()));
            let ghost cur = leaf_bytes(leaves@);
            assert(cur.len() == leaf_count);
            let lookup = check_seen_leaf_set(&seen_roots, &root, leaves.as_slice());
            if let SeenRoot::Conflict(t) = lookup {
                let ghost nds = ds.push(cur);
                proof {
                    assert(0 <= src[t as int] < ds.len());
                    lemma_leaf_repeated_root_push(ds, cur, src[t as int]);
                }
                let m = message(
                    "Binding violation! Same root from different leaf sets: root=",
                    hash_debug(&root).as_str(),
                );
                let r: Result<(), String> = Err(m);
                assert(first_hit(nds, self.config.test_attempts as nat, repeated_leaf_root_hit(), r is Err)
                    && lists_sized(nds, 2, 8) && (r matches Err(m) ==> m@
                    == "Binding violation! Same root from different leaf sets: root="@ + debug_text(
                    merkle_root(nds.last()),
                )));
                return r;
            }
            let ghost nds = ds.push(cur);
            proof {
                assert forall|k: int| 0 <= k < ds.len() implies !#[trigger] is_root_collision(ds[k], cur) by {
                    let u = rep[k];
                    if is_root_collision(ds[k], cur) {
                        assert(seen_roots@[u].0@ == root@);
                    }
                }
                lemma_leaf_no_repeated_root_push(ds, cur);
            }
            let ghost old_seen = seen_roots@;
            let is_new = match lookup {
                SeenRoot::New => true,
                _ => false,
            };
            if is_new {
                seen_roots.push((root, leaves));
            }
            proof {
                match lookup {
                    SeenRoot::Seen(t) => {
                        rep = rep.push(t as int);
                    },
                    _ => {
                        src = src.push(ds.len() as int);
                        rep = rep.push(old_seen.len() as int);
                    },
                }
                assert forall|u: int| 0 <= u < seen_roots@.len() implies 0 <= #[trigger] src[u] < nds.len()
                    && leaf_bytes(seen_roots@[u].1@) == nds[src[u]] by {
                    if u < old_seen.len() {
                        assert(seen_roots@[u] == old_seen[u]);
                    }
                }
                assert forall|j: int| 0 <= j < nds.len() implies 0 <= #[trigger] rep[j] < seen_roots@.len()
                    && leaf_bytes(seen_roots@[rep[j]].1@) == nds[j] by {
                    if j < ds.len() {
                        assert(seen_roots@[rep[j]] == old_seen[rep[j]]);
                    }
                }
                ds = nds;
            }
            round = round + 1;
        }
        assert(first_hit(ds, self.config.test_attempts as nat, repeated_leaf_root_hit(), false));
        Ok(())
    }

    /// Whether two leaf lists differ in length or in some leaf (order
    /// matters).
    pub fn different_leaf_sets(&self, set1: &[Vec<u8>], set2: &[Vec<u8>]) -> (r: bool)
        ensures
            r == (leaf_bytes(set1@) != leaf_bytes(set2@)),
    {
        !leaves_equal(set1, set2)
    }

    /// The generator for one test.
    fn create_rng(&self) -> ChaCha8Rng {
        create_rng(self.config.seed)
    }
}

/// One leaf-order check: whether `reordered` is a different, non-empty
/// list of leaves with the root of the non-empty list `leaves`.
pub fn order_attempt(leaves: &[Vec<u8>], reordered: &[Vec<u8>]) -> (hit: bool)
    ensures
        hit == is_root_collision(leaf_bytes(leaves@), leaf_bytes(reordered@)),
{
    if leaves.len() == 0 || reordered.len() == 0 {
        return false;
    }
    let root1 = root_of(copy_leaves(leaves));
    let root2 = root_of(copy_leaves(reordered));
    hash_eq(&root1, &root2) && !leaves_equal(leaves, reordered)
}

/// One content check: whether the leaves and their modified copy share a
/// root.
pub fn content_attempt(leaves: &[Vec<u8>], modified: &[Vec<u8>]) -> (hit: bool)
    requires
        leaves@.len() >= 1,
        modified@.len() >= 1,
    ensures
        hit == (merkle_root(leaf_bytes(leaves@)) == merkle_root(leaf_bytes(modified@))),
{
    let root1 = root_of(copy_leaves(leaves));
    let root2 = root_of(copy_leaves(modified));
    hash_eq(&root1, &root2)
}

/// One alternative-leaf-set check: compares the root and leaves of a new
/// list with each seen entry in turn, stopping at the first entry with the
/// same root and different leaves.
pub fn check_seen_leaf_set(seen: &Vec<(Hash32, Vec<Vec<u8>>)>, root: &Hash32, leaves: &[Vec<u8>]) -> (r: SeenRoot)
    requires
        seen_leaves_ok(seen@),
        leaves@.len() >= 1,
        root@ == merkle_root(leaf_bytes(leaves@)),
    ensures
        r matches SeenRoot::Conflict(t) ==> {
            &&& t < seen@.len()
            &&& is_root_collision(leaf_bytes(seen@[t as int].1@), leaf_bytes(leaves@))
            &&& forall|u: int| 0 <= u < t && #[trigger] seen@[u].0@ == root@ ==> leaf_bytes(seen@[u].1@)
                == leaf_bytes(leaves@)
        },
        r matches SeenRoot::Seen(t) ==> {
            &&& t < seen@.len()
            &&& seen@[t as int].0@ == root@
            &&& leaf_bytes(seen@[t as int].1@) == leaf_bytes(leaves@)
            &&& forall|u: int| 0 <= u < seen@.len() && #[trigger] seen@[u].0@ == root@ ==> leaf_bytes(seen@[u].1@)
                == leaf_bytes(leaves@)
            &&& forall|u: int| t < u < seen@.len() ==> #[trigger] seen@[u].0@ != root@
        },
        r is New ==> forall|u: int| 0 <= u < seen@.len() ==> #[trigger] seen@[u].0@ != root@,
{
    let ghost cur = leaf_bytes(leaves@);
    let mut found: Option<usize> = None;
    let mut t: usize = 0;
    while t < seen.len()
        invariant
            0 <= t <= seen@.len(),
            seen_leaves_ok(seen@),
            cur == leaf_bytes(leaves@),
            cur.len() >= 1,
            root@ == merkle_root(cur),
            forall|u: int| 0 <= u < t && #[trigger] seen@[u].0@ == root@ ==> leaf_bytes(seen@[u].1@) == cur,
            found matches Some(f) ==> {
                &&& f < t
                &&& seen@[f as int].0@ == root@
                &&& leaf_bytes(seen@[f as int].1@) == cur
                &&& forall|u: int| f < u < t ==> #[trigger] seen@[u].0@ != root@
            },
            found is None ==> forall|u: int| 0 <= u < t ==> #[trigger] seen@[u].0@ != root@,
        decreases seen@.len() - t,
    {
        if hash_eq(&seen[t].0, root) {
            if !leaves_equal(leaves, seen[t].1.as_slice()) {
                assert(leaf_bytes(seen@[t as int].1@).len() >= 1);
                assert(is_root_collision(leaf_bytes(seen@[t as int].1@), cur));
                return SeenRoot::Conflict(t);
            }
            found = Some(t);
        }
        t = t + 1;
    }
    match found {
        Some(f) => SeenRoot::Seen(f),
        None => SeenRoot::New,
    }
}

/// A copy of one leaf.
fn copy_leaf(v: &Vec<u8>) -> (r: Vec<u8>)
    ensures
        r@ == v@,
{
    crate::security::copy_bytes(v.as_slice())
}

/// The leaves `"a"`, `"b"`, … , `count` of them.
fn letters(count: usize) -> (v: Vec<Vec<u8>>)
    requires
        1 <= count <= 26,
    ensures
        leaf_bytes(v@) == letter_leaves(count as nat),
        v@.len() >= 1,
{
    let mut v: Vec<Vec<u8>> = Vec::new();
    let mut i: usize = 0;
    while i < count
        invariant
            0 <= i <= count <= 26,
            v@.len() == i,
            forall|t: int| 0 <= t < i ==> #[trigger] v@[t]@ == seq![(97 + t) as u8],
        decreases count - i,
    {
        let mut leaf: Vec<u8> = Vec::new();
        leaf.push(97u8 + i as u8);
        assert(leaf@ =~= seq![(97 + i) as u8]);
        v.push(leaf);
        i = i + 1;
    }
    assert(leaf_bytes(v@) =~= letter_leaves(count as nat));
    v
}

} // verus!
