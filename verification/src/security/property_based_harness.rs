//! Randomized checks of the properties that Merkle trees are proved to
//! have: deterministic roots, complete proofs and non-degenerate trees.

use rand_chacha::ChaCha8Rng;
use vstd::prelude::*;

use crate::merkle::{
    hash_eq, leaf_bytes, leaf_level, lemma_merkle_completeness, merkle_root, root_of_level, verify,
    MerkleTree,
};
use crate::rng::{create_rng, random_in_range, random_leaves};
use crate::security::{copy_leaves, first_hit, SecurityTestConfig};

verus! {

/// The Merkle root of some leaf list is the all-zero digest.
pub open spec fn zero_root_exists() -> bool {
    exists|l: Seq<Seq<u8>>| l.len() >= 1 && #[trigger] merkle_root(l) == Seq::new(32, |i: int| 0u8)
}

/// The leaf list drawn at `i` has the all-zero root.
pub open spec fn zero_root_hit() -> spec_fn(Seq<Seq<Seq<u8>>>, int) -> bool {
    |s: Seq<Seq<Seq<u8>>>, i: int| merkle_root(s[i]) == Seq::new(32, |k: int| 0u8)
}

/// The number of cases run per property: the configured number, at most
/// 100.
pub open spec fn case_count(c: PropertyTestConfig) -> nat {
    if c.test_cases < 100 {
        c.test_cases as nat
    } else {
        100
    }
}

/// Every drawn leaf list has between `lo` and `hi` leaves.
pub open spec fn lists_between(ds: Seq<Seq<Seq<u8>>>, lo: nat, hi: nat) -> bool {
    forall|i: int| 0 <= i < ds.len() ==> lo <= (#[trigger] ds[i]).len() <= hi
}

/// Randomized property tests.
pub struct PropertyBasedHarness {
    /// The test settings
    pub config: PropertyTestConfig,
}

/// Settings of the property tests.
#[derive(Debug, Clone)]
pub struct PropertyTestConfig {
    /// Number of random cases (at most 100 are run per property)
    pub test_cases: usize,
    /// Seed for reproducible runs; entropy when absent
    pub seed: Option<u64>,
}

/// Outcome of the property tests.
#[derive(Debug)]
pub struct PropertyTestResults {
    /// Properties that held
    pub passed: usize,
    /// Properties that failed
    pub failed: usize,
    /// One message per failed property
    pub failures: Vec<String>,
}

impl PropertyBasedHarness {
    /// A harness with as many cases as the suite has iterations.
    pub fn new(security_config: &SecurityTestConfig) -> (h: Self)
        ensures
            h.config.test_cases == security_config.test_iterations,
            h.config.seed == security_config.seed,
    {
        PropertyBasedHarness {
            config: PropertyTestConfig {
                test_cases: security_config.test_iterations,
                seed: security_config.seed,
            },
        }
    }

    /// Runs the three property tests. Root determinism and proof
    /// verification always hold; tree consistency fails only on a tree
    /// whose root is the zero digest.
    pub fn run_property_tests(&self) -> (r: PropertyTestResults)
        ensures
            r.passed + r.failed == 3,
            r.passed >= 2,
            r.failures@.len() == r.failed,
            r.failed > 0 ==> zero_root_exists(),
            exists|ds: Seq<Seq<Seq<u8>>>, f: bool|
                #[trigger] first_hit(ds, case_count(self.config), zero_root_hit(), f) && lists_between(ds, 2, 10)
                    && r.failed == (if f { 1int } else { 0int }) && r.failures@.map_values(|m: String| m@) == (if f {
                    seq!["Tree consistency property failed"@]
                } else {
                    Seq::empty()
                }),
    {
        let mut passed: usize = 0;
        let mut failed: usize = 0;
        let mut failures: Vec<String> = Vec::new();
        if self.test_root_determinism().is_ok() {
            passed = passed + 1;
        } else {
            failed = failed + 1;
            failures.push(String::from_str("Root determinism property failed"));
        }
        if self.test_proof_verification().is_ok() {
            passed = passed + 1;
        } else {
            failed = failed + 1;
            failures.push(String::from_str("Proof verification property failed"));
        }
        let r3 = self.test_tree_consistency();
        let ghost f = r3 is Err;
        let ghost ds = choose|ds: Seq<Seq<Seq<u8>>>|
            #[trigger] first_hit(ds, case_count(self.config), zero_root_hit(), f) && lists_between(ds, 2, 10)
                && (r3 matches Err(m) ==> m@ == "Zero root detected (unlikely coincidence)"@);
        if r3.is_ok() {
            passed = passed + 1;
        } else {
            failed = failed + 1;
            failures.push(String::from_str("Tree consistency property failed"));
        }
        assert(failures@.map_values(|m: String| m@) =~= (if f {
            seq!["Tree consistency property failed"@]
        } else {
            Seq::<Seq<char>>::empty()
        }));
        let r = PropertyTestResults { passed, failed, failures };
        assert(first_hit(ds, case_count(self.config), zero_root_hit(), f));
        r
    }

    /// The number of cases run per property: at most 100.
    fn cases(&self) -> (n: usize)
        ensures
            n == if self.config.test_cases < 100 {
                self.config.test_cases
            } else {
                100
            },
    {
        if self.config.test_cases < 100 {
            self.config.test_cases
        } else {
            100
        }
    }

    /// Builds each random tree twice and compares the roots.
    fn test_root_determinism(&self) -> (r: Result<(), String>)
        ensures
            r is Ok,
    {
        let mut rng = self.create_rng();
        let n = self.cases();
        let mut round: usize = 0;
        while round < n
            invariant
                0 <= round <= n,
            decreases n - round,
        {
            let count = random_in_range(&mut rng, 1, 10);
            let leaves = random_leaves(&mut rng, count, 1, 50);
            let tree1 = MerkleTree::from_leaves(copy_leaves(leaves.as_slice()));
            let tree2 = MerkleTree::from_leaves(leaves);
            let r1 = tree1.root();
            let r2 = tree2.root();
            if !hash_eq(&r1, &r2) {
                return Err("Non-deterministic root detected".to_string());
            }
            round = round + 1;
        }
        Ok(())
    }

    /// Proves every leaf of random trees and verifies each proof.
    fn test_proof_verification(&self) -> (r: Result<(), String>)
        ensures
            r is Ok,
    {
        let mut rng = self.create_rng();
        let n = self.cases();
        let mut round: usize = 0;
        while round < n
            invariant
                0 <= round <= n,
            decreases n - round,
        {
            let count = random_in_range(&mut rng, 1, 10);
            let leaves = random_leaves(&mut rng, count, 1, 50);
            let ghost data = leaf_bytes(leaves@);
            let tree = MerkleTree::from_leaves(copy_leaves(leaves.as_slice()));
            let root = tree.root();
            let mut i: usize = 0;
            while i < leaves.len()
                invariant
                    0 <= i <= leaves@.len(),
                    data == leaf_bytes(leaves@),
                    tree.leaf_hashes() == leaf_level(data),
                    root@ == merkle_root(data),
                decreases leaves@.len() - i,
            {
                let proof = tree.prove(i);
                proof {
                    lemma_merkle_completeness(data, i as int);
                }
                if !verify(root, leaves[i].as_slice(), proof) {
                    return Err(crate::security::message("Proof verification failed for leaf ", i.to_string().as_str()));
                }
                i = i + 1;
            }
            round = round + 1;
        }
        Ok(())
    }

    /// Builds `cases()` random trees of 2 to 10 leaves and fails at the first
    /// whose root is the all-zero digest (no tree built is empty).
    fn test_tree_consistency(&self) -> (r: Result<(), String>)
        ensures
            r is Err ==> zero_root_exists(),
            exists|ds: Seq<Seq<Seq<u8>>>|
                #[trigger] first_hit(
                    ds,
                    case_count(self.config),
                    zero_root_hit(),
                    r is Err,
                ) && lists_between(ds, 2, 10) && (r matches Err(m) ==> m@
                    == "Zero root detected (unlikely coincidence)"@),
    {
        let mut rng = self.create_rng();
        let n = self.cases();
        let ghost mut ds: Seq<Seq<Seq<u8>>> = Seq::empty();
        let mut round: usize = 0;
        while round < n
            invariant
                0 <= round <= n,
                n == case_count(self.config),
                ds.len() == round,
                lists_between(ds, 2, 10),
                forall|i: int| 0 <= i < ds.len() ==> !#[trigger] zero_root_hit()(ds, i),
            decreases n - round,
        {
            let count = random_in_range(&mut rng, 2, 10);
            let leaves = random_leaves(&mut rng, count, 1, 50);
            let ghost data = leaf_bytes(leaves@);
            let tree = MerkleTree::from_leaves(leaves);
            let tree_leaves = tree.leaves();
            assert(crate::merkle::hashes_view(tree_leaves@).len() == data.len());
            if tree_leaves.len() == 0 {
                return Err("Empty tree detected".to_string());
            }
            let hit = has_zero_root(&tree);
            let ghost nds = ds.push(data);
            proof {
                assert forall|i: int| 0 <= i < ds.len() implies !#[trigger] zero_root_hit()(nds, i) by {
                    assert(nds[i] == ds[i]);
                    assert(!zero_root_hit()(ds, i));
                }
                assert forall|i: int| 0 <= i < nds.len() implies 2 <= (#[trigger] nds[i]).len() <= 10 by {
                    if i < ds.len() {
                        assert(nds[i] == ds[i]);
                    }
                }
                assert(nds.last() == data);
            }
            if hit {
                proof {
                    assert(zero_root_hit()(nds, nds.len() - 1));
                }
                let r: Result<(), String> = Err("Zero root detected (unlikely coincidence)".to_string());
                assert(first_hit(
                    nds,
                    case_count(self.config),
                    zero_root_hit(),
                    r is Err,
                ) && lists_between(nds, 2, 10) && (r matches Err(m) ==> m@
                    == "Zero root detected (unlikely coincidence)"@));
                return r;
            }
            proof {
                assert(!zero_root_hit()(nds, nds.len() - 1));
                ds = nds;
            }
            round = round + 1;
        }
        assert(first_hit(ds, case_count(self.config), zero_root_hit(), false));
        Ok(())
    }

    /// The generator for one test.
    fn create_rng(&self) -> ChaCha8Rng {
        create_rng(self.config.seed)
    }
}

/// One tree-consistency check: whether the tree's root is the all-zero
/// digest.
pub fn has_zero_root(tree: &MerkleTree) -> (hit: bool)
    ensures
        hit == (root_of_level(tree.leaf_hashes()) == Seq::new(32, |i: int| 0u8)),
{
    let root = tree.root();
    let zero = [0u8; 32];
    assert(zero@ =~= Seq::new(32, |i: int| 0u8));
    hash_eq(&root, &zero)
}

} // verus!
