//! Security analysis of the Merkle tree: property checks, randomized
//! attack simulations and binding/collision testers.
//!
//! The simulations draw their inputs at random; what is verified is what
//! holds for every draw: a test reports a failure only when the inputs it
//! drew exhibit a real break (two leaf lists with one root, a forged proof,
//! a hash collision), and the properties that Merkle trees are proved to
//! have (deterministic roots, complete proofs) are never reported broken.

pub mod advanced_attacks;
pub mod attack_simulator;
pub mod binding_property_tester;
pub mod collision_tester;
pub mod dashboard;
pub mod property_based_harness;
pub mod security_properties;
pub mod statistical_analysis;

use vstd::prelude::*;
use vstd::string::StringExecFns;

use crate::groth16::{decimal_text, number_text};
use crate::merkle::{hashes_view, leaf_bytes, merkle_root, Hash32, MerkleTree};

use self::advanced_attacks::{
    advanced_outcome, AdvancedAttackConfig, AdvancedAttackResults, AdvancedAttackSimulator,
};
use self::attack_simulator::{attack_outcome, AttackResults, AttackSimConfig, AttackSimulator};
use self::binding_property_tester::{
    binding_outcome, BindingPropertyTester, BindingTestConfig, BindingTestResults,
};
use self::collision_tester::{collision_outcome, CollisionTestConfig, CollisionTestResults, CollisionTester};
use self::property_based_harness::{PropertyBasedHarness, PropertyTestConfig};

verus! {

/// Two different non-empty leaf lists with the same Merkle root.
pub open spec fn is_root_collision(l1: Seq<Seq<u8>>, l2: Seq<Seq<u8>>) -> bool {
    &&& l1 != l2
    &&& l1.len() >= 1
    &&& l2.len() >= 1
    &&& merkle_root(l1) == merkle_root(l2)
}

/// Some two different leaf lists share a Merkle root.
pub open spec fn root_collision_exists() -> bool {
    exists|l1: Seq<Seq<u8>>, l2: Seq<Seq<u8>>| #[trigger] is_root_collision(l1, l2)
}

/// A scan over items `ds`, drawn one after another, that stops at the first
/// item where `hit` holds (then `found`) or after `n` items with no hit.
pub open spec fn first_hit<T>(ds: Seq<T>, n: nat, hit: spec_fn(Seq<T>, int) -> bool, found: bool) -> bool {
    &&& ds.len() <= n
    &&& forall|i: int| 0 <= i < ds.len() - 1 ==> !#[trigger] hit(ds, i)
    &&& found ==> ds.len() >= 1 && hit(ds, ds.len() - 1)
    &&& !found ==> ds.len() == n && (ds.len() == 0 || !hit(ds, ds.len() - 1))
}

/// The text `hash_debug` gives for a digest.
pub open spec fn debug_text(h: Seq<u8>) -> Seq<char> {
    "["@ + debug_items(h) + "]"@
}

/// Settings shared by the security testers.
#[derive(Debug, Clone)]
pub struct SecurityTestConfig {
    /// Number of iterations per randomized test
    pub test_iterations: usize,
    /// Largest size of generated data
    pub max_data_size: usize,
    /// Whether to run the exhaustive (and quantum) variants
    pub exhaustive: bool,
    /// Seed for reproducible runs; entropy when absent
    pub seed: Option<u64>,
}

impl Default for SecurityTestConfig {
    fn default() -> (r: Self)
        ensures
            r.test_iterations == 1000,
            r.max_data_size == 1000,
            !r.exhaustive,
            r.seed is None,
    {
        SecurityTestConfig { test_iterations: 1000, max_data_size: 1000, exhaustive: false, seed: None }
    }
}

/// Outcome of the whole suite: counts of passed and failed tests, the
/// failure messages and, when enabled, the advanced attack outcome.
#[derive(Debug)]
pub struct SecurityTestResults {
    /// Tests that passed
    pub passed: usize,
    /// Tests that failed
    pub failed: usize,
    /// One message per failure
    pub failures: Vec<String>,
    /// Outcome of the advanced attacks, when they ran
    pub advanced_results: Option<AdvancedAttackResults>,
}

/// Byte-wise equality of two byte strings.
pub fn bytes_equal(a: &[u8], b: &[u8]) -> (r: bool)
    ensures
        r == (a@ == b@),
{
    if a.len() != b.len() {
        return false;
    }
    let mut i: usize = 0;
    while i < a.len()
        invariant
            a@.len() == b@.len(),
            0 <= i <= a@.len(),
            forall|j: int| 0 <= j < i ==> a@[j] == b@[j],
        decreases a@.len() - i,
    {
        if a[i] != b[i] {
            return false;
        }
        i = i + 1;
    }
    assert(a@ =~= b@);
    true
}

/// Equality of two lists of byte strings.
pub fn leaves_equal(a: &[Vec<u8>], b: &[Vec<u8>]) -> (r: bool)
    ensures
        r == (leaf_bytes(a@) == leaf_bytes(b@)),
{
    if a.len() != b.len() {
        assert(leaf_bytes(a@).len() != leaf_bytes(b@).len());
        return false;
    }
    let mut i: usize = 0;
    while i < a.len()
        invariant
            a@.len() == b@.len(),
            0 <= i <= a@.len(),
            forall|j: int| 0 <= j < i ==> #[trigger] leaf_bytes(a@)[j] == leaf_bytes(b@)[j],
        decreases a@.len() - i,
    {
        if !bytes_equal(a[i].as_slice(), b[i].as_slice()) {
            assert(leaf_bytes(a@)[i as int] != leaf_bytes(b@)[i as int]);
            return false;
        }
        i = i + 1;
    }
    assert(leaf_bytes(a@) =~= leaf_bytes(b@));
    true
}

/// Equality of two lists of digests.
pub fn hash_lists_equal(a: &Vec<Hash32>, b: &Vec<Hash32>) -> (r: bool)
    ensures
        r == (hashes_view(a@) == hashes_view(b@)),
{
    if a.len() != b.len() {
        assert(hashes_view(a@).len() != hashes_view(b@).len());
        return false;
    }
    let mut i: usize = 0;
    while i < a.len()
        invariant
            a@.len() == b@.len(),
            0 <= i <= a@.len(),
            forall|j: int| 0 <= j < i ==> #[trigger] hashes_view(a@)[j] == hashes_view(b@)[j],
        decreases a@.len() - i,
    {
        if !crate::merkle::hash_eq(&a[i], &b[i]) {
            assert(hashes_view(a@)[i as int] != hashes_view(b@)[i as int]);
            return false;
        }
        i = i + 1;
    }
    assert(hashes_view(a@) =~= hashes_view(b@));
    true
}

/// A copy of a byte string.
pub fn copy_bytes(v: &[u8]) -> (r: Vec<u8>)
    ensures
        r@ == v@,
{
    let mut r: Vec<u8> = Vec::new();
    let mut i: usize = 0;
    while i < v.len()
        invariant
            0 <= i <= v@.len(),
            r@ == v@.subrange(0, i as int),
        decreases v@.len() - i,
    {
        r.push(v[i]);
        i = i + 1;
        assert(r@ =~= v@.subrange(0, i as int));
    }
    assert(r@ =~= v@);
    r
}

/// A copy of a list of byte strings.
pub fn copy_leaves(v: &[Vec<u8>]) -> (r: Vec<Vec<u8>>)
    ensures
        leaf_bytes(r@) == leaf_bytes(v@),
        r@.len() == v@.len(),
{
    let mut r: Vec<Vec<u8>> = Vec::new();
    let mut i: usize = 0;
    while i < v.len()
        invariant
            0 <= i <= v@.len(),
            r@.len() == i,
            forall|j: int| 0 <= j < i ==> #[trigger] r@[j]@ == v@[j]@,
        decreases v@.len() - i,
    {
        r.push(copy_bytes(v[i].as_slice()));
        i = i + 1;
    }
    assert(leaf_bytes(r@) =~= leaf_bytes(v@));
    r
}

/// The Merkle root of a non-empty list of leaves.
pub fn root_of(leaves: Vec<Vec<u8>>) -> (r: Hash32)
    requires
        leaves@.len() >= 1,
    ensures
        r@ == merkle_root(leaf_bytes(leaves@)),
{
    let tree = MerkleTree::from_leaves(leaves);
    tree.root()
}

/// The decimal numbers of a list of bytes, separated by `", "`.
pub open spec fn debug_items(b: Seq<u8>) -> Seq<char>
    decreases b.len(),
{
    if b.len() == 0 {
        Seq::empty()
    } else if b.len() == 1 {
        decimal_text(b[0] as nat)
    } else {
        debug_items(b.drop_last()) + ", "@ + decimal_text(b.last() as nat)
    }
}

/// The text of a digest as std's `Debug` prints a byte array:
/// `[b0, b1, …, b31]`.
pub fn hash_debug(h: &Hash32) -> (s: String)
    ensures
        s@ == debug_text(h@),
{
    let mut s = String::from_str("[");
    let ghost start = s@;
    let mut i: usize = 0;
    while i < 32
        invariant
            0 <= i <= 32,
            start == "["@,
            s@ == start + debug_items(h@.subrange(0, i as int)),
        decreases 32 - i,
    {
        let ghost pre = h@.subrange(0, i as int);
        let ghost next = h@.subrange(0, i + 1);
        assert(next.drop_last() =~= pre);
        if i > 0 {
            s.append(", ");
        }
        s.append(number_text(h[i] as usize).as_str());
        i = i + 1;
        assert(s@ =~= start + debug_items(next));
    }
    assert(h@.subrange(0, 32) =~= h@);
    s.append("]");
    s
}

/// `prefix` followed by `detail`.
pub fn message(prefix: &str, detail: &str) -> (r: String)
    ensures
        r@ == prefix@ + detail@,
{
    let mut m = String::from_str(prefix);
    m.append(detail);
    m
}

/// The full security test suite.
pub struct SecurityTestSuite {
    config: SecurityTestConfig,
    collision_tester: CollisionTester,
    binding_tester: BindingPropertyTester,
    attack_simulator: AttackSimulator,
    harness: PropertyBasedHarness,
    advanced_attacks: Option<AdvancedAttackSimulator>,
}

/// The settings of the collision, binding, attack and property testers
/// for the suite settings `c`: as many trees, attempts and cases as the
/// suite has iterations, ten collision rounds, at most `max_data_size`
/// leaves, and the suite's seed.
pub open spec fn tester_configs_for(c: SecurityTestConfig) -> (
    CollisionTestConfig,
    BindingTestConfig,
    AttackSimConfig,
    PropertyTestConfig,
) {
    (
        CollisionTestConfig { hash_attempts: c.test_iterations, test_rounds: 10, seed: c.seed },
        BindingTestConfig { test_attempts: c.test_iterations, max_leaves: c.max_data_size, seed: c.seed },
        AttackSimConfig { attack_attempts: c.test_iterations, seed: c.seed },
        PropertyTestConfig { test_cases: c.test_iterations, seed: c.seed },
    )
}

/// The settings of the advanced attacks for the suite settings `c`: half
/// the iterations as attempts, ten times them as preimage budget.
pub open spec fn advanced_config_for(c: SecurityTestConfig, quantum: bool) -> AdvancedAttackConfig {
    AdvancedAttackConfig {
        attack_attempts: (c.test_iterations / 2) as usize,
        max_budget: (c.test_iterations * 10) as usize,
        seed: c.seed,
        quantum_simulation: quantum,
    }
}

impl SecurityTestSuite {
    /// The suite with the default settings: 1000 iterations and data sizes,
    /// no exhaustive mode, no seed, and no quantum simulation.
    pub fn new() -> (s: Self)
        ensures
            s.config_spec() == (SecurityTestConfig {
                test_iterations: 1000,
                max_data_size: 1000,
                exhaustive: false,
                seed: None,
            }),
            s.quantum_spec() == Some(false),
            s.tester_configs() == tester_configs_for(s.config_spec()),
            s.advanced_config() == Some(advanced_config_for(s.config_spec(), false)),
    {
        Self::with_config(SecurityTestConfig::default())
    }

    /// The settings the suite runs with.
    pub closed spec fn config_spec(&self) -> SecurityTestConfig {
        self.config
    }

    /// The settings of the collision, binding, attack and property testers.
    pub closed spec fn tester_configs(&self) -> (
        CollisionTestConfig,
        BindingTestConfig,
        AttackSimConfig,
        PropertyTestConfig,
    ) {
        (self.collision_tester.config, self.binding_tester.config, self.attack_simulator.config, self.harness.config)
    }

    /// The settings of the advanced attacks, when they are enabled.
    pub closed spec fn advanced_config(&self) -> Option<AdvancedAttackConfig> {
        match self.advanced_attacks {
            Some(a) => Some(a.config),
            None => None,
        }
    }

    /// Whether the advanced attacks run with the quantum simulation.
    pub closed spec fn quantum_spec(&self) -> Option<bool> {
        match self.advanced_attacks {
            Some(a) => Some(a.config.quantum_simulation),
            None => None,
        }
    }

    /// The suite with the given settings; the advanced attacks run half as
    /// many attempts, with ten times the iterations as preimage budget, and
    /// the quantum simulation only in exhaustive mode.
    pub fn with_config(config: SecurityTestConfig) -> (s: Self)
        requires
            config.test_iterations <= usize::MAX / 10,
        ensures
            s.config_spec() == config,
            s.quantum_spec() == Some(config.exhaustive),
            s.tester_configs() == tester_configs_for(config),
            s.advanced_config() == Some(advanced_config_for(config, config.exhaustive)),
    {
        let exhaustive = config.exhaustive;
        Self::with_advanced_attacks(config, exhaustive)
    }

    /// The suite with the given settings and the quantum simulation switched
    /// as asked.
    pub fn with_advanced_attacks(config: SecurityTestConfig, quantum_enabled: bool) -> (s: Self)
        requires
            config.test_iterations <= usize::MAX / 10,
        ensures
            s.config_spec() == config,
            s.quantum_spec() == Some(quantum_enabled),
            s.tester_configs() == tester_configs_for(config),
            s.advanced_config() == Some(advanced_config_for(config, quantum_enabled)),
    {
        let advanced_config = AdvancedAttackConfig {
            attack_attempts: config.test_iterations / 2,
            max_budget: config.test_iterations * 10,
            seed: config.seed,
            quantum_simulation: quantum_enabled,
        };
        SecurityTestSuite {
            collision_tester: CollisionTester::new(&config),
            binding_tester: BindingPropertyTester::new(&config),
            attack_simulator: AttackSimulator::new(&config),
            harness: PropertyBasedHarness::new(&config),
            advanced_attacks: Some(AdvancedAttackSimulator::new(advanced_config)),
            config,
        }
    }

    /// Runs the collision, binding and attack testers and, when enabled, the
    /// advanced attacks (`quantum_attempts` is the number of tries of the
    /// quantum simulation).
    pub fn run_all_tests(&self, quantum_attempts: usize) -> (r: SecurityTestResults)
        ensures
            r.passed + r.failed == 11,
            r.failures@.len() == r.failed,
            r.advanced_results is Some <==> self.quantum_spec() is Some,
            r.advanced_results matches Some(a) ==> self.advanced_config() matches Some(c) && advanced_outcome(
                c,
                quantum_attempts,
                a,
            ),
            r.failed > 0 ==> root_collision_exists()
                || collision_tester::hash_list_collision_exists()
                || collision_tester::domain_collision_exists()
                || collision_tester::node_leaf_collision_exists()
                || attack_simulator::manipulation_exists()
                || attack_simulator::zero_proof_forgery_exists()
                || (exists|c: nat| 2 <= c <= 5 && #[trigger] binding_property_tester::letters_have_zero_root(c)),
            exists|cr: CollisionTestResults, br: BindingTestResults, ar: AttackResults|
                #![trigger collision_outcome(self.tester_configs().0, cr), binding_outcome(self.tester_configs().1, br), attack_outcome(self.tester_configs().2, ar)]
                collision_outcome(self.tester_configs().0, cr) && binding_outcome(self.tester_configs().1, br)
                    && attack_outcome(self.tester_configs().2, ar) && r.passed == cr.passed + br.passed
                    + ar.passed && r.failed == cr.failed + br.failed + ar.failed && r.failures@
                    == cr.failures@ + br.failures@ + ar.failures@,
    {
        let mut passed: usize = 0;
        let mut failed: usize = 0;
        let mut failures: Vec<String> = Vec::new();
        let collision_results = self.collision_tester.run_tests();
        let ghost cr = collision_results;
        passed = passed + collision_results.passed;
        failed = failed + collision_results.failed;
        let mut cf = collision_results.failures;
        failures.append(&mut cf);
        let binding_results = self.binding_tester.run_tests();
        let ghost br = binding_results;
        passed = passed + binding_results.passed;
        failed = failed + binding_results.failed;
        let mut bf = binding_results.failures;
        failures.append(&mut bf);
        let attack_results = self.attack_simulator.run_attacks();
        let ghost ar = attack_results;
        passed = passed + attack_results.passed;
        failed = failed + attack_results.failed;
        let mut af = attack_results.failures;
        failures.append(&mut af);
        let advanced_results = match &self.advanced_attacks {
            Some(sim) => Some(sim.run_advanced_attacks(quantum_attempts)),
            None => None,
        };
        assert(failures@ =~= cr.failures@ + br.failures@ + ar.failures@);
        assert(collision_outcome(self.tester_configs().0, cr));
        assert(binding_outcome(self.tester_configs().1, br));
        assert(attack_outcome(self.tester_configs().2, ar));
        SecurityTestResults { passed, failed, failures, advanced_results }
    }

    /// Runs only the advanced attacks, when enabled.
    pub fn run_advanced_attacks_only(&self, quantum_attempts: usize) -> (r: Option<AdvancedAttackResults>)
        ensures
            r is Some <==> self.quantum_spec() is Some,
            r matches Some(a) ==> self.advanced_config() matches Some(c) && advanced_outcome(c, quantum_attempts, a),
    {
        match &self.advanced_attacks {
            Some(sim) => Some(sim.run_advanced_attacks(quantum_attempts)),
            None => None,
        }
    }

    /// The settings the suite runs with.
    pub fn config(&self) -> (c: &SecurityTestConfig)
        ensures
            *c == self.config_spec(),
    {
        &self.config
    }
}

} // verus!
