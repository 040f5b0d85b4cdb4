use zkp_learn::security::advanced_attacks::AttackResult;
use zkp_learn::security::dashboard::attack_metric;
use zkp_learn::security::attack_simulator::second_preimage_attempt;
use zkp_learn::security::attack_simulator::manipulation_attempt;
use zkp_learn::security::attack_simulator::zero_proof_attempt;
use zkp_learn::security::collision_tester::{check_seen_root, SeenRoot};
use zkp_learn::security::collision_tester::{domain_attempt, node_leaf_attempt};
use zkp_learn::security::binding_property_tester::{check_seen_leaf_set, content_attempt, order_attempt};
use zkp_learn::security::advanced_attacks::{oracle_attempt, preimage_attempt, timing_attempt};
use zkp_learn::security::property_based_harness::has_zero_root;
use zkp_learn::security::statistical_analysis::{
    bit_difference, count_ones, leading_word_le, StatisticalAnalyzer,
};
use zkp_learn::merkle::MerkleTree;
use zkp_learn::security::advanced_attacks::{AdvancedAttackConfig, AdvancedAttackSimulator};
use zkp_learn::security::attack_simulator::AttackSimulator;
use zkp_learn::security::binding_property_tester::BindingPropertyTester;
use zkp_learn::security::collision_tester::CollisionTester;
use zkp_learn::security::dashboard::{risk_level, DashboardConfig, RiskLevel};
use zkp_learn::security::property_based_harness::PropertyBasedHarness;
use zkp_learn::security::security_properties::SecurityProperties;
use zkp_learn::security::{
    bytes_equal, hash_debug, leaves_equal, message, root_of, SecurityTestConfig, SecurityTestSuite,
};

fn small_config() -> SecurityTestConfig {
    SecurityTestConfig { test_iterations: 10, max_data_size: 10, exhaustive: false, seed: Some(42) }
}

#[test]
fn test_attack_simulator_creation() {
    let config = SecurityTestConfig::default();
    let simulator = AttackSimulator::new(&config);
    assert_eq!(simulator.config.attack_attempts, 1000);
}

#[test]
fn test_attack_simulation() {
    let config = small_config();
    let simulator = AttackSimulator::new(&config);
    let results = simulator.run_attacks();
    // Every attack is resisted.
    assert_eq!(results.failed, 0);
    assert_eq!(results.passed, 3);
}

#[test]
fn test_binding_tester_creation() {
    let config = SecurityTestConfig::default();
    let tester = BindingPropertyTester::new(&config);
    assert_eq!(tester.config.test_attempts, 1000);
}

#[test]
fn test_different_leaf_sets_detection() {
    let config = SecurityTestConfig::default();
    let tester = BindingPropertyTester::new(&config);

    let set1 = vec![b"a".to_vec(), b"b".to_vec()];
    let set2 = vec![b"a".to_vec(), b"b".to_vec()];
    let set3 = vec![b"b".to_vec(), b"a".to_vec()];
    let set4 = vec![b"a".to_vec(), b"c".to_vec()];

    assert!(!tester.different_leaf_sets(&set1, &set2));
    assert!(tester.different_leaf_sets(&set1, &set3));
    assert!(tester.different_leaf_sets(&set1, &set4));
}

#[test]
fn different_leaf_sets_by_length() {
    let tester = BindingPropertyTester::new(&SecurityTestConfig::default());
    let set1 = vec![b"a".to_vec()];
    let set2 = vec![b"a".to_vec(), b"a".to_vec()];
    assert!(tester.different_leaf_sets(&set1, &set2));
}

#[test]
fn binding_tests_all_pass() {
    let tester = BindingPropertyTester::new(&small_config());
    let results = tester.run_tests();
    assert_eq!(results.failed, 0);
    assert_eq!(results.passed, 4);
    assert!(results.failures.is_empty());
}

#[test]
fn test_collision_tester_creation() {
    let config = SecurityTestConfig::default();
    let tester = CollisionTester::new(&config);
    assert_eq!(tester.config.hash_attempts, 1000);
}

#[test]
fn test_hash_truncation() {
    let config = SecurityTestConfig::default();
    let tester = CollisionTester::new(&config);

    let hash: [u8; 32] = [
        0x12, 0x34, 0x56, 0x78, 0x9A, 0xBC, 0xDE, 0xF0, 0x11, 0x22, 0x33, 0x44, 0x55, 0x66, 0x77,
        0x88, 0x99, 0xAA, 0xBB, 0xCC, 0xDD, 0xEE, 0xFF, 0x00, 0x12, 0x34, 0x56, 0x78, 0x9A, 0xBC,
        0xDE, 0xF0,
    ];

    let truncated = tester.truncate_hash(&hash, 16);
    assert_eq!(truncated, 0x5678);
}

#[test]
fn hash_truncation_other_widths() {
    let tester = CollisionTester::new(&SecurityTestConfig::default());
    let mut hash = [0u8; 32];
    hash[0] = 0x12;
    hash[1] = 0x34;
    hash[2] = 0x56;
    hash[3] = 0x78;
    assert_eq!(tester.truncate_hash(&hash, 8), 0x78);
    assert_eq!(tester.truncate_hash(&hash, 0), 0);
    assert_eq!(tester.truncate_hash(&hash, 31), 0x1234_5678);
    assert_eq!(tester.truncate_hash(&hash, 12), 0x678);
}

#[test]
fn test_collision_tester_standalone() {
    let config = small_config();
    let tester = CollisionTester::new(&config);
    let results = tester.run_tests();
    assert!(results.passed + results.failed > 0);
    assert_eq!(results.failures.len(), results.failed);
}

#[test]
fn test_property_harness_creation() {
    let config = SecurityTestConfig::default();
    let harness = PropertyBasedHarness::new(&config);
    assert_eq!(harness.config.test_cases, 1000);
}

#[test]
fn property_tests_all_pass() {
    let harness = PropertyBasedHarness::new(&small_config());
    let results = harness.run_property_tests();
    assert_eq!(results.failed, 0);
    assert!(results.passed > 0);
}

#[test]
fn test_security_properties_creation() {
    let props = SecurityProperties::new();
    assert!(!props.collision_resistance);
    assert!(!props.binding_property);
    assert_eq!(props.satisfied_count(), 0);
    assert!(!props.all_satisfied());
}

#[test]
fn security_properties_test_security_properties_verification() {
    let leaves = vec![b"leaf1".to_vec(), b"leaf2".to_vec(), b"leaf3".to_vec()];

    let tree = MerkleTree::from_leaves(leaves.clone());
    let props = SecurityProperties::verify_all(&tree, &leaves);

    assert!(props.soundness);
    assert!(props.completeness);
    assert!(props.domain_separation);
    assert!(props.satisfied_count() > 2);
}

#[test]
fn security_integration_test_security_properties_verification() {
    let leaves = vec![b"test_leaf_1".to_vec(), b"test_leaf_2".to_vec(), b"test_leaf_3".to_vec()];

    let tree = MerkleTree::from_leaves(leaves.clone());
    let properties = SecurityProperties::verify_all(&tree, &leaves);

    assert!(properties.soundness);
    assert!(properties.completeness);
    assert!(properties.domain_separation);
    assert!(properties.satisfied_count() > 2);
    assert!(properties.all_satisfied());
}

#[test]
fn test_domain_separation() {
    assert!(SecurityProperties::verify_domain_separation());
}

#[test]
fn test_security_suite_creation() {
    let suite = SecurityTestSuite::new();
    assert_eq!(suite.config().test_iterations, 1000);
    assert!(!suite.config().exhaustive);
}

#[test]
fn test_security_suite_with_config() {
    let config = SecurityTestConfig { test_iterations: 100, max_data_size: 100, exhaustive: true, seed: Some(42) };
    let suite = SecurityTestSuite::with_config(config);
    assert_eq!(suite.config().test_iterations, 100);
    assert!(suite.config().exhaustive);
    assert_eq!(suite.config().seed, Some(42));
}

#[test]
fn test_security_test_suite_with_config() {
    let suite = SecurityTestSuite::with_config(small_config());
    let results = suite.run_all_tests(3);
    assert!(results.passed + results.failed > 0);
    assert_eq!(results.passed + results.failed, 11);
    assert_eq!(results.failed, 0);
    assert!(results.advanced_results.is_some());
}

#[test]
fn test_advanced_attack_simulator_creation() {
    let config = AdvancedAttackConfig { attack_attempts: 100, max_budget: 1000, seed: Some(42), quantum_simulation: true };
    let simulator = AdvancedAttackSimulator::new(config);
    let results = simulator.run_advanced_attacks(31);
    assert!(results.total_attacks > 0);
    assert_eq!(results.total_attacks, 5);
    assert_eq!(results.attack_details.len(), 5);
}

#[test]
fn test_security_assessment_calculation() {
    let config = AdvancedAttackConfig { attack_attempts: 10, max_budget: 100, seed: Some(42), quantum_simulation: false };
    let simulator = AdvancedAttackSimulator::new(config);
    let results = simulator.run_advanced_attacks(0);
    assert_eq!(results.total_attacks, 4);
    assert!(!results.attack_details[0].success);
    assert!(!results.attack_details[1].success);
}

#[test]
fn test_dashboard_config() {
    let config = DashboardConfig {
        real_time_updates: true,
        update_interval: 500,
        max_history: 10,
        educational_mode: true,
        color_output: true,
    };
    assert_eq!(config.max_history, 10);
    let standard = DashboardConfig::standard();
    assert_eq!(standard.update_interval, 500);
    assert_eq!(standard.max_history, 10);
}

#[test]
fn risk_levels() {
    assert_eq!(risk_level(false, "Quantum Search"), RiskLevel::Low);
    assert_eq!(risk_level(true, "Quantum Search"), RiskLevel::High);
    assert_eq!(risk_level(true, "Length Extension"), RiskLevel::Critical);
    assert_eq!(risk_level(false, "Length Extension"), RiskLevel::Low);
}

#[test]
fn helpers_compare_and_join() {
    assert!(bytes_equal(b"abc", b"abc"));
    assert!(!bytes_equal(b"abc", b"abd"));
    assert!(!bytes_equal(b"abc", b"ab"));
    assert!(leaves_equal(&[b"a".to_vec()], &[b"a".to_vec()]));
    assert!(!leaves_equal(&[b"a".to_vec()], &[b"a".to_vec(), b"b".to_vec()]));
    assert_eq!(message("prefix: ", "detail"), "prefix: detail");
}

#[test]
fn root_of_matches_tree() {
    let leaves = vec![b"1".to_vec(), b"2".to_vec(), b"3".to_vec()];
    assert_eq!(root_of(leaves.clone()), MerkleTree::from_leaves(leaves).root());
}

fn quantum_attempts(attack_attempts: usize) -> usize {
    (attack_attempts as f64 / 2.0_f64.sqrt()) as usize
}

#[test]
fn test_security_test_suite_basic() {
    let suite = SecurityTestSuite::new();
    let results = suite.run_all_tests(quantum_attempts(500));
    assert_eq!(results.passed + results.failed, 11);
    assert_eq!(results.failures.len(), results.failed);
}


#[test]
fn test_statistical_analyzer_creation() {
    let config = SecurityTestConfig::default();
    let analyzer = StatisticalAnalyzer::new(&config);
    assert_eq!(analyzer.config.sample_size, 1000);
    let big = SecurityTestConfig { test_iterations: 50000, max_data_size: 1, exhaustive: false, seed: None };
    assert_eq!(StatisticalAnalyzer::new(&big).config.sample_size, 10000);
}

#[test]
fn test_randomness_analysis() {
    let config = SecurityTestConfig { test_iterations: 100, max_data_size: 10, exhaustive: false, seed: Some(42) };
    let analyzer = StatisticalAnalyzer::new(&config);
    let counts = analyzer.randomness_counts();
    assert_eq!(counts.total_bits, 100 * 256);
    let ratio = counts.ones as f64 / counts.total_bits as f64;
    let randomness = 1.0 - (ratio - 0.5).abs() * 2.0;
    assert!(randomness >= 0.0 && randomness <= 1.0);
    assert!(randomness > 0.9);
}

#[test]
fn test_avalanche_analysis() {
    let config = SecurityTestConfig { test_iterations: 50, max_data_size: 10, exhaustive: false, seed: Some(42) };
    let analyzer = StatisticalAnalyzer::new(&config);
    let counts = analyzer.avalanche_counts();
    assert_eq!(counts.samples, 50);
    let avg = counts.total_changes as f64 / counts.samples as f64;
    let avalanche = 1.0 - (avg - 128.0).abs() / 128.0;
    assert!(avalanche >= 0.0 && avalanche <= 1.0);
    assert!(avalanche > 0.8);
}

#[test]
fn uniformity_sample_reads_leading_words() {
    let config = SecurityTestConfig { test_iterations: 20, max_data_size: 10, exhaustive: false, seed: Some(7) };
    let values = StatisticalAnalyzer::new(&config).uniformity_sample();
    assert_eq!(values.len(), 20);
}

#[test]
fn bit_counting() {
    assert_eq!(count_ones(&[]), 0);
    assert_eq!(count_ones(&[0xff, 0x01, 0x80, 0x00]), 10);
    assert_eq!(count_ones(&[0b1010_1010]), 4);
    let a = [0u8; 32];
    let mut b = [0u8; 32];
    b[0] = 0x0f;
    b[31] = 0x80;
    assert_eq!(bit_difference(&a, &b), 5);
    assert_eq!(bit_difference(&b, &b), 0);
    assert_eq!(bit_difference(&a, &[0xffu8; 32]), 256);
    let mut h = [0u8; 32];
    h[0] = 0x01;
    h[7] = 0x80;
    assert_eq!(leading_word_le(&h), 0x8000_0000_0000_0001);
}

#[test]
fn hash_debug_matches_std_debug() {
    let mut h = [0u8; 32];
    for (i, b) in h.iter_mut().enumerate() {
        *b = (i as u8).wrapping_mul(37);
    }
    assert_eq!(hash_debug(&h), format!("{:?}", h));
    assert_eq!(hash_debug(&[255u8; 32]), format!("{:?}", [255u8; 32]));
}

fn leaves_of(items: &[&[u8]]) -> Vec<Vec<u8>> {
    items.iter().map(|b| b.to_vec()).collect()
}

#[test]
fn second_preimage_attempt_outcomes() {
    let target = leaves_of(&[b"a", b"b", b"c"]);
    let root = root_of(target.clone());
    // the same list is no second preimage
    assert!(!second_preimage_attempt(&target, &root, &target));
    assert!(!second_preimage_attempt(&target, &root, &leaves_of(&[b"x", b"y", b"z"])));
    assert!(!second_preimage_attempt(&target, &root, &[]));
    // a duplicated last leaf gives the same root
    assert!(second_preimage_attempt(&target, &root, &leaves_of(&[b"a", b"b", b"c", b"c"])));
}

#[test]
fn manipulation_attempt_outcomes() {
    let leaves = leaves_of(&[b"l0", b"l1", b"l2", b"l3", b"l4"]);
    // the real leaf passes the honest proof with an extra zero sibling (ignored by verify)
    assert!(manipulation_attempt(&leaves, 2, b"l2"));
    assert!(!manipulation_attempt(&leaves, 2, &[7u8; 20]));
}

#[test]
fn zero_proof_attempt_fails_on_real_trees() {
    let leaves = leaves_of(&[b"a", b"b", b"c", b"d"]);
    assert!(!zero_proof_attempt(&leaves, &[1u8; 20]));
    assert!(!zero_proof_attempt(&leaves, b"a"));
}

#[test]
fn seen_root_lookup() {
    let t1 = MerkleTree::from_leaves(leaves_of(&[b"a", b"b", b"c"]));
    let t2 = MerkleTree::from_leaves(leaves_of(&[b"a", b"b", b"c", b"c"]));
    let t3 = MerkleTree::from_leaves(leaves_of(&[b"q", b"r"]));
    let mut seen = Vec::new();
    assert_eq!(check_seen_root(&seen, &t1.root(), &t1.leaves()), SeenRoot::New);
    seen.push((t1.root(), t1.leaves()));
    assert_eq!(check_seen_root(&seen, &t1.root(), &t1.leaves()), SeenRoot::Seen(0));
    assert_eq!(check_seen_root(&seen, &t3.root(), &t3.leaves()), SeenRoot::New);
    seen.push((t3.root(), t3.leaves()));
    assert_eq!(check_seen_root(&seen, &t2.root(), &t2.leaves()), SeenRoot::Conflict(0));
}

#[test]
fn domain_and_node_leaf_attempts_miss() {
    assert!(!domain_attempt(&[5u8; 32]));
    assert!(!node_leaf_attempt(&[1u8; 32], &[2u8; 32]));
    assert!(!node_leaf_attempt(&[3u8; 32], &[3u8; 32]));
}

#[test]
fn binding_attempt_outcomes() {
    let abc = leaves_of(&[b"a", b"b", b"c"]);
    let abcc = leaves_of(&[b"a", b"b", b"c", b"c"]);
    assert!(!order_attempt(&abc, &leaves_of(&[b"b", b"a", b"c"])));
    assert!(!order_attempt(&abc, &abc));
    assert!(order_attempt(&abc, &abcc));
    assert!(!content_attempt(&abc, &leaves_of(&[b"a", b"b", b"d"])));
    assert!(content_attempt(&abc, &abcc));
    let root = root_of(abc.clone());
    let mut seen = Vec::new();
    assert_eq!(check_seen_leaf_set(&seen, &root, &abc), SeenRoot::New);
    seen.push((root, abc.clone()));
    assert_eq!(check_seen_leaf_set(&seen, &root, &abc), SeenRoot::Seen(0));
    assert_eq!(check_seen_leaf_set(&seen, &root_of(abcc.clone()), &abcc), SeenRoot::Conflict(0));
}

#[test]
fn preimage_and_zero_root_attempts_miss() {
    let target = [9u8; 32];
    let h = MerkleTree::hash_leaf(&target);
    assert!(!preimage_attempt(&target, &target, &h));
    assert!(!preimage_attempt(&[1u8, 2, 3], &target, &h));
    assert!(!has_zero_root(&MerkleTree::from_leaves(leaves_of(&[b"a", b"b"]))));
}

#[test]
fn birthday_attempt_finds_repeats_only() {
    let tester = CollisionTester::new(&small_config());
    let (w, hit) = tester.birthday_attempt(&vec![], vec![4u8; 32], 8);
    assert!(!hit);
    assert!(w < 256);
    let (w2, hit2) = tester.birthday_attempt(&vec![w], vec![4u8; 32], 8);
    assert_eq!(w2, w);
    assert!(hit2);
}

#[test]
fn attack_metric_rates_outcomes() {
    let a = AttackResult {
        attack_type: "Quantum (Grover)".to_string(),
        success: true,
        attempts: 12,
        time_complexity: "O(2^(n/2))".to_string(),
        description: "d".to_string(),
    };
    let m = attack_metric(&a);
    assert!(m.success);
    assert_eq!(m.attempts, 12);
    assert_eq!(m.time_complexity, "O(2^(n/2))");
    assert_eq!(m.risk_level, RiskLevel::High);
    let b = AttackResult { attack_type: "Optimized Preimage".to_string(), ..a.clone() };
    assert_eq!(attack_metric(&b).risk_level, RiskLevel::Critical);
    let c = AttackResult { success: false, ..a };
    assert_eq!(attack_metric(&c).risk_level, RiskLevel::Low);
}

#[test]
fn oracle_and_timing_thresholds() {
    // a draw is the word's top 53 bits scaled by 2^-53
    let q: u64 = 0x20_0000_0000;
    assert!(oracle_attempt(0));
    assert!(oracle_attempt((q << 11) - 1));
    assert!(!oracle_attempt(q << 11));
    assert!(!oracle_attempt(u64::MAX));
    let t: u64 = 9_007_199_254_741;
    assert!(timing_attempt((t << 11) - 1));
    assert!(!timing_attempt(t << 11));
    assert!(!timing_attempt(u64::MAX));
    // the same cut as rand's f64 draw compared with 2^-16 and 0.001
    let scale = 1.0 / ((1u64 << 53) as f64);
    let draw = |w: u64| ((w >> 11) as f64) * scale;
    assert!(draw((q << 11) - 1) < 1.0 / 65536.0);
    assert!(!(draw(q << 11) < 1.0 / 65536.0));
    assert!(!(draw(t << 11) < 0.001));
    assert!(draw((t << 11) - 1) < 0.001);
}
