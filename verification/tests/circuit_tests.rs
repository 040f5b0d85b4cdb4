use zkp_learn::circuits::{CubicCircuit, HashPreimageCircuit, MerkleCircuit, RangeProofCircuit};
use zkp_learn::field::{FieldWrapper, Fq};

// ---- cubic ----

#[test]
fn cubic_test_circuit_valid() {
    let circuit = CubicCircuit::new(1, 2, 3, 4, 2, 26);
    assert!(circuit.verify());
}

#[test]
fn cubic_test_circuit_invalid() {
    let circuit = CubicCircuit::new(1, 2, 3, 4, 2, 25);
    assert!(!circuit.verify());
}

#[test]
fn cubic_test_to_r1cs() {
    let circuit = CubicCircuit::new(1, 2, 3, 4, 2, 26);
    let constraints = circuit.to_r1cs();
    assert_eq!(constraints.len(), 3);
    for constraint in &constraints {
        assert!(constraint.unique_variable_count() > 0);
    }
}

#[test]
fn cubic_test_witness() {
    let circuit = CubicCircuit::new(1, 2, 3, 4, 2, 26);
    let witness = circuit.witness();

    assert_eq!(witness.len(), 9);
    assert_eq!(witness[0].value, Fq::from(1u64));
    assert_eq!(witness[1].value, Fq::from(1u64));
    assert_eq!(witness[2].value, Fq::from(2u64));
    assert_eq!(witness[3].value, Fq::from(3u64));
    assert_eq!(witness[4].value, Fq::from(4u64));
    assert_eq!(witness[5].value, Fq::from(26u64));
    assert_eq!(witness[6].value, Fq::from(2u64));
    assert_eq!(witness[7].value, Fq::from(4u64));
    assert_eq!(witness[8].value, Fq::from(8u64));
}

#[test]
fn cubic_test_r1cs_satisfied() {
    let circuit = CubicCircuit::new(1, 2, 3, 4, 2, 26);
    let constraints = circuit.to_r1cs();
    let witness = circuit.witness();
    for (i, constraint) in constraints.iter().enumerate() {
        assert!(constraint.is_satisfied(&witness), "Constraint {} not satisfied", i);
    }
}

#[test]
fn test_polynomial_computation() {
    let circuit = CubicCircuit::new(2, 1, 0, 5, 3, 68);
    assert!(circuit.verify());

    let witness = circuit.witness();
    assert_eq!(witness[6].value, Fq::from(3u64));
    assert_eq!(witness[7].value, Fq::from(9u64));
    assert_eq!(witness[8].value, Fq::from(27u64));
}

#[test]
fn test_zero_coefficients() {
    let circuit = CubicCircuit::new(0, 0, 1, 10, 5, 15);
    assert!(circuit.verify());
}

#[test]
fn test_simple_cubic() {
    let circuit = CubicCircuit::new(1, 0, 0, 0, 1, 1);
    assert!(circuit.verify());

    let witness = circuit.witness();
    assert_eq!(witness[6].value, Fq::from(1u64));
    assert_eq!(witness[7].value, Fq::from(1u64));
    assert_eq!(witness[8].value, Fq::from(1u64));
}

#[test]
fn test_zero_input() {
    let circuit = CubicCircuit::new(1, 2, 3, 4, 0, 4);
    assert!(circuit.verify());

    let witness = circuit.witness();
    assert_eq!(witness[6].value, Fq::from(0u64));
    assert_eq!(witness[7].value, Fq::from(0u64));
    assert_eq!(witness[8].value, Fq::from(0u64));

    let constraints = circuit.to_r1cs();
    for constraint in &constraints {
        assert!(constraint.is_satisfied(&witness));
    }
}

#[test]
fn cubic_test_large_values() {
    let circuit = CubicCircuit::new(100, 50, 25, 10, 10, 105260);
    assert!(circuit.verify());

    let witness = circuit.witness();
    assert_eq!(witness[6].value, Fq::from(10u64));
    assert_eq!(witness[7].value, Fq::from(100u64));
    assert_eq!(witness[8].value, Fq::from(1000u64));

    let constraints = circuit.to_r1cs();
    for constraint in &constraints {
        assert!(constraint.is_satisfied(&witness));
    }
}

#[test]
fn test_large_coefficients() {
    let circuit = CubicCircuit::new(1000000, 500000, 250000, 125000, 3, 32375000);
    assert!(circuit.verify());

    let witness = circuit.witness();
    let constraints = circuit.to_r1cs();
    for constraint in &constraints {
        assert!(constraint.is_satisfied(&witness));
    }
}

#[test]
fn cubic_wrong_output_fails_last_constraint() {
    let circuit = CubicCircuit::new(1, 2, 3, 4, 2, 25);
    let constraints = circuit.to_r1cs();
    let witness = circuit.witness();
    assert!(constraints[0].is_satisfied(&witness));
    assert!(constraints[1].is_satisfied(&witness));
    assert!(!constraints[2].is_satisfied(&witness));
}

// ---- hash preimage ----

#[test]
fn test_simple_hash() {
    let m = 100u64;
    let h1 = HashPreimageCircuit::simple_hash(m);
    let h2 = HashPreimageCircuit::simple_hash(m);
    assert_eq!(h1, h2);
}

#[test]
fn simple_hash_is_times_seven_wrapping() {
    assert_eq!(HashPreimageCircuit::simple_hash(100), 700);
    assert_eq!(HashPreimageCircuit::simple_hash(u64::MAX), u64::MAX.wrapping_mul(7));
}

#[test]
fn hash_preimage_test_circuit_valid() {
    let m = 100u64;
    let h = HashPreimageCircuit::simple_hash(m);
    let circuit = HashPreimageCircuit::new(m, h);
    assert!(circuit.verify());
}

#[test]
fn hash_preimage_test_circuit_invalid() {
    let circuit = HashPreimageCircuit::new(100, 12345);
    assert!(!circuit.verify());
}

#[test]
fn hash_preimage_test_to_r1cs() {
    let m = 100u64;
    let h = HashPreimageCircuit::simple_hash(m);
    let circuit = HashPreimageCircuit::new(m, h);
    let constraints = circuit.to_r1cs();
    assert_eq!(constraints.len(), 1);
    assert!(constraints[0].unique_variable_count() > 0);
}

#[test]
fn hash_preimage_test_witness() {
    let circuit = HashPreimageCircuit::new(100, 12345);
    let witness = circuit.witness();
    assert_eq!(witness.len(), 3);
    assert_eq!(witness[0].value, Fq::from(1u64));
    assert_eq!(witness[1].value, Fq::from(12345u64));
    assert_eq!(witness[2].value, Fq::from(100u64));
}

#[test]
fn hash_preimage_test_r1cs_satisfied() {
    let m = 100u64;
    let h = HashPreimageCircuit::simple_hash(m);
    let circuit = HashPreimageCircuit::new(m, h);
    let constraints = circuit.to_r1cs();
    let witness = circuit.witness();
    assert!(constraints[0].is_satisfied(&witness));
}

#[test]
fn hash_preimage_test_r1cs_not_satisfied() {
    let circuit = HashPreimageCircuit::new(100, 99999);
    let constraints = circuit.to_r1cs();
    let witness = vec![FieldWrapper::from(1u64), FieldWrapper::from(99999u64), FieldWrapper::from(100u64)];
    assert!(!constraints[0].is_satisfied(&witness));
}

#[test]
fn test_different_preimages() {
    let m1 = 100u64;
    let m2 = 200u64;
    let h1 = HashPreimageCircuit::simple_hash(m1);
    let h2 = HashPreimageCircuit::simple_hash(m2);
    assert_ne!(h1, h2);
    let circuit1 = HashPreimageCircuit::new(m1, h1);
    let circuit2 = HashPreimageCircuit::new(m2, h2);
    assert!(circuit1.verify());
    assert!(circuit2.verify());
}

#[test]
fn test_zero_preimage() {
    let m = 0u64;
    let h = HashPreimageCircuit::simple_hash(m);
    let circuit = HashPreimageCircuit::new(m, h);
    assert!(circuit.verify());
    let witness = circuit.witness();
    assert_eq!(witness[2].value, Fq::from(0u64));
}

#[test]
fn test_large_preimage() {
    let m = 1000000u64;
    let h = HashPreimageCircuit::simple_hash(m);
    let circuit = HashPreimageCircuit::new(m, h);
    assert!(circuit.verify());
    let constraints = circuit.to_r1cs();
    let witness = circuit.witness();
    assert!(constraints[0].is_satisfied(&witness));
}

// ---- merkle ----

#[test]
fn test_compute_root() {
    let root1 = MerkleCircuit::compute_root(100, 500);
    let root2 = MerkleCircuit::compute_root(100, 500);
    assert_eq!(root1, root2);
}

#[test]
fn merkle_test_circuit_valid() {
    let root = MerkleCircuit::compute_root(100, 500);
    let circuit = MerkleCircuit::new(100, 500, root);
    assert!(circuit.verify());
}

#[test]
fn merkle_test_circuit_invalid() {
    let circuit = MerkleCircuit::new(100, 500, 99999);
    assert!(!circuit.verify());
}

#[test]
fn merkle_test_to_r1cs() {
    let root = MerkleCircuit::compute_root(100, 500);
    let circuit = MerkleCircuit::new(100, 500, root);
    let constraints = circuit.to_r1cs();
    assert_eq!(constraints.len(), 1);
    assert!(constraints[0].unique_variable_count() > 0);
}

#[test]
fn merkle_test_witness() {
    let circuit = MerkleCircuit::new(100, 500, 1800);
    let witness = circuit.witness();
    assert_eq!(witness.len(), 4);
    assert_eq!(witness[0].value, Fq::from(1u64));
    assert_eq!(witness[1].value, Fq::from(1800u64));
    assert_eq!(witness[2].value, Fq::from(100u64));
    assert_eq!(witness[3].value, Fq::from(500u64));
}

#[test]
fn merkle_test_r1cs_satisfied() {
    let root = MerkleCircuit::compute_root(100, 500);
    let circuit = MerkleCircuit::new(100, 500, root);
    let constraints = circuit.to_r1cs();
    let witness = circuit.witness();
    assert!(constraints[0].is_satisfied(&witness));
}

#[test]
fn merkle_test_r1cs_not_satisfied() {
    let circuit = MerkleCircuit::new(100, 500, 99999);
    let constraints = circuit.to_r1cs();
    let witness = vec![
        FieldWrapper::from(1u64),
        FieldWrapper::from(99999u64),
        FieldWrapper::from(100u64),
        FieldWrapper::from(500u64),
    ];
    assert!(!constraints[0].is_satisfied(&witness));
}

#[test]
fn test_different_leaves() {
    let root1 = MerkleCircuit::compute_root(100, 500);
    let root2 = MerkleCircuit::compute_root(200, 500);
    assert_ne!(root1, root2);
    assert!(MerkleCircuit::new(100, 500, root1).verify());
    assert!(MerkleCircuit::new(200, 500, root2).verify());
}

#[test]
fn test_zero_leaf() {
    let root = MerkleCircuit::compute_root(0, 500);
    let circuit = MerkleCircuit::new(0, 500, root);
    assert!(circuit.verify());
    let witness = circuit.witness();
    assert_eq!(witness[2].value, Fq::from(0u64));
}

#[test]
fn test_zero_path() {
    let root = MerkleCircuit::compute_root(100, 0);
    let circuit = MerkleCircuit::new(100, 0, root);
    assert!(circuit.verify());
    let witness = circuit.witness();
    assert_eq!(witness[3].value, Fq::from(0u64));
}

#[test]
fn merkle_test_large_values() {
    let root = MerkleCircuit::compute_root(1000000, 2000000);
    let circuit = MerkleCircuit::new(1000000, 2000000, root);
    assert!(circuit.verify());
    let constraints = circuit.to_r1cs();
    let witness = circuit.witness();
    assert!(constraints[0].is_satisfied(&witness));
}

#[test]
fn test_root_computation() {
    let root = MerkleCircuit::compute_root(100, 500);
    assert_eq!(root, 1800u64);
}

#[test]
fn merkle_test_placeholder_nature() {
    let circuit = MerkleCircuit::new(100, 500, 1800);
    assert!(circuit.verify());
}

#[test]
fn merkle_root_wraps_on_overflow() {
    assert_eq!(MerkleCircuit::compute_root(u64::MAX, 1), 0);
}

// ---- range proof ----

#[test]
fn test_check_range_above_threshold() {
    assert_eq!(RangeProofCircuit::check_range(25, 18), 1);
}

#[test]
fn test_check_range_equal_threshold() {
    assert_eq!(RangeProofCircuit::check_range(18, 18), 1);
}

#[test]
fn test_check_range_below_threshold() {
    assert_eq!(RangeProofCircuit::check_range(15, 18), 0);
}

#[test]
fn test_circuit_valid_above() {
    let result = RangeProofCircuit::check_range(25, 18);
    assert!(RangeProofCircuit::new(25, 18, result).verify());
}

#[test]
fn test_circuit_valid_equal() {
    let result = RangeProofCircuit::check_range(18, 18);
    assert!(RangeProofCircuit::new(18, 18, result).verify());
}

#[test]
fn test_circuit_valid_below() {
    let result = RangeProofCircuit::check_range(15, 18);
    assert!(RangeProofCircuit::new(15, 18, result).verify());
}

#[test]
fn range_proof_test_circuit_invalid() {
    let circuit = RangeProofCircuit::new(15, 18, 1);
    assert!(!circuit.verify());
}

#[test]
fn range_proof_test_to_r1cs() {
    let result = RangeProofCircuit::check_range(25, 18);
    let circuit = RangeProofCircuit::new(25, 18, result);
    let constraints = circuit.to_r1cs();
    assert_eq!(constraints.len(), 1);
    assert!(constraints[0].unique_variable_count() > 0);
}

#[test]
fn range_proof_test_witness() {
    let circuit = RangeProofCircuit::new(25, 18, 1);
    let witness = circuit.witness();
    assert_eq!(witness.len(), 4);
    assert_eq!(witness[0].value, Fq::from(1u64));
    assert_eq!(witness[1].value, Fq::from(1u64));
    assert_eq!(witness[2].value, Fq::from(18u64));
    assert_eq!(witness[3].value, Fq::from(25u64));
}

#[test]
fn range_proof_test_r1cs_satisfied() {
    let result = RangeProofCircuit::check_range(25, 18);
    let circuit = RangeProofCircuit::new(25, 18, result);
    let constraints = circuit.to_r1cs();
    let witness = circuit.witness();
    assert!(constraints[0].is_satisfied(&witness));
}

#[test]
fn range_proof_test_r1cs_not_satisfied() {
    let circuit = RangeProofCircuit::new(15, 18, 1);
    let constraints = circuit.to_r1cs();
    let witness = vec![
        FieldWrapper::from(1u64),
        FieldWrapper::from(1u64),
        FieldWrapper::from(18u64),
        FieldWrapper::from(15u64),
    ];
    assert!(!constraints[0].is_satisfied(&witness));
}

#[test]
fn test_different_thresholds() {
    let value = 50u64;
    let result1 = RangeProofCircuit::check_range(value, 18);
    assert!(RangeProofCircuit::new(value, 18, result1).verify());
    assert_eq!(result1, 1);
    let result2 = RangeProofCircuit::check_range(value, 100);
    assert!(RangeProofCircuit::new(value, 100, result2).verify());
    assert_eq!(result2, 0);
}

#[test]
fn test_zero_value() {
    let result = RangeProofCircuit::check_range(0, 18);
    let circuit = RangeProofCircuit::new(0, 18, result);
    assert!(circuit.verify());
    let witness = circuit.witness();
    assert_eq!(witness[3].value, Fq::from(0u64));
    assert_eq!(result, 0);
}

#[test]
fn test_zero_threshold() {
    let result = RangeProofCircuit::check_range(25, 0);
    let circuit = RangeProofCircuit::new(25, 0, result);
    assert!(circuit.verify());
    let witness = circuit.witness();
    assert_eq!(witness[2].value, Fq::from(0u64));
    assert_eq!(result, 1);
}

#[test]
fn range_proof_test_large_values() {
    let result = RangeProofCircuit::check_range(1000000, 500000);
    let circuit = RangeProofCircuit::new(1000000, 500000, result);
    assert!(circuit.verify());
    let constraints = circuit.to_r1cs();
    let witness = circuit.witness();
    assert!(constraints[0].is_satisfied(&witness));
}

#[test]
fn test_age_verification_scenario() {
    let can_vote = RangeProofCircuit::check_range(25, 18);
    let circuit = RangeProofCircuit::new(25, 18, can_vote);
    assert!(circuit.verify());
    assert_eq!(can_vote, 1);
    let witness = circuit.witness();
    assert_eq!(witness[1].value, Fq::from(1u64));
}

#[test]
fn test_balance_check_scenario() {
    let has_funds = RangeProofCircuit::check_range(5000, 1000);
    let circuit = RangeProofCircuit::new(5000, 1000, has_funds);
    assert!(circuit.verify());
    assert_eq!(has_funds, 1);
}

#[test]
fn range_proof_test_placeholder_nature() {
    let circuit = RangeProofCircuit::new(25, 18, 1);
    assert!(circuit.verify());
}

#[test]
fn range_result_other_than_bit_fails() {
    assert!(!RangeProofCircuit::new(25, 18, 2).verify());
}
