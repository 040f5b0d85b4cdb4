use zkp_learn::field::{FieldWrapper, Fq};
use zkp_learn::groth16::{number_text, Groth16Error};
use zkp_learn::polynomial::Polynomial;
use zkp_learn::qap::{
    check_divisibility, lagrange_interpolate, polynomial_long_division, r1cs_to_qap,
    target_polynomial, QapError,
};
use zkp_learn::r1cs::R1CSConstraint;

fn fw(v: u64) -> FieldWrapper {
    FieldWrapper::from(v)
}

fn neg(v: u64) -> FieldWrapper {
    FieldWrapper::zero().sub(&fw(v))
}

fn poly(vals: &[u64]) -> Polynomial {
    Polynomial::new(vals.iter().map(|v| fw(*v)).collect())
}

fn values_of(p: &Polynomial) -> Vec<Fq> {
    p.coeffs.iter().map(|c| c.value).collect()
}

// ---- field ----

#[test]
fn field_arithmetic_small_values() {
    let a = Fq::from_u64(7);
    let b = Fq::from_u64(5);
    assert_eq!(a.add(&b), Fq::from_u64(12));
    assert_eq!(a.sub(&b), Fq::from_u64(2));
    assert_eq!(a.mul(&b), Fq::from_u64(35));
    assert!(Fq::zero().is_zero());
    assert!(!Fq::one().is_zero());
    assert!(a.equals(&Fq::from(7u64)));
}

#[test]
fn field_subtraction_wraps_modulo_prime() {
    // 0 - 1 is p - 1, and (p - 1) + 1 is 0.
    let minus_one = Fq::zero().sub(&Fq::one());
    assert!(!minus_one.is_zero());
    assert!(minus_one.add(&Fq::one()).is_zero());
    // (p - 1)^2 = 1
    assert_eq!(minus_one.mul(&minus_one), Fq::one());
}

#[test]
fn field_large_products_reduce() {
    let big = Fq::from_u64(u64::MAX);
    let sq = big.mul(&big);
    // (2^64 - 1)^2 = 2^128 - 2^65 + 1 < p, so it is its own representative;
    // check it against repeated addition of the pieces.
    let two_64 = Fq::from_u64(u64::MAX).add(&Fq::one());
    let expected = two_64.mul(&two_64).sub(&two_64.add(&two_64)).add(&Fq::one());
    assert_eq!(sq, expected);
}

#[test]
fn field_inverse() {
    assert!(Fq::zero().inverse().is_none());
    let three = Fq::from_u64(3);
    let inv = three.inverse().unwrap();
    assert_eq!(three.mul(&inv), Fq::one());
    assert_eq!(Fq::one().inverse().unwrap(), Fq::one());
}

#[test]
fn field_wrapper_ops() {
    assert_eq!(fw(3).add(&fw(4)), fw(7));
    assert_eq!(fw(3).mul(&fw(4)), fw(12));
    assert_eq!(fw(4).sub(&fw(3)), FieldWrapper::one());
    assert!(FieldWrapper::zero().is_zero());
    assert!(fw(9).equals(&FieldWrapper::from_fq(Fq::from_u64(9))));
}

// ---- polynomial ----

#[test]
fn test_polynomial_evaluation() {
    let poly = Polynomial::new(vec![fw(3), fw(2)]);
    let x = fw(5);
    let result = poly.evaluate(&x);
    assert_eq!(result.value, Fq::from(13u64));
}

#[test]
fn polynomial_degree_and_zero() {
    assert_eq!(poly(&[]).degree(), 0);
    assert_eq!(poly(&[5]).degree(), 0);
    assert_eq!(poly(&[1, 2, 3]).degree(), 2);
    assert!(poly(&[]).is_zero());
    assert!(poly(&[0, 0]).is_zero());
    assert!(!poly(&[0, 1]).is_zero());
}

#[test]
fn polynomial_add_trims() {
    let p = poly(&[1, 2, 3]);
    let q = Polynomial::new(vec![fw(1), fw(1), neg(3)]);
    let s = p.add(q);
    assert_eq!(values_of(&s), vec![Fq::from_u64(2), Fq::from_u64(3)]);
}

#[test]
fn polynomial_sub_keeps_one_coefficient() {
    let s = poly(&[4, 5]).sub(poly(&[4, 5]));
    assert_eq!(values_of(&s), vec![Fq::zero()]);
}

#[test]
fn polynomial_mul() {
    // (1 + x)(1 - x) = 1 - x^2
    let p = poly(&[1, 1]);
    let q = Polynomial::new(vec![fw(1), neg(1)]);
    let r = p.mul(q);
    assert_eq!(values_of(&r), vec![Fq::one(), Fq::zero(), neg(1).value]);
    // zero factor gives the empty polynomial
    let z = poly(&[1, 2]).mul(poly(&[0]));
    assert!(z.coeffs.is_empty());
}

#[test]
fn polynomial_ops_agree_with_evaluation() {
    let p = poly(&[3, 0, 2]);
    let q = poly(&[1, 4]);
    let x = fw(7);
    let pv = p.evaluate(&x);
    let qv = q.evaluate(&x);
    assert_eq!(p.copy().add(q.copy()).evaluate(&x), pv.add(&qv));
    assert_eq!(p.copy().sub(q.copy()).evaluate(&x), pv.sub(&qv));
    assert_eq!(p.mul(q).evaluate(&x), pv.mul(&qv));
}

// ---- r1cs ----

#[test]
fn test_r1cs_constraint_creation() {
    let mut constraint = R1CSConstraint::new();
    constraint.add_a_variable(0, fw(1));
    constraint.add_b_variable(1, fw(1));
    constraint.add_c_variable(2, fw(1));
    assert_eq!(constraint.unique_variable_count(), 3);
}

#[test]
fn test_empty_constraint() {
    let constraint = R1CSConstraint::new();
    assert_eq!(constraint.unique_variable_count(), 0);
}

#[test]
fn test_same_variable_multiple_vectors() {
    let mut constraint = R1CSConstraint::new();
    constraint.add_a_variable(0, fw(1));
    constraint.add_b_variable(0, fw(1));
    constraint.add_c_variable(1, fw(1));
    assert_eq!(constraint.unique_variable_count(), 2);
}

#[test]
fn test_default_implementation() {
    let constraint = R1CSConstraint::default();
    assert_eq!(constraint.unique_variable_count(), 0);
    assert!(constraint.a.is_empty());
    assert!(constraint.b.is_empty());
    assert!(constraint.c.is_empty());
}

#[test]
fn test_witness_satisfaction() {
    let mut constraint = R1CSConstraint::new();
    constraint.add_a_variable(0, fw(1));
    constraint.add_b_variable(1, fw(1));
    constraint.add_c_variable(2, fw(1));
    let witness = vec![fw(3), fw(4), fw(12)];
    assert!(constraint.is_satisfied(&witness));
}

#[test]
fn test_witness_violation() {
    let mut constraint = R1CSConstraint::new();
    constraint.add_a_variable(0, fw(1));
    constraint.add_b_variable(1, fw(1));
    constraint.add_c_variable(2, fw(1));
    let witness = vec![fw(3), fw(4), fw(13)];
    assert!(!constraint.is_satisfied(&witness));
}

#[test]
fn constraint_with_coefficients_and_short_witness() {
    // (2·w0 + w1) · (3·w2) = w3, w2 missing from the witness counts as zero
    let mut constraint = R1CSConstraint::new();
    constraint.add_a_variable(0, fw(2));
    constraint.add_a_variable(1, fw(1));
    constraint.add_b_variable(2, fw(3));
    constraint.add_c_variable(3, fw(1));
    assert!(constraint.is_satisfied(&[fw(1), fw(1), fw(2), fw(18)]));
    assert!(!constraint.is_satisfied(&[fw(1), fw(1), fw(2), fw(17)]));
    // Out of the witness: a and b read 3 and 0, c reads 0.
    assert!(constraint.is_satisfied(&[fw(1), fw(1)]));
    // Re-adding an index replaces its coefficient.
    constraint.add_a_variable(0, fw(5));
    assert!(constraint.is_satisfied(&[fw(1), fw(1), fw(2), fw(36)]));
}

// ---- qap ----

#[test]
fn test_target_polynomial_degree_1() {
    let t = target_polynomial(1);
    assert_eq!(t.degree(), 1);
    assert_eq!(t.evaluate(&fw(1)).value, Fq::from(0u64));
}

#[test]
fn test_target_polynomial_degree_2() {
    let t = target_polynomial(2);
    assert_eq!(t.degree(), 2);
    assert_eq!(t.evaluate(&fw(1)).value, Fq::from(0u64));
    assert_eq!(t.evaluate(&fw(2)).value, Fq::from(0u64));
}

#[test]
fn target_polynomial_coefficients() {
    // (x-1)(x-2)(x-3) = -6 + 11x - 6x^2 + x^3
    let t = target_polynomial(3);
    assert_eq!(values_of(&t), vec![neg(6).value, Fq::from_u64(11), neg(6).value, Fq::one()]);
    assert_eq!(t.evaluate(&fw(4)).value, Fq::from_u64(6));
    // the empty product: the constant 1
    assert_eq!(values_of(&target_polynomial(0)), vec![Fq::one()]);
}

#[test]
fn test_polynomial_division_exact() {
    let dividend = Polynomial { coeffs: vec![neg(1), FieldWrapper::zero(), FieldWrapper::one()] };
    let divisor = Polynomial { coeffs: vec![neg(1), FieldWrapper::one()] };
    let (quotient, remainder) = polynomial_long_division(&dividend, &divisor).unwrap();
    assert_eq!(quotient.degree(), 1);
    assert!(remainder.coeffs.is_empty() || remainder.coeffs.iter().all(|c| c.value.is_zero()));
    assert_eq!(values_of(&quotient), vec![Fq::one(), Fq::one()]);
}

#[test]
fn test_polynomial_division_with_remainder() {
    let dividend = Polynomial { coeffs: vec![FieldWrapper::one(), FieldWrapper::zero(), FieldWrapper::one()] };
    let divisor = Polynomial { coeffs: vec![neg(1), FieldWrapper::one()] };
    let (quotient, remainder) = polynomial_long_division(&dividend, &divisor).unwrap();
    assert_eq!(quotient.degree(), 1);
    assert!(!remainder.coeffs.is_empty());
    assert_eq!(values_of(&remainder), vec![Fq::from_u64(2)]);
}

#[test]
fn test_division_by_zero() {
    let dividend = Polynomial { coeffs: vec![fw(1)] };
    let divisor = Polynomial { coeffs: vec![] };
    let result = polynomial_long_division(&dividend, &divisor);
    assert!(result.is_err());
    assert!(matches!(result.unwrap_err(), QapError::DivisionByZero));
}

#[test]
fn division_quotient_has_no_trailing_zero() {
    // (x^2 + 1) / (x - 1) = x + 1, remainder 2
    let (q, r) = polynomial_long_division(&poly(&[1, 0, 1]), &Polynomial { coeffs: vec![neg(1), fw(1)] }).unwrap();
    assert_eq!(values_of(&q), vec![Fq::one(), Fq::one()]);
    assert_eq!(values_of(&r), vec![Fq::from_u64(2)]);
}

#[test]
fn division_of_dividend_with_trailing_zero() {
    // [1, 1, 0] is x + 1: quotient 1, remainder 2
    let (q, r) = polynomial_long_division(&poly(&[1, 1, 0]), &Polynomial { coeffs: vec![neg(1), fw(1)] }).unwrap();
    assert_eq!(values_of(&q), vec![Fq::one()]);
    assert_eq!(values_of(&r), vec![Fq::from_u64(2)]);
}

#[test]
fn division_by_higher_degree_keeps_dividend() {
    let (q, r) = polynomial_long_division(&poly(&[1, 0]), &poly(&[0, 0, 1])).unwrap();
    assert_eq!(values_of(&q), vec![Fq::zero()]);
    assert_eq!(values_of(&r), vec![Fq::one(), Fq::zero()]);
}

#[test]
fn division_of_all_zero_dividend() {
    let (q, r) = polynomial_long_division(&poly(&[0, 0]), &poly(&[3])).unwrap();
    assert!(q.coeffs.is_empty());
    assert!(r.coeffs.is_empty());
}

#[test]
fn lagrange_of_zero_values_is_zero_constant() {
    let points = vec![(Fq::from_u64(1), fw(0)), (Fq::from_u64(2), fw(0))];
    let p = lagrange_interpolate(&points).unwrap();
    assert_eq!(values_of(&p), vec![Fq::zero()]);
}

#[test]
fn division_by_divisor_with_trailing_zero() {
    // [1, 0] is the constant 1
    let (q, r) = polynomial_long_division(&poly(&[5]), &poly(&[1, 0])).unwrap();
    assert_eq!(values_of(&q), vec![Fq::from_u64(5)]);
    assert_eq!(values_of(&r), vec![Fq::zero()]);
    // x^2 / (x - 1) = x + 1, remainder 1
    let (q, r) = polynomial_long_division(&poly(&[0, 0, 1]), &Polynomial { coeffs: vec![neg(1), fw(1), fw(0)] }).unwrap();
    assert_eq!(values_of(&q), vec![Fq::one(), Fq::one()]);
    assert_eq!(values_of(&r), vec![Fq::one()]);
    assert!(matches!(polynomial_long_division(&poly(&[1]), &poly(&[0, 0])), Err(QapError::DivisionByZero)));
}

#[test]
fn check_divisibility_with_rootless_and_padded_targets() {
    // a = b = x, c = -1: a·b − c = x^2 + 1
    let a = vec![poly(&[0, 1])];
    let b = vec![poly(&[0, 1])];
    let c = vec![Polynomial { coeffs: vec![neg(1)] }];
    assert_eq!(check_divisibility(&[fw(1)], &a, &b, &c, &poly(&[1, 0, 1])).unwrap(), true);
    assert_eq!(check_divisibility(&[fw(1)], &a, &b, &c, &poly(&[1, 0, 1, 0])).unwrap(), true);
    assert_eq!(check_divisibility(&[fw(1)], &a, &b, &c, &poly(&[0, 0, 1])).unwrap(), false);
    // a·b − c with c = x^2 is zero: divisible by x - 1 written with a trailing zero
    let c2 = vec![poly(&[0, 0, 1])];
    let t = Polynomial { coeffs: vec![neg(1), fw(1), fw(0)] };
    assert_eq!(check_divisibility(&[fw(1)], &a, &b, &c2, &t).unwrap(), true);
}

#[test]
fn division_of_zero_dividend() {
    let (q, r) = polynomial_long_division(&poly(&[]), &poly(&[1, 1])).unwrap();
    assert!(q.coeffs.is_empty());
    assert!(r.coeffs.is_empty());
}

#[test]
fn test_check_divisibility_valid_witness() {
    let a = Polynomial { coeffs: vec![fw(0), fw(1)] };
    let b = a.copy();
    let c = Polynomial { coeffs: vec![fw(0), fw(0), fw(1)] };
    let witness = vec![fw(1)];
    let a_polys = vec![a];
    let b_polys = vec![b];
    let c_polys = vec![c];
    let target = target_polynomial(1);
    let result = check_divisibility(&witness, &a_polys, &b_polys, &c_polys, &target);
    assert!(result.is_ok());
    assert!(result.unwrap());
}

#[test]
fn test_check_divisibility_mismatched_lengths() {
    let witness = vec![fw(1), fw(2)];
    let a_polys = vec![Polynomial { coeffs: vec![] }];
    let b_polys = vec![Polynomial { coeffs: vec![] }];
    let c_polys = vec![Polynomial { coeffs: vec![] }];
    let target = target_polynomial(1);
    let result = check_divisibility(&witness, &a_polys, &b_polys, &c_polys, &target);
    assert!(result.is_err());
    assert!(matches!(result.unwrap_err(), QapError::MismatchedLengths(_, _)));
    assert!(matches!(
        check_divisibility(&witness, &a_polys, &b_polys, &c_polys, &target),
        Err(QapError::MismatchedLengths(2, 1))
    ));
}

#[test]
fn check_divisibility_mismatch_answered_for_any_target() {
    let witness = vec![fw(1), fw(2)];
    let one = vec![poly(&[1])];
    assert!(matches!(
        check_divisibility(&witness, &one, &one, &one, &poly(&[5, 0, 0])),
        Err(QapError::MismatchedLengths(2, 1))
    ));
}

#[test]
fn check_divisibility_rejects_bad_witness() {
    // a = b = x, c = x^2 + 1: a·b − c = −1 is not divisible by (x − 1).
    let a_polys = vec![poly(&[0, 1])];
    let b_polys = vec![poly(&[0, 1])];
    let c_polys = vec![poly(&[1, 0, 1])];
    let target = target_polynomial(1);
    assert_eq!(check_divisibility(&[fw(1)], &a_polys, &b_polys, &c_polys, &target).unwrap(), false);
    assert!(matches!(
        check_divisibility(&[fw(1)], &a_polys, &b_polys, &c_polys, &poly(&[])),
        Err(QapError::DivisionByZero)
    ));
}

#[test]
fn test_single_constraint() {
    let mut constraint = R1CSConstraint::new();
    constraint.add_a_variable(0, fw(1));
    constraint.add_b_variable(1, fw(1));
    constraint.add_c_variable(2, fw(1));
    let constraints = vec![constraint];
    let result = r1cs_to_qap(&constraints, 3);
    assert!(result.is_err());
    assert!(matches!(result.unwrap_err(), QapError::InsufficientConstraints));
}

#[test]
fn test_two_constraints() {
    let mut c1 = R1CSConstraint::new();
    c1.add_a_variable(0, fw(1));
    c1.add_b_variable(1, fw(1));
    c1.add_c_variable(2, fw(1));

    let mut c2 = R1CSConstraint::new();
    c2.add_a_variable(0, fw(1));
    c2.add_b_variable(0, fw(1));
    c2.add_c_variable(3, fw(1));

    let constraints = vec![c1, c2];
    let num_vars = 4;
    let (a, b, c) = r1cs_to_qap(&constraints, num_vars).unwrap();

    assert_eq!(a.len(), num_vars);
    assert_eq!(b.len(), num_vars);
    assert_eq!(c.len(), num_vars);

    let x1 = fw(1);
    let x2 = fw(2);
    assert_eq!(a[0].evaluate(&x1).value, Fq::from(1u64));
    assert_eq!(a[0].evaluate(&x2).value, Fq::from(1u64));
    // b[1] is 1 at x = 1 and 0 at x = 2; c[3] is 0 then 1.
    assert_eq!(b[1].evaluate(&x1).value, Fq::one());
    assert_eq!(b[1].evaluate(&x2).value, Fq::zero());
    assert_eq!(c[3].evaluate(&x1).value, Fq::zero());
    assert_eq!(c[3].evaluate(&x2).value, Fq::one());
}

#[test]
fn qap_of_satisfied_r1cs_is_divisible() {
    // x·x = x2 and x2·x = x3 over the witness [1, x, x2, x3] with x = 3.
    let mut c1 = R1CSConstraint::new();
    c1.add_a_variable(1, fw(1));
    c1.add_b_variable(1, fw(1));
    c1.add_c_variable(2, fw(1));
    let mut c2 = R1CSConstraint::new();
    c2.add_a_variable(2, fw(1));
    c2.add_b_variable(1, fw(1));
    c2.add_c_variable(3, fw(1));
    let (a, b, c) = r1cs_to_qap(&[c1, c2], 4).unwrap();
    let target = target_polynomial(2);
    let good = [fw(1), fw(3), fw(9), fw(27)];
    assert!(check_divisibility(&good, &a, &b, &c, &target).unwrap());
    let bad = [fw(1), fw(3), fw(9), fw(28)];
    assert!(!check_divisibility(&bad, &a, &b, &c, &target).unwrap());
}

#[test]
fn test_lagrange_interpolate() {
    let points = vec![
        (Fq::from(1u64), fw(2)),
        (Fq::from(2u64), fw(4)),
        (Fq::from(3u64), fw(6)),
    ];
    let poly = lagrange_interpolate(&points).unwrap();
    assert_eq!(poly.evaluate(&fw(1)).value, Fq::from(2u64));
    assert_eq!(poly.evaluate(&fw(2)).value, Fq::from(4u64));
    assert_eq!(poly.evaluate(&fw(3)).value, Fq::from(6u64));
    assert_eq!(poly.evaluate(&fw(10)).value, Fq::from(20u64));
}

#[test]
fn test_empty_constraints() {
    let constraints: Vec<R1CSConstraint> = vec![];
    let result = r1cs_to_qap(&constraints, 3);
    assert!(result.is_err());
    assert!(matches!(result.unwrap_err(), QapError::EmptyConstraints));
}

#[test]
fn test_empty_points() {
    let points: Vec<(Fq, FieldWrapper)> = vec![];
    let result = lagrange_interpolate(&points);
    assert!(result.is_err());
    assert!(matches!(result.unwrap_err(), QapError::EmptyPoints));
}

#[test]
fn lagrange_duplicate_x() {
    let points = vec![(Fq::from(1u64), fw(2)), (Fq::from(5u64), fw(3)), (Fq::from(5u64), fw(4))];
    let result = lagrange_interpolate(&points);
    assert!(matches!(result, Err(QapError::DuplicateX(_))));
    let expected = format!("x-value {:?} appears at indices 1 and 2", ark_bn254::Fq::from(5u64));
    match result {
        Err(QapError::DuplicateX(m)) => assert_eq!(m, expected),
        _ => unreachable!(),
    }
}

#[test]
fn qap_error_messages() {
    assert_eq!(QapError::EmptyConstraints.to_string(), "No constraints provided");
    assert_eq!(QapError::InsufficientConstraints.to_string(), "Need at least 2 constraints for interpolation");
    assert_eq!(QapError::EmptyPoints.to_string(), "No points provided for interpolation");
    assert_eq!(QapError::DivisionByZero.to_string(), "Division by zero polynomial");
    assert_eq!(
        QapError::MismatchedLengths(2, 105).to_string(),
        "Mismatched lengths: witness has 2 elements but polynomials have 105"
    );
    assert_eq!(
        QapError::DuplicateX("x".to_string()).to_string(),
        "Duplicate x-value in interpolation points: x"
    );
}

#[test]
fn groth16_error_messages() {
    assert_eq!(number_text(0), "0");
    assert_eq!(number_text(9), "9");
    assert_eq!(number_text(10), "10");
    assert_eq!(number_text(1234567890), "1234567890");
    assert_eq!(
        Groth16Error::MismatchedPolynomials(1, 20, 300).to_string(),
        "Mismatched polynomial vector lengths: a=1, b=20, c=300"
    );
    assert_eq!(Groth16Error::EmptyPolynomials.to_string(), "Empty polynomial vectors provided");
    assert_eq!(Groth16Error::InvalidInputs(7).to_string(), "Invalid number of inputs: 7");
    assert_eq!(
        Groth16Error::EvaluationError("bad".to_string()).to_string(),
        "Polynomial evaluation error: bad"
    );
    assert_eq!(Groth16Error::SerializationError("s".to_string()).to_string(), "Serialization error: s");
    assert_eq!(
        Groth16Error::InvalidWitnessLength { expected: 4, actual: 3 }.to_string(),
        "Invalid witness length: expected 4, got 3"
    );
    assert_eq!(Groth16Error::DivisionError("d".to_string()).to_string(), "Division error: d");
    assert_eq!(Groth16Error::QapError("q".to_string()).to_string(), "QAP error: q");
}

#[test]
fn field_values_match_ark() {
    // The element p − 1, printed through ark's Debug, is ark's −1.
    let minus_one = Fq::zero().sub(&Fq::one());
    let points = vec![(minus_one, fw(1)), (minus_one, fw(2))];
    let expected = format!("x-value {:?} appears at indices 0 and 1", -ark_bn254::Fq::from(1u64));
    match lagrange_interpolate(&points) {
        Err(QapError::DuplicateX(m)) => assert_eq!(m, expected),
        _ => unreachable!(),
    }
    // 2^64 + 5 computed from limbs-sized pieces agrees with ark.
    let x = Fq::from_u64(u64::MAX).add(&Fq::from_u64(6));
    let ax = ark_bn254::Fq::from(u64::MAX) + ark_bn254::Fq::from(6u64);
    let pts = vec![(x, fw(1)), (x, fw(2))];
    match lagrange_interpolate(&pts) {
        Err(QapError::DuplicateX(m)) => {
            assert_eq!(m, format!("x-value {:?} appears at indices 0 and 1", ax))
        }
        _ => unreachable!(),
    }
}
