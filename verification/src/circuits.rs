//! Example circuits: a cubic polynomial, a toy hash preimage, a toy Merkle
//! path and a threshold check, each with its witness, its R1CS encoding and
//! a direct check of the statement it proves.
//!
//! Witness layouts (index 0 is always the constant one):
//! - cubic: `[1, a, b, c, d, y, x, x², x³]`
//! - hash preimage: `[1, h, m]`
//! - Merkle path: `[1, root, leaf, path_sum]`
//! - range proof: `[1, result, threshold, value]`

use vstd::prelude::*;

use crate::field::{fadd, fmul, modulus, FieldWrapper, Fq};
use crate::r1cs::{
    all_hold, coeff_values, constraint_holds, lin_comb, witness_values, R1CSConstraint,
};

verus! {

/// `a·x³ + b·x² + c·x + d` computed in the field.
pub open spec fn cubic_value(a: nat, b: nat, c: nat, d: nat, x: nat) -> nat {
    let x_sq = fmul(x, x);
    let x_cu = fmul(x_sq, x);
    fadd(fadd(fadd(fmul(a, x_cu), fmul(b, x_sq)), fmul(c, x)), d)
}

/// The toy hash `m · 7` with wrap-around at 2^64.
pub open spec fn spec_simple_hash(m: u64) -> u64 {
    ((m as nat * 7) % 0x1_0000_0000_0000_0000) as u64
}

/// The toy Merkle root `(leaf + path_sum) · 3`, each step wrapping at 2^64.
pub open spec fn spec_compute_root(leaf: u64, path_sum: u64) -> u64 {
    ((((leaf as nat + path_sum as nat) % 0x1_0000_0000_0000_0000) * 3) % 0x1_0000_0000_0000_0000) as u64
}

/// One when `value >= threshold`, zero otherwise.
pub open spec fn spec_check_range(value: u64, threshold: u64) -> u64 {
    if value >= threshold {
        1
    } else {
        0
    }
}

/// The coefficient maps of a constraint `{0: k} · {0: 1} = {out: 1}`, which
/// states that witness entry `out` equals the constant `k`.
pub open spec fn is_constant_check(c: R1CSConstraint, k: nat, out: usize) -> bool {
    &&& coeff_values(c.a@) == map![0usize => k]
    &&& coeff_values(c.b@) == map![0usize => 1nat]
    &&& coeff_values(c.c@) == map![out => 1nat]
}

/// The coefficient maps of a constraint `{l: 1} · {r: 1} = {out: 1}`, which
/// states that entry `out` is the product of entries `l` and `r`.
pub open spec fn is_product_check(c: R1CSConstraint, l: usize, r: usize, out: usize) -> bool {
    &&& coeff_values(c.a@) == map![l => 1nat]
    &&& coeff_values(c.b@) == map![r => 1nat]
    &&& coeff_values(c.c@) == map![out => 1nat]
}

/// Builds the constraint `{0: k} · {0: 1} = {out: 1}`.
fn constant_check(k: FieldWrapper, out: usize) -> (c: R1CSConstraint)
    ensures
        is_constant_check(c, k@, out),
{
    let mut c = R1CSConstraint::new();
    c.add_a_variable(0, k);
    c.add_b_variable(0, FieldWrapper::from_u64(1));
    c.add_c_variable(out, FieldWrapper::from_u64(1));
    assert(coeff_values(c.a@) =~= map![0usize => k@]);
    assert(coeff_values(c.b@) =~= map![0usize => 1nat]);
    assert(coeff_values(c.c@) =~= map![out => 1nat]);
    c
}

/// Builds the constraint `{l: 1} · {r: 1} = {out: 1}`.
fn product_check(l: usize, r: usize, out: usize) -> (c: R1CSConstraint)
    ensures
        is_product_check(c, l, r, out),
{
    let mut c = R1CSConstraint::new();
    c.add_a_variable(l, FieldWrapper::from_u64(1));
    c.add_b_variable(r, FieldWrapper::from_u64(1));
    c.add_c_variable(out, FieldWrapper::from_u64(1));
    assert(coeff_values(c.a@) =~= map![l => 1nat]);
    assert(coeff_values(c.b@) =~= map![r => 1nat]);
    assert(coeff_values(c.c@) =~= map![out => 1nat]);
    c
}

/// A linear combination with a single coefficient `k` at index `i` picks
/// out `k · w[i]`.
proof fn lemma_single_term(k: nat, i: usize, w: Seq<nat>, n: nat)
    requires
        i < n <= w.len(),
        n <= usize::MAX + 1,
        k < modulus(),
        w[i as int] < modulus(),
    ensures
        lin_comb(map![i => k], w, n) == fmul(k, w[i as int]),
    decreases n,
{
    let m = map![i => k];
    let j = (n - 1) as nat;
    if j > i {
        lemma_single_term(k, i, w, j);
        assert(!m.contains_key(j as usize));
    } else {
        lemma_no_term_below(m, i, w, j);
        assert(m.contains_key(j as usize));
        assert(fmul(k, w[i as int]) < modulus());
    }
}

/// Below the only key of a one-entry map a linear combination is zero.
proof fn lemma_no_term_below(m: Map<usize, nat>, i: usize, w: Seq<nat>, n: nat)
    requires
        m.dom() == set![i],
        n <= i,
    ensures
        lin_comb(m, w, n) == 0,
    decreases n,
{
    if n > 0 {
        lemma_no_term_below(m, i, w, (n - 1) as nat);
        assert(!m.contains_key((n - 1) as usize));
    }
}

/// A constant check holds exactly when the checked entry equals the constant.
proof fn lemma_constant_check(c: R1CSConstraint, k: nat, out: usize, w: Seq<FieldWrapper>)
    requires
        is_constant_check(c, k, out),
        k < modulus(),
        0 < out < w.len(),
        w.len() <= usize::MAX,
        w[0]@ == 1,
    ensures
        constraint_holds(c, w) <==> w[out as int]@ == k,
{
    let wv = witness_values(w);
    assert(wv[0] == 1);
    assert(wv[out as int] == w[out as int]@);
    assert(wv[out as int] < modulus()) by {
        crate::field::lemma_value_below_modulus(w[out as int].value);
    }
    lemma_single_term(k, 0, wv, w.len());
    lemma_single_term(1, 0, wv, w.len());
    lemma_single_term(1, out, wv, w.len());
    assert(fmul(k, 1) == k);
    assert(fmul(1, 1) == 1);
    assert(fmul(1, wv[out as int]) == wv[out as int]);
    assert(fmul(k, 1) == k);
}

/// Cubic polynomial circuit: proves knowledge of `x` with
/// `a·x³ + b·x² + c·x + d = y`.
pub struct CubicCircuit {
    /// Coefficient of x³ (public)
    pub a: u64,
    /// Coefficient of x² (public)
    pub b: u64,
    /// Coefficient of x (public)
    pub c: u64,
    /// Constant term (public)
    pub d: u64,
    /// Private input
    pub x: u64,
    /// Public output
    pub y: u64,
}

impl CubicCircuit {
    /// Creates a new cubic circuit instance.
    pub fn new(a: u64, b: u64, c: u64, d: u64, x: u64, y: u64) -> (r: Self)
        ensures
            r.a == a && r.b == b && r.c == c && r.d == d && r.x == x && r.y == y,
    {
        CubicCircuit { a, b, c, d, x, y }
    }

    /// `a·x³ + b·x² + c·x + d` of this circuit, in the field.
    pub open spec fn expected(&self) -> nat {
        cubic_value(self.a as nat, self.b as nat, self.c as nat, self.d as nat, self.x as nat)
    }

    /// The R1CS of the circuit: `x·x = x²`, `x²·x = x³` and
    /// `expected · 1 = y`.
    pub open spec fn is_r1cs(&self, cs: Seq<R1CSConstraint>) -> bool {
        &&& cs.len() == 3
        &&& is_product_check(cs[0], 6, 6, 7)
        &&& is_product_check(cs[1], 7, 6, 8)
        &&& is_constant_check(cs[2], self.expected(), 5)
    }

    /// The witness values `[1, a, b, c, d, y, x, x², x³]`.
    pub open spec fn witness_spec(&self) -> Seq<nat> {
        seq![
            1nat,
            self.a as nat,
            self.b as nat,
            self.c as nat,
            self.d as nat,
            self.y as nat,
            self.x as nat,
            self.x as nat * self.x as nat,
            self.x as nat * self.x as nat * self.x as nat,
        ]
    }

    /// `a·x³ + b·x² + c·x + d` computed with field arithmetic.
    fn evaluate(&self) -> (r: Fq)
        ensures
            r@ == self.expected(),
    {
        let x_field = Fq::from_u64(self.x);
        let x_sq = x_field.mul(&x_field);
        let x_cu = x_sq.mul(&x_field);
        let t1 = Fq::from_u64(self.a).mul(&x_cu);
        let t2 = Fq::from_u64(self.b).mul(&x_sq);
        let t3 = Fq::from_u64(self.c).mul(&x_field);
        t1.add(&t2).add(&t3).add(&Fq::from_u64(self.d))
    }

    /// Converts the circuit to R1CS: `x·x = x²`, `x²·x = x³` and
    /// `expected · 1 = y`, with `expected` computed in the field.
    pub fn to_r1cs(&self) -> (cs: Vec<R1CSConstraint>)
        ensures
            self.is_r1cs(cs@),
    {
        let mut constraints: Vec<R1CSConstraint> = Vec::new();
        constraints.push(product_check(6, 6, 7));
        constraints.push(product_check(7, 6, 8));
        let expected = self.evaluate();
        constraints.push(constant_check(FieldWrapper::from_fq(expected), 5));
        constraints
    }

    /// The witness `[1, a, b, c, d, y, x, x², x³]`, with `x²` and `x³`
    /// computed in 64-bit integers (which must not overflow).
    pub fn witness(&self) -> (w: Vec<FieldWrapper>)
        requires
            self.x as nat * self.x as nat * self.x as nat <= u64::MAX,
        ensures
            witness_values(w@) == self.witness_spec(),
    {
        let x = self.x;
        assert(x as nat * x as nat <= u64::MAX) by (nonlinear_arith)
            requires
                x as nat * x as nat * x as nat <= u64::MAX,
        {
            if x > 0 {
                assert(x as nat * x as nat <= x as nat * x as nat * x as nat);
            }
        }
        let x_sq = x * x;
        let x_cu = x_sq * x;
        let w = vec![
            FieldWrapper::from_u64(1),
            FieldWrapper::from_u64(self.a),
            FieldWrapper::from_u64(self.b),
            FieldWrapper::from_u64(self.c),
            FieldWrapper::from_u64(self.d),
            FieldWrapper::from_u64(self.y),
            FieldWrapper::from_u64(x),
            FieldWrapper::from_u64(x_sq),
            FieldWrapper::from_u64(x_cu),
        ];
        assert(witness_values(w@) =~= self.witness_spec());
        w
    }

    /// Checks `a·x³ + b·x² + c·x + d = y` in the field.
    pub fn verify(&self) -> (r: bool)
        ensures
            r == (self.expected() == self.y as nat),
    {
        let result = self.evaluate();
        result.equals(&Fq::from_u64(self.y))
    }
}

/// Toy hash-preimage circuit: proves knowledge of `m` with
/// `simple_hash(m) = h`.
pub struct HashPreimageCircuit {
    /// Private input: the preimage
    pub m: u64,
    /// Public output: the hash value
    pub h: u64,
}

impl HashPreimageCircuit {
    /// The toy hash `m · 7`, wrapping on overflow.
    pub fn simple_hash(m: u64) -> (h: u64)
        ensures
            h == spec_simple_hash(m),
    {
        m.wrapping_mul(7)
    }

    /// Creates a new hash preimage circuit instance.
    pub fn new(m: u64, h: u64) -> (r: Self)
        ensures
            r.m == m && r.h == h,
    {
        HashPreimageCircuit { m, h }
    }

    /// Converts the circuit to R1CS: `expected · 1 = h` with
    /// `expected = 7 · m` computed in the field.
    pub fn to_r1cs(&self) -> (cs: Vec<R1CSConstraint>)
        ensures
            cs@.len() == 1,
            is_constant_check(cs@[0], fmul(self.m as nat, 7), 1),
    {
        let expected = Fq::from_u64(self.m).mul(&Fq::from_u64(7));
        let mut constraints: Vec<R1CSConstraint> = Vec::new();
        constraints.push(constant_check(FieldWrapper::from_fq(expected), 1));
        constraints
    }

    /// The witness `[1, h, m]`.
    pub fn witness(&self) -> (w: Vec<FieldWrapper>)
        ensures
            witness_values(w@) == seq![1nat, self.h as nat, self.m as nat],
    {
        let w = vec![
            FieldWrapper::from_u64(1),
            FieldWrapper::from_u64(self.h),
            FieldWrapper::from_u64(self.m),
        ];
        assert(witness_values(w@) =~= seq![1nat, self.h as nat, self.m as nat]);
        w
    }

    /// Checks `simple_hash(m) = h`.
    pub fn verify(&self) -> (r: bool)
        ensures
            r == (spec_simple_hash(self.m) == self.h),
    {
        Self::simple_hash(self.m) == self.h
    }
}

/// Toy Merkle-path circuit: proves knowledge of `leaf` and `path_sum` with
/// `compute_root(leaf, path_sum) = root`.
pub struct MerkleCircuit {
    /// Private input: the leaf value
    pub leaf: u64,
    /// Private input: the combined path value
    pub path_sum: u64,
    /// Public output: the root
    pub root: u64,
}

impl MerkleCircuit {
    /// The toy root `(leaf + path_sum) · 3`, wrapping on overflow.
    pub fn compute_root(leaf: u64, path_sum: u64) -> (r: u64)
        ensures
            r == spec_compute_root(leaf, path_sum),
    {
        let s = leaf.wrapping_add(path_sum);
        s.wrapping_mul(3)
    }

    /// Creates a new Merkle circuit instance.
    pub fn new(leaf: u64, path_sum: u64, root: u64) -> (r: Self)
        ensures
            r.leaf == leaf && r.path_sum == path_sum && r.root == root,
    {
        MerkleCircuit { leaf, path_sum, root }
    }

    /// Converts the circuit to R1CS: `expected · 1 = root` with
    /// `expected = (leaf + path_sum) · 3` computed in the field.
    pub fn to_r1cs(&self) -> (cs: Vec<R1CSConstraint>)
        ensures
            cs@.len() == 1,
            is_constant_check(cs@[0], fmul(fadd(self.leaf as nat, self.path_sum as nat), 3), 1),
    {
        let sum = Fq::from_u64(self.leaf).add(&Fq::from_u64(self.path_sum));
        let expected = sum.mul(&Fq::from_u64(3));
        let mut constraints: Vec<R1CSConstraint> = Vec::new();
        constraints.push(constant_check(FieldWrapper::from_fq(expected), 1));
        constraints
    }

    /// The witness `[1, root, leaf, path_sum]`.
    pub fn witness(&self) -> (w: Vec<FieldWrapper>)
        ensures
            witness_values(w@) == seq![
                1nat,
                self.root as nat,
                self.leaf as nat,
                self.path_sum as nat,
            ],
    {
        let w = vec![
            FieldWrapper::from_u64(1),
            FieldWrapper::from_u64(self.root),
            FieldWrapper::from_u64(self.leaf),
            FieldWrapper::from_u64(self.path_sum),
        ];
        assert(witness_values(w@) =~= seq![
            1nat,
            self.root as nat,
            self.leaf as nat,
            self.path_sum as nat,
        ]);
        w
    }

    /// Checks `compute_root(leaf, path_sum) = root`.
    pub fn verify(&self) -> (r: bool)
        ensures
            r == (spec_compute_root(self.leaf, self.path_sum) == self.root),
    {
        Self::compute_root(self.leaf, self.path_sum) == self.root
    }
}

/// Threshold circuit: proves `value >= threshold` (result one) or
/// `value < threshold` (result zero) without revealing `value`.
pub struct RangeProofCircuit {
    /// Private input: the value to check
    pub value: u64,
    /// Public input: the threshold
    pub threshold: u64,
    /// Public output: one if `value >= threshold`, else zero
    pub result: u64,
}

impl RangeProofCircuit {
    /// One when `value >= threshold`, zero otherwise.
    pub fn check_range(value: u64, threshold: u64) -> (r: u64)
        ensures
            r == spec_check_range(value, threshold),
            r == 1 <==> value >= threshold,
            r == 0 <==> value < threshold,
    {
        if value >= threshold {
            1
        } else {
            0
        }
    }

    /// Creates a new range proof circuit instance.
    pub fn new(value: u64, threshold: u64, result: u64) -> (r: Self)
        ensures
            r.value == value && r.threshold == threshold && r.result == result,
    {
        RangeProofCircuit { value, threshold, result }
    }

    /// Converts the circuit to R1CS: `expected · 1 = result` with
    /// `expected = check_range(value, threshold)`.
    pub fn to_r1cs(&self) -> (cs: Vec<R1CSConstraint>)
        ensures
            cs@.len() == 1,
            is_constant_check(cs@[0], spec_check_range(self.value, self.threshold) as nat, 1),
    {
        let expected = Self::check_range(self.value, self.threshold);
        let mut constraints: Vec<R1CSConstraint> = Vec::new();
        constraints.push(constant_check(FieldWrapper::from_fq(Fq::from_u64(expected)), 1));
        constraints
    }

    /// The witness `[1, result, threshold, value]`.
    pub fn witness(&self) -> (w: Vec<FieldWrapper>)
        ensures
            witness_values(w@) == seq![
                1nat,
                self.result as nat,
                self.threshold as nat,
                self.value as nat,
            ],
    {
        let w = vec![
            FieldWrapper::from_u64(1),
            FieldWrapper::from_u64(self.result),
            FieldWrapper::from_u64(self.threshold),
            FieldWrapper::from_u64(self.value),
        ];
        assert(witness_values(w@) =~= seq![
            1nat,
            self.result as nat,
            self.threshold as nat,
            self.value as nat,
        ]);
        w
    }

    /// Checks `check_range(value, threshold) = result`.
    pub fn verify(&self) -> (r: bool)
        ensures
            r == (spec_check_range(self.value, self.threshold) == self.result),
            r == (if self.value >= self.threshold { self.result == 1 } else { self.result == 0 }),
    {
        Self::check_range(self.value, self.threshold) == self.result
    }
}

/// A product check holds exactly when entry `out` is the field product of
/// entries `l` and `r`.
proof fn lemma_product_check(c: R1CSConstraint, l: usize, r: usize, out: usize, w: Seq<FieldWrapper>)
    requires
        is_product_check(c, l, r, out),
        l < w.len(),
        r < w.len(),
        out < w.len(),
        w.len() <= usize::MAX,
    ensures
        constraint_holds(c, w) <==> fmul(w[l as int]@, w[r as int]@) == w[out as int]@,
{
    let wv = witness_values(w);
    crate::field::lemma_value_below_modulus(w[l as int].value);
    crate::field::lemma_value_below_modulus(w[r as int].value);
    crate::field::lemma_value_below_modulus(w[out as int].value);
    lemma_single_term(1, l, wv, w.len());
    lemma_single_term(1, r, wv, w.len());
    lemma_single_term(1, out, wv, w.len());
    assert(fmul(1, wv[l as int]) == wv[l as int]);
    assert(fmul(1, wv[r as int]) == wv[r as int]);
    assert(fmul(1, wv[out as int]) == wv[out as int]);
}

/// Cubic circuit: the witness satisfies every constraint of the circuit's
/// R1CS exactly when the circuit verifies (for every `x` whose cube fits in
/// 64 bits, which computing the witness needs).
pub proof fn lemma_cubic_r1cs_iff_verify(
    circuit: CubicCircuit,
    cs: Seq<R1CSConstraint>,
    w: Seq<FieldWrapper>,
)
    requires
        circuit.x as nat * circuit.x as nat * circuit.x as nat <= u64::MAX,
        circuit.is_r1cs(cs),
        witness_values(w) == circuit.witness_spec(),
    ensures
        all_hold(cs, w) <==> circuit.expected() == circuit.y as nat,
{
    let x = circuit.x as nat;
    let wv = witness_values(w);
    assert(w.len() == 9) by {
        assert(wv.len() == 9);
    }
    assert(x * x <= u64::MAX) by (nonlinear_arith)
        requires
            x * x * x <= u64::MAX,
    {
        if x > 0 {
            assert(x * x <= x * x * x);
        }
    }
    assert(x * x * x < modulus());
    assert(w[6]@ == x && w[7]@ == x * x && w[8]@ == x * x * x && w[5]@ == circuit.y as nat && w[0]@ == 1) by {
        assert(wv[6] == w[6]@);
        assert(wv[7] == w[7]@);
        assert(wv[8] == w[8]@);
        assert(wv[5] == w[5]@);
        assert(wv[0] == w[0]@);
    }
    lemma_product_check(cs[0], 6, 6, 7, w);
    lemma_product_check(cs[1], 7, 6, 8, w);
    assert(fmul(x, x) == x * x);
    assert(fmul(x * x, x) == x * x * x);
    assert(constraint_holds(cs[0], w));
    assert(constraint_holds(cs[1], w));
    assert(circuit.expected() < modulus());
    lemma_constant_check(cs[2], circuit.expected(), 5, w);
    if all_hold(cs, w) {
        assert(constraint_holds(cs[2], w));
    }
    if circuit.expected() == circuit.y as nat {
        assert forall|i: int| 0 <= i < cs.len() implies #[trigger] constraint_holds(cs[i], w) by {
            if i == 2 {
                assert(constraint_holds(cs[2], w));
            }
        }
    }
}

/// Hash-preimage circuit, soundness: a witness of the form `[1, h, m]`
/// that satisfies the R1CS of the circuit makes the circuit verify.
pub proof fn lemma_hash_preimage_r1cs_sound(
    circuit: HashPreimageCircuit,
    cs: Seq<R1CSConstraint>,
    w: Seq<FieldWrapper>,
)
    requires
        cs.len() == 1,
        is_constant_check(cs[0], fmul(circuit.m as nat, 7), 1),
        witness_values(w) == seq![1nat, circuit.h as nat, circuit.m as nat],
        all_hold(cs, w),
    ensures
        spec_simple_hash(circuit.m) == circuit.h,
{
    let wv = witness_values(w);
    assert(w.len() == 3) by {
        assert(wv.len() == 3);
    }
    assert(wv[0] == w[0]@ && wv[1] == w[1]@);
    lemma_constant_check(cs[0], fmul(circuit.m as nat, 7), 1, w);
    assert(constraint_holds(cs[0], w));
    assert(circuit.m as nat * 7 < modulus());
    assert(fmul(circuit.m as nat, 7) == circuit.m as nat * 7);
}

/// Hash-preimage circuit, completeness: when `7 · m` does not wrap, a
/// circuit that verifies has a witness that satisfies its R1CS.
pub proof fn lemma_hash_preimage_r1cs_complete(
    circuit: HashPreimageCircuit,
    cs: Seq<R1CSConstraint>,
    w: Seq<FieldWrapper>,
)
    requires
        circuit.m as nat * 7 <= u64::MAX,
        cs.len() == 1,
        is_constant_check(cs[0], fmul(circuit.m as nat, 7), 1),
        witness_values(w) == seq![1nat, circuit.h as nat, circuit.m as nat],
        spec_simple_hash(circuit.m) == circuit.h,
    ensures
        all_hold(cs, w),
{
    let wv = witness_values(w);
    assert(w.len() == 3) by {
        assert(wv.len() == 3);
    }
    assert(wv[0] == w[0]@ && wv[1] == w[1]@);
    lemma_constant_check(cs[0], fmul(circuit.m as nat, 7), 1, w);
    assert(circuit.m as nat * 7 < modulus());
    assert(fmul(circuit.m as nat, 7) == circuit.m as nat * 7);
    assert(constraint_holds(cs[0], w));
}

/// Merkle-path circuit, soundness: a witness of the form
/// `[1, root, leaf, path_sum]` that satisfies the R1CS of the circuit makes
/// the circuit verify.
pub proof fn lemma_merkle_circuit_r1cs_sound(
    circuit: MerkleCircuit,
    cs: Seq<R1CSConstraint>,
    w: Seq<FieldWrapper>,
)
    requires
        cs.len() == 1,
        is_constant_check(cs[0], fmul(fadd(circuit.leaf as nat, circuit.path_sum as nat), 3), 1),
        witness_values(w) == seq![
            1nat,
            circuit.root as nat,
            circuit.leaf as nat,
            circuit.path_sum as nat,
        ],
        all_hold(cs, w),
    ensures
        spec_compute_root(circuit.leaf, circuit.path_sum) == circuit.root,
{
    let wv = witness_values(w);
    let k = fmul(fadd(circuit.leaf as nat, circuit.path_sum as nat), 3);
    assert(w.len() == 4) by {
        assert(wv.len() == 4);
    }
    assert(wv[0] == w[0]@ && wv[1] == w[1]@);
    assert(k < modulus());
    lemma_constant_check(cs[0], k, 1, w);
    assert(constraint_holds(cs[0], w));
    assert(k == (circuit.leaf as nat + circuit.path_sum as nat) * 3);
}

/// Merkle-path circuit, completeness: when `(leaf + path_sum) · 3` does not
/// wrap, a circuit that verifies has a witness that satisfies its R1CS.
pub proof fn lemma_merkle_circuit_r1cs_complete(
    circuit: MerkleCircuit,
    cs: Seq<R1CSConstraint>,
    w: Seq<FieldWrapper>,
)
    requires
        (circuit.leaf as nat + circuit.path_sum as nat) * 3 <= u64::MAX,
        cs.len() == 1,
        is_constant_check(cs[0], fmul(fadd(circuit.leaf as nat, circuit.path_sum as nat), 3), 1),
        witness_values(w) == seq![
            1nat,
            circuit.root as nat,
            circuit.leaf as nat,
            circuit.path_sum as nat,
        ],
        spec_compute_root(circuit.leaf, circuit.path_sum) == circuit.root,
    ensures
        all_hold(cs, w),
{
    let wv = witness_values(w);
    let k = fmul(fadd(circuit.leaf as nat, circuit.path_sum as nat), 3);
    assert(w.len() == 4) by {
        assert(wv.len() == 4);
    }
    assert(wv[0] == w[0]@ && wv[1] == w[1]@);
    assert(k == (circuit.leaf as nat + circuit.path_sum as nat) * 3);
    lemma_constant_check(cs[0], k, 1, w);
    assert(constraint_holds(cs[0], w));
}

/// Range-proof circuit: a witness of the form `[1, result, threshold, value]`
/// satisfies the circuit's R1CS exactly when the circuit verifies.
pub proof fn lemma_range_r1cs_iff_verify(
    circuit: RangeProofCircuit,
    cs: Seq<R1CSConstraint>,
    w: Seq<FieldWrapper>,
)
    requires
        cs.len() == 1,
        is_constant_check(cs[0], spec_check_range(circuit.value, circuit.threshold) as nat, 1),
        witness_values(w) == seq![
            1nat,
            circuit.result as nat,
            circuit.threshold as nat,
            circuit.value as nat,
        ],
    ensures
        all_hold(cs, w) <==> spec_check_range(circuit.value, circuit.threshold) == circuit.result,
{
    let wv = witness_values(w);
    assert(w.len() == 4) by {
        assert(wv.len() == 4);
    }
    assert(wv[0] == w[0]@ && wv[1] == w[1]@);
    lemma_constant_check(cs[0], spec_check_range(circuit.value, circuit.threshold) as nat, 1, w);
    if spec_check_range(circuit.value, circuit.threshold) == circuit.result {
        assert forall|i: int| 0 <= i < cs.len() implies #[trigger] constraint_holds(cs[i], w) by {}
    }
    if all_hold(cs, w) {
        assert(constraint_holds(cs[0], w));
    }
}

/// The range check compares the numbers themselves: it answers one exactly
/// when `value` is at least `threshold`, and zero exactly when it is below,
/// for every pair of 64-bit numbers; so raising the value never turns a
/// passing check into a failing one.
pub proof fn lemma_range_check_compares_values(value: u64, threshold: u64, higher: u64)
    ensures
        spec_check_range(value, threshold) == 1 <==> (value as int) >= (threshold as int),
        spec_check_range(value, threshold) == 0 <==> (value as int) < (threshold as int),
        higher >= value ==> spec_check_range(higher, threshold) >= spec_check_range(value, threshold),
{
}

} // verus!
