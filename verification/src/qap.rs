//! The R1CS-to-QAP transformation: Lagrange interpolation of the constraint
//! coefficients at the points `1..=n`, the target polynomial
//! `t(x) = (x − 1)(x − 2)…(x − n)`, and the divisibility check
//! `t(x) | a(x)·b(x) − c(x)` with polynomial long division.

use vstd::prelude::*;

use crate::field::{
    fadd, fmul, fsub, lemma_fadd_assoc, lemma_fadd_comm, lemma_field_identities,
    lemma_fmul_assoc, lemma_fmul_comm, lemma_fmul_distrib, lemma_fmul_distrib_sub,
    lemma_value_below_modulus, limbs_value, modulus, FieldWrapper, Fq,
};
use crate::groth16::{decimal_text, number_text, u64_text};
use crate::r1cs::R1CSConstraint;
use crate::polynomial::{
    all_zero, cof, lemma_conv_top, lemma_poly_add_value, lemma_poly_mul_value,
    lemma_poly_sub_value, lemma_psum_scale, lemma_values_small, mul_coeffs, peval,
    psum, trim, values, Polynomial,
};

verus! {

/// Errors that can occur during QAP operations
#[derive(Debug)]
pub enum QapError {
    /// No constraints provided
    EmptyConstraints,
    /// Need at least 2 constraints for interpolation
    InsufficientConstraints,
    /// No points provided for interpolation
    EmptyPoints,
    /// Duplicate x-value in interpolation points
    DuplicateX(String),
    /// Mismatched lengths: witness length, then the longest polynomial list
    MismatchedLengths(usize, usize),
    /// Division by zero polynomial
    DivisionByZero,
}

/// The message of each error.
pub open spec fn qap_message(e: QapError) -> Seq<char> {
    match e {
        QapError::EmptyConstraints => "No constraints provided"@,
        QapError::InsufficientConstraints => "Need at least 2 constraints for interpolation"@,
        QapError::EmptyPoints => "No points provided for interpolation"@,
        QapError::DuplicateX(s) => "Duplicate x-value in interpolation points: "@ + s@,
        QapError::MismatchedLengths(w, p) => "Mismatched lengths: witness has "@ + decimal_text(
            w as nat,
        ) + " elements but polynomials have "@ + decimal_text(p as nat),
        QapError::DivisionByZero => "Division by zero polynomial"@,
    }
}

impl QapError {
    /// The error's message.
    pub fn to_string(&self) -> (s: String)
        ensures
            s@ == qap_message(*self),
    {
        match self {
            QapError::EmptyConstraints => String::from_str("No constraints provided"),
            QapError::InsufficientConstraints => String::from_str(
                "Need at least 2 constraints for interpolation",
            ),
            QapError::EmptyPoints => String::from_str("No points provided for interpolation"),
            QapError::DuplicateX(m) => {
                let mut s = String::from_str("Duplicate x-value in interpolation points: ");
                s.append(m.as_str());
                s
            },
            QapError::MismatchedLengths(w, p) => {
                let mut s = String::from_str("Mismatched lengths: witness has ");
                s.append(number_text(*w).as_str());
                s.append(" elements but polynomials have ");
                s.append(number_text(*p).as_str());
                s
            },
            QapError::DivisionByZero => String::from_str("Division by zero polynomial"),
        }
    }
}

/// `(x − 1)(x − 2)…(x − n)` in the field.
pub open spec fn roots_product(x: nat, n: nat) -> nat
    decreases n,
{
    if n == 0 {
        1
    } else {
        fmul(roots_product(x, (n - 1) as nat), fsub(x, n))
    }
}

/// The value of `[−c, 1]` at `x` is `x − c`.
proof fn lemma_linear_value(c: nat, x: nat)
    requires
        c < modulus(),
    ensures
        peval(seq![fsub(0, c), 1nat], x) == fsub(x, c),
{
    let s = seq![fsub(0, c), 1nat];
    let m = modulus() as int;
    assert(crate::polynomial::fpow(x, 0) == 1);
    assert(crate::polynomial::fpow(x, 1) == fmul(1, x));
    lemma_field_identities(fsub(0, c));
    assert(psum(s, x, 0) == 0);
    assert(cof(s, 0) == fsub(0, c));
    assert(cof(s, 1) == 1);
    assert(psum(s, x, 1) == fadd(0, fmul(fsub(0, c), 1)));
    assert(psum(s, x, 1) == fsub(0, c));
    vstd::arithmetic::div_mod::lemma_mod_twice(x as int, m);
    assert(fmul(1, x) == x % modulus());
    // (0 − c) % m + x % m ≡ x − c
    vstd::arithmetic::div_mod::lemma_add_mod_noop(0 - c, x as int, m);
    vstd::arithmetic::div_mod::lemma_mod_twice(0 - c, m);
    assert(psum(s, x, 2) == fadd(psum(s, x, 1), fmul(1, fmul(1, x))));
    assert(fmul(1, fmul(1, x)) == fmul(1, x)) by {
        lemma_field_identities(fmul(1, x));
    }
    assert(peval(s, x) == fadd(fsub(0, c), fmul(1, x)));
}

/// The constant polynomial `1` takes the value `1` everywhere.
proof fn lemma_constant_value(x: nat)
    ensures
        peval(seq![1nat], x) == 1,
{
    let s = seq![1nat];
    assert(crate::polynomial::fpow(x, 0) == 1);
    assert(cof(s, 0) == 1);
    assert(psum(s, x, 0) == 0);
    lemma_field_identities(1);
    assert(psum(s, x, 1) == fadd(0, fmul(1, 1)));
}

/// `(x − 1)…(x − n)` vanishes at every `x` in `1..=n`.
pub proof fn lemma_roots_product_vanishes(x: nat, n: nat)
    requires
        1 <= x <= n,
        n < modulus(),
    ensures
        roots_product(x, n) == 0,
    decreases n,
{
    if x == n {
        lemma_field_identities(roots_product(x, (n - 1) as nat) % modulus());
        assert(fsub(x, n) == 0);
        vstd::arithmetic::mul::lemma_mul_basics(roots_product(x, (n - 1) as nat) as int);
    } else {
        lemma_roots_product_vanishes(x, (n - 1) as nat);
        vstd::arithmetic::mul::lemma_mul_basics(fsub(x, n) as int);
    }
}

/// Computes the target polynomial `t(x) = (x − 1)(x − 2)…(x − n)`, of degree
/// `n`; for `n = 0` it is the empty product, the constant `1`.
pub fn target_polynomial(num_constraints: usize) -> (t: Polynomial)
    requires
        num_constraints < usize::MAX - 1,
    ensures
        t.cv().len() == num_constraints + 1,
        t.cv().last() == 1,
        forall|x: nat| #[trigger] peval(t.cv(), x) == roots_product(x, num_constraints as nat),
{
    if num_constraints == 0 {
        let mut one: Vec<FieldWrapper> = Vec::new();
        one.push(FieldWrapper::one());
        let t = Polynomial::new(one);
        proof {
            assert(t.cv() =~= seq![1nat]);
            assert forall|x: nat| #[trigger] peval(t.cv(), x) == roots_product(x, 0) by {
                lemma_constant_value(x);
            }
        }
        return t;
    }
    let mut v: Vec<FieldWrapper> = Vec::new();
    v.push(FieldWrapper::zero().sub(&FieldWrapper::one()));
    v.push(FieldWrapper::one());
    let mut result = Polynomial::new(v);
    proof {
        assert(result.cv() =~= seq![fsub(0, 1), 1nat]);
        assert forall|x: nat| #[trigger] peval(result.cv(), x) == roots_product(x, 1) by {
            lemma_linear_value(1, x);
            lemma_field_identities(fsub(x, 1));
            assert(roots_product(x, 0) == 1);
        }
    }
    let mut i: usize = 2;
    while i <= num_constraints
        invariant
            2 <= i <= num_constraints + 1,
            num_constraints < usize::MAX - 1,
            result.cv().len() == i,
            result.cv().last() == 1,
            forall|x: nat| #[trigger] peval(result.cv(), x) == roots_product(x, (i - 1) as nat),
        decreases num_constraints + 1 - i,
    {
        let mut f: Vec<FieldWrapper> = Vec::new();
        f.push(FieldWrapper::zero().sub(&FieldWrapper::from_u64(i as u64)));
        f.push(FieldWrapper::one());
        let factor = Polynomial::new(f);
        let ghost a = result.cv();
        let ghost b = factor.cv();
        assert(b =~= seq![fsub(0, i as nat), 1nat]);
        proof {
            lemma_values_small(result.coeffs@);
            assert(!all_zero(a)) by {
                assert(a[a.len() - 1] == 1);
            }
            assert(!all_zero(b)) by {
                assert(b[1] == 1);
            }
            lemma_conv_top(a, b);
            lemma_field_identities(1);
        }
        result = result.mul(factor);
        proof {
            assert(mul_coeffs(a, b).last() == 1);
            assert(trim(mul_coeffs(a, b)) == mul_coeffs(a, b));
            assert forall|x: nat| #[trigger] peval(result.cv(), x) == roots_product(x, i as nat) by {
                lemma_poly_mul_value(a, b, x);
                lemma_linear_value(i as nat, x);
            }
        }
        i = i + 1;
    }
    result
}

/// Multiplies every coefficient by `scalar`.
fn scale_polynomial(poly: &Polynomial, scalar: &FieldWrapper) -> (r: Polynomial)
    ensures
        r.cv() == Seq::new(poly.cv().len(), |i: int| fmul(poly.cv()[i], scalar@)),
{
    let ghost target = Seq::new(poly.cv().len(), |i: int| fmul(poly.cv()[i], scalar@));
    let mut scaled_coeffs: Vec<FieldWrapper> = Vec::new();
    let mut i: usize = 0;
    while i < poly.coeffs.len()
        invariant
            0 <= i <= poly.coeffs@.len(),
            target == Seq::new(poly.cv().len(), |i: int| fmul(poly.cv()[i], scalar@)),
            values(scaled_coeffs@) == target.subrange(0, i as int),
        decreases poly.coeffs@.len() - i,
    {
        let v = poly.coeffs[i].mul(scalar);
        let ghost before = values(scaled_coeffs@);
        scaled_coeffs.push(v);
        assert(values(scaled_coeffs@) =~= before.push(v@));
        i = i + 1;
        assert(values(scaled_coeffs@) =~= target.subrange(0, i as int));
    }
    assert(values(scaled_coeffs@) =~= target);
    Polynomial::new(scaled_coeffs)
}

/// The value of a scaled polynomial is the scaled value.
proof fn lemma_scale_value(c: Seq<nat>, s: nat, x: nat)
    ensures
        peval(Seq::new(c.len(), |i: int| fmul(c[i], s)), x) == fmul(peval(c, x), s),
{
    let r = Seq::new(c.len(), |i: int| fmul(c[i], s));
    assert forall|i: int| 0 <= i < c.len() implies cof(r, i) == fmul(cof(c, i), s) by {}
    lemma_psum_scale(c, r, s, x, c.len());
}

/// The x-values of interpolation points.
pub open spec fn point_xs(points: Seq<(Fq, FieldWrapper)>) -> Seq<nat> {
    points.map_values(|p: (Fq, FieldWrapper)| p.0@)
}

/// The y-values of interpolation points.
pub open spec fn point_ys(points: Seq<(Fq, FieldWrapper)>) -> Seq<nat> {
    points.map_values(|p: (Fq, FieldWrapper)| p.1@)
}

/// No two points share an x-value.
pub open spec fn distinct_xs(points: Seq<(Fq, FieldWrapper)>) -> bool {
    forall|i: int, j: int|
        0 <= i < j < points.len() ==> #[trigger] point_xs(points)[i] != #[trigger] point_xs(
            points,
        )[j]
}

/// Whether `p` interpolates the points: it has at most as many
/// coefficients as there are points, no trailing zero, and takes value
/// `yᵢ` at every `xᵢ`.
pub open spec fn interpolates(p: Seq<nat>, points: Seq<(Fq, FieldWrapper)>) -> bool {
    &&& p.len() <= points.len()
    &&& trim(p) == p
    &&& forall|i: int|
        0 <= i < points.len() ==> #[trigger] peval(p, point_xs(points)[i]) == point_ys(points)[i]
}

/// `Π_{j<k, j≠i} (x − xs[j])`: the numerator of the Lagrange basis
/// polynomial `Lᵢ` at `x`, over the first `k` points.
pub open spec fn basis_value(xs: Seq<nat>, i: int, x: nat, k: nat) -> nat
    decreases k,
{
    if k == 0 {
        1
    } else if k - 1 == i {
        basis_value(xs, i, x, (k - 1) as nat)
    } else {
        fmul(basis_value(xs, i, x, (k - 1) as nat), fsub(x, xs[k - 1]))
    }
}

/// `Σ_{i<k} Lᵢ(x) · sᵢ` with the numerators over all `n` points.
pub open spec fn basis_sum(xs: Seq<nat>, ss: Seq<nat>, x: nat, n: nat, k: nat) -> nat
    decreases k,
{
    if k == 0 {
        0
    } else {
        fadd(
            basis_sum(xs, ss, x, n, (k - 1) as nat),
            fmul(basis_value(xs, k - 1, x, n), ss[k - 1]),
        )
    }
}

/// The coefficients of `c(x) · (x − xj)`.
pub open spec fn times_linear(c: Seq<nat>, xj: nat) -> Seq<nat> {
    Seq::new(c.len() + 1, |k: int| fsub(cof(c, k - 1), fmul(cof(c, k), xj)))
}

/// Multiplying by `(x − xj)` multiplies the value by `x − xj`.
proof fn lemma_times_linear_value(c: Seq<nat>, xj: nat, x: nat)
    requires
        forall|i: int| 0 <= i < c.len() ==> c[i] < modulus(),
    ensures
        peval(times_linear(c, xj), x) == fmul(peval(c, x), fsub(x, xj)),
{
    let n = c.len() + 1;
    let r = times_linear(c, xj);
    let sh = Seq::new(n, |k: int| cof(c, k - 1));
    let sc = Seq::new(n, |k: int| fmul(cof(c, k), xj));
    assert forall|i: int| 0 <= i < n implies cof(sh, i) < modulus() by {}
    assert forall|i: int| 0 <= i < n implies cof(r, i) == fsub(cof(sh, i), cof(sc, i)) by {}
    crate::polynomial::lemma_psum_sub(sh, sc, r, x, n);
    assert forall|i: int| 0 <= i < n implies cof(sh, i) == cof(c, i - 1) by {}
    crate::polynomial::lemma_psum_shift(sh, c, x, 1, n);
    assert forall|i: int| 0 <= i < n implies cof(sc, i) == fmul(cof(c, i), xj) by {}
    lemma_psum_scale(c, sc, xj, x, n);
    crate::polynomial::lemma_peval_wide(c, x, n);
    let pc = peval(c, x);
    assert(crate::polynomial::fpow(x, 0) == 1);
    assert(crate::polynomial::fpow(x, 1) == fmul(1, x));
    let m = modulus() as int;
    vstd::arithmetic::div_mod::lemma_mod_twice(x as int, m);
    vstd::arithmetic::div_mod::lemma_mul_mod_noop_left(x as int, pc as int, m);
    vstd::arithmetic::mul::lemma_mul_basics(x as int);
    assert(fmul(1, x) == x % modulus());
    assert(((x as int % m) * pc) % m == (x as int * pc) % m);
    assert(fmul(fmul(1, x), pc) == fmul(x, pc));
    lemma_fmul_comm(x, pc);
    lemma_fmul_distrib_sub(pc, x, xj);
}

/// The basis numerator `Lᵢ` vanishes at every other point.
proof fn lemma_basis_vanishes(xs: Seq<nat>, i: int, t: int, k: nat)
    requires
        t != i,
        0 <= t < k,
        k <= xs.len(),
        forall|j: int| 0 <= j < xs.len() ==> xs[j] < modulus(),
    ensures
        basis_value(xs, i, xs[t], k) == 0,
    decreases k,
{
    let x = xs[t];
    if t == k - 1 {
        assert(fsub(x, xs[t]) == 0);
        vstd::arithmetic::mul::lemma_mul_basics(basis_value(xs, i, x, (k - 1) as nat) as int);
    } else {
        lemma_basis_vanishes(xs, i, t, (k - 1) as nat);
        if k - 1 != i {
            vstd::arithmetic::mul::lemma_mul_basics(fsub(x, xs[k - 1]) as int);
        }
    }
}

/// Summing `Lᵢ(xₜ) · sᵢ` keeps only the term `i = t`.
proof fn lemma_basis_sum_single(xs: Seq<nat>, ss: Seq<nat>, t: int, n: nat, k: nat)
    requires
        0 <= t < n,
        k <= n,
        n == xs.len(),
        forall|j: int| 0 <= j < xs.len() ==> xs[j] < modulus(),
    ensures
        basis_sum(xs, ss, xs[t], n, k) == if t < k {
            fmul(basis_value(xs, t, xs[t], n), ss[t])
        } else {
            0
        },
    decreases k,
{
    if k > 0 {
        let j = k - 1;
        lemma_basis_sum_single(xs, ss, t, n, (k - 1) as nat);
        let prev = basis_sum(xs, ss, xs[t], n, (k - 1) as nat);
        if j != t {
            lemma_basis_vanishes(xs, j, t, n);
            vstd::arithmetic::mul::lemma_mul_basics(ss[j] as int);
            assert(fmul(0, ss[j]) == 0);
            if t < j {
                lemma_field_identities(prev);
            } else {
                assert(fadd(0, 0) == 0);
            }
        } else {
            lemma_field_identities(fmul(basis_value(xs, t, xs[t], n), ss[t]));
        }
    }
}

/// Distinct field values have a non-zero difference.
proof fn lemma_distinct_sub_nonzero(a: nat, b: nat)
    requires
        a < modulus(),
        b < modulus(),
        a != b,
    ensures
        fsub(a, b) != 0,
{
    let m = modulus() as int;
    let d = a - b;
    if d > 0 {
        vstd::arithmetic::div_mod::lemma_small_mod(d as nat, modulus());
    } else {
        vstd::arithmetic::div_mod::lemma_mod_add_multiples_vanish(d, m);
        vstd::arithmetic::div_mod::lemma_small_mod((m + d) as nat, modulus());
    }
}

/// If `d·ip = 1` and `f·v = 1` then `(d·f)·(ip·v) = 1`.
proof fn lemma_inverse_product(d: nat, ip: nat, f: nat, v: nat)
    requires
        fmul(d, ip) == 1,
        fmul(f, v) == 1,
    ensures
        fmul(fmul(d, f), fmul(ip, v)) == 1,
{
    lemma_fmul_assoc(d, f, fmul(ip, v));
    lemma_fmul_assoc(f, ip, v);
    lemma_fmul_comm(f, ip);
    lemma_fmul_assoc(ip, f, v);
    lemma_fmul_assoc(d, ip, fmul(f, v));
    lemma_field_identities(1);
}

/// The coefficients of `c(x) · (x − xj)`.
fn mul_by_linear(c: &Vec<FieldWrapper>, xj: &FieldWrapper) -> (r: Vec<FieldWrapper>)
    requires
        c@.len() < usize::MAX,
    ensures
        values(r@) == times_linear(values(c@), xj@),
{
    let ghost target = times_linear(values(c@), xj@);
    let n = c.len() + 1;
    let mut r: Vec<FieldWrapper> = Vec::new();
    let mut k: usize = 0;
    while k < n
        invariant
            n == c@.len() + 1,
            0 <= k <= n,
            target == times_linear(values(c@), xj@),
            values(r@) == target.subrange(0, k as int),
        decreases n - k,
    {
        let prev = if k > 0 && k - 1 < c.len() {
            c[k - 1]
        } else {
            FieldWrapper::zero()
        };
        let cur = if k < c.len() {
            c[k]
        } else {
            FieldWrapper::zero()
        };
        let v = prev.sub(&cur.mul(xj));
        let ghost before = values(r@);
        assert(target[k as int] == v@);
        r.push(v);
        assert(values(r@) =~= before.push(v@));
        k = k + 1;
        assert(values(r@) =~= target.subrange(0, k as int));
    }
    assert(values(r@) =~= target);
    r
}

/// Two to the 64th: the base of the limbs.
pub open spec fn limb_base() -> nat {
    0x1_0000_0000_0000_0000nat
}

/// The `Debug` text of a field element of value `v`: its canonical integer
/// as four 64-bit limbs, least significant first, in decimal,
/// `BigInt([l0, l1, l2, l3])`.
pub open spec fn fq_debug_text(v: nat) -> Seq<char> {
    let b = limb_base();
    "BigInt(["@ + decimal_text(v % b) + ", "@ + decimal_text((v / b) % b) + ", "@ + decimal_text(
        (v / b / b) % b,
    ) + ", "@ + decimal_text(v / b / b / b) + "])"@
}

/// Dividing by the limb base splits off the lowest limb.
proof fn lemma_split_limb(x: nat, q: nat, r: nat)
    requires
        r < limb_base(),
        x == q * limb_base() + r,
    ensures
        x / limb_base() == q,
        x % limb_base() == r,
{
    vstd::arithmetic::div_mod::lemma_fundamental_div_mod_converse(
        x as int,
        limb_base() as int,
        q as int,
        r as int,
    );
}

/// The limbs of a number are read back by repeated division.
proof fn lemma_limb_digits(l0: u64, l1: u64, l2: u64, l3: u64)
    ensures
        ({
            let v = limbs_value(l0, l1, l2, l3);
            let b = limb_base();
            &&& v % b == l0
            &&& (v / b) % b == l1
            &&& (v / b / b) % b == l2
            &&& v / b / b / b == l3
        }),
{
    let v = limbs_value(l0, l1, l2, l3);
    let b = limb_base();
    let q1: nat = l1 as nat + l2 as nat * 0x1_0000_0000_0000_0000nat + l3 as nat
        * 0x1_0000_0000_0000_0000_0000_0000_0000_0000nat;
    let q2: nat = l2 as nat + l3 as nat * 0x1_0000_0000_0000_0000nat;
    lemma_split_limb(v, q1, l0 as nat);
    lemma_split_limb(q1, q2, l1 as nat);
    lemma_split_limb(q2, l3 as nat, l2 as nat);
    vstd::arithmetic::div_mod::lemma_small_mod(l3 as nat, b);
    vstd::arithmetic::div_mod::lemma_fundamental_div_mod_converse(l3 as int, b as int, 0, l3 as int);
}

/// `{:?}` of the element, as `ark_bn254::Fq` writes it.
fn fq_debug(x: &Fq) -> (s: String)
    ensures
        s@ == fq_debug_text(x@),
{
    let l = x.limbs();
    proof {
        lemma_limb_digits(l@[0], l@[1], l@[2], l@[3]);
    }
    let mut s = String::from_str("BigInt([");
    s.append(u64_text(l[0]).as_str());
    s.append(", ");
    s.append(u64_text(l[1]).as_str());
    s.append(", ");
    s.append(u64_text(l[2]).as_str());
    s.append(", ");
    s.append(u64_text(l[3]).as_str());
    s.append("])");
    s
}

/// `(i, j)` is the first pair of positions, in the order `i` then `j`,
/// whose x-values coincide.
pub open spec fn first_duplicate(xs: Seq<nat>, i: int, j: int) -> bool {
    &&& 0 <= i < j < xs.len()
    &&& xs[i] == xs[j]
    &&& forall|a: int, b: int| 0 <= a < i && a < b < xs.len() ==> xs[a] != xs[b]
    &&& forall|b: int| i < b < j ==> xs[i] != xs[b]
}

/// The message for x-value `x` found at positions `i` and `j`.
pub open spec fn duplicate_message(x: nat, i: nat, j: nat) -> Seq<char> {
    "x-value "@ + fq_debug_text(x) + " appears at indices "@ + decimal_text(i) + " and "@
        + decimal_text(j)
}

/// `x-value {x} appears at indices {i} and {j}`.
fn duplicate_x_message(x: &Fq, i: usize, j: usize) -> (m: String)
    ensures
        m@ == duplicate_message(x@, i as nat, j as nat),
{
    let mut m = String::from_str("x-value ");
    m.append(fq_debug(x).as_str());
    m.append(" appears at indices ");
    m.append(number_text(i).as_str());
    m.append(" and ");
    m.append(number_text(j).as_str());
    m
}

/// Lagrange interpolation: the polynomial of least degree through the
/// points, `P(x) = Σᵢ yᵢ · Πⱼ≠ᵢ (x − xⱼ)/(xᵢ − xⱼ)`.
pub fn lagrange_interpolate(points: &[(Fq, FieldWrapper)]) -> (r: Result<Polynomial, QapError>)
    requires
        points@.len() < usize::MAX,
    ensures
        points@.len() == 0 <==> r matches Err(QapError::EmptyPoints),
        points@.len() > 0 && !distinct_xs(points@) <==> r matches Err(QapError::DuplicateX(_)),
        r is Ok <==> points@.len() > 0 && distinct_xs(points@),
        r matches Ok(p) ==> interpolates(p.cv(), points@) && p.cv().len() >= 1,
        r matches Err(QapError::DuplicateX(m)) ==> exists|i: int, j: int|
            #[trigger] first_duplicate(point_xs(points@), i, j) && m@ == duplicate_message(
                point_xs(points@)[i],
                i as nat,
                j as nat,
            ),
{
    let n = points.len();
    if n == 0 {
        return Err(QapError::EmptyPoints);
    }
    let ghost xs = point_xs(points@);
    let ghost ys = point_ys(points@);
    let mut i: usize = 0;
    while i < n
        invariant
            n == points@.len(),
            xs == point_xs(points@),
            0 <= i <= n,
            forall|a: int, b: int| 0 <= a < i && a < b < n ==> xs[a] != xs[b],
        decreases n - i,
    {
        let mut j: usize = i + 1;
        while j < n
            invariant
                n == points@.len(),
                xs == point_xs(points@),
                0 <= i < n,
                i + 1 <= j <= n,
                forall|a: int, b: int| 0 <= a < i && a < b < n ==> xs[a] != xs[b],
                forall|b: int| i < b < j ==> xs[i as int] != xs[b],
            decreases n - j,
        {
            if points[i].0.equals(&points[j].0) {
                proof {
                    assert(!distinct_xs(points@)) by {
                        assert(point_xs(points@)[i as int] == point_xs(points@)[j as int]);
                    }
                    assert(first_duplicate(xs, i as int, j as int));
                }
                return Err(QapError::DuplicateX(duplicate_x_message(&points[i].0, i, j)));
            }
            j = j + 1;
        }
        i = i + 1;
    }
    assert(distinct_xs(points@));
    proof {
        assert forall|t: int| 0 <= t < n implies #[trigger] xs[t] < modulus() by {
            lemma_value_below_modulus(points@[t].0);
        }
    }
    let mut result_coeffs: Vec<FieldWrapper> = Vec::new();
    let mut z: usize = 0;
    while z < n
        invariant
            0 <= z <= n,
            result_coeffs@.len() == z,
            forall|k: int| 0 <= k < z ==> #[trigger] values(result_coeffs@)[k] == 0,
        decreases n - z,
    {
        let ghost before = values(result_coeffs@);
        result_coeffs.push(FieldWrapper::zero());
        assert(values(result_coeffs@) =~= before.push(0));
        z = z + 1;
    }
    proof {
        assert forall|t: int| 0 <= t < n implies #[trigger] peval(values(result_coeffs@), xs[t]) == 0 by {
            crate::polynomial::lemma_all_zero_peval(values(result_coeffs@), xs[t]);
        }
    }
    let ghost mut ss: Seq<nat> = Seq::empty();
    let mut i: usize = 0;
    while i < n
        invariant
            n == points@.len(),
            n < usize::MAX,
            xs == point_xs(points@),
            ys == point_ys(points@),
            distinct_xs(points@),
            forall|t: int| 0 <= t < n ==> #[trigger] xs[t] < modulus(),
            0 <= i <= n,
            result_coeffs@.len() == n,
            ss.len() == i,
            forall|t: int|
                0 <= t < n ==> #[trigger] peval(values(result_coeffs@), xs[t]) == basis_sum(
                    xs,
                    ss,
                    xs[t],
                    n as nat,
                    i as nat,
                ),
            forall|t: int|
                0 <= t < i ==> #[trigger] fmul(basis_value(xs, t, xs[t], n as nat), ss[t])
                    == ys[t],
        decreases n - i,
    {
        let xi = FieldWrapper::from_fq(points[i].0);
        let yi = points[i].1;
        let mut li: Vec<FieldWrapper> = Vec::new();
        li.push(FieldWrapper::one());
        let mut inv_prod = FieldWrapper::one();
        proof {
            assert forall|t: int| 0 <= t < n implies #[trigger] peval(values(li@), xs[t])
                == basis_value(xs, i as int, xs[t], 0) by {
                assert(values(li@) =~= seq![1nat]);
                assert(psum(values(li@), xs[t], 0) == 0);
                assert(crate::polynomial::fpow(xs[t], 0) == 1);
                lemma_field_identities(1);
            }
            lemma_field_identities(1);
        }
        let mut j: usize = 0;
        while j < n
            invariant
                n == points@.len(),
                n < usize::MAX,
                xs == point_xs(points@),
                distinct_xs(points@),
                forall|t: int| 0 <= t < n ==> #[trigger] xs[t] < modulus(),
                0 <= i < n,
                0 <= j <= n,
                xi@ == xs[i as int],
                li@.len() == j + 1 - (if i < j {
                    1int
                } else {
                    0int
                }),
                forall|t: int|
                    0 <= t < n ==> #[trigger] peval(values(li@), xs[t]) == basis_value(
                        xs,
                        i as int,
                        xs[t],
                        j as nat,
                    ),
                fmul(basis_value(xs, i as int, xs[i as int], j as nat), inv_prod@) == 1,
            decreases n - j,
        {
            if i != j {
                let xj = FieldWrapper::from_fq(points[j].0);
                let ghost old_li = values(li@);
                let ghost old_ip = inv_prod@;
                proof {
                    lemma_values_small(li@);
                }
                li = mul_by_linear(&li, &xj);
                proof {
                    assert forall|t: int| 0 <= t < n implies #[trigger] peval(values(li@), xs[t])
                        == basis_value(xs, i as int, xs[t], (j + 1) as nat) by {
                        lemma_times_linear_value(old_li, xj@, xs[t]);
                    }
                }
                let factor = xi.sub(&xj);
                proof {
                    lemma_distinct_sub_nonzero(xs[i as int], xs[j as int]);
                }
                let inv = factor.value.inverse().unwrap();
                inv_prod = inv_prod.mul(&FieldWrapper::from_fq(inv));
                proof {
                    lemma_inverse_product(
                        basis_value(xs, i as int, xs[i as int], j as nat),
                        old_ip,
                        factor@,
                        inv@,
                    );
                }
            }
            j = j + 1;
        }
        let scalar = yi.mul(&inv_prod);
        let ghost old_res = values(result_coeffs@);
        let ghost lv = values(li@);
        let mut k: usize = 0;
        while k < n
            invariant
                n == points@.len(),
                0 <= k <= n,
                li@.len() == n,
                lv == values(li@),
                result_coeffs@.len() == n,
                old_res.len() == n,
                forall|t: int|
                    0 <= t < n ==> #[trigger] values(result_coeffs@)[t] == if t < k {
                        fadd(old_res[t], fmul(lv[t], scalar@))
                    } else {
                        old_res[t]
                    },
            decreases n - k,
        {
            let v = result_coeffs[k].add(&li[k].mul(&scalar));
            let ghost before = values(result_coeffs@);
            assert(before[k as int] == old_res[k as int]);
            assert(v@ == fadd(old_res[k as int], fmul(lv[k as int], scalar@)));
            result_coeffs.set(k, v);
            assert(values(result_coeffs@) =~= before.update(k as int, v@));
            k = k + 1;
        }
        proof {
            let nr = values(result_coeffs@);
            let sc = Seq::new(n as nat, |t: int| fmul(lv[t], scalar@));
            assert forall|t: int| 0 <= t < n implies cof(nr, t) == fadd(cof(old_res, t), cof(sc, t)) by {}
            assert forall|t: int| 0 <= t < n implies cof(sc, t) == fmul(cof(lv, t), scalar@) by {}
            assert forall|t: int| 0 <= t < n implies #[trigger] peval(nr, xs[t]) == basis_sum(
                xs,
                ss.push(scalar@),
                xs[t],
                n as nat,
                (i + 1) as nat,
            ) by {
                crate::polynomial::lemma_psum_add(old_res, sc, nr, xs[t], n as nat);
                lemma_psum_scale(lv, sc, scalar@, xs[t], n as nat);
                lemma_basis_sum_prefix(xs, ss, scalar@, xs[t], n as nat, i as nat);
                assert(nr.len() == n);
                assert(peval(nr, xs[t]) == fadd(peval(old_res, xs[t]), psum(sc, xs[t], n as nat)));
                assert(psum(sc, xs[t], n as nat) == fmul(peval(lv, xs[t]), scalar@));
                assert(peval(old_res, xs[t]) == basis_sum(xs, ss, xs[t], n as nat, i as nat));
                assert(peval(lv, xs[t]) == basis_value(xs, i as int, xs[t], n as nat));
            }
            let d = basis_value(xs, i as int, xs[i as int], n as nat);
            lemma_value_below_modulus(yi.value);
            lemma_fmul_comm(yi@, inv_prod@);
            lemma_fmul_assoc(d, inv_prod@, yi@);
            lemma_field_identities(yi@);
            assert(fmul(d, scalar@) == ys[i as int]);
            ss = ss.push(scalar@);
            assert forall|t: int| 0 <= t < i + 1 implies #[trigger] fmul(
                basis_value(xs, t, xs[t], n as nat),
                ss[t],
            ) == ys[t] by {}
        }
        i = i + 1;
    }
    proof {
        assert forall|t: int| 0 <= t < n implies #[trigger] peval(values(result_coeffs@), xs[t])
            == ys[t] by {
            lemma_basis_sum_single(xs, ss, t, n as nat, n as nat);
        }
    }
    let ghost before_trim = values(result_coeffs@);
    crate::polynomial::trim_trailing(&mut result_coeffs);
    let p = Polynomial::new(result_coeffs);
    proof {
        assert forall|t: int| 0 <= t < n implies #[trigger] peval(p.cv(), point_xs(points@)[t])
            == point_ys(points@)[t] by {
            crate::polynomial::lemma_trim_peval(before_trim, xs[t]);
        }
        crate::polynomial::lemma_trim_peval(before_trim, 0);
        crate::polynomial::lemma_trim_idempotent(before_trim);
        lemma_trim_nonempty(before_trim);
    }
    Ok(p)
}

/// Extending the sum by one more scalar only adds its term.
proof fn lemma_basis_sum_prefix(xs: Seq<nat>, ss: Seq<nat>, s: nat, x: nat, n: nat, k: nat)
    requires
        k == ss.len(),
    ensures
        basis_sum(xs, ss.push(s), x, n, k + 1) == fadd(
            basis_sum(xs, ss, x, n, k),
            fmul(basis_value(xs, k as int, x, n), s),
        ),
{
    lemma_basis_sum_ext(xs, ss, ss.push(s), x, n, k);
}

/// Sums over the same scalars agree.
proof fn lemma_basis_sum_ext(xs: Seq<nat>, s1: Seq<nat>, s2: Seq<nat>, x: nat, n: nat, k: nat)
    requires
        k <= s1.len(),
        k <= s2.len(),
        forall|i: int| 0 <= i < k ==> s1[i] == s2[i],
    ensures
        basis_sum(xs, s1, x, n, k) == basis_sum(xs, s2, x, n, k),
    decreases k,
{
    if k > 0 {
        lemma_basis_sum_ext(xs, s1, s2, x, n, (k - 1) as nat);
    }
}

/// The coefficient of variable `j` in a sparse vector (zero when absent).
pub open spec fn coeff_of(m: Map<usize, FieldWrapper>, j: usize) -> nat {
    if m.contains_key(j) {
        m[j]@
    } else {
        0
    }
}

/// Which of a constraint's three vectors: 0 for A, 1 for B, 2 for C.
pub open spec fn vector_of(c: R1CSConstraint, which: int) -> Map<usize, FieldWrapper> {
    if which == 0 {
        c.a@
    } else if which == 1 {
        c.b@
    } else {
        c.c@
    }
}

/// `p` is the QAP polynomial of variable `j` in vector `which`: it
/// interpolates the points `(i + 1, coefficient of j in constraint i)`.
pub open spec fn is_qap_column(p: Seq<nat>, cs: Seq<R1CSConstraint>, which: int, j: usize) -> bool {
    &&& p.len() <= cs.len()
    &&& trim(p) == p
    &&& forall|i: int|
        0 <= i < cs.len() ==> #[trigger] peval(p, (i + 1) as nat) == coeff_of(
            vector_of(cs[i], which),
            j,
        )
}

/// The QAP polynomials: for each variable, its A, B and C polynomials.
pub type QapPolynomials = (Vec<Polynomial>, Vec<Polynomial>, Vec<Polynomial>);

/// The points `(i + 1, coefficient of variable j)` of one vector over all
/// constraints.
fn column_points(constraints: &[R1CSConstraint], which: u8, j: usize) -> (pts: Vec<(Fq, FieldWrapper)>)
    requires
        which <= 2,
        constraints@.len() < usize::MAX,
    ensures
        pts@.len() == constraints@.len(),
        forall|i: int| 0 <= i < pts@.len() ==> #[trigger] point_xs(pts@)[i] == i + 1,
        forall|i: int|
            0 <= i < pts@.len() ==> #[trigger] point_ys(pts@)[i] == coeff_of(
                vector_of(constraints@[i], which as int),
                j,
            ),
{
    let n = constraints.len();
    let mut pts: Vec<(Fq, FieldWrapper)> = Vec::new();
    let mut i: usize = 0;
    while i < n
        invariant
            n == constraints@.len(),
            n < usize::MAX,
            which <= 2,
            0 <= i <= n,
            pts@.len() == i,
            forall|t: int| 0 <= t < i ==> #[trigger] point_xs(pts@)[t] == t + 1,
            forall|t: int|
                0 <= t < i ==> #[trigger] point_ys(pts@)[t] == coeff_of(
                    vector_of(constraints@[t], which as int),
                    j,
                ),
        decreases n - i,
    {
        let x = Fq::from_u64((i + 1) as u64);
        let c = &constraints[i];
        let m = if which == 0 {
            &c.a
        } else if which == 1 {
            &c.b
        } else {
            &c.c
        };
        let coeff = match m.get(&j) {
            Some(v) => *v,
            None => FieldWrapper::zero(),
        };
        let ghost before = pts@;
        pts.push((x, coeff));
        assert(pts@ == before.push((x, coeff)));
        assert forall|t: int| 0 <= t < i + 1 implies #[trigger] point_xs(pts@)[t] == t + 1 by {
            if t < i {
                assert(point_xs(pts@)[t] == point_xs(before)[t]);
            }
        }
        assert forall|t: int| 0 <= t < i + 1 implies #[trigger] point_ys(pts@)[t] == coeff_of(
            vector_of(constraints@[t], which as int),
            j,
        ) by {
            if t < i {
                assert(point_ys(pts@)[t] == point_ys(before)[t]);
            }
        }
        i = i + 1;
    }
    pts
}

/// Interpolates one QAP column.
fn column_polynomial(constraints: &[R1CSConstraint], which: u8, j: usize) -> (p: Polynomial)
    requires
        which <= 2,
        1 <= constraints@.len() < usize::MAX,
    ensures
        is_qap_column(p.cv(), constraints@, which as int, j),
{
    let pts = column_points(constraints, which, j);
    proof {
        assert forall|a: int, b: int| 0 <= a < b < pts@.len() implies #[trigger] point_xs(pts@)[a]
            != #[trigger] point_xs(pts@)[b] by {}
    }
    match lagrange_interpolate(pts.as_slice()) {
        Ok(p) => {
            proof {
                assert forall|i: int| 0 <= i < constraints@.len() implies #[trigger] peval(
                    p.cv(),
                    (i + 1) as nat,
                ) == coeff_of(vector_of(constraints@[i], which as int), j) by {
                    assert(point_xs(pts@)[i] == i + 1);
                }
            }
            p
        },
        Err(_) => {
            proof {
                assert(false);
            }
            Polynomial::new(Vec::new())
        },
    }
}

/// Converts an R1CS to QAP form: for each variable `j`, the polynomials
/// `Aⱼ(x)`, `Bⱼ(x)`, `Cⱼ(x)` interpolating its coefficients at `x = 1..=n`.
pub fn r1cs_to_qap(constraints: &[R1CSConstraint], num_variables: usize) -> (r: Result<
    QapPolynomials,
    QapError,
>)
    requires
        constraints@.len() < usize::MAX,
    ensures
        constraints@.len() == 0 <==> r matches Err(QapError::EmptyConstraints),
        constraints@.len() == 1 <==> r matches Err(QapError::InsufficientConstraints),
        constraints@.len() >= 2 <==> r is Ok,
        r matches Ok((a, b, c)) ==> {
            &&& a@.len() == num_variables
            &&& b@.len() == num_variables
            &&& c@.len() == num_variables
            &&& forall|j: int|
                0 <= j < num_variables ==> {
                    &&& is_qap_column(#[trigger] a@[j].cv(), constraints@, 0, j as usize)
                    &&& is_qap_column(b@[j].cv(), constraints@, 1, j as usize)
                    &&& is_qap_column(c@[j].cv(), constraints@, 2, j as usize)
                }
        },
{
    if constraints.len() == 0 {
        return Err(QapError::EmptyConstraints);
    }
    if constraints.len() < 2 {
        return Err(QapError::InsufficientConstraints);
    }
    let mut a_polys: Vec<Polynomial> = Vec::new();
    let mut b_polys: Vec<Polynomial> = Vec::new();
    let mut c_polys: Vec<Polynomial> = Vec::new();
    let mut j: usize = 0;
    while j < num_variables
        invariant
            2 <= constraints@.len() < usize::MAX,
            0 <= j <= num_variables,
            a_polys@.len() == j,
            b_polys@.len() == j,
            c_polys@.len() == j,
            forall|t: int|
                0 <= t < j ==> {
                    &&& is_qap_column(#[trigger] a_polys@[t].cv(), constraints@, 0, t as usize)
                    &&& is_qap_column(b_polys@[t].cv(), constraints@, 1, t as usize)
                    &&& is_qap_column(c_polys@[t].cv(), constraints@, 2, t as usize)
                },
        decreases num_variables - j,
    {
        let a_poly = column_polynomial(constraints, 0, j);
        let b_poly = column_polynomial(constraints, 1, j);
        let c_poly = column_polynomial(constraints, 2, j);
        let ghost (oa, ob, oc) = (a_polys@, b_polys@, c_polys@);
        let ghost (na, nb, nc) = (a_poly, b_poly, c_poly);
        a_polys.push(a_poly);
        b_polys.push(b_poly);
        c_polys.push(c_poly);
        proof {
            assert(a_polys@ == oa.push(na) && b_polys@ == ob.push(nb) && c_polys@ == oc.push(nc));
            assert forall|t: int| 0 <= t < j + 1 implies {
                &&& is_qap_column(#[trigger] a_polys@[t].cv(), constraints@, 0, t as usize)
                &&& is_qap_column(b_polys@[t].cv(), constraints@, 1, t as usize)
                &&& is_qap_column(c_polys@[t].cv(), constraints@, 2, t as usize)
            } by {
                if t < j {
                    assert(a_polys@[t] == oa[t] && b_polys@[t] == ob[t] && c_polys@[t] == oc[t]);
                } else {
                    assert(a_polys@[t] == na && b_polys@[t] == nb && c_polys@[t] == nc);
                }
            }
        }
        j = j + 1;
    }
    Ok((a_polys, b_polys, c_polys))
}

/// No trailing zero: either every coefficient is zero or the last one is
/// not.
pub open spec fn trimmed(c: Seq<nat>) -> bool {
    all_zero(c) || (c.len() >= 1 && c.last() != 0)
}

/// The last non-zero coefficient (zero when there is none).
pub open spec fn leading_coeff(c: Seq<nat>) -> nat
    decreases c.len(),
{
    if c.len() == 0 {
        0
    } else if c.last() != 0 {
        c.last()
    } else {
        leading_coeff(c.drop_last())
    }
}

/// Trimming yields a trimmed sequence.
proof fn lemma_trim_trimmed(c: Seq<nat>)
    ensures
        trimmed(trim(c)),
    decreases c.len(),
{
    if c.len() > 1 && c.last() == 0 {
        lemma_trim_trimmed(c.drop_last());
    }
}

/// Trimming keeps at least one coefficient.
proof fn lemma_trim_nonempty(c: Seq<nat>)
    requires
        c.len() >= 1,
    ensures
        trim(c).len() >= 1,
    decreases c.len(),
{
    if c.len() > 1 && c.last() == 0 {
        lemma_trim_nonempty(c.drop_last());
    }
}

/// Trimming a sequence whose last entry is zero shortens it (unless a
/// single zero is all that is left).
proof fn lemma_trim_shortens(c: Seq<nat>)
    requires
        c.len() >= 1,
        c.last() == 0,
    ensures
        trim(c).len() < c.len() || (c.len() == 1 && all_zero(trim(c))),
{
    if c.len() > 1 {
        crate::polynomial::lemma_trim_peval(c.drop_last(), 0);
    } else {
        assert(trim(c) == c);
    }
}

/// The last non-zero coefficient, found from the top.
fn leading_coefficient(p: &Polynomial) -> (r: FieldWrapper)
    ensures
        r@ == leading_coeff(p.cv()),
{
    let mut k = p.coeffs.len();
    assert(p.cv().subrange(0, k as int) =~= p.cv());
    while k > 0
        invariant
            0 <= k <= p.coeffs@.len(),
            leading_coeff(p.cv()) == leading_coeff(p.cv().subrange(0, k as int)),
        decreases k,
    {
        let ghost pre = p.cv().subrange(0, k as int);
        assert(pre.drop_last() =~= p.cv().subrange(0, k - 1));
        if !p.coeffs[k - 1].is_zero() {
            return p.coeffs[k - 1];
        }
        k = k - 1;
    }
    assert(p.cv().subrange(0, 0) =~= Seq::<nat>::empty());
    FieldWrapper::zero()
}

/// `coeff · x^d`.
fn monomial(coeff: FieldWrapper, d: usize) -> (p: Polynomial)
    requires
        d < usize::MAX,
    ensures
        p.cv().len() == d + 1,
        p.cv().last() == coeff@,
        forall|i: int| 0 <= i < d ==> #[trigger] p.cv()[i] == 0,
{
    let mut v: Vec<FieldWrapper> = Vec::new();
    let mut i: usize = 0;
    while i < d
        invariant
            0 <= i <= d,
            v@.len() == i,
            forall|t: int| 0 <= t < i ==> #[trigger] values(v@)[t] == 0,
        decreases d - i,
    {
        let ghost before = values(v@);
        v.push(FieldWrapper::zero());
        assert(values(v@) =~= before.push(0));
        i = i + 1;
    }
    let ghost before = values(v@);
    v.push(coeff);
    assert(values(v@) =~= before.push(coeff@));
    Polynomial::new(v)
}

/// One division step keeps `dividend = q·d + r`.
proof fn lemma_division_step(qv: nat, tv: nat, dv: nat, rv: nat)
    requires
        rv < modulus(),
    ensures
        fadd(fmul(fadd(qv, tv), dv), fsub(rv, fmul(tv, dv))) == fadd(fmul(qv, dv), rv),
{
    let a = fmul(qv, dv);
    let b = fmul(tv, dv);
    lemma_fmul_comm(fadd(qv, tv), dv);
    lemma_fmul_distrib(dv, qv, tv);
    lemma_fmul_comm(dv, qv);
    lemma_fmul_comm(dv, tv);
    lemma_fadd_assoc(a, b, fsub(rv, b));
    lemma_fadd_comm(b, fsub(rv, b));
    crate::field::lemma_fsub_fadd(rv, b);
}

/// Polynomial long division: `dividend = quotient · divisor + remainder`
/// with the remainder zero or shorter than the divisor without its trailing
/// zero coefficients, that is of lower degree than the divisor. Only a zero
/// divisor is refused.
pub fn polynomial_long_division(dividend: &Polynomial, divisor: &Polynomial) -> (r: Result<
    (Polynomial, Polynomial),
    QapError,
>)
    requires
        dividend.coeffs@.len() + divisor.coeffs@.len() <= usize::MAX,
    ensures
        all_zero(divisor.cv()) <==> r is Err,
        r is Err ==> r matches Err(QapError::DivisionByZero),
        r matches Ok((q, rem)) ==> {
            &&& all_zero(rem.cv()) || rem.cv().len() < trim(divisor.cv()).len()
            &&& forall|x: nat| #[trigger]
                peval(dividend.cv(), x) == fadd(
                    fmul(peval(q.cv(), x), peval(divisor.cv(), x)),
                    peval(rem.cv(), x),
                )
            &&& q.cv() == trim(q.cv())
            &&& q.cv().len() <= dividend.cv().len()
            &&& (q.cv().len() == 0 <==> all_zero(dividend.cv()))
            &&& all_zero(dividend.cv()) ==> rem.cv().len() == 0
            &&& !all_zero(dividend.cv()) && dividend.cv().len() < trim(divisor.cv()).len() ==> {
                &&& q.cv() == seq![0nat]
                &&& rem.cv() == dividend.cv()
            }
            &&& !all_zero(dividend.cv()) && dividend.cv().len() >= trim(divisor.cv()).len() ==> {
                &&& rem.cv() == trim(rem.cv())
                &&& rem.cv().len() >= 1
            }
        },
{
    if divisor.is_zero() {
        return Err(QapError::DivisionByZero);
    }
    // divide by the divisor without its trailing zero coefficients
    let mut work = divisor.copy().coeffs;
    crate::polynomial::trim_trailing(&mut work);
    let trimmed_divisor = Polynomial::new(work);
    proof {
        let dv = divisor.cv();
        assert(trimmed_divisor.cv() == trim(dv));
        lemma_trim_trimmed(dv);
        crate::polynomial::lemma_trim_peval(dv, 0);
        assert(!all_zero(trim(dv))) by {
            let i = choose|i: int| 0 <= i < dv.len() && dv[i] != 0;
            assert(cof(trim(dv), i) == cof(dv, i));
        }
    }
    let r = divide_by_trimmed(dividend, &trimmed_divisor);
    proof {
        assert forall|x: nat| #[trigger] peval(trimmed_divisor.cv(), x) == peval(divisor.cv(), x) by {
            crate::polynomial::lemma_trim_peval(divisor.cv(), x);
        }
    }
    r
}

/// Long division by a divisor without trailing zero coefficients.
fn divide_by_trimmed(dividend: &Polynomial, divisor: &Polynomial) -> (r: Result<
    (Polynomial, Polynomial),
    QapError,
>)
    requires
        trimmed(divisor.cv()),
        dividend.coeffs@.len() + divisor.coeffs@.len() <= usize::MAX,
    ensures
        all_zero(divisor.cv()) <==> r is Err,
        r is Err ==> r matches Err(QapError::DivisionByZero),
        r matches Ok((q, rem)) ==> {
            &&& all_zero(rem.cv()) || rem.cv().len() < divisor.cv().len()
            &&& forall|x: nat| #[trigger]
                peval(dividend.cv(), x) == fadd(
                    fmul(peval(q.cv(), x), peval(divisor.cv(), x)),
                    peval(rem.cv(), x),
                )
            &&& q.cv() == trim(q.cv())
            &&& q.cv().len() <= dividend.cv().len()
            &&& (q.cv().len() == 0 <==> all_zero(dividend.cv()))
            &&& all_zero(dividend.cv()) ==> rem.cv().len() == 0
            &&& !all_zero(dividend.cv()) && dividend.cv().len() < divisor.cv().len() ==> {
                &&& q.cv() == seq![0nat]
                &&& rem.cv() == dividend.cv()
            }
            &&& !all_zero(dividend.cv()) && dividend.cv().len() >= divisor.cv().len() ==> {
                &&& rem.cv() == trim(rem.cv())
                &&& rem.cv().len() >= 1
            }
        },
{
    if divisor.is_zero() {
        return Err(QapError::DivisionByZero);
    }
    if dividend.is_zero() {
        let q = Polynomial::new(Vec::new());
        let rem = Polynomial::new(Vec::new());
        proof {
            assert forall|x: nat| #[trigger] peval(dividend.cv(), x) == fadd(
                fmul(peval(q.cv(), x), peval(divisor.cv(), x)),
                peval(rem.cv(), x),
            ) by {
                crate::polynomial::lemma_all_zero_peval(dividend.cv(), x);
                assert(peval(q.cv(), x) == 0);
                assert(peval(rem.cv(), x) == 0);
                assert(fmul(0, peval(divisor.cv(), x)) == 0);
                assert(fadd(0, 0) == 0);
            }
            assert(all_zero(rem.cv()));
        }
        return Ok((q, rem));
    }
    let ghost dv = divisor.cv();
    let ghost nv = dividend.cv();
    if dividend.coeffs.len() < divisor.coeffs.len() {
        // the dividend's degree is below the divisor's: nothing to subtract
        let mut zero: Vec<FieldWrapper> = Vec::new();
        zero.push(FieldWrapper::zero());
        let q = Polynomial::new(zero);
        let rem = dividend.copy();
        proof {
            assert(q.cv() =~= seq![0nat]);
            assert forall|x: nat| #[trigger] peval(nv, x) == fadd(
                fmul(peval(q.cv(), x), peval(dv, x)),
                peval(rem.cv(), x),
            ) by {
                crate::polynomial::lemma_all_zero_peval(q.cv(), x);
                crate::polynomial::lemma_psum_small(dv, x, dv.len());
                lemma_field_identities(peval(dv, x));
                crate::polynomial::lemma_psum_small(nv, x, nv.len());
                lemma_field_identities(peval(nv, x));
            }
        }
        return Ok((q, rem));
    }
    // work on the dividend without its trailing zero coefficients
    let mut work = dividend.copy().coeffs;
    crate::polynomial::trim_trailing(&mut work);
    let mut remainder = Polynomial::new(work);
    let n = dividend.coeffs.len();
    proof {
        assert(remainder.cv() == trim(nv));
        lemma_trim_trimmed(nv);
        lemma_trim_nonempty(nv);
        crate::polynomial::lemma_trim_idempotent(nv);
        crate::polynomial::lemma_trim_peval(nv, 0);
    }
    let mut quotient_coeffs: Vec<FieldWrapper> = Vec::new();
    let mut z: usize = 0;
    while z < n
        invariant
            0 <= z <= n,
            quotient_coeffs@.len() == z,
            forall|k: int| 0 <= k < z ==> #[trigger] values(quotient_coeffs@)[k] == 0,
        decreases n - z,
    {
        let ghost before = values(quotient_coeffs@);
        quotient_coeffs.push(FieldWrapper::zero());
        assert(values(quotient_coeffs@) =~= before.push(0));
        z = z + 1;
    }
    proof {
        assert forall|x: nat| #[trigger] peval(nv, x) == fadd(
            fmul(peval(values(quotient_coeffs@), x), peval(dv, x)),
            peval(remainder.cv(), x),
        ) by {
            crate::polynomial::lemma_all_zero_peval(values(quotient_coeffs@), x);
            crate::polynomial::lemma_psum_small(dv, x, dv.len());
            lemma_field_identities(peval(dv, x));
            crate::polynomial::lemma_psum_small(nv, x, nv.len());
            lemma_field_identities(peval(nv, x));
            crate::polynomial::lemma_trim_peval(nv, x);
        }
    }
    let divisor_degree = divisor.degree();
    let divisor_leading = leading_coefficient(divisor);
    proof {
        assert(dv.len() >= 1 && dv.last() != 0);
        assert(divisor_leading@ == dv.last());
    }
    let inv = FieldWrapper::from_fq(divisor_leading.value.inverse().unwrap());
    while remainder.degree() >= divisor_degree && !remainder.is_zero()
        invariant
            dv == divisor.cv(),
            nv == dividend.cv(),
            dv.len() >= 1,
            dv.last() != 0,
            divisor_degree == dv.len() - 1,
            fmul(dv.last(), inv@) == 1,
            n == nv.len(),
            n + dv.len() <= usize::MAX,
            trimmed(remainder.cv()),
            remainder.cv() == trim(remainder.cv()),
            1 <= remainder.cv().len() <= n,
            quotient_coeffs@.len() == n,
            forall|x: nat| #[trigger] peval(nv, x) == fadd(
                fmul(peval(values(quotient_coeffs@), x), peval(dv, x)),
                peval(remainder.cv(), x),
            ),
        decreases remainder.cv().len() + (if all_zero(remainder.cv()) {
            0int
        } else {
            1int
        }),
    {
        let rd = remainder.degree();
        let ghost rv = remainder.cv();
        let ghost qv = values(quotient_coeffs@);
        let ghost rseq = remainder.coeffs@;
        let ghost qseq = quotient_coeffs@;
        let rem_lead = leading_coefficient(&remainder);
        proof {
            assert(rv.last() != 0);
            assert(rem_lead@ == rv.last());
        }
        let coeff = rem_lead.mul(&inv);
        proof {
            lemma_value_below_modulus(rem_lead.value);
            lemma_fmul_assoc(rem_lead@, inv@, dv.last());
            lemma_fmul_comm(inv@, dv.last());
            lemma_field_identities(rem_lead@);
            assert(fmul(coeff@, dv.last()) == rem_lead@);
            if coeff@ == 0 {
                crate::polynomial::lemma_conv_top(seq![0nat], seq![0nat]);
                assert(fmul(0, dv.last()) == 0);
            }
        }
        let degree_diff = rd - divisor_degree;
        let cur = quotient_coeffs[degree_diff];
        quotient_coeffs.set(degree_diff, cur.add(&coeff));
        let term = monomial(coeff, degree_diff);
        let ghost tv = term.cv();
        proof {
            assert(!all_zero(tv)) by {
                assert(tv[tv.len() - 1] != 0);
            }
            assert(!all_zero(dv)) by {
                assert(dv[dv.len() - 1] != 0);
            }
            lemma_values_small(divisor.coeffs@);
            lemma_value_below_modulus(coeff.value);
            lemma_conv_top(tv, dv);
            assert(mul_coeffs(tv, dv).last() != 0);
            assert(trim(mul_coeffs(tv, dv)) == mul_coeffs(tv, dv));
        }
        let product = term.mul(divisor.copy());
        let ghost pv = product.cv();
        proof {
            assert(pv.len() == rv.len());
            assert(pv.last() == rv.last());
        }
        remainder = remainder.sub(product);
        proof {
            let sc = crate::polynomial::sub_coeffs(rv, pv, rv.len());
            assert(sc.last() == 0) by {
                lemma_value_below_modulus(rem_lead.value);
            }
            lemma_trim_shortens(sc);
            lemma_trim_trimmed(sc);
            lemma_trim_nonempty(sc);
            crate::polynomial::lemma_trim_idempotent(sc);
            assert(remainder.cv() == trim(sc));
            crate::polynomial::lemma_trim_peval(sc, 0);
            lemma_values_small(remainder.coeffs@);
            let nq = values(quotient_coeffs@);
            assert forall|x: nat| #[trigger] peval(nv, x) == fadd(
                fmul(peval(nq, x), peval(dv, x)),
                peval(remainder.cv(), x),
            ) by {
                // quotient gains coeff · x^degree_diff
                assert forall|i: int| 0 <= i < n implies cof(nq, i) == fadd(cof(qv, i), cof(tv, i)) by {
                    if i != degree_diff {
                        lemma_values_small(qseq);
                        lemma_field_identities(qv[i]);
                    }
                }
                crate::polynomial::lemma_psum_add(qv, tv, nq, x, n as nat);
                crate::polynomial::lemma_peval_wide(tv, x, n as nat);
                lemma_poly_mul_value(tv, dv, x);
                crate::polynomial::lemma_psum_small(rv, x, rv.len());
                lemma_values_small(rseq);
                lemma_poly_sub_value(rv, pv, x);
                lemma_division_step(peval(qv, x), peval(tv, x), peval(dv, x), peval(rv, x));
            }
        }
    }
    proof {
        lemma_values_small(quotient_coeffs@);
    }
    let ghost before_trim = values(quotient_coeffs@);
    crate::polynomial::trim_trailing(&mut quotient_coeffs);
    let q = Polynomial::new(quotient_coeffs);
    proof {
        crate::polynomial::lemma_trim_idempotent(before_trim);
        lemma_trim_nonempty(before_trim);
        crate::polynomial::lemma_trim_peval(before_trim, 0);
        assert(before_trim.len() == n);
        assert(q.cv().len() <= nv.len());
        assert forall|x: nat| #[trigger] peval(nv, x) == fadd(
            fmul(peval(q.cv(), x), peval(dv, x)),
            peval(remainder.cv(), x),
        ) by {
            crate::polynomial::lemma_trim_peval(before_trim, x);
        }
    }
    Ok((q, remainder))
}

/// `Σ_{j<k} wⱼ · Pⱼ(x)`.
pub open spec fn combined_value(w: Seq<FieldWrapper>, polys: Seq<Polynomial>, x: nat, k: nat) -> nat
    decreases k,
{
    if k == 0 {
        0
    } else {
        fadd(
            combined_value(w, polys, x, (k - 1) as nat),
            fmul(peval(polys[k - 1].cv(), x), w[k - 1]@),
        )
    }
}

/// `a(x)·b(x) − c(x)` with `a(x) = Σ wⱼ·Aⱼ(x)` and likewise for `b` and `c`.
pub open spec fn qap_value(
    w: Seq<FieldWrapper>,
    a: Seq<Polynomial>,
    b: Seq<Polynomial>,
    c: Seq<Polynomial>,
    x: nat,
) -> nat {
    fsub(
        fmul(combined_value(w, a, x, w.len()), combined_value(w, b, x, w.len())),
        combined_value(w, c, x, w.len()),
    )
}

/// `a(x)·b(x) − c(x) = q(x)·t(x) + r(x)` at every `x`, with `r` zero or of
/// lower degree than `t`, and `q·t` of degree below the field's size (so
/// that `q` and `r` are the quotient and remainder of the division: no
/// other pair meets these conditions).
pub open spec fn divides_with_remainder(
    w: Seq<FieldWrapper>,
    a: Seq<Polynomial>,
    b: Seq<Polynomial>,
    c: Seq<Polynomial>,
    t: Seq<nat>,
    q: Seq<nat>,
    r: Seq<nat>,
) -> bool {
    &&& all_zero(r) || r.len() < trim(t).len()
    &&& q.len() + t.len() < modulus()
    &&& forall|x: nat| #[trigger]
        qap_value(w, a, b, c, x) == fadd(fmul(peval(q, x), peval(t, x)), peval(r, x))
}

/// The largest of three lengths.
pub open spec fn longest(a: nat, b: nat, c: nat) -> nat {
    if a >= b && a >= c {
        a
    } else if b >= c {
        b
    } else {
        c
    }
}

/// `Σⱼ wⱼ · Pⱼ(x)` as a polynomial.
fn combine(witness: &[FieldWrapper], polys: &[Polynomial]) -> (r: Polynomial)
    requires
        witness@.len() == polys@.len(),
        forall|j: int| 0 <= j < polys@.len() ==> #[trigger] polys@[j].coeffs@.len() <= usize::MAX / 4,
    ensures
        r.cv().len() <= usize::MAX / 4,
        trimmed(r.cv()),
        forall|x: nat| #[trigger] peval(r.cv(), x) == combined_value(witness@, polys@, x, witness@.len()),
{
    let mut v: Vec<FieldWrapper> = Vec::new();
    v.push(FieldWrapper::zero());
    let mut acc = Polynomial::new(v);
    proof {
        assert(acc.cv() =~= seq![0nat]);
        assert forall|x: nat| #[trigger] peval(acc.cv(), x) == combined_value(witness@, polys@, x, 0) by {
            crate::polynomial::lemma_all_zero_peval(acc.cv(), x);
        }
    }
    let mut j: usize = 0;
    while j < polys.len()
        invariant
            witness@.len() == polys@.len(),
            forall|t: int| 0 <= t < polys@.len() ==> #[trigger] polys@[t].coeffs@.len() <= usize::MAX / 4,
            0 <= j <= polys@.len(),
            1 <= acc.cv().len() <= usize::MAX / 4,
            trimmed(acc.cv()),
            forall|x: nat| #[trigger] peval(acc.cv(), x) == combined_value(witness@, polys@, x, j as nat),
        decreases polys@.len() - j,
    {
        let scaled = scale_polynomial(&polys[j], &witness[j]);
        let ghost av = acc.cv();
        let ghost sv = scaled.cv();
        acc = acc.add(scaled);
        proof {
            let ac = crate::polynomial::add_coeffs(av, sv, crate::polynomial::max_len(av, sv));
            crate::polynomial::lemma_trim_peval(ac, 0);
            lemma_trim_trimmed(ac);
            lemma_trim_nonempty(ac);
            assert forall|x: nat| #[trigger] peval(acc.cv(), x) == combined_value(witness@, polys@, x, (j + 1) as nat) by {
                lemma_poly_add_value(av, sv, x);
                lemma_scale_value(polys@[j as int].cv(), witness@[j as int]@, x);
            }
        }
        j = j + 1;
    }
    acc
}

/// Checks whether a witness satisfies the QAP: `a(x)·b(x) − c(x)` is
/// divisible by the target polynomial `t(x)`. The answer is whether the
/// remainder of the long division is zero; the bounds of
/// `divides_with_remainder` leave one quotient and remainder possible.
pub fn check_divisibility(
    witness: &[FieldWrapper],
    a_polynomials: &[Polynomial],
    b_polynomials: &[Polynomial],
    c_polynomials: &[Polynomial],
    target: &Polynomial,
) -> (r: Result<bool, QapError>)
    requires
        target.coeffs@.len() <= usize::MAX / 4,
        forall|j: int| 0 <= j < a_polynomials@.len() ==> #[trigger] a_polynomials@[j].coeffs@.len() <= usize::MAX / 4,
        forall|j: int| 0 <= j < b_polynomials@.len() ==> #[trigger] b_polynomials@[j].coeffs@.len() <= usize::MAX / 4,
        forall|j: int| 0 <= j < c_polynomials@.len() ==> #[trigger] c_polynomials@[j].coeffs@.len() <= usize::MAX / 4,
    ensures
        (witness@.len() != a_polynomials@.len() || witness@.len() != b_polynomials@.len()
            || witness@.len() != c_polynomials@.len()) <==> r == Err::<bool, QapError>(
            QapError::MismatchedLengths(
                witness@.len() as usize,
                longest(a_polynomials@.len(), b_polynomials@.len(), c_polynomials@.len()) as usize,
            ),
        ),
        (witness@.len() == a_polynomials@.len() && witness@.len() == b_polynomials@.len()
            && witness@.len() == c_polynomials@.len() && all_zero(target.cv())) <==> r matches Err(
            QapError::DivisionByZero,
        ),
        (witness@.len() == a_polynomials@.len() && witness@.len() == b_polynomials@.len()
            && witness@.len() == c_polynomials@.len() && !all_zero(target.cv())) <==> r is Ok,
        r matches Ok(ok) ==> exists|q: Seq<nat>, rem: Seq<nat>|
            #[trigger] divides_with_remainder(
                witness@,
                a_polynomials@,
                b_polynomials@,
                c_polynomials@,
                target.cv(),
                q,
                rem,
            ) && ok == all_zero(rem),
{
    let witness_len = witness.len();
    let a_len = a_polynomials.len();
    let b_len = b_polynomials.len();
    let c_len = c_polynomials.len();
    if witness_len != a_len || witness_len != b_len || witness_len != c_len {
        let longest = if a_len >= b_len && a_len >= c_len {
            a_len
        } else if b_len >= c_len {
            b_len
        } else {
            c_len
        };
        return Err(QapError::MismatchedLengths(witness_len, longest));
    }
    let a = combine(witness, a_polynomials);
    let b = combine(witness, b_polynomials);
    let c = combine(witness, c_polynomials);
    let ghost (av, bv, cv) = (a.cv(), b.cv(), c.cv());
    let ab = a.mul(b);
    let ghost abv = ab.cv();
    proof {
        if !(all_zero(av) || all_zero(bv)) {
            crate::polynomial::lemma_trim_peval(mul_coeffs(av, bv), 0);
        }
        crate::polynomial::lemma_psum_small(av, 0, 0);
    }
    let p = ab.sub(c);
    let ghost pv = p.cv();
    proof {
        let sc = crate::polynomial::sub_coeffs(abv, cv, crate::polynomial::max_len(abv, cv));
        crate::polynomial::lemma_trim_peval(sc, 0);
        assert(abv.len() <= usize::MAX / 2);
        assert(pv.len() <= usize::MAX / 2);
        assert(usize::MAX < modulus());
        lemma_trim_trimmed(sc);
        crate::polynomial::lemma_trim_peval(sc, 0);
        lemma_values_small(ab.coeffs@);
        assert forall|x: nat| #[trigger] peval(pv, x) == qap_value(
            witness@,
            a_polynomials@,
            b_polynomials@,
            c_polynomials@,
            x,
        ) by {
            lemma_poly_mul_value(av, bv, x);
            lemma_poly_sub_value(abv, cv, x);
        }
    }
    match polynomial_long_division(&p, target) {
        Ok((q, rem)) => {
            let ok = rem.is_zero();
            proof {
                assert forall|x: nat| #[trigger] qap_value(
                    witness@,
                    a_polynomials@,
                    b_polynomials@,
                    c_polynomials@,
                    x,
                ) == fadd(fmul(peval(q.cv(), x), peval(target.cv(), x)), peval(rem.cv(), x)) by {
                    assert(peval(pv, x) == peval(p.cv(), x));
                }
                assert(divides_with_remainder(
                    witness@,
                    a_polynomials@,
                    b_polynomials@,
                    c_polynomials@,
                    target.cv(),
                    q.cv(),
                    rem.cv(),
                ));
            }
            Ok(ok)
        },
        Err(e) => Err(e),
    }
}

/// The combination of the QAP polynomials at a constraint's point is the
/// constraint's linear combination of the witness.
proof fn lemma_combined_at_point(
    cs: Seq<R1CSConstraint>,
    w: Seq<FieldWrapper>,
    polys: Seq<Polynomial>,
    which: int,
    i: int,
    k: nat,
)
    requires
        0 <= i < cs.len(),
        k <= w.len(),
        w.len() == polys.len(),
        w.len() <= usize::MAX + 1,
        forall|j: int| 0 <= j < polys.len() ==> is_qap_column(#[trigger] polys[j].cv(), cs, which, j as usize),
    ensures
        combined_value(w, polys, (i + 1) as nat, k) == crate::r1cs::lin_comb(
            crate::r1cs::coeff_values(vector_of(cs[i], which)),
            crate::r1cs::witness_values(w),
            k,
        ),
    decreases k,
{
    if k > 0 {
        let j = k - 1;
        lemma_combined_at_point(cs, w, polys, which, i, (k - 1) as nat);
        let m = vector_of(cs[i], which);
        assert(is_qap_column(polys[j].cv(), cs, which, j as usize));
        assert(peval(polys[j].cv(), (i + 1) as nat) == coeff_of(m, j as usize));
        let prev = combined_value(w, polys, (i + 1) as nat, (k - 1) as nat);
        lemma_value_below_modulus(w[j].value);
        assert(crate::r1cs::witness_values(w)[j] == w[j]@);
        if !m.contains_key(j as usize) {
            lemma_field_identities(w[j]@);
            lemma_field_identities(prev);
        }
    }
}

/// QAP reduction: at the point `i + 1` of constraint `i`, the QAP value
/// `a(x)·b(x) − c(x)` vanishes exactly when the witness satisfies
/// constraint `i`.
pub proof fn lemma_qap_value_at_constraint(
    cs: Seq<R1CSConstraint>,
    w: Seq<FieldWrapper>,
    a: Seq<Polynomial>,
    b: Seq<Polynomial>,
    c: Seq<Polynomial>,
    i: int,
)
    requires
        0 <= i < cs.len(),
        w.len() == a.len(),
        w.len() == b.len(),
        w.len() == c.len(),
        w.len() <= usize::MAX,
        forall|j: int| 0 <= j < a.len() ==> is_qap_column(#[trigger] a[j].cv(), cs, 0, j as usize),
        forall|j: int| 0 <= j < b.len() ==> is_qap_column(#[trigger] b[j].cv(), cs, 1, j as usize),
        forall|j: int| 0 <= j < c.len() ==> is_qap_column(#[trigger] c[j].cv(), cs, 2, j as usize),
    ensures
        crate::r1cs::constraint_holds(cs[i], w) <==> qap_value(w, a, b, c, (i + 1) as nat) == 0,
{
    let x = (i + 1) as nat;
    lemma_combined_at_point(cs, w, a, 0, i, w.len());
    lemma_combined_at_point(cs, w, b, 1, i, w.len());
    lemma_combined_at_point(cs, w, c, 2, i, w.len());
    let u = fmul(combined_value(w, a, x, w.len()), combined_value(w, b, x, w.len()));
    let v = combined_value(w, c, x, w.len());
    if u != v {
        lemma_distinct_sub_nonzero(u, v);
    }
}

/// QAP soundness: when `a(x)·b(x) − c(x)` is divisible by the target
/// polynomial (zero remainder), the witness satisfies every constraint.
pub proof fn lemma_qap_divisibility_sound(
    cs: Seq<R1CSConstraint>,
    w: Seq<FieldWrapper>,
    a: Seq<Polynomial>,
    b: Seq<Polynomial>,
    c: Seq<Polynomial>,
    t: Seq<nat>,
    q: Seq<nat>,
    r: Seq<nat>,
)
    requires
        cs.len() < usize::MAX,
        w.len() == a.len(),
        w.len() == b.len(),
        w.len() == c.len(),
        w.len() <= usize::MAX,
        forall|j: int| 0 <= j < a.len() ==> is_qap_column(#[trigger] a[j].cv(), cs, 0, j as usize),
        forall|j: int| 0 <= j < b.len() ==> is_qap_column(#[trigger] b[j].cv(), cs, 1, j as usize),
        forall|j: int| 0 <= j < c.len() ==> is_qap_column(#[trigger] c[j].cv(), cs, 2, j as usize),
        forall|x: nat| #[trigger] peval(t, x) == roots_product(x, cs.len()),
        divides_with_remainder(w, a, b, c, t, q, r),
        all_zero(r),
    ensures
        crate::r1cs::all_hold(cs, w),
{
    assert forall|i: int| 0 <= i < cs.len() implies #[trigger] crate::r1cs::constraint_holds(cs[i], w) by {
        let x = (i + 1) as nat;
        lemma_qap_value_at_constraint(cs, w, a, b, c, i);
        lemma_roots_product_vanishes(x, cs.len());
        assert(peval(t, x) == 0);
        crate::polynomial::lemma_all_zero_peval(r, x);
        vstd::arithmetic::mul::lemma_mul_basics(peval(q, x) as int);
        assert(fmul(peval(q, x), 0) == 0);
        assert(fadd(0, 0) == 0);
        assert(qap_value(w, a, b, c, x) == fadd(fmul(peval(q, x), peval(t, x)), peval(r, x)));
    }
}

} // verus!
