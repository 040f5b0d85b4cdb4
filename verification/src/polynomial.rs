//! Dense polynomials over the BN254 base field, coefficients in ascending
//! order of degree, with evaluation and the ring operations.
//!
//! A polynomial is modelled by the sequence of its coefficient values; its
//! value at `x` is `Σ cᵢ · xⁱ` computed in the field (`peval`).

use vstd::prelude::*;

use crate::field::{
    fadd, fmul, fsub, lemma_fadd_assoc, lemma_fadd_comm, lemma_field_identities,
    lemma_fmul_assoc, lemma_fmul_comm, lemma_fmul_distrib,
    lemma_value_below_modulus, modulus, FieldWrapper,
};

verus! {

/// The field values of a list of field elements.
pub open spec fn values(s: Seq<FieldWrapper>) -> Seq<nat> {
    s.map_values(|f: FieldWrapper| f@)
}

/// Coefficient `i` of a coefficient sequence; zero outside of it.
pub open spec fn cof(c: Seq<nat>, i: int) -> nat {
    if 0 <= i < c.len() {
        c[i]
    } else {
        0
    }
}

/// `xᵏ` in the field.
pub open spec fn fpow(x: nat, k: nat) -> nat
    decreases k,
{
    if k == 0 {
        1
    } else {
        fmul(fpow(x, (k - 1) as nat), x)
    }
}

/// `Σ_{i<k} cᵢ · xⁱ` in the field.
pub open spec fn psum(c: Seq<nat>, x: nat, k: nat) -> nat
    decreases k,
{
    if k == 0 {
        0
    } else {
        fadd(psum(c, x, (k - 1) as nat), fmul(cof(c, k - 1), fpow(x, (k - 1) as nat)))
    }
}

/// The value at `x` of the polynomial with coefficients `c`.
pub open spec fn peval(c: Seq<nat>, x: nat) -> nat {
    psum(c, x, c.len())
}

/// Whether every coefficient is zero.
pub open spec fn all_zero(c: Seq<nat>) -> bool {
    forall|i: int| 0 <= i < c.len() ==> c[i] == 0
}

/// `c` without trailing zero coefficients, keeping at least one.
pub open spec fn trim(c: Seq<nat>) -> Seq<nat>
    decreases c.len(),
{
    if c.len() > 1 && c.last() == 0 {
        trim(c.drop_last())
    } else {
        c
    }
}

/// Coefficient-wise sum over `n` positions.
pub open spec fn add_coeffs(a: Seq<nat>, b: Seq<nat>, n: nat) -> Seq<nat> {
    Seq::new(n, |i: int| fadd(cof(a, i), cof(b, i)))
}

/// Coefficient-wise difference over `n` positions.
pub open spec fn sub_coeffs(a: Seq<nat>, b: Seq<nat>, n: nat) -> Seq<nat> {
    Seq::new(n, |i: int| fsub(cof(a, i), cof(b, i)))
}

/// `Σ_{i<n} aᵢ · b_{k−i}`: coefficient `k` of the product, summed over the
/// first `n` coefficients of `a`.
pub open spec fn conv(a: Seq<nat>, b: Seq<nat>, k: int, n: nat) -> nat
    decreases n,
{
    if n == 0 {
        0
    } else {
        fadd(conv(a, b, k, (n - 1) as nat), fmul(cof(a, n - 1), cof(b, k - (n - 1))))
    }
}

/// The coefficients of the product of two non-empty coefficient sequences.
pub open spec fn mul_coeffs(a: Seq<nat>, b: Seq<nat>) -> Seq<nat> {
    Seq::new((a.len() + b.len() - 1) as nat, |k: int| conv(a, b, k, a.len()))
}

/// The larger of two lengths.
pub open spec fn max_len(a: Seq<nat>, b: Seq<nat>) -> nat {
    if a.len() >= b.len() {
        a.len()
    } else {
        b.len()
    }
}

/// The coefficients of the sum of two polynomials.
pub open spec fn poly_add(a: Seq<nat>, b: Seq<nat>) -> Seq<nat> {
    trim(add_coeffs(a, b, max_len(a, b)))
}

/// The coefficients of the difference of two polynomials.
pub open spec fn poly_sub(a: Seq<nat>, b: Seq<nat>) -> Seq<nat> {
    trim(sub_coeffs(a, b, max_len(a, b)))
}

/// The coefficients of the product of two polynomials: empty when either
/// factor is zero.
pub open spec fn poly_mul(a: Seq<nat>, b: Seq<nat>) -> Seq<nat> {
    if all_zero(a) || all_zero(b) {
        Seq::empty()
    } else {
        trim(mul_coeffs(a, b))
    }
}

/// A field value is below the modulus.
proof fn lemma_fadd_small(a: nat, b: nat)
    ensures
        fadd(a, b) < modulus(),
        fmul(a, b) < modulus(),
        fsub(a, b) < modulus(),
{
}

/// Every power is a field value.
proof fn lemma_fpow_small(x: nat, k: nat)
    ensures
        fpow(x, k) < modulus(),
{
}

/// `x^(a+b) = x^a · x^b`.
pub proof fn lemma_fpow_add(x: nat, a: nat, b: nat)
    ensures
        fpow(x, a + b) == fmul(fpow(x, a), fpow(x, b)),
    decreases b,
{
    if b == 0 {
        lemma_field_identities(fpow(x, a));
        assert(fpow(x, a) < modulus()) by {
            if a > 0 {
                lemma_fadd_small(fpow(x, (a - 1) as nat), x);
            }
        }
        lemma_field_identities(fpow(x, a));
    } else {
        lemma_fpow_add(x, a, (b - 1) as nat);
        assert(fpow(x, a + b) == fmul(fpow(x, (a + b - 1) as nat), x));
        lemma_fmul_assoc(fpow(x, a), fpow(x, (b - 1) as nat), x);
    }
}

/// Partial sums are field values.
pub proof fn lemma_psum_small(c: Seq<nat>, x: nat, k: nat)
    ensures
        psum(c, x, k) < modulus(),
{
}

/// Partial sums only depend on the coefficients they cover.
pub proof fn lemma_psum_ext(a: Seq<nat>, b: Seq<nat>, x: nat, k: nat)
    requires
        forall|i: int| 0 <= i < k ==> cof(a, i) == cof(b, i),
    ensures
        psum(a, x, k) == psum(b, x, k),
    decreases k,
{
    if k > 0 {
        lemma_psum_ext(a, b, x, (k - 1) as nat);
        assert(cof(a, k - 1) == cof(b, k - 1));
    }
}

/// Zero coefficients past `k` add nothing.
pub proof fn lemma_psum_zero_tail(c: Seq<nat>, x: nat, k: nat, k2: nat)
    requires
        k <= k2,
        forall|i: int| k <= i < k2 ==> cof(c, i) == 0,
    ensures
        psum(c, x, k2) == psum(c, x, k),
    decreases k2,
{
    if k2 > k {
        lemma_psum_zero_tail(c, x, k, (k2 - 1) as nat);
        lemma_psum_small(c, x, (k2 - 1) as nat);
        lemma_fpow_small(x, (k2 - 1) as nat);
        lemma_field_identities(fpow(x, (k2 - 1) as nat));
        lemma_field_identities(psum(c, x, (k2 - 1) as nat));
    }
}

/// The value of a polynomial is the partial sum over any prefix that
/// covers all its coefficients.
pub proof fn lemma_peval_wide(c: Seq<nat>, x: nat, k: nat)
    requires
        c.len() <= k,
    ensures
        psum(c, x, k) == peval(c, x),
{
    lemma_psum_zero_tail(c, x, c.len(), k);
}

/// Partial sums of a coefficient-wise sum.
pub proof fn lemma_psum_add(a: Seq<nat>, b: Seq<nat>, c: Seq<nat>, x: nat, k: nat)
    requires
        forall|i: int| 0 <= i < k ==> cof(c, i) == fadd(cof(a, i), cof(b, i)),
    ensures
        psum(c, x, k) == fadd(psum(a, x, k), psum(b, x, k)),
    decreases k,
{
    if k > 0 {
        let j = (k - 1) as nat;
        lemma_psum_add(a, b, c, x, j);
        let p = fpow(x, j);
        let (sa, sb) = (psum(a, x, j), psum(b, x, j));
        let (ta, tb) = (fmul(cof(a, j as int), p), fmul(cof(b, j as int), p));
        assert(fmul(cof(c, j as int), p) == fadd(ta, tb)) by {
            lemma_fmul_comm(fadd(cof(a, j as int), cof(b, j as int)), p);
            lemma_fmul_distrib(p, cof(a, j as int), cof(b, j as int));
            lemma_fmul_comm(cof(a, j as int), p);
            lemma_fmul_comm(cof(b, j as int), p);
        }
        assert(psum(c, x, k) == fadd(fadd(sa, sb), fadd(ta, tb)));
        // (sa + sb) + (ta + tb) == (sa + ta) + (sb + tb)
        let y1 = fadd(sb, fadd(ta, tb));
        let y2 = fadd(ta, fadd(sb, tb));
        lemma_fadd_assoc(sa, sb, fadd(ta, tb));
        lemma_fadd_assoc(sb, ta, tb);
        lemma_fadd_comm(sb, ta);
        lemma_fadd_assoc(ta, sb, tb);
        assert(y1 == y2);
        lemma_fadd_assoc(sa, ta, fadd(sb, tb));
        assert(fadd(fadd(sa, sb), fadd(ta, tb)) == fadd(sa, y1));
        assert(fadd(fadd(sa, ta), fadd(sb, tb)) == fadd(sa, y2));
        assert(psum(a, x, k) == fadd(sa, ta));
        assert(psum(b, x, k) == fadd(sb, tb));
        assert(psum(c, x, k) == fadd(psum(a, x, k), psum(b, x, k)));
    } else {
        assert(fadd(0, 0) == 0);
    }
}

/// Partial sums of a coefficient-wise difference.
pub proof fn lemma_psum_sub(a: Seq<nat>, b: Seq<nat>, c: Seq<nat>, x: nat, k: nat)
    requires
        forall|i: int| 0 <= i < k ==> cof(a, i) < modulus(),
        forall|i: int| 0 <= i < k ==> cof(c, i) == fsub(cof(a, i), cof(b, i)),
    ensures
        psum(c, x, k) == fsub(psum(a, x, k), psum(b, x, k)),
{
    // c + b == a coefficient-wise, so psum(c) + psum(b) == psum(a).
    let s = Seq::new(k, |i: int| fadd(cof(c, i), cof(b, i)));
    assert forall|i: int| 0 <= i < k implies cof(s, i) == cof(a, i) by {
        lemma_fsub_fadd_small(cof(a, i), cof(b, i));
    }
    lemma_psum_add(c, b, s, x, k);
    lemma_psum_ext(s, a, x, k);
    lemma_psum_small(c, x, k);
    lemma_psum_small(a, x, k);
    lemma_fadd_sub_cancel(psum(c, x, k), psum(b, x, k), psum(a, x, k));
}

/// `(a − b) + b = a` for coefficient values.
proof fn lemma_fsub_fadd_small(a: nat, b: nat)
    ensures
        fadd(fsub(a, b), b) == a % modulus(),
{
    let m = modulus() as int;
    let (x, y) = (a as int, b as int);
    vstd::arithmetic::div_mod::lemma_add_mod_noop(x - y, y, m);
    vstd::arithmetic::div_mod::lemma_mod_twice(x - y, m);
    vstd::arithmetic::div_mod::lemma_mod_twice(y, m);
    vstd::arithmetic::div_mod::lemma_add_mod_noop_right(x - y, y, m);
}

/// If `c + b = a` then `c = a − b` (for field values).
proof fn lemma_fadd_sub_cancel(c: nat, b: nat, a: nat)
    requires
        c < modulus(),
        fadd(c, b) == a,
    ensures
        c == fsub(a, b),
{
    let m = modulus() as int;
    let (x, y) = (c as int, b as int);
    vstd::arithmetic::div_mod::lemma_sub_mod_noop(x + y, y, m);
    vstd::arithmetic::div_mod::lemma_mod_twice(y, m);
    vstd::arithmetic::div_mod::lemma_mod_twice(x + y, m);
    vstd::arithmetic::div_mod::lemma_small_mod(c, modulus());
    vstd::arithmetic::div_mod::lemma_sub_mod_noop_right(x + y, y, m);
    assert((x + y - y) % m == x % m);
}

/// Partial sums of a scaled sequence.
pub proof fn lemma_psum_scale(a: Seq<nat>, c: Seq<nat>, s: nat, x: nat, k: nat)
    requires
        forall|i: int| 0 <= i < k ==> cof(c, i) == fmul(cof(a, i), s),
    ensures
        psum(c, x, k) == fmul(psum(a, x, k), s),
    decreases k,
{
    if k == 0 {
        lemma_field_identities(s % modulus());
        vstd::arithmetic::mul::lemma_mul_basics(s as int);
    } else {
        let j = (k - 1) as nat;
        lemma_psum_scale(a, c, s, x, j);
        let p = fpow(x, j);
        let aj = cof(a, j as int);
        // (aj·s)·p == (aj·p)·s
        lemma_fmul_assoc(aj, s, p);
        lemma_fmul_comm(s, p);
        lemma_fmul_assoc(aj, p, s);
        // (Sa·s) + (aj·p)·s == (Sa + aj·p)·s
        lemma_fmul_comm(psum(a, x, j), s);
        lemma_fmul_comm(fmul(aj, p), s);
        lemma_fmul_distrib(s, psum(a, x, j), fmul(aj, p));
        lemma_fmul_comm(psum(a, x, k), s);
    }
}

/// Shifting the coefficients up by `n` multiplies the value by `xⁿ`.
pub proof fn lemma_psum_shift(sh: Seq<nat>, g: Seq<nat>, x: nat, n: nat, k: nat)
    requires
        n <= k,
        forall|i: int| 0 <= i < k ==> cof(sh, i) == cof(g, i - n),
    ensures
        psum(sh, x, k) == fmul(fpow(x, n), psum(g, x, (k - n) as nat)),
    decreases k,
{
    if k == n {
        lemma_psum_zero_tail(sh, x, 0, k);
        lemma_field_identities(fpow(x, n));
    } else {
        let j = (k - 1) as nat;
        lemma_psum_shift(sh, g, x, n, j);
        let d = (j - n) as nat;
        let gd = cof(g, d as int);
        assert(cof(sh, j as int) == gd);
        let pn = fpow(x, n);
        let pd = fpow(x, d);
        lemma_fpow_add(x, n, d);
        assert(n + d == j);
        // pn·(S + gd·pd) == pn·S + gd·(pn·pd)
        lemma_fmul_distrib(pn, psum(g, x, d), fmul(gd, pd));
        lemma_fmul_assoc(pn, gd, pd);
        lemma_fmul_comm(pn, gd);
        lemma_fmul_assoc(gd, pn, pd);
        assert(psum(g, x, (k - n) as nat) == fadd(psum(g, x, d), fmul(gd, pd)));
        assert(fmul(pn, fmul(gd, pd)) == fmul(gd, fpow(x, j)));
    }
}

/// Convolution coefficients are field values.
proof fn lemma_conv_small(a: Seq<nat>, b: Seq<nat>, k: int, n: nat)
    ensures
        conv(a, b, k, n) < modulus(),
{
}

/// The value of a product is the product of the values:
/// `Σₖ (Σᵢ aᵢ·b_{k−i}) xᵏ = (Σᵢ aᵢ xⁱ)·(Σⱼ bⱼ xʲ)`, summing over the first
/// `n` coefficients of `a`.
proof fn lemma_conv_psum(a: Seq<nat>, b: Seq<nat>, x: nat, n: nat, kk: nat)
    requires
        n <= a.len(),
        b.len() >= 1,
        kk == a.len() + b.len() - 1,
    ensures
        psum(Seq::new(kk, |k: int| conv(a, b, k, n)), x, kk) == fmul(psum(a, x, n), peval(b, x)),
    decreases n,
{
    let cn = Seq::new(kk, |k: int| conv(a, b, k, n));
    let bv = peval(b, x);
    if n == 0 {
        assert forall|i: int| 0 <= i < kk implies cof(cn, i) == 0 by {}
        lemma_psum_zero_tail(cn, x, 0, kk);
        lemma_psum_small(b, x, b.len());
        lemma_field_identities(bv);
    } else {
        let m = (n - 1) as nat;
        lemma_conv_psum(a, b, x, m, kk);
        let cm = Seq::new(kk, |k: int| conv(a, b, k, m));
        let am = cof(a, m as int);
        let sh = Seq::new(kk, |k: int| cof(b, k - m));
        let sc = Seq::new(kk, |k: int| fmul(am, cof(b, k - m)));
        // cn = cm + sc coefficient-wise
        assert forall|i: int| 0 <= i < kk implies cof(cn, i) == fadd(cof(cm, i), cof(sc, i)) by {}
        lemma_psum_add(cm, sc, cn, x, kk);
        // psum(sc) = psum(sh) · am
        assert forall|i: int| 0 <= i < kk implies cof(sc, i) == fmul(cof(sh, i), am) by {
            lemma_fmul_comm(am, cof(b, i - m));
        }
        lemma_psum_scale(sh, sc, am, x, kk);
        // psum(sh) = x^m · peval(b)
        assert forall|i: int| 0 <= i < kk implies cof(sh, i) == cof(b, i - m) by {}
        lemma_psum_shift(sh, b, x, m, kk);
        lemma_peval_wide(b, x, (kk - m) as nat);
        let pm = fpow(x, m);
        let sa = psum(a, x, m);
        // psum(cn) = sa·B + (pm·B)·am ; want (sa + am·pm)·B
        lemma_fmul_comm(fadd(sa, fmul(am, pm)), bv);
        lemma_fmul_distrib(bv, sa, fmul(am, pm));
        lemma_fmul_comm(bv, sa);
        lemma_fmul_comm(fmul(pm, bv), am);
        lemma_fmul_assoc(am, pm, bv);
        lemma_fmul_comm(bv, fmul(am, pm));
        assert(psum(a, x, n) == fadd(sa, fmul(am, pm)));
        assert(psum(sc, x, kk) == fmul(fmul(pm, bv), am));
        assert(fmul(fmul(pm, bv), am) == fmul(bv, fmul(am, pm)));
    }
}

/// The value of a product is the product of the values.
pub proof fn lemma_mul_coeffs_peval(a: Seq<nat>, b: Seq<nat>, x: nat)
    requires
        a.len() >= 1,
        b.len() >= 1,
    ensures
        peval(mul_coeffs(a, b), x) == fmul(peval(a, x), peval(b, x)),
{
    lemma_conv_psum(a, b, x, a.len(), (a.len() + b.len() - 1) as nat);
    assert(mul_coeffs(a, b) =~= Seq::new(
        (a.len() + b.len() - 1) as nat,
        |k: int| conv(a, b, k, a.len()),
    ));
}

/// The value of a coefficient-wise sum is the sum of the values.
pub proof fn lemma_add_coeffs_peval(a: Seq<nat>, b: Seq<nat>, n: nat, x: nat)
    requires
        a.len() <= n,
        b.len() <= n,
    ensures
        peval(add_coeffs(a, b, n), x) == fadd(peval(a, x), peval(b, x)),
{
    let c = add_coeffs(a, b, n);
    assert forall|i: int| 0 <= i < n implies cof(c, i) == fadd(cof(a, i), cof(b, i)) by {}
    lemma_psum_add(a, b, c, x, n);
    lemma_peval_wide(a, x, n);
    lemma_peval_wide(b, x, n);
}

/// The value of a coefficient-wise difference is the difference of the
/// values.
pub proof fn lemma_sub_coeffs_peval(a: Seq<nat>, b: Seq<nat>, n: nat, x: nat)
    requires
        a.len() <= n,
        b.len() <= n,
        forall|i: int| 0 <= i < a.len() ==> a[i] < modulus(),
    ensures
        peval(sub_coeffs(a, b, n), x) == fsub(peval(a, x), peval(b, x)),
{
    let c = sub_coeffs(a, b, n);
    assert forall|i: int| 0 <= i < n implies cof(c, i) == fsub(cof(a, i), cof(b, i)) by {}
    lemma_psum_sub(a, b, c, x, n);
    lemma_peval_wide(a, x, n);
    lemma_peval_wide(b, x, n);
}

/// The coefficient values of field elements are field values.
pub proof fn lemma_values_small(s: Seq<FieldWrapper>)
    ensures
        forall|i: int| 0 <= i < s.len() ==> #[trigger] values(s)[i] < modulus(),
        forall|i: int| #[trigger] cof(values(s), i) < modulus(),
{
    assert forall|i: int| 0 <= i < s.len() implies #[trigger] values(s)[i] < modulus() by {
        lemma_value_below_modulus(s[i].value);
    }
}

/// Trimming keeps the value of a polynomial.
pub proof fn lemma_trim_peval(c: Seq<nat>, x: nat)
    ensures
        peval(trim(c), x) == peval(c, x),
        trim(c).len() <= c.len(),
        forall|i: int| #[trigger] cof(trim(c), i) == cof(c, i),
    decreases c.len(),
{
    if c.len() > 1 && c.last() == 0 {
        let d = c.drop_last();
        lemma_trim_peval(d, x);
        assert forall|i: int| cof(d, i) == cof(c, i) by {}
        lemma_psum_ext(d, c, x, d.len());
        lemma_psum_zero_tail(c, x, d.len(), c.len());
    }
}

/// A polynomial whose coefficients are all zero is zero everywhere.
pub proof fn lemma_all_zero_peval(c: Seq<nat>, x: nat)
    requires
        all_zero(c),
    ensures
        peval(c, x) == 0,
{
    assert forall|i: int| 0 <= i < c.len() implies cof(c, i) == 0 by {}
    lemma_psum_zero_tail(c, x, 0, c.len());
}

/// The top coefficient of a product is the product of the top coefficients.
pub proof fn lemma_conv_top(a: Seq<nat>, b: Seq<nat>)
    requires
        a.len() >= 1,
        b.len() >= 1,
        a.last() < modulus(),
        b.last() < modulus(),
    ensures
        mul_coeffs(a, b).last() == fmul(a.last(), b.last()),
        mul_coeffs(a, b).len() == a.len() + b.len() - 1,
{
    let top = a.len() + b.len() - 2;
    assert forall|n: nat| n < a.len() implies #[trigger] conv(a, b, top, n) == 0 by {
        lemma_conv_below_top(a, b, top, n);
    }
    lemma_conv_small(a, b, top, (a.len() - 1) as nat);
    lemma_field_identities(fmul(a.last(), b.last()));
}

/// Below the last coefficient of `a`, no term reaches the top position.
proof fn lemma_conv_below_top(a: Seq<nat>, b: Seq<nat>, top: int, n: nat)
    requires
        a.len() >= 1,
        b.len() >= 1,
        top == a.len() + b.len() - 2,
        n < a.len(),
    ensures
        conv(a, b, top, n) == 0,
    decreases n,
{
    if n > 0 {
        lemma_conv_below_top(a, b, top, (n - 1) as nat);
        assert(cof(b, top - (n - 1)) == 0);
        vstd::arithmetic::mul::lemma_mul_basics(cof(a, n - 1) as int);
        assert(fmul(cof(a, n - 1), 0) == 0);
        assert(fadd(0, 0) == 0);
    }
}

/// The value of a sum of polynomials is the sum of their values.
pub proof fn lemma_poly_add_value(a: Seq<nat>, b: Seq<nat>, x: nat)
    ensures
        peval(poly_add(a, b), x) == fadd(peval(a, x), peval(b, x)),
{
    lemma_add_coeffs_peval(a, b, max_len(a, b), x);
    lemma_trim_peval(add_coeffs(a, b, max_len(a, b)), x);
}

/// The value of a difference of polynomials is the difference of their
/// values.
pub proof fn lemma_poly_sub_value(a: Seq<nat>, b: Seq<nat>, x: nat)
    requires
        forall|i: int| 0 <= i < a.len() ==> a[i] < modulus(),
    ensures
        peval(poly_sub(a, b), x) == fsub(peval(a, x), peval(b, x)),
{
    lemma_sub_coeffs_peval(a, b, max_len(a, b), x);
    lemma_trim_peval(sub_coeffs(a, b, max_len(a, b)), x);
}

/// The value of a product of polynomials is the product of their values.
pub proof fn lemma_poly_mul_value(a: Seq<nat>, b: Seq<nat>, x: nat)
    ensures
        peval(poly_mul(a, b), x) == fmul(peval(a, x), peval(b, x)),
{
    if all_zero(a) || all_zero(b) {
        assert(peval(Seq::<nat>::empty(), x) == 0);
        if all_zero(a) {
            lemma_all_zero_peval(a, x);
            lemma_psum_small(b, x, b.len());
            lemma_field_identities(peval(b, x));
        } else {
            lemma_all_zero_peval(b, x);
            lemma_psum_small(a, x, a.len());
            lemma_field_identities(peval(a, x));
        }
    } else {
        assert(a.len() >= 1 && b.len() >= 1);
        lemma_mul_coeffs_peval(a, b, x);
        lemma_trim_peval(mul_coeffs(a, b), x);
    }
}

/// Trimming twice is trimming once.
pub proof fn lemma_trim_idempotent(c: Seq<nat>)
    ensures
        trim(trim(c)) == trim(c),
    decreases c.len(),
{
    if c.len() > 1 && c.last() == 0 {
        lemma_trim_idempotent(c.drop_last());
    }
}

/// Drops trailing zero coefficients, keeping at least one.
pub(crate) fn trim_trailing(v: &mut Vec<FieldWrapper>)
    ensures
        values(final(v)@) == trim(values(old(v)@)),
{
    while v.len() > 1 && v[v.len() - 1].is_zero()
        invariant
            trim(values(v@)) == trim(values(old(v)@)),
        decreases v@.len(),
    {
        let ghost before = values(v@);
        v.pop();
        assert(values(v@) =~= before.drop_last());
    }
}

/// A polynomial with coefficients in ascending order of degree.
#[derive(Clone, Debug)]
pub struct Polynomial {
    /// Coefficients, constant term first
    pub coeffs: Vec<FieldWrapper>,
}

impl Polynomial {
    /// The coefficient values.
    pub open spec fn cv(&self) -> Seq<nat> {
        values(self.coeffs@)
    }

    /// Creates a polynomial from its coefficients.
    pub fn new(coeffs: Vec<FieldWrapper>) -> (p: Polynomial)
        ensures
            p.coeffs@ == coeffs@,
    {
        Polynomial { coeffs }
    }

    /// A copy with the same coefficients.
    pub fn copy(&self) -> (p: Polynomial)
        ensures
            p.coeffs@ == self.coeffs@,
    {
        let mut coeffs: Vec<FieldWrapper> = Vec::new();
        let mut i: usize = 0;
        while i < self.coeffs.len()
            invariant
                0 <= i <= self.coeffs@.len(),
                coeffs@ == self.coeffs@.subrange(0, i as int),
            decreases self.coeffs@.len() - i,
        {
            coeffs.push(self.coeffs[i]);
            i = i + 1;
            assert(coeffs@ =~= self.coeffs@.subrange(0, i as int));
        }
        assert(coeffs@ =~= self.coeffs@);
        Polynomial { coeffs }
    }

    /// Evaluates the polynomial at `x`: `Σ cᵢ · xⁱ`.
    pub fn evaluate(&self, x: &FieldWrapper) -> (r: FieldWrapper)
        ensures
            r@ == peval(self.cv(), x@),
    {
        let ghost c = self.cv();
        let mut result = FieldWrapper::zero();
        let mut x_pow = FieldWrapper::one();
        let mut i: usize = 0;
        while i < self.coeffs.len()
            invariant
                0 <= i <= self.coeffs@.len(),
                c == self.cv(),
                result@ == psum(c, x@, i as nat),
                x_pow@ == fpow(x@, i as nat),
            decreases self.coeffs@.len() - i,
        {
            let coeff = self.coeffs[i];
            assert(cof(c, i as int) == coeff@);
            result = result.add(&coeff.mul(&x_pow));
            x_pow = x_pow.mul(x);
            i = i + 1;
        }
        result
    }

    /// The degree: the number of coefficients less one (zero when empty).
    pub fn degree(&self) -> (d: usize)
        ensures
            d == if self.coeffs@.len() == 0 {
                0
            } else {
                self.coeffs@.len() - 1
            },
    {
        if self.coeffs.len() == 0 {
            return 0;
        }
        self.coeffs.len() - 1
    }

    /// Checks if this polynomial is the zero polynomial (every coefficient
    /// is zero).
    pub fn is_zero(&self) -> (r: bool)
        ensures
            r == all_zero(self.cv()),
    {
        let mut i: usize = 0;
        while i < self.coeffs.len()
            invariant
                0 <= i <= self.coeffs@.len(),
                forall|j: int| 0 <= j < i ==> self.cv()[j] == 0,
            decreases self.coeffs@.len() - i,
        {
            if !self.coeffs[i].is_zero() {
                assert(self.cv()[i as int] != 0);
                return false;
            }
            i = i + 1;
        }
        true
    }

    /// Coefficient `i`, or zero past the end.
    fn coeff_or_zero(&self, i: usize) -> (r: FieldWrapper)
        ensures
            r@ == cof(self.cv(), i as int),
    {
        if i < self.coeffs.len() {
            self.coeffs[i]
        } else {
            FieldWrapper::zero()
        }
    }

    /// Coefficient-wise sum, trailing zeros removed.
    pub fn add(self, rhs: Polynomial) -> (r: Polynomial)
        ensures
            r.cv() == poly_add(self.cv(), rhs.cv()),
    {
        let max_len = if self.coeffs.len() >= rhs.coeffs.len() {
            self.coeffs.len()
        } else {
            rhs.coeffs.len()
        };
        let ghost target = add_coeffs(self.cv(), rhs.cv(), max_len as nat);
        let mut result_coeffs: Vec<FieldWrapper> = Vec::new();
        let mut i: usize = 0;
        while i < max_len
            invariant
                0 <= i <= max_len,
                target == add_coeffs(self.cv(), rhs.cv(), max_len as nat),
                values(result_coeffs@) == target.subrange(0, i as int),
            decreases max_len - i,
        {
            let a = self.coeff_or_zero(i);
            let b = rhs.coeff_or_zero(i);
            let v = a.add(&b);
            let ghost before = values(result_coeffs@);
            assert(target[i as int] == v@);
            result_coeffs.push(v);
            assert(values(result_coeffs@) =~= before.push(v@));
            i = i + 1;
            assert(values(result_coeffs@) =~= target.subrange(0, i as int));
        }
        assert(values(result_coeffs@) =~= target);
        trim_trailing(&mut result_coeffs);
        Polynomial { coeffs: result_coeffs }
    }

    /// Coefficient-wise difference, trailing zeros removed.
    pub fn sub(self, rhs: Polynomial) -> (r: Polynomial)
        ensures
            r.cv() == poly_sub(self.cv(), rhs.cv()),
    {
        let max_len = if self.coeffs.len() >= rhs.coeffs.len() {
            self.coeffs.len()
        } else {
            rhs.coeffs.len()
        };
        let ghost target = sub_coeffs(self.cv(), rhs.cv(), max_len as nat);
        let mut result_coeffs: Vec<FieldWrapper> = Vec::new();
        let mut i: usize = 0;
        while i < max_len
            invariant
                0 <= i <= max_len,
                target == sub_coeffs(self.cv(), rhs.cv(), max_len as nat),
                values(result_coeffs@) == target.subrange(0, i as int),
            decreases max_len - i,
        {
            let a = self.coeff_or_zero(i);
            let b = rhs.coeff_or_zero(i);
            let v = a.sub(&b);
            let ghost before = values(result_coeffs@);
            assert(target[i as int] == v@);
            result_coeffs.push(v);
            assert(values(result_coeffs@) =~= before.push(v@));
            i = i + 1;
            assert(values(result_coeffs@) =~= target.subrange(0, i as int));
        }
        assert(values(result_coeffs@) =~= target);
        trim_trailing(&mut result_coeffs);
        Polynomial { coeffs: result_coeffs }
    }

    /// Product of two polynomials (schoolbook), trailing zeros removed; the
    /// empty polynomial when either factor is zero.
    pub fn mul(self, rhs: Polynomial) -> (r: Polynomial)
        requires
            self.coeffs@.len() + rhs.coeffs@.len() <= usize::MAX,
        ensures
            r.cv() == poly_mul(self.cv(), rhs.cv()),
    {
        if self.is_zero() || rhs.is_zero() {
            let r = Polynomial::new(Vec::new());
            assert(r.cv() =~= Seq::<nat>::empty());
            return r;
        }
        let la = self.coeffs.len();
        let lb = rhs.coeffs.len();
        let n = la + lb - 1;
        let ghost a = self.cv();
        let ghost b = rhs.cv();
        let mut result_coeffs: Vec<FieldWrapper> = Vec::new();
        let mut z: usize = 0;
        while z < n
            invariant
                0 <= z <= n,
                result_coeffs@.len() == z,
                forall|k: int| 0 <= k < z ==> #[trigger] values(result_coeffs@)[k] == 0,
            decreases n - z,
        {
            let ghost before = values(result_coeffs@);
            result_coeffs.push(FieldWrapper::zero());
            assert(values(result_coeffs@) =~= before.push(0));
            z = z + 1;
        }
        let mut i: usize = 0;
        while i < la
            invariant
                la == self.coeffs@.len(),
                lb == rhs.coeffs@.len(),
                la >= 1,
                lb >= 1,
                n == la + lb - 1,
                a == self.cv(),
                b == rhs.cv(),
                0 <= i <= la,
                result_coeffs@.len() == n,
                forall|k: int| 0 <= k < n ==> #[trigger] values(result_coeffs@)[k] == conv(a, b, k, i as nat),
            decreases la - i,
        {
            let ai = self.coeffs[i];
            let mut j: usize = 0;
            while j < lb
                invariant
                    la == self.coeffs@.len(),
                    lb == rhs.coeffs@.len(),
                    n == la + lb - 1,
                    a == self.cv(),
                    b == rhs.cv(),
                    0 <= i < la,
                    0 <= j <= lb,
                    ai@ == cof(a, i as int),
                    result_coeffs@.len() == n,
                    forall|k: int|
                        0 <= k < n ==> #[trigger] values(result_coeffs@)[k] == if i <= k < i + j {
                            conv(a, b, k, (i + 1) as nat)
                        } else {
                            conv(a, b, k, i as nat)
                        },
                decreases lb - j,
            {
                let bj = rhs.coeffs[j];
                let k = i + j;
                let cur = result_coeffs[k];
                let v = cur.add(&ai.mul(&bj));
                let ghost before = values(result_coeffs@);
                result_coeffs.set(k, v);
                assert(values(result_coeffs@) =~= before.update(k as int, v@));
                assert(cof(b, k - i) == bj@);
                assert forall|t: int| 0 <= t < n implies #[trigger] values(result_coeffs@)[t] == if i <= t < i + j + 1 {
                    conv(a, b, t, (i + 1) as nat)
                } else {
                    conv(a, b, t, i as nat)
                } by {
                    if t != k {
                        assert(values(result_coeffs@)[t] == before[t]);
                    } else {
                        assert(before[t] == conv(a, b, t, i as nat));
                        assert(cur@ == before[t]);
                        assert(conv(a, b, t, (i + 1) as nat) == fadd(
                            conv(a, b, t, i as nat),
                            fmul(cof(a, i as int), cof(b, t - i)),
                        ));
                    }
                }
                j = j + 1;
            }
            assert forall|k: int| 0 <= k < n implies #[trigger] values(result_coeffs@)[k] == conv(a, b, k, (i + 1) as nat) by {
                if !(i <= k < i + lb) {
                    lemma_values_small(self.coeffs@);
                    lemma_conv_small(a, b, k, i as nat);
                    lemma_field_identities(cof(a, i as int));
                    lemma_field_identities(conv(a, b, k, i as nat));
                }
            }
            i = i + 1;
        }
        assert(values(result_coeffs@) =~= mul_coeffs(a, b));
        trim_trailing(&mut result_coeffs);
        Polynomial { coeffs: result_coeffs }
    }
}

} // verus!
