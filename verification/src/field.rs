//! Elements of the BN254 base field, the field in which the example circuits,
//! R1CS constraints and QAP polynomials compute.
//!
//! An element is held as four little-endian 64-bit limbs of its canonical
//! representative; the field operations are computed by `ark-bn254`.

use vstd::prelude::*;

verus! {

/// The BN254 base-field modulus.
pub open spec fn modulus() -> nat {
    21888242871839275222246405745257275088696311157297823662689037894645226208583nat
}

/// The number that four little-endian 64-bit limbs stand for.
pub open spec fn limbs_value(l0: u64, l1: u64, l2: u64, l3: u64) -> nat {
    l0 as nat + l1 as nat * 0x1_0000_0000_0000_0000nat + l2 as nat
        * 0x1_0000_0000_0000_0000_0000_0000_0000_0000nat + l3 as nat
        * 0x1_0000_0000_0000_0000_0000_0000_0000_0000_0000_0000_0000_0000nat
}

/// Sum in the field.
pub open spec fn fadd(a: nat, b: nat) -> nat {
    (a + b) % modulus()
}

/// Difference in the field.
pub open spec fn fsub(a: nat, b: nat) -> nat {
    ((a - b) % (modulus() as int)) as nat
}

/// Product in the field.
pub open spec fn fmul(a: nat, b: nat) -> nat {
    (a * b) % modulus()
}

/// An element of the BN254 base field.
#[derive(Clone, Copy, Debug, PartialEq, Eq, Structural)]
pub struct Fq {
    l0: u64,
    l1: u64,
    l2: u64,
    l3: u64,
}

impl View for Fq {
    type V = nat;

    /// The element's value in `0..modulus()`.
    closed spec fn view(&self) -> nat {
        limbs_value(self.l0, self.l1, self.l2, self.l3) % modulus()
    }
}

impl Fq {
    #[verifier::type_invariant]
    closed spec fn canonical(&self) -> bool {
        limbs_value(self.l0, self.l1, self.l2, self.l3) < modulus()
    }

    /// The element with representative `v`, as a value.
    pub closed spec fn of_u64(v: u64) -> Fq {
        Fq { l0: v, l1: 0, l2: 0, l3: 0 }
    }

    /// The element with representative `v`.
    pub fn from_u64(v: u64) -> (r: Fq)
        ensures
            r@ == v as nat,
            r == Fq::of_u64(v),
    {
        assert(limbs_value(v, 0, 0, 0) == v as nat);
        assert(v as nat % modulus() == v as nat);
        Fq { l0: v, l1: 0, l2: 0, l3: 0 }
    }

    /// The additive identity.
    pub fn zero() -> (r: Fq)
        ensures
            r@ == 0,
    {
        Fq::from_u64(0)
    }

    /// The multiplicative identity.
    pub fn one() -> (r: Fq)
        ensures
            r@ == 1,
    {
        Fq::from_u64(1)
    }

    /// Whether the element is zero.
    pub fn is_zero(&self) -> (r: bool)
        ensures
            r == (self@ == 0),
    {
        proof {
            use_type_invariant(self);
        }
        let r = self.l0 == 0 && self.l1 == 0 && self.l2 == 0 && self.l3 == 0;
        assert(r ==> limbs_value(self.l0, self.l1, self.l2, self.l3) == 0);
        assert(limbs_value(self.l0, self.l1, self.l2, self.l3) % modulus() == limbs_value(self.l0, self.l1, self.l2, self.l3));
        proof {
            if !r {
                assert(limbs_value(self.l0, self.l1, self.l2, self.l3) > 0) by (nonlinear_arith)
                    requires
                        self.l0 != 0 || self.l1 != 0 || self.l2 != 0 || self.l3 != 0,
                {
                }
            }
        }
        r
    }

    /// Field equality.
    pub fn equals(&self, other: &Fq) -> (r: bool)
        ensures
            r == (self@ == other@),
    {
        proof {
            use_type_invariant(self);
            use_type_invariant(other);
            lemma_limbs_injective(self, other);
        }
        self.l0 == other.l0 && self.l1 == other.l1 && self.l2 == other.l2 && self.l3 == other.l3
    }

    /// Field addition.
    pub fn add(&self, other: &Fq) -> (r: Fq)
        ensures
            r@ == fadd(self@, other@),
    {
        ark_add(self, other)
    }

    /// Field subtraction.
    pub fn sub(&self, other: &Fq) -> (r: Fq)
        ensures
            r@ == fsub(self@, other@),
    {
        ark_sub(self, other)
    }

    /// Field multiplication.
    pub fn mul(&self, other: &Fq) -> (r: Fq)
        ensures
            r@ == fmul(self@, other@),
    {
        ark_mul(self, other)
    }

    /// The four little-endian limbs of the canonical representative.
    pub(crate) fn limbs(&self) -> (r: [u64; 4])
        ensures
            limbs_value(r@[0], r@[1], r@[2], r@[3]) == self@,
            limbs_value(r@[0], r@[1], r@[2], r@[3]) < modulus(),
    {
        proof {
            use_type_invariant(self);
            vstd::arithmetic::div_mod::lemma_small_mod(
                limbs_value(self.l0, self.l1, self.l2, self.l3),
                modulus(),
            );
        }
        let r = [self.l0, self.l1, self.l2, self.l3];
        assert(r@[0] == self.l0 && r@[1] == self.l1 && r@[2] == self.l2 && r@[3] == self.l3);
        r
    }

    /// Multiplicative inverse; `None` for zero.
    pub fn inverse(&self) -> (r: Option<Fq>)
        ensures
            self@ == 0 <==> r is None,
            r matches Some(inv) ==> fmul(self@, inv@) == 1,
    {
        ark_inverse(self)
    }
}

impl From<u64> for Fq {
    fn from(v: u64) -> (r: Fq) {
        Fq::from_u64(v)
    }
}

impl vstd::std_specs::convert::FromSpecImpl<u64> for Fq {
    open spec fn obeys_from_spec() -> bool {
        true
    }

    open spec fn from_spec(v: u64) -> Fq {
        Fq::of_u64(v)
    }
}

/// A field element as the circuits, constraints and polynomials hold it.
#[derive(Clone, Copy, Debug, PartialEq, Eq, Structural)]
pub struct FieldWrapper {
    /// The wrapped field element
    pub value: Fq,
}

impl View for FieldWrapper {
    type V = nat;

    open spec fn view(&self) -> nat {
        self.value@
    }
}

impl FieldWrapper {
    /// Zero.
    pub fn zero() -> (r: FieldWrapper)
        ensures
            r@ == 0,
    {
        FieldWrapper { value: Fq::zero() }
    }

    /// One.
    pub fn one() -> (r: FieldWrapper)
        ensures
            r@ == 1,
    {
        FieldWrapper { value: Fq::one() }
    }

    /// The element with representative `v`.
    pub fn from_u64(v: u64) -> (r: FieldWrapper)
        ensures
            r@ == v as nat,
            r == (FieldWrapper { value: Fq::of_u64(v) }),
    {
        FieldWrapper { value: Fq::from_u64(v) }
    }

    /// Wraps a field element.
    pub fn from_fq(value: Fq) -> (r: FieldWrapper)
        ensures
            r@ == value@,
    {
        FieldWrapper { value }
    }

    /// Field sum.
    pub fn add(&self, other: &FieldWrapper) -> (r: FieldWrapper)
        ensures
            r@ == fadd(self@, other@),
    {
        FieldWrapper { value: self.value.add(&other.value) }
    }

    /// Field difference.
    pub fn sub(&self, other: &FieldWrapper) -> (r: FieldWrapper)
        ensures
            r@ == fsub(self@, other@),
    {
        FieldWrapper { value: self.value.sub(&other.value) }
    }

    /// Field product.
    pub fn mul(&self, other: &FieldWrapper) -> (r: FieldWrapper)
        ensures
            r@ == fmul(self@, other@),
    {
        FieldWrapper { value: self.value.mul(&other.value) }
    }

    /// Whether the element is zero.
    pub fn is_zero(&self) -> (r: bool)
        ensures
            r == (self@ == 0),
    {
        self.value.is_zero()
    }

    /// Field equality.
    pub fn equals(&self, other: &FieldWrapper) -> (r: bool)
        ensures
            r == (self@ == other@),
    {
        self.value.equals(&other.value)
    }
}

impl From<u64> for FieldWrapper {
    fn from(v: u64) -> (r: FieldWrapper) {
        FieldWrapper::from_u64(v)
    }
}

impl vstd::std_specs::convert::FromSpecImpl<u64> for FieldWrapper {
    open spec fn obeys_from_spec() -> bool {
        true
    }

    open spec fn from_spec(v: u64) -> FieldWrapper {
        FieldWrapper { value: Fq::of_u64(v) }
    }
}

/// Every value is below the modulus.
pub proof fn lemma_value_below_modulus(x: Fq)
    ensures
        x@ < modulus(),
{
}

/// Limbs of canonical values are equal exactly when the values are.
proof fn lemma_limbs_injective(a: &Fq, b: &Fq)
    requires
        limbs_value(a.l0, a.l1, a.l2, a.l3) < modulus(),
        limbs_value(b.l0, b.l1, b.l2, b.l3) < modulus(),
    ensures
        (a@ == b@) <==> (a.l0 == b.l0 && a.l1 == b.l1 && a.l2 == b.l2 && a.l3 == b.l3),
{
    let w: int = 0x1_0000_0000_0000_0000;
    let va = limbs_value(a.l0, a.l1, a.l2, a.l3);
    let vb = limbs_value(b.l0, b.l1, b.l2, b.l3);
    assert(va == a.l0 + w * (a.l1 + w * (a.l2 + w * a.l3))) by (nonlinear_arith)
        requires va == limbs_value(a.l0, a.l1, a.l2, a.l3), w == 0x1_0000_0000_0000_0000int;
    assert(vb == b.l0 + w * (b.l1 + w * (b.l2 + w * b.l3))) by (nonlinear_arith)
        requires vb == limbs_value(b.l0, b.l1, b.l2, b.l3), w == 0x1_0000_0000_0000_0000int;
    assert(a@ == va);
    assert(b@ == vb);
    if va == vb {
        lemma_digits_equal(a.l0 as int, a.l1 + w * (a.l2 + w * a.l3), b.l0 as int, b.l1 + w * (b.l2 + w * b.l3), w);
        lemma_digits_equal(a.l1 as int, a.l2 + w * a.l3, b.l1 as int, b.l2 + w * b.l3, w);
        lemma_digits_equal(a.l2 as int, a.l3 as int, b.l2 as int, b.l3 as int, w);
    }
}

/// Base-`w` digits are unique.
proof fn lemma_digits_equal(x0: int, xr: int, y0: int, yr: int, w: int)
    requires
        0 <= x0 < w,
        0 <= y0 < w,
        x0 + w * xr == y0 + w * yr,
    ensures
        x0 == y0,
        xr == yr,
{
    assert(x0 == y0 && xr == yr) by (nonlinear_arith)
        requires
            0 <= x0 < w,
            0 <= y0 < w,
            x0 + w * xr == y0 + w * yr,
    {
    }
}

/// Field addition is commutative.
pub proof fn lemma_fadd_comm(a: nat, b: nat)
    ensures
        fadd(a, b) == fadd(b, a),
{
}

/// Field addition is associative.
pub proof fn lemma_fadd_assoc(a: nat, b: nat, c: nat)
    ensures
        fadd(fadd(a, b), c) == fadd(a, fadd(b, c)),
{
    let m = modulus() as int;
    let (x, y, z) = (a as int, b as int, c as int);
    vstd::arithmetic::div_mod::lemma_add_mod_noop(x + y, z, m);
    vstd::arithmetic::div_mod::lemma_add_mod_noop(x, y + z, m);
    vstd::arithmetic::div_mod::lemma_mod_twice(x + y, m);
    vstd::arithmetic::div_mod::lemma_mod_twice(y + z, m);
    assert(x + y + z == x + (y + z));
}

/// Field multiplication is commutative.
pub proof fn lemma_fmul_comm(a: nat, b: nat)
    ensures
        fmul(a, b) == fmul(b, a),
{
    vstd::arithmetic::mul::lemma_mul_is_commutative(a as int, b as int);
}

/// Field multiplication is associative.
pub proof fn lemma_fmul_assoc(a: nat, b: nat, c: nat)
    ensures
        fmul(fmul(a, b), c) == fmul(a, fmul(b, c)),
{
    let m = modulus() as int;
    let (x, y, z) = (a as int, b as int, c as int);
    vstd::arithmetic::div_mod::lemma_mul_mod_noop_left(x * y, z, m);
    vstd::arithmetic::div_mod::lemma_mul_mod_noop_right(x, y * z, m);
    vstd::arithmetic::mul::lemma_mul_is_associative(x, y, z);
}

/// Multiplication distributes over addition in the field.
pub proof fn lemma_fmul_distrib(a: nat, b: nat, c: nat)
    ensures
        fmul(a, fadd(b, c)) == fadd(fmul(a, b), fmul(a, c)),
{
    let m = modulus() as int;
    let (x, y, z) = (a as int, b as int, c as int);
    vstd::arithmetic::div_mod::lemma_mul_mod_noop_right(x, y + z, m);
    vstd::arithmetic::mul::lemma_mul_is_distributive_add(x, y, z);
    vstd::arithmetic::div_mod::lemma_add_mod_noop(x * y, x * z, m);
}

/// Multiplication distributes over subtraction in the field.
pub proof fn lemma_fmul_distrib_sub(a: nat, b: nat, c: nat)
    ensures
        fmul(a, fsub(b, c)) == fsub(fmul(a, b), fmul(a, c)),
{
    let m = modulus() as int;
    let (x, y, z) = (a as int, b as int, c as int);
    vstd::arithmetic::div_mod::lemma_mul_mod_noop_right(x, y - z, m);
    vstd::arithmetic::mul::lemma_mul_is_distributive_sub(x, y, z);
    vstd::arithmetic::div_mod::lemma_sub_mod_noop(x * y, x * z, m);
}

/// Subtracting and adding back gives the value again.
pub proof fn lemma_fsub_fadd(a: nat, b: nat)
    requires
        a < modulus(),
    ensures
        fadd(fsub(a, b), b) == a,
{
    let m = modulus() as int;
    let (x, y) = (a as int, b as int);
    vstd::arithmetic::div_mod::lemma_add_mod_noop(x - y, y, m);
    vstd::arithmetic::div_mod::lemma_mod_twice(x - y, m);
    vstd::arithmetic::div_mod::lemma_small_mod(a, modulus());
}

/// Zero and one behave as identities.
pub proof fn lemma_field_identities(a: nat)
    requires
        a < modulus(),
    ensures
        fadd(a, 0) == a,
        fadd(0, a) == a,
        fmul(a, 1) == a,
        fmul(1, a) == a,
        fmul(a, 0) == 0,
        fmul(0, a) == 0,
        fsub(a, 0) == a,
{
    vstd::arithmetic::div_mod::lemma_small_mod(a, modulus());
}

/// `ark_bn254::Fq` addition (`Add`). Trusted: the sum of the two field
/// elements, reduced modulo the BN254 base prime, in canonical form.
#[verifier::external_body]
fn ark_add(a: &Fq, b: &Fq) -> (r: Fq)
    ensures
        r@ == fadd(a@, b@),
{
    let x = <ark_bn254::Fq as ark_ff::PrimeField>::from_bigint(ark_ff::BigInt([a.l0, a.l1, a.l2, a.l3])).unwrap();
    let y = <ark_bn254::Fq as ark_ff::PrimeField>::from_bigint(ark_ff::BigInt([b.l0, b.l1, b.l2, b.l3])).unwrap();
    let l = ark_ff::PrimeField::into_bigint(x + y).0;
    Fq { l0: l[0], l1: l[1], l2: l[2], l3: l[3] }
}

/// `ark_bn254::Fq` subtraction (`Sub`). Trusted: the difference modulo the
/// BN254 base prime, in canonical form.
#[verifier::external_body]
fn ark_sub(a: &Fq, b: &Fq) -> (r: Fq)
    ensures
        r@ == fsub(a@, b@),
{
    let x = <ark_bn254::Fq as ark_ff::PrimeField>::from_bigint(ark_ff::BigInt([a.l0, a.l1, a.l2, a.l3])).unwrap();
    let y = <ark_bn254::Fq as ark_ff::PrimeField>::from_bigint(ark_ff::BigInt([b.l0, b.l1, b.l2, b.l3])).unwrap();
    let l = ark_ff::PrimeField::into_bigint(x - y).0;
    Fq { l0: l[0], l1: l[1], l2: l[2], l3: l[3] }
}

/// `ark_bn254::Fq` multiplication (`Mul`). Trusted: the product modulo the
/// BN254 base prime, in canonical form.
#[verifier::external_body]
fn ark_mul(a: &Fq, b: &Fq) -> (r: Fq)
    ensures
        r@ == fmul(a@, b@),
{
    let x = <ark_bn254::Fq as ark_ff::PrimeField>::from_bigint(ark_ff::BigInt([a.l0, a.l1, a.l2, a.l3])).unwrap();
    let y = <ark_bn254::Fq as ark_ff::PrimeField>::from_bigint(ark_ff::BigInt([b.l0, b.l1, b.l2, b.l3])).unwrap();
    let l = ark_ff::PrimeField::into_bigint(x * y).0;
    Fq { l0: l[0], l1: l[1], l2: l[2], l3: l[3] }
}

/// `ark_ff::Field::inverse` on `ark_bn254::Fq`. Trusted: `None` for zero, and
/// otherwise the element whose product with `a` is one modulo the prime.
#[verifier::external_body]
fn ark_inverse(a: &Fq) -> (r: Option<Fq>)
    ensures
        a@ == 0 <==> r is None,
        r matches Some(inv) ==> fmul(a@, inv@) == 1,
{
    let x = <ark_bn254::Fq as ark_ff::PrimeField>::from_bigint(ark_ff::BigInt([a.l0, a.l1, a.l2, a.l3])).unwrap();
    match ark_ff::Field::inverse(&x) {
        Some(i) => {
            let l = ark_ff::PrimeField::into_bigint(i).0;
            Some(Fq { l0: l[0], l1: l[1], l2: l[2], l3: l[3] })
        },
        None => None,
    }
}

} // verus!
