//! Rank-1 constraints `<a, x> · <b, x> = <c, x>` over the BN254 base field,
//! with sparse coefficient vectors keyed by variable index.

use std::collections::HashMap;
use std::collections::HashSet;
use vstd::prelude::*;
use vstd::std_specs::iter::IteratorSpec;

use crate::field::{fadd, fmul, FieldWrapper};

verus! {

broadcast use vstd::std_specs::hash::group_hash_axioms;

/// The values of a sparse coefficient vector.
pub open spec fn coeff_values(m: Map<usize, FieldWrapper>) -> Map<usize, nat> {
    m.map_values(|f: FieldWrapper| f@)
}

/// The field values of a witness.
pub open spec fn witness_values(w: Seq<FieldWrapper>) -> Seq<nat> {
    w.map_values(|f: FieldWrapper| f@)
}

/// `Σ coeffs[j] · w[j]` over the indices `j < n` that have a coefficient,
/// computed in the field.
pub open spec fn lin_comb(coeffs: Map<usize, nat>, w: Seq<nat>, n: nat) -> nat
    decreases n,
{
    if n == 0 {
        0
    } else {
        let j = (n - 1) as nat;
        let prev = lin_comb(coeffs, w, j);
        if coeffs.contains_key(j as usize) {
            fadd(prev, fmul(coeffs[j as usize], w[j as int]))
        } else {
            prev
        }
    }
}

/// The value of a linear combination on a whole witness: indices past the
/// end of the witness contribute nothing.
pub open spec fn lin_eval(coeffs: Map<usize, FieldWrapper>, w: Seq<FieldWrapper>) -> nat {
    lin_comb(coeff_values(coeffs), witness_values(w), w.len())
}

/// Whether `<a, w> · <b, w> = <c, w>` holds in the field.
pub open spec fn constraint_holds(c: R1CSConstraint, w: Seq<FieldWrapper>) -> bool {
    fmul(lin_eval(c.a@, w), lin_eval(c.b@, w)) == lin_eval(c.c@, w)
}

/// Whether every constraint of a system holds for a witness.
pub open spec fn all_hold(cs: Seq<R1CSConstraint>, w: Seq<FieldWrapper>) -> bool {
    forall|i: int| 0 <= i < cs.len() ==> #[trigger] constraint_holds(cs[i], w)
}

/// The variable indices that a constraint mentions.
pub open spec fn used_variables(c: R1CSConstraint) -> Set<usize> {
    c.a@.dom().union(c.b@.dom()).union(c.c@.dom())
}

/// A single R1CS constraint with sparse coefficient vectors.
#[derive(Clone)]
pub struct R1CSConstraint {
    /// Coefficients for the A vector (left input of multiplication)
    pub a: HashMap<usize, FieldWrapper>,
    /// Coefficients for the B vector (right input of multiplication)
    pub b: HashMap<usize, FieldWrapper>,
    /// Coefficients for the C vector (output of multiplication)
    pub c: HashMap<usize, FieldWrapper>,
}

impl Default for R1CSConstraint {
    fn default() -> (r: Self)
        ensures
            r.a@ == Map::<usize, FieldWrapper>::empty(),
            r.b@ == Map::<usize, FieldWrapper>::empty(),
            r.c@ == Map::<usize, FieldWrapper>::empty(),
    {
        Self::new()
    }
}

/// Adds every key of `m` to `set`.
fn insert_keys(set: &mut HashSet<usize>, m: &HashMap<usize, FieldWrapper>)
    ensures
        final(set)@ == old(set)@.union(m@.dom()),
{
    let ghost start = set@;
    let ghost ks = vstd::std_specs::hash::spec_keys_iter(m).remaining().unref();
    assert(ks.to_set() == m@.dom());
    for k in it: m.keys()
        invariant
            it.seq().unref() == ks,
            forall|x: usize|
                #[trigger] set@.contains(x) <==> (start.contains(x) || exists|i: int|
                    0 <= i < it.index() && ks[i] == x),
    {
        proof {
            let ghost idx = it.index();
            assert(ks[idx] == *k);
        }
        set.insert(*k);
    }
    assert forall|x: usize| #[trigger] set@.contains(x) <==> start.union(m@.dom()).contains(x) by {
        if m@.dom().contains(x) {
            assert(ks.to_set().contains(x));
            assert(ks.contains(x));
        }
        if exists|i: int| 0 <= i < ks.len() && ks[i] == x {
            assert(ks.contains(x));
            assert(ks.to_set().contains(x));
        }
    }
    assert(set@ =~= start.union(m@.dom()));
}

impl R1CSConstraint {
    /// Creates a new empty R1CS constraint.
    pub fn new() -> (r: Self)
        ensures
            r.a@ == Map::<usize, FieldWrapper>::empty(),
            r.b@ == Map::<usize, FieldWrapper>::empty(),
            r.c@ == Map::<usize, FieldWrapper>::empty(),
    {
        R1CSConstraint { a: HashMap::new(), b: HashMap::new(), c: HashMap::new() }
    }

    /// Adds a variable with coefficient to the A vector.
    pub fn add_a_variable(&mut self, index: usize, coeff: FieldWrapper)
        ensures
            final(self).a@ == old(self).a@.insert(index, coeff),
            final(self).b@ == old(self).b@,
            final(self).c@ == old(self).c@,
    {
        self.a.insert(index, coeff);
    }

    /// Adds a variable with coefficient to the B vector.
    pub fn add_b_variable(&mut self, index: usize, coeff: FieldWrapper)
        ensures
            final(self).a@ == old(self).a@,
            final(self).b@ == old(self).b@.insert(index, coeff),
            final(self).c@ == old(self).c@,
    {
        self.b.insert(index, coeff);
    }

    /// Adds a variable with coefficient to the C vector.
    pub fn add_c_variable(&mut self, index: usize, coeff: FieldWrapper)
        ensures
            final(self).a@ == old(self).a@,
            final(self).b@ == old(self).b@,
            final(self).c@ == old(self).c@.insert(index, coeff),
    {
        self.c.insert(index, coeff);
    }

    /// Returns the count of unique variable indices used in this constraint.
    pub fn unique_variable_count(&self) -> (n: usize)
        ensures
            n == used_variables(*self).len(),
    {
        let mut all_indices: HashSet<usize> = HashSet::new();
        insert_keys(&mut all_indices, &self.a);
        insert_keys(&mut all_indices, &self.b);
        insert_keys(&mut all_indices, &self.c);
        assert(all_indices@ =~= used_variables(*self));
        all_indices.len()
    }

    /// Checks if a witness satisfies this constraint:
    /// `<a, witness> · <b, witness> = <c, witness>`.
    pub fn is_satisfied(&self, witness: &[FieldWrapper]) -> (r: bool)
        ensures
            r == constraint_holds(*self, witness@),
    {
        let a_value = self.evaluate_linear_combination(&self.a, witness);
        let b_value = self.evaluate_linear_combination(&self.b, witness);
        let c_value = self.evaluate_linear_combination(&self.c, witness);
        let product = a_value.mul(&b_value);
        product.equals(&c_value)
    }

    /// Evaluates a linear combination of witness values:
    /// `Σ coeffs[i] · witness[i]` over the indices inside the witness.
    fn evaluate_linear_combination(
        &self,
        coeffs: &HashMap<usize, FieldWrapper>,
        witness: &[FieldWrapper],
    ) -> (r: FieldWrapper)
        ensures
            r@ == lin_eval(coeffs@, witness@),
    {
        let ghost cv = coeff_values(coeffs@);
        let ghost wv = witness_values(witness@);
        let mut result = FieldWrapper::zero();
        let mut j: usize = 0;
        while j < witness.len()
            invariant
                0 <= j <= witness@.len(),
                cv == coeff_values(coeffs@),
                wv == witness_values(witness@),
                result@ == lin_comb(cv, wv, j as nat),
            decreases witness@.len() - j,
        {
            match coeffs.get(&j) {
                Some(coeff) => {
                    assert(cv.contains_key(j) && cv[j] == coeff@);
                    result = result.add(&coeff.mul(&witness[j]));
                },
                None => {
                    assert(!cv.contains_key(j));
                },
            }
            j = j + 1;
        }
        result
    }
}

} // verus!
