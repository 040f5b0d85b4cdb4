//! Random inputs for the security simulations, drawn from a ChaCha8
//! generator (seeded for reproducible runs, or from the system's entropy).
//!
//! Nothing is claimed of the values drawn beyond the ranges that `rand`
//! documents; the simulations are verified for every value they may get.

use rand_chacha::ChaCha8Rng;
use vstd::prelude::*;

verus! {

#[verifier::external_type_specification]
#[verifier::external_body]
pub struct ExChaCha8Rng(ChaCha8Rng);

/// `SeedableRng::seed_from_u64` for `ChaCha8Rng`. Trusted: nothing is
/// claimed of the generator it returns.
#[verifier::external_body]
fn seeded_rng(seed: u64) -> ChaCha8Rng {
    <ChaCha8Rng as rand::SeedableRng>::seed_from_u64(seed)
}

/// `SeedableRng::from_entropy` for `ChaCha8Rng`. Trusted: nothing is
/// claimed of the generator it returns.
#[verifier::external_body]
fn entropy_rng() -> ChaCha8Rng {
    <ChaCha8Rng as rand::SeedableRng>::from_entropy()
}

/// `Rng::gen::<u8>`. Trusted: any byte may come back.
#[verifier::external_body]
fn random_byte(rng: &mut ChaCha8Rng) -> u8 {
    rand::Rng::gen::<u8>(rng)
}

/// `Rng::gen::<u64>`, which is `RngCore::next_u64`. Trusted: any value may
/// come back.
#[verifier::external_body]
pub(crate) fn random_u64(rng: &mut ChaCha8Rng) -> u64 {
    rand::Rng::gen::<u64>(rng)
}

/// `Rng::gen_range(low..=high)`. Trusted: the value lies in the range, as
/// `rand` documents (an empty range panics, hence `low <= high`).
#[verifier::external_body]
pub(crate) fn random_in_range(rng: &mut ChaCha8Rng, low: usize, high: usize) -> (r: usize)
    requires
        low <= high,
    ensures
        low <= r <= high,
{
    rand::Rng::gen_range(rng, low..=high)
}

/// `Rng::gen_range(low..high)`. Trusted: the value lies in the range, as
/// `rand` documents (an empty range panics, hence `low < high`).
#[verifier::external_body]
pub(crate) fn random_below(rng: &mut ChaCha8Rng, low: usize, high: usize) -> (r: usize)
    requires
        low < high,
    ensures
        low <= r < high,
{
    rand::Rng::gen_range(rng, low..high)
}

/// `SliceRandom::shuffle` on a list of byte strings. Trusted: the list is
/// rearranged in place, so it keeps its elements and their counts.
#[verifier::external_body]
pub(crate) fn shuffle_leaves(rng: &mut ChaCha8Rng, v: &mut Vec<Vec<u8>>)
    ensures
        final(v)@.to_multiset() == old(v)@.to_multiset(),
{
    rand::seq::SliceRandom::shuffle(v.as_mut_slice(), rng)
}

/// A generator seeded with `seed`, or seeded from the system's entropy
/// when there is none.
pub fn create_rng(seed: Option<u64>) -> ChaCha8Rng {
    match seed {
        Some(s) => seeded_rng(s),
        None => entropy_rng(),
    }
}

/// `n` random bytes.
pub fn random_bytes(rng: &mut ChaCha8Rng, n: usize) -> (v: Vec<u8>)
    ensures
        v@.len() == n,
{
    let mut v: Vec<u8> = Vec::new();
    let mut i: usize = 0;
    while i < n
        invariant
            0 <= i <= n,
            v@.len() == i,
        decreases n - i,
    {
        v.push(random_byte(rng));
        i = i + 1;
    }
    v
}

/// `count` random leaves, each of a random length in `min_size..=max_size`.
pub fn random_leaves(rng: &mut ChaCha8Rng, count: usize, min_size: usize, max_size: usize) -> (v:
    Vec<Vec<u8>>)
    requires
        min_size <= max_size,
    ensures
        v@.len() == count,
        forall|i: int| 0 <= i < count ==> min_size <= #[trigger] v@[i]@.len() <= max_size,
{
    let mut v: Vec<Vec<u8>> = Vec::new();
    let mut i: usize = 0;
    while i < count
        invariant
            0 <= i <= count,
            min_size <= max_size,
            v@.len() == i,
            forall|t: int| 0 <= t < i ==> min_size <= #[trigger] v@[t]@.len() <= max_size,
        decreases count - i,
    {
        let size = random_in_range(rng, min_size, max_size);
        v.push(random_bytes(rng, size));
        i = i + 1;
    }
    v
}

} // verus!
