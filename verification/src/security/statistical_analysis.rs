//! Sampling for the statistical analysis of leaf hashes: one bits over many
//! digests, bits changed by flipping one input bit (the avalanche effect),
//! and the leading words of digests. The scores derived from these counts
//! are ratios, computed by the caller.

use vstd::prelude::*;

use crate::merkle::{hash_leaf, spec_hash_leaf, Hash32};
use crate::rng::{create_rng, random_below, random_bytes};
use crate::security::SecurityTestConfig;

verus! {

/// The number of one bits of a byte.
pub open spec fn popcount(b: u8) -> nat {
    ((b % 2) + ((b / 2) % 2) + ((b / 4) % 2) + ((b / 8) % 2) + ((b / 16) % 2) + ((b / 32) % 2) + ((
    b / 64) % 2) + ((b / 128) % 2)) as nat
}

/// The number of one bits of a byte string.
pub open spec fn ones_in(s: Seq<u8>) -> nat
    decreases s.len(),
{
    if s.len() == 0 {
        0
    } else {
        ones_in(s.drop_last()) + popcount(s.last())
    }
}

/// The bytes of `a` exclusive-or those of `b`.
pub open spec fn xor_bytes(a: Seq<u8>, b: Seq<u8>) -> Seq<u8> {
    Seq::new(a.len(), |i: int| a[i] ^ b[i])
}

/// `d` with bit `bit` of byte `k` flipped.
pub open spec fn flip_bit(d: Seq<u8>, k: int, bit: nat) -> Seq<u8> {
    d.update(k, d[k] ^ (1u8 << bit))
}

/// The first eight bytes of `h` read as a little-endian number.
pub open spec fn leading_le_word(h: Seq<u8>) -> nat {
    (h[0] + 0x100 * (h[1] + 0x100 * (h[2] + 0x100 * (h[3] + 0x100 * (h[4] + 0x100 * (h[5] + 0x100 * (
    h[6] + 0x100 * h[7]))))))) as nat
}

/// The one bits of the leaf hashes of the inputs, summed.
pub open spec fn ones_of_leaf_hashes(ds: Seq<Seq<u8>>) -> nat
    decreases ds.len(),
{
    if ds.len() == 0 {
        0
    } else {
        ones_of_leaf_hashes(ds.drop_last()) + ones_in(spec_hash_leaf(ds.last()))
    }
}

/// The bits in which the leaf hash of each input differs from that of its
/// flipped copy, summed.
pub open spec fn avalanche_changes(ds: Seq<Seq<u8>>, flipped: Seq<Seq<u8>>) -> nat
    decreases ds.len(),
{
    if ds.len() == 0 {
        0
    } else {
        avalanche_changes(ds.drop_last(), flipped.drop_last()) + ones_in(
            xor_bytes(spec_hash_leaf(ds.last()), spec_hash_leaf(flipped.last())),
        )
    }
}

/// Each input has `len` bytes.
pub open spec fn all_of_length(ds: Seq<Seq<u8>>, len: nat) -> bool {
    forall|i: int| 0 <= i < ds.len() ==> (#[trigger] ds[i]).len() == len
}

/// `f` is `d` with one bit flipped.
pub open spec fn is_one_bit_flip(d: Seq<u8>, f: Seq<u8>) -> bool {
    exists|k: int, bit: nat| 0 <= k < d.len() && bit < 8 && f == #[trigger] flip_bit(d, k, bit)
}

/// Each flipped input is its input with one bit flipped.
pub open spec fn one_bit_flips(ds: Seq<Seq<u8>>, flipped: Seq<Seq<u8>>) -> bool {
    &&& flipped.len() == ds.len()
    &&& forall|i: int| 0 <= i < ds.len() ==> #[trigger] is_one_bit_flip(ds[i], flipped[i])
}

/// One bits of a byte, at most eight.
fn byte_ones(b: u8) -> (n: usize)
    ensures
        n == popcount(b),
        n <= 8,
{
    ((b % 2) + ((b / 2) % 2) + ((b / 4) % 2) + ((b / 8) % 2) + ((b / 16) % 2) + ((b / 32) % 2) + ((
    b / 64) % 2) + ((b / 128) % 2)) as usize
}

/// The number of one bits of a byte string.
pub fn count_ones(bytes: &[u8]) -> (n: usize)
    requires
        bytes@.len() * 8 <= usize::MAX,
    ensures
        n == ones_in(bytes@),
        n <= 8 * bytes@.len(),
{
    let mut n: usize = 0;
    let mut i: usize = 0;
    while i < bytes.len()
        invariant
            0 <= i <= bytes@.len(),
            bytes@.len() * 8 <= usize::MAX,
            n == ones_in(bytes@.subrange(0, i as int)),
            n <= 8 * i,
        decreases bytes@.len() - i,
    {
        assert(bytes@.subrange(0, i + 1).drop_last() =~= bytes@.subrange(0, i as int));
        n = n + byte_ones(bytes[i]);
        i = i + 1;
    }
    assert(bytes@.subrange(0, bytes@.len() as int) =~= bytes@);
    n
}

/// The number of bits in which two digests differ.
pub fn bit_difference(a: &Hash32, b: &Hash32) -> (n: usize)
    ensures
        n == ones_in(xor_bytes(a@, b@)),
        n <= 256,
{
    let mut x: Vec<u8> = Vec::new();
    let mut i: usize = 0;
    while i < 32
        invariant
            0 <= i <= 32,
            x@ == xor_bytes(a@, b@).subrange(0, i as int),
        decreases 32 - i,
    {
        x.push(a[i] ^ b[i]);
        i = i + 1;
        assert(x@ =~= xor_bytes(a@, b@).subrange(0, i as int));
    }
    assert(x@ =~= xor_bytes(a@, b@));
    count_ones(x.as_slice())
}

/// The first eight bytes of a digest as a little-endian number.
pub fn leading_word_le(h: &Hash32) -> (v: u64)
    ensures
        v == leading_le_word(h@),
{
    let mut v: u64 = h[7] as u64;
    v = v * 0x100 + h[6] as u64;
    v = v * 0x100 + h[5] as u64;
    v = v * 0x100 + h[4] as u64;
    v = v * 0x100 + h[3] as u64;
    v = v * 0x100 + h[2] as u64;
    v = v * 0x100 + h[1] as u64;
    v = v * 0x100 + h[0] as u64;
    v
}

/// Settings of the statistical analysis.
#[derive(Debug, Clone)]
pub struct StatisticalConfig {
    /// Number of samples
    pub sample_size: usize,
    /// Seed for reproducible runs; entropy when absent
    pub seed: Option<u64>,
}

/// Samples leaf hashes of random inputs.
pub struct StatisticalAnalyzer {
    /// The sampling settings
    pub config: StatisticalConfig,
}

/// What the randomness sample counted.
pub struct RandomnessCounts {
    /// One bits over all digests
    pub ones: usize,
    /// Bits over all digests
    pub total_bits: usize,
}

/// What the avalanche sample counted.
pub struct AvalancheCounts {
    /// Bits changed, over all samples
    pub total_changes: usize,
    /// Samples taken
    pub samples: usize,
}

impl StatisticalAnalyzer {
    /// An analyzer taking as many samples as the suite runs iterations, at
    /// most ten thousand.
    pub fn new(security_config: &SecurityTestConfig) -> (a: Self)
        ensures
            a.config.sample_size == if security_config.test_iterations < 10000 {
                security_config.test_iterations
            } else {
                10000
            },
            a.config.seed == security_config.seed,
    {
        let sample_size = if security_config.test_iterations < 10000 {
            security_config.test_iterations
        } else {
            10000
        };
        StatisticalAnalyzer { config: StatisticalConfig { sample_size, seed: security_config.seed } }
    }

    /// Hashes `sample_size` random 32-byte inputs as leaves and counts the
    /// one bits of the digests.
    pub fn randomness_counts(&self) -> (r: RandomnessCounts)
        requires
            self.config.sample_size <= 10000,
        ensures
            r.total_bits == self.config.sample_size * 256,
            exists|ds: Seq<Seq<u8>>|
                ds.len() == self.config.sample_size && all_of_length(ds, 32) && r.ones
                    == #[trigger] ones_of_leaf_hashes(ds),
            r.ones <= r.total_bits,
    {
        let mut rng = create_rng(self.config.seed);
        let n = self.config.sample_size;
        let ghost mut ds: Seq<Seq<u8>> = Seq::empty();
        let mut ones: usize = 0;
        let mut i: usize = 0;
        while i < n
            invariant
                0 <= i <= n <= 10000,
                ds.len() == i,
                all_of_length(ds, 32),
                ones == ones_of_leaf_hashes(ds),
                ones <= 256 * i,
            decreases n - i,
        {
            let data = random_bytes(&mut rng, 32);
            let h = hash_leaf(data.as_slice());
            let c = count_ones(h.as_slice());
            proof {
                let nds = ds.push(data@);
                assert(nds.drop_last() =~= ds);
                ds = nds;
            }
            ones = ones + c;
            i = i + 1;
        }
        RandomnessCounts { ones, total_bits: n * 256 }
    }

    /// For `min(sample_size, 1000)` random 32-byte inputs, flips one random
    /// bit and counts the bits in which the two leaf hashes differ.
    pub fn avalanche_counts(&self) -> (r: AvalancheCounts)
        requires
            self.config.sample_size <= 10000,
        ensures
            r.samples == if self.config.sample_size < 1000 {
                self.config.sample_size
            } else {
                1000
            },
            exists|ds: Seq<Seq<u8>>, flipped: Seq<Seq<u8>>|
                ds.len() == r.samples && all_of_length(ds, 32) && one_bit_flips(ds, flipped)
                    && r.total_changes == #[trigger] avalanche_changes(ds, flipped),
            r.total_changes <= 256 * r.samples,
    {
        let mut rng = create_rng(self.config.seed);
        let n = if self.config.sample_size < 1000 {
            self.config.sample_size
        } else {
            1000
        };
        let ghost mut ds: Seq<Seq<u8>> = Seq::empty();
        let ghost mut flipped: Seq<Seq<u8>> = Seq::empty();
        let mut total: usize = 0;
        let mut i: usize = 0;
        while i < n
            invariant
                0 <= i <= n <= 1000,
                ds.len() == i,
                all_of_length(ds, 32),
                one_bit_flips(ds, flipped),
                total == avalanche_changes(ds, flipped),
                total <= 256 * i,
            decreases n - i,
        {
            let mut data = random_bytes(&mut rng, 32);
            let original = hash_leaf(data.as_slice());
            let ghost before = data@;
            let byte_index = random_below(&mut rng, 0, 32);
            let bit_index = random_below(&mut rng, 0, 8);
            let mask: u8 = 1u8 << (bit_index as u8);
            let flipped_byte = data[byte_index] ^ mask;
            data.set(byte_index, flipped_byte);
            let modified = hash_leaf(data.as_slice());
            let c = bit_difference(&original, &modified);
            proof {
                assert(data@ == flip_bit(before, byte_index as int, bit_index as nat));
                let nds = ds.push(before);
                let nfl = flipped.push(data@);
                assert(nds.drop_last() =~= ds);
                assert(nfl.drop_last() =~= flipped);
                assert(is_one_bit_flip(before, data@));
                assert forall|t: int| 0 <= t < nds.len() implies #[trigger] is_one_bit_flip(nds[t], nfl[t]) by {
                    if t < ds.len() {
                        assert(nds[t] == ds[t]);
                        assert(nfl[t] == flipped[t]);
                    }
                }
                assert(nfl.len() == nds.len());
                assert(one_bit_flips(nds, nfl));
                ds = nds;
                flipped = nfl;
            }
            total = total + c;
            i = i + 1;
        }
        AvalancheCounts { total_changes: total, samples: n }
    }

    /// The leading little-endian words of the leaf hashes of
    /// `sample_size` random 8-byte inputs.
    pub fn uniformity_sample(&self) -> (v: Vec<u64>)
        requires
            self.config.sample_size <= 10000,
        ensures
            exists|ds: Seq<Seq<u8>>|
                ds.len() == v@.len() && all_of_length(ds, 8) && forall|i: int|
                    0 <= i < v@.len() ==> #[trigger] v@[i] == leading_le_word(spec_hash_leaf(ds[i])),
            v@.len() == self.config.sample_size,
    {
        let mut rng = create_rng(self.config.seed);
        let n = self.config.sample_size;
        let ghost mut ds: Seq<Seq<u8>> = Seq::empty();
        let mut v: Vec<u64> = Vec::new();
        let mut i: usize = 0;
        while i < n
            invariant
                0 <= i <= n,
                ds.len() == i,
                v@.len() == i,
                all_of_length(ds, 8),
                forall|t: int| 0 <= t < i ==> #[trigger] v@[t] == leading_le_word(spec_hash_leaf(ds[t])),
            decreases n - i,
        {
            let data = random_bytes(&mut rng, 8);
            let h = hash_leaf(data.as_slice());
            v.push(leading_word_le(&h));
            proof {
                ds = ds.push(data@);
            }
            i = i + 1;
        }
        v
    }
}

} // verus!
