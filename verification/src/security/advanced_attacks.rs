//! Advanced attack simulations: length extension, tree construction
//! exploits, budgeted preimage search, a simulated quantum search and a
//! simulated timing side channel.

use rand_chacha::ChaCha8Rng;
use vstd::prelude::*;

use crate::merkle::{hash_eq, hash_leaf, spec_hash_leaf, Hash32, MerkleTree};
use crate::rng::{create_rng, random_bytes, random_in_range, random_leaves, random_u64};
use crate::security::{bytes_equal, copy_bytes, copy_leaves, first_hit};

verus! {

/// Two different byte strings with the same leaf hash.
pub open spec fn is_leaf_preimage(a: Seq<u8>, b: Seq<u8>) -> bool {
    a != b && spec_hash_leaf(a) == spec_hash_leaf(b)
}

/// Some leaf hash has a second preimage.
pub open spec fn leaf_preimage_exists() -> bool {
    exists|a: Seq<u8>, b: Seq<u8>| #[trigger] is_leaf_preimage(a, b)
}

/// The candidate drawn at `i` is a second preimage of the leaf hash of
/// `target`.
pub open spec fn candidate_hit(target: Seq<u8>) -> spec_fn(Seq<Seq<u8>>, int) -> bool {
    |s: Seq<Seq<u8>>, i: int| is_leaf_preimage(s[i], target)
}

/// Every drawn candidate has 1 to 64 bytes.
pub open spec fn candidates_sized(ds: Seq<Seq<u8>>) -> bool {
    forall|i: int| 0 <= i < ds.len() ==> 1 <= (#[trigger] ds[i]).len() <= 64
}

/// The preimage search drew the 32-byte `target` and tried the candidates
/// `cands` in order, stopping at the first second preimage (`success`).
pub open spec fn preimage_search(budget: nat, target: Seq<u8>, cands: Seq<Seq<u8>>, success: bool, attempts: nat) -> bool {
    &&& target.len() == 32
    &&& first_hit(cands, budget, candidate_hit(target), success)
    &&& candidates_sized(cands)
    &&& attempts == cands.len()
}

/// The 53-bit fraction that a uniform draw in `[0, 1)` is made of (the top
/// bits of a 64-bit word, as `rand` draws an `f64`) is below `limit`.
pub open spec fn draw_below(word: u64, limit: nat) -> bool {
    word as nat / 2048 < limit
}

/// The oracle call succeeds: the draw is below 2⁻¹⁶, that is its 53-bit
/// fraction is below 2³⁷.
pub open spec fn oracle_hit(word: u64) -> bool {
    draw_below(word, 0x20_0000_0000)
}

/// The timing probe leaks: the draw is below 0.001, that is its 53-bit
/// fraction is below 9007199254741.
pub open spec fn timing_hit(word: u64) -> bool {
    draw_below(word, 9_007_199_254_741)
}

/// The word drawn at `i` succeeds as an oracle call.
pub open spec fn oracle_draw_hit() -> spec_fn(Seq<u64>, int) -> bool {
    |s: Seq<u64>, i: int| oracle_hit(s[i])
}

/// The word drawn at `i` succeeds as a timing probe.
pub open spec fn timing_draw_hit() -> spec_fn(Seq<u64>, int) -> bool {
    |s: Seq<u64>, i: int| timing_hit(s[i])
}

/// An attack of at most `n` draws that stops at the first successful one
/// reported `success` after `attempts` draws, for some drawn words.
pub open spec fn draws_give(n: nat, hit: spec_fn(Seq<u64>, int) -> bool, success: bool, attempts: nat) -> bool {
    exists|ws: Seq<u64>| #[trigger] first_hit(ws, n, hit, success) && ws.len() == attempts
}

/// What the advanced attacks report with settings `c` and
/// `quantum_attempts` tries of the quantum search, for some draws of their
/// inputs.
pub open spec fn advanced_outcome(c: AdvancedAttackConfig, quantum_attempts: usize, r: AdvancedAttackResults) -> bool {
    &&& r.total_attacks == (if c.quantum_simulation { 5int } else { 4int })
    &&& r.attack_details@.len() == r.total_attacks
    &&& r.successful_attacks == count_successes(r.attack_details@)
    &&& !r.attack_details@[0].success
    &&& !r.attack_details@[1].success
    &&& r.attack_details@[2].success ==> leaf_preimage_exists()
    &&& r.attack_details@[0].attack_type@ == "Length Extension"@
    &&& r.attack_details@[0].attempts == c.attack_attempts
    &&& r.attack_details@[1].attack_type@ == "Tree Construction Exploit"@
    &&& r.attack_details@[1].attempts == c.attack_attempts
    &&& r.attack_details@[2].attack_type@ == "Optimized Preimage"@
    &&& exists|target: Seq<u8>, cands: Seq<Seq<u8>>|
        #[trigger] preimage_search(
            c.max_budget as nat,
            target,
            cands,
            r.attack_details@[2].success,
            r.attack_details@[2].attempts as nat,
        )
    &&& c.quantum_simulation ==> r.attack_details@[3].attack_type@ == "Quantum (Grover)"@
        && draws_give(
        quantum_attempts as nat,
        oracle_draw_hit(),
        r.attack_details@[3].success,
        r.attack_details@[3].attempts as nat,
    )
    &&& r.attack_details@[r.total_attacks - 1].attack_type@ == "Side Channel (Timing)"@
    &&& draws_give(
        c.attack_attempts as nat,
        timing_draw_hit(),
        r.attack_details@[r.total_attacks - 1].success,
        r.attack_details@[r.total_attacks - 1].attempts as nat,
    )
}

/// One preimage-search attempt: whether `candidate` is a byte string other
/// than `target` with the leaf hash `target_hash` of `target`.
pub fn preimage_attempt(candidate: &[u8], target: &[u8], target_hash: &Hash32) -> (hit: bool)
    requires
        target_hash@ == spec_hash_leaf(target@),
    ensures
        hit == is_leaf_preimage(candidate@, target@),
{
    let candidate_hash = hash_leaf(candidate);
    hash_eq(&candidate_hash, target_hash) && !bytes_equal(candidate, target)
}

/// One oracle call of the quantum search on the drawn word: whether the
/// uniform draw it makes (its top 53 bits scaled by 2⁻⁵³) is below 2⁻¹⁶.
pub fn oracle_attempt(word: u64) -> (hit: bool)
    ensures
        hit == oracle_hit(word),
{
    assert((word >> 11u64) == word / 2048) by (bit_vector);
    (word >> 11u64) < 0x20_0000_0000u64
}

/// One timing probe on the drawn word: whether the uniform draw it makes
/// (its top 53 bits scaled by 2⁻⁵³) is below 0.001.
pub fn timing_attempt(word: u64) -> (hit: bool)
    ensures
        hit == timing_hit(word),
{
    assert((word >> 11u64) == word / 2048) by (bit_vector);
    (word >> 11u64) < 9_007_199_254_741u64
}

/// Settings of the advanced attacks.
#[derive(Debug, Clone)]
pub struct AdvancedAttackConfig {
    /// Attempts per attack
    pub attack_attempts: usize,
    /// Candidates tried by the preimage search
    pub max_budget: usize,
    /// Seed for reproducible runs; entropy when absent
    pub seed: Option<u64>,
    /// Whether the quantum search is simulated
    pub quantum_simulation: bool,
}

/// The outcome of one attack.
#[derive(Debug, Clone)]
pub struct AttackResult {
    /// Name of the attack
    pub attack_type: String,
    /// Whether it succeeded
    pub success: bool,
    /// Attempts made
    pub attempts: usize,
    /// Cost of the attack
    pub time_complexity: String,
    /// What happened
    pub description: String,
}

/// The outcome of all advanced attacks.
#[derive(Debug)]
pub struct AdvancedAttackResults {
    /// Attacks run
    pub total_attacks: usize,
    /// Attacks that succeeded
    pub successful_attacks: usize,
    /// One entry per attack, in the order they ran
    pub attack_details: Vec<AttackResult>,
}

/// How many of the attacks succeeded.
pub open spec fn count_successes(d: Seq<AttackResult>) -> nat
    decreases d.len(),
{
    if d.len() == 0 {
        0
    } else {
        count_successes(d.drop_last()) + if d.last().success {
            1nat
        } else {
            0nat
        }
    }
}

/// Counting after one more attack adds its success.
proof fn lemma_count_push(d: Seq<AttackResult>, x: AttackResult)
    ensures
        count_successes(d.push(x)) == count_successes(d) + if x.success {
            1nat
        } else {
            0nat
        },
{
    assert(d.push(x).drop_last() =~= d);
}

/// Simulates advanced attacks.
pub struct AdvancedAttackSimulator {
    /// The attack settings
    pub config: AdvancedAttackConfig,
}

/// An attack outcome from its parts.
fn attack_result(attack_type: &str, success: bool, attempts: usize, time_complexity: &str, description: &str) -> (r: AttackResult)
    ensures
        r.attack_type@ == attack_type@,
        r.success == success,
        r.attempts == attempts,
        r.time_complexity@ == time_complexity@,
        r.description@ == description@,
{
    AttackResult {
        attack_type: attack_type.to_string(),
        success,
        attempts,
        time_complexity: time_complexity.to_string(),
        description: description.to_string(),
    }
}

impl AdvancedAttackSimulator {
    /// A simulator with the given settings.
    pub fn new(config: AdvancedAttackConfig) -> (s: Self)
        ensures
            s.config == config,
    {
        AdvancedAttackSimulator { config }
    }

    /// Runs the attacks in order: length extension, tree construction,
    /// preimage search, the quantum search (when enabled, with
    /// `quantum_attempts` tries) and the timing side channel.
    pub fn run_advanced_attacks(&self, quantum_attempts: usize) -> (r: AdvancedAttackResults)
        ensures
            advanced_outcome(self.config, quantum_attempts, r),
    {
        let mut details: Vec<AttackResult> = Vec::new();
        let mut successful: usize = 0;
        let a = self.simulate_length_extension_attack();
        proof {
            lemma_count_push(details@, a);
            assert(count_successes(Seq::<AttackResult>::empty()) == 0);
        }
        details.push(a);
        let b = self.simulate_tree_construction_exploit();
        proof {
            lemma_count_push(details@, b);
        }
        details.push(b);
        let c = self.simulate_optimized_preimage_attack();
        let ghost (target, cands) = choose|target: Seq<u8>, cands: Seq<Seq<u8>>|
            #[trigger] preimage_search(self.config.max_budget as nat, target, cands, c.success, c.attempts as nat);
        let ghost cc = c;
        let c_success = c.success;
        proof {
            lemma_count_push(details@, c);
        }
        details.push(c);
        if c_success {
            successful = successful + 1;
        }
        assert(count_successes(details@) == successful);
        if self.config.quantum_simulation {
            let q = self.simulate_quantum_attack(quantum_attempts);
            let q_success = q.success;
            proof {
                lemma_count_push(details@, q);
            }
            details.push(q);
            if q_success {
                successful = successful + 1;
            }
            assert(count_successes(details@) == successful);
        }
        let s = self.simulate_side_channel_attack();
        let s_success = s.success;
        proof {
            lemma_count_push(details@, s);
        }
        details.push(s);
        if s_success {
            successful = successful + 1;
        }
        assert(count_successes(details@) == successful);
        let total = details.len();
        assert(details@[2] == cc);
        let r = AdvancedAttackResults { total_attacks: total, successful_attacks: successful, attack_details: details };
        assert(preimage_search(self.config.max_budget as nat, target, cands, r.attack_details@[2].success, r.attack_details@[2].attempts as nat));
        r
    }

    /// Hashes random messages and their extensions; the extended hash is
    /// never predictable from the domain-separated leaf hash, so the attack
    /// never succeeds.
    fn simulate_length_extension_attack(&self) -> (r: AttackResult)
        ensures
            !r.success,
            r.attempts == self.config.attack_attempts,
            r.attack_type@ == "Length Extension"@,
    {
        let mut rng = self.create_rng();
        let mut attempts: usize = 0;
        while attempts < self.config.attack_attempts
            invariant
                0 <= attempts <= self.config.attack_attempts,
            decreases self.config.attack_attempts - attempts,
        {
            attempts = attempts + 1;
            let original_msg = random_bytes(&mut rng, 32);
            let original_hash = hash_leaf(original_msg.as_slice());
            let extension = random_bytes(&mut rng, 16);
            let mut extended_msg = copy_bytes(original_msg.as_slice());
            let mut ext = copy_bytes(extension.as_slice());
            extended_msg.append(&mut ext);
            let _extended_hash = hash_leaf(extended_msg.as_slice());
            if self.can_predict_extension(&original_hash, original_msg.as_slice(), extension.as_slice()) {
                return attack_result(
                    "Length Extension",
                    true,
                    attempts,
                    "O(1)",
                    "Successfully predicted extended hash",
                );
            }
        }
        attack_result(
            "Length Extension",
            false,
            attempts,
            "O(n)",
            "Length extension attacks properly resisted",
        )
    }

    /// Builds random trees looking for an exploitable construction; none is
    /// known, so the attack never succeeds.
    fn simulate_tree_construction_exploit(&self) -> (r: AttackResult)
        ensures
            !r.success,
            r.attempts == self.config.attack_attempts,
            r.attack_type@ == "Tree Construction Exploit"@,
    {
        let mut rng = self.create_rng();
        let mut attempts: usize = 0;
        while attempts < self.config.attack_attempts
            invariant
                0 <= attempts <= self.config.attack_attempts,
            decreases self.config.attack_attempts - attempts,
        {
            attempts = attempts + 1;
            let leaf_count = random_in_range(&mut rng, 2, 16);
            let leaves = random_leaves(&mut rng, leaf_count, 1, 32);
            let tree = MerkleTree::from_leaves(copy_leaves(leaves.as_slice()));
            let _root = tree.root();
            if self.exploits_tree_structure(&tree, leaves.as_slice()) {
                return attack_result(
                    "Tree Construction Exploit",
                    true,
                    attempts,
                    "O(log n)",
                    "Found exploitable tree construction pattern",
                );
            }
        }
        attack_result(
            "Tree Construction Exploit",
            false,
            attempts,
            "O(n log n)",
            "No tree construction vulnerabilities found",
        )
    }

    /// Tries up to `max_budget` random candidates against the leaf hash of
    /// random 32-byte target data; succeeds at the first second preimage.
    fn simulate_optimized_preimage_attack(&self) -> (r: AttackResult)
        ensures
            r.success ==> leaf_preimage_exists(),
            r.attempts <= self.config.max_budget,
            r.attack_type@ == "Optimized Preimage"@,
            exists|target: Seq<u8>, cands: Seq<Seq<u8>>|
                #[trigger] preimage_search(self.config.max_budget as nat, target, cands, r.success, r.attempts as nat),
    {
        let mut rng = self.create_rng();
        let mut attempts: usize = 0;
        let target_data = random_bytes(&mut rng, 32);
        let target_hash = hash_leaf(target_data.as_slice());
        let ghost mut cands: Seq<Seq<u8>> = Seq::empty();
        while attempts < self.config.max_budget
            invariant
                0 <= attempts <= self.config.max_budget,
                target_hash@ == spec_hash_leaf(target_data@),
                target_data@.len() == 32,
                cands.len() == attempts,
                candidates_sized(cands),
                forall|i: int| 0 <= i < cands.len() ==> !#[trigger] candidate_hit(target_data@)(cands, i),
            decreases self.config.max_budget - attempts,
        {
            attempts = attempts + 1;
            let candidate = self.generate_preimage_candidate(&target_hash, &mut rng);
            let hit = preimage_attempt(candidate.as_slice(), target_data.as_slice(), &target_hash);
            let ghost ncands = cands.push(candidate@);
            proof {
                assert forall|i: int| 0 <= i < cands.len() implies !#[trigger] candidate_hit(target_data@)(ncands, i) by {
                    assert(ncands[i] == cands[i]);
                    assert(!candidate_hit(target_data@)(cands, i));
                }
                assert forall|i: int| 0 <= i < ncands.len() implies 1 <= (#[trigger] ncands[i]).len() <= 64 by {
                    if i < cands.len() {
                        assert(ncands[i] == cands[i]);
                    }
                }
                assert(ncands[ncands.len() - 1] == candidate@);
            }
            if hit {
                proof {
                    assert(candidate_hit(target_data@)(ncands, ncands.len() - 1));
                }
                let r = attack_result(
                    "Optimized Preimage",
                    true,
                    attempts,
                    "O(2^n/optimization)",
                    "Found preimage using optimization",
                );
                assert(preimage_search(self.config.max_budget as nat, target_data@, ncands, r.success, r.attempts as nat));
                return r;
            }
            proof {
                assert(!candidate_hit(target_data@)(ncands, ncands.len() - 1));
                cands = ncands;
            }
        }
        let r = attack_result(
            "Optimized Preimage",
            false,
            attempts,
            "O(2^n)",
            "Preimage attack unsuccessful within budget",
        );
        assert(preimage_search(self.config.max_budget as nat, target_data@, cands, r.success, r.attempts as nat));
        r
    }

    /// Simulates a quantum search with up to `quantum_attempts` oracle
    /// calls, each succeeding with probability 2⁻¹⁶; stops at the first
    /// success.
    fn simulate_quantum_attack(&self, quantum_attempts: usize) -> (r: AttackResult)
        ensures
            r.attack_type@ == "Quantum (Grover)"@,
            draws_give(quantum_attempts as nat, oracle_draw_hit(), r.success, r.attempts as nat),
    {
        let mut rng = self.create_rng();
        let mut attempts: usize = 0;
        let ghost mut ws: Seq<u64> = Seq::empty();
        while attempts < quantum_attempts
            invariant
                0 <= attempts <= quantum_attempts,
                ws.len() == attempts,
                forall|i: int| 0 <= i < ws.len() ==> !#[trigger] oracle_draw_hit()(ws, i),
            decreases quantum_attempts - attempts,
        {
            attempts = attempts + 1;
            let word = random_u64(&mut rng);
            let hit = oracle_attempt(word);
            let ghost nws = ws.push(word);
            proof {
                assert forall|i: int| 0 <= i < ws.len() implies !#[trigger] oracle_draw_hit()(nws, i) by {
                    assert(nws[i] == ws[i]);
                    assert(!oracle_draw_hit()(ws, i));
                }
                assert(nws[nws.len() - 1] == word);
                ws = nws;
            }
            if hit {
                let r = attack_result(
                    "Quantum (Grover)",
                    true,
                    attempts,
                    "O(√2^n)",
                    "Quantum attack found solution",
                );
                assert(first_hit(ws, quantum_attempts as nat, oracle_draw_hit(), r.success));
                return r;
            }
        }
        let r = attack_result("Quantum (Grover)", false, attempts, "O(√2^n)", "Quantum attack unsuccessful");
        assert(first_hit(ws, quantum_attempts as nat, oracle_draw_hit(), r.success));
        r
    }

    /// Simulates a timing side channel: up to `attack_attempts` probes,
    /// each leaking with probability 0.001; stops at the first leak.
    fn simulate_side_channel_attack(&self) -> (r: AttackResult)
        ensures
            r.attack_type@ == "Side Channel (Timing)"@,
            draws_give(self.config.attack_attempts as nat, timing_draw_hit(), r.success, r.attempts as nat),
    {
        let mut rng = self.create_rng();
        let mut attempts: usize = 0;
        let ghost mut ws: Seq<u64> = Seq::empty();
        while attempts < self.config.attack_attempts
            invariant
                0 <= attempts <= self.config.attack_attempts,
                ws.len() == attempts,
                forall|i: int| 0 <= i < ws.len() ==> !#[trigger] timing_draw_hit()(ws, i),
            decreases self.config.attack_attempts - attempts,
        {
            attempts = attempts + 1;
            let word = random_u64(&mut rng);
            let hit = timing_attempt(word);
            let ghost nws = ws.push(word);
            proof {
                assert forall|i: int| 0 <= i < ws.len() implies !#[trigger] timing_draw_hit()(nws, i) by {
                    assert(nws[i] == ws[i]);
                    assert(!timing_draw_hit()(ws, i));
                }
                assert(nws[nws.len() - 1] == word);
                ws = nws;
            }
            if hit {
                let r = attack_result(
                    "Side Channel (Timing)",
                    true,
                    attempts,
                    "O(n)",
                    "Timing attack revealed information",
                );
                assert(first_hit(ws, self.config.attack_attempts as nat, timing_draw_hit(), r.success));
                return r;
            }
        }
        let r = attack_result(
            "Side Channel (Timing)",
            false,
            attempts,
            "O(n)",
            "No timing leaks detected",
        );
        assert(first_hit(ws, self.config.attack_attempts as nat, timing_draw_hit(), r.success));
        r
    }

    /// Whether the extended hash can be predicted: domain-separated SHA-256
    /// leaves give no handle, so never.
    fn can_predict_extension(&self, _original_hash: &Hash32, _original_msg: &[u8], _extension: &[u8]) -> (r: bool)
        ensures
            !r,
    {
        false
    }

    /// Whether the tree's construction can be exploited: never.
    fn exploits_tree_structure(&self, _tree: &MerkleTree, _leaves: &[Vec<u8>]) -> (r: bool)
        ensures
            !r,
    {
        false
    }

    /// A random candidate of 1 to 64 bytes.
    fn generate_preimage_candidate(&self, _target_hash: &Hash32, rng: &mut ChaCha8Rng) -> (v: Vec<u8>)
        ensures
            1 <= v@.len() <= 64,
    {
        let size = random_in_range(rng, 1, 64);
        random_bytes(rng, size)
    }

    /// The generator for one attack.
    fn create_rng(&self) -> ChaCha8Rng {
        create_rng(self.config.seed)
    }
}

} // verus!
