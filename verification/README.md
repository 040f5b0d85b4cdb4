# zkp_learn

Verified building blocks from a zero-knowledge-proof study project, written
in Verus.

- `src/merkle.rs` — SHA-256 Merkle trees with domain-separated leaf and node
  hashing, inclusion proofs and their verification.
- `src/security/` — collision, binding and attack simulations against the
  Merkle trees, a property-based harness, and sampling for statistical
  scores. Each check of a single random draw is a verified function of its
  own (`second_preimage_attempt`, `check_seen_root`, …), and a tester
  reports a failure only when such a check found what it looks for (two
  different leaf lists with one root, a leaf hash equal to a node hash, a
  proof that verifies a fake leaf). Whether a run finds one depends on the
  draws.
- `src/transaction.rs`, `src/crypto.rs`, `src/mempool.rs` — transactions with
  a canonical encoding, Ed25519 signatures, and a mempool that enforces
  signatures, increasing nonces and unique identifiers.
- `src/chain.rs` — blocks hashed over their JSON encoding and a block store
  with longest-chain fork choice and canonical-chain read-back.
- `src/field.rs`, `src/polynomial.rs`, `src/r1cs.rs`, `src/qap.rs`,
  `src/circuits.rs`, `src/groth16.rs` — BN254 base-field arithmetic,
  polynomials, R1CS constraints, the R1CS-to-QAP reduction with Lagrange
  interpolation and divisibility checking, and small example circuits.
- `src/rng.rs` — the random inputs of the simulations.

Hashing, signatures, field arithmetic, hex coding and randomness are done by
`sha2`, `ed25519-dalek`, `ark-bn254`/`ark-ff`, `hex` and `rand`/`rand_chacha`
behind small trusted wrappers; everything in `src/` built on them is
verified. Where the original draws a uniform `f64` and compares it with a
probability, `src/` compares the drawn 64-bit word's top 53 bits with the
matching integer threshold (`oracle_attempt`, `timing_attempt`), which is
how `rand` makes that `f64`.

`app/` holds what stays outside the verifier: floating-point scores, the
terminal dashboard, and serde forms of library types. `tests/` holds the
executable tests.

The mempool and the block store keep their entries in `Vec`s, with a
well-formedness invariant that no two entries share a key (a transaction id
or a block hash), where a `HashMap` keyed by those values would be the
obvious choice. Verus's `HashMap` specification only says what `insert` and
`get` do for key types that obey its key model, and it states that for the
primitive integer types and `bool` (and boxes of them) only; for any other
key type, such as the 32-byte arrays used here, the model has to be assumed,
and this crate assumes nothing. Other forms, such as keying the maps by an
integer derived from the hash, were not tried. The R1CS witness map, keyed
by `usize`, does use a `HashMap`.
