//! Verified building blocks from a zero-knowledge-proof study project:
//! SHA-256 Merkle trees, signed transactions with a mempool, a toy
//! blockchain with longest-chain fork choice, prime-field polynomials,
//! R1CS constraints, the R1CS-to-QAP transformation and small example
//! circuits.

pub mod chain;
pub mod circuits;
pub mod crypto;
pub mod field;
pub mod groth16;
pub mod mempool;
pub mod merkle;
pub mod polynomial;
pub mod qap;
pub mod r1cs;
pub mod rng;
pub mod security;
pub mod transaction;
