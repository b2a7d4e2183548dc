//! An authenticated key-value store over a radix-16 Merkle trie, with
//! keyspaced child tries, read proofs and their verification.

pub mod bytes;
pub mod child;
pub mod error;
pub mod hashing;
pub mod laws;
pub mod nibble;
pub mod node;
pub mod proof_check;
pub mod prover;
pub mod recorder;
pub mod store;
pub mod trie;
pub mod weights;
