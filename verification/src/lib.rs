//! An append-only Merkle Mountain Range over Keccak-256 digests: push leaves,
//! compute the bagged root, generate single-leaf inclusion proofs, and verify
//! them against a claimed root.

pub mod api;
pub mod codec;
pub mod errors;
pub mod hasher;
pub mod engine;
pub mod index;
pub mod proofs;

pub use errors::MmrError;
pub use api::{generate_root_with_proof, verify_proof, MMRResult};
pub use engine::Mmr;
pub use hasher::{hash_leaf, KeccakMerge};
pub use proofs::MerkleProof;
