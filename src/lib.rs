//! Authenticated data structures over SHA-256: a binary Merkle tree over a
//! fixed batch of items, a fixed-depth sparse Merkle tree keyed by 16-byte
//! keys, and an append-only Merkle mountain range with windowed peak bagging.

pub mod hashing;
pub mod merkle_mountain_range;
pub mod merkle_tree;
pub mod sparse_merkle_tree;

pub use hashing::{leaf_hash, pair_hash};
pub use merkle_mountain_range::MMR;
pub use merkle_tree::{MerkleError, MerkleTree};
pub use sparse_merkle_tree::SparseMerkleTree;
