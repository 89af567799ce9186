//! Chunked files addressed by the root of a Merkle tree over their chunks,
//! with proofs that let a holder of the root check any single chunk.
//!
//! The tree engine in `merkle` is generic over a digest capability
//! (`Hasher`); files use SHA-256 and pad the leaf level with the zero hash up
//! to a power of two.

pub mod chunk;
pub mod chunker;
pub mod dummy;
pub mod emoji;
pub mod file;
pub mod hasher;
pub mod hex;
pub mod merkle;
pub mod repo;
pub mod sha256;

pub use chunk::Chunk;
pub use chunker::Chunker;
pub use dummy::DummyMerkleTree;
pub use emoji::{EmojiHash, EmojiHasher};
pub use file::{ChunkMerkleTree, File, FileError, CHUNK_BYTES};
pub use hasher::{AsBytes, Hasher};
pub use hex::encode_hex;
pub use merkle::{is_pow_of_two, MerkleError, MerkleTree};
pub use repo::{FileDescription, FileRepo, Piece, RepoError};
pub use sha256::{Sha256Hash, Sha256Hasher};
