//! Search compressed data without full decompression.
//!
//! The library walks compressed containers (Snappy framing, gzip members,
//! Zstd Huffman literal sections) and recovers the literal bytes they carry,
//! so that a Bloom filter built over the literals can rule out blocks that
//! cannot contain a search pattern.
pub mod block;
pub mod bloom;
pub mod error;
pub mod gzip;
pub mod snappy;
pub mod zstd;

pub use block::CompressedBlock;
pub use error::ZiftError;
