//! Zstd literal extraction without full decompression.
//!
//! The parser walks Zstd frames and block headers, extracts raw, RLE, and
//! Huffman-decoded literals when possible, and skips sequence execution. This
//! yields a conservative literal view suitable for indexing.
pub mod bit_io;
pub mod decoder;
pub mod frame;
pub mod fse;
pub mod huffman;
pub mod streaming;

pub use streaming::extract_literals;
