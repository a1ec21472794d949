//! Hashing for the literal Bloom filter.
pub mod hash;
