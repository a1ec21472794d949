//! The error type shared by every extractor.
use vstd::prelude::*;

verus! {

/// Why an extraction failed.
#[derive(Debug)]
pub enum ZiftError {
    /// The input is truncated or malformed at the given byte offset.
    InvalidData { offset: usize, reason: String },
    /// A block or the running literal total exceeds a configured limit.
    BlockTooLarge { size: usize, max: usize },
}

/// What an error reports, its explanation aside.
pub enum ZiftErrorKind {
    InvalidData { offset: nat },
    BlockTooLarge { size: nat, max: nat },
}

impl View for ZiftError {
    type V = ZiftErrorKind;

    open spec fn view(&self) -> ZiftErrorKind {
        match self {
            ZiftError::InvalidData { offset, .. } => ZiftErrorKind::InvalidData { offset: *offset as nat },
            ZiftError::BlockTooLarge { size, max } => ZiftErrorKind::BlockTooLarge { size: *size as nat, max: *max as nat },
        }
    }
}

/// The explanation an error carries; a `BlockTooLarge` error carries none.
pub open spec fn reason_of(e: ZiftError) -> Seq<char> {
    match e {
        ZiftError::InvalidData { reason, .. } => reason@,
        ZiftError::BlockTooLarge { .. } => Seq::empty(),
    }
}

impl ZiftError {
    /// Builds an `InvalidData` error at `offset` with the given explanation.
    pub fn invalid(offset: usize, reason: &str) -> (e: ZiftError)
        ensures
            e@ == (ZiftErrorKind::InvalidData { offset: offset as nat }),
            e matches ZiftError::InvalidData { reason: text, .. } && text@ == reason@,
    {
        ZiftError::InvalidData { offset, reason: reason.to_string() }
    }

    /// Builds a `BlockTooLarge` error.
    pub fn too_large(size: usize, max: usize) -> (e: ZiftError)
        ensures
            e@ == (ZiftErrorKind::BlockTooLarge { size: size as nat, max: max as nat }),
    {
        ZiftError::BlockTooLarge { size, max }
    }
}

} // verus!
