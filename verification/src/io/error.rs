//! Errors of encoding and decoding.
use vstd::prelude::*;
use crate::tree::{ChunkNum, TreeNode};

verus! {

/// What went wrong in reading or writing.
#[derive(Debug, Clone, Copy, PartialEq, Eq, Structural)]
pub enum IoErrorKind {
    /// The source ended before all the bytes asked for were read.
    UnexpectedEof,
    /// A parameter was not as it should be.
    InvalidInput,
    /// What was read was not as it should be.
    InvalidData,
    /// Anything else.
    Other,
}

/// Error at the start of decoding, before the size of the blob is known.
#[derive(Debug, Clone, Copy, PartialEq, Eq, Structural)]
pub enum StartDecodeError {
    /// The stream ended within the size header.
    NotFound,
    /// Reading failed.
    Io(IoErrorKind),
}

impl StartDecodeError {
    /// The error for a failed read of the size header: `NotFound` for a
    /// stream that ended early, and else the failure itself.
    pub fn maybe_not_found(e: IoErrorKind) -> (r: Self)
        ensures
            r == (if e == IoErrorKind::UnexpectedEof {
                StartDecodeError::NotFound
            } else {
                StartDecodeError::Io(e)
            }),
    {
        if e == IoErrorKind::UnexpectedEof {
            StartDecodeError::NotFound
        } else {
            StartDecodeError::Io(e)
        }
    }
}

/// Error when encoding a slice.
#[derive(Debug, Clone, Copy, PartialEq, Eq, Structural)]
pub enum EncodeError {
    /// The hash pair of a node did not match the expected hash.
    ParentHashMismatch(TreeNode),
    /// The data of a leaf did not match the expected hash.
    LeafHashMismatch(ChunkNum),
    /// The query has chunks beyond the tree.
    InvalidQueryRange,
    /// Reading the blob or the outboard failed.
    Io(IoErrorKind),
}

} // verus!
