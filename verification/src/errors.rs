//! Error values surfaced by parsing, compression and decompression.

use vstd::prelude::*;

verus! {

/// The kind of failure a pipeline call can surface.
#[derive(Debug, Clone, Copy, PartialEq, Eq, Structural)]
pub enum ErrorKind {
    /// A container header is shorter than four bytes, or its declared chain
    /// length exceeds the remaining bytes.
    Format,
    /// A transformation's decompress encountered malformed token bytes.
    Decode,
    /// A code in a container's chain has no matching operation in the
    /// registry.
    UnknownOp,
}

/// Error type for compression operations.
#[derive(Debug, Clone, Copy, PartialEq, Eq, Structural)]
pub struct CompressionError {
    pub kind: ErrorKind,
}

impl CompressionError {
    /// Build an error of the given kind.
    pub fn new(kind: ErrorKind) -> (e: Self)
        ensures
            e.kind == kind,
    {
        CompressionError { kind }
    }
}

} // verus!
