//! Error types for the vector database.

use vstd::prelude::*;

verus! {

/// Error type shared by every fallible operation of the library.
///
/// The variants are distinguished so that callers can handle them
/// programmatically; each carries the detail a caller needs to report
/// the failure.
#[derive(Debug, Clone)]
pub enum VectorDbError {
    /// A vector's length differed from the committed dimension.
    DimensionMismatch { expected: usize, actual: usize },
    /// A lookup or delete named a string id that is not present.
    VectorNotFound { id: String },
    /// A vector value was unusable, e.g. a zero-norm vector where a
    /// normalised one was required.
    InvalidVector { reason: String },
    /// A lower-level I/O failure, reported by the embedding program.
    IoError(String),
    /// A snapshot or log payload failed to encode or decode.
    SerializationError(String),
    /// A structural problem with on-disk data.
    StorageError(String),
    /// An internal consistency failure in an index.
    IndexError(String),
}

} // verus!
