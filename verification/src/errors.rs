//! Failure values shared by the store, the clustering index and persistence.

use vstd::prelude::*;

verus! {

/// Why an operation of the vector store failed.
#[derive(Debug, Clone, PartialEq)]
pub enum VectorDBError {
    /// The two vectors handed to the similarity helper differ in length or
    /// are empty.
    DimensionMismatch,
    /// Index training was requested over an empty store.
    EmptyDataSet,
    /// Index training was requested with zero clusters, or with more
    /// clusters than stored vectors.
    InvalidClusterCount,
    /// An invariant that should be unreachable was violated; this indicates
    /// a defect, not a usage error.
    InternalError(String),
    /// A persisted artifact was truncated or structurally invalid.
    DecodeError,
}

} // verus!
