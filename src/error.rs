//! Error kinds of the memory engine.

use vstd::prelude::*;

verus! {

/// What went wrong, by kind, with a message where there is one.
#[derive(Debug, Clone, PartialEq, Eq)]
pub enum MemoryError {
    /// Persistence or schema failure.
    Storage(String),
    /// Embedding transport or provider failure.
    Embedding(String),
    /// Query-time orchestration failure.
    Retrieval(String),
    /// Graph invariant violation.
    Graph(String),
    /// The caller broke a contract of the input.
    InvalidInput(String),
    /// An operation ran before `initialize`.
    NotInitialized,
    /// Metadata JSON failure.
    Serialization(String),
    /// Underlying device failure.
    Io(String),
    /// Network transport failure.
    Http(String),
    Unknown(String),
}

} // verus!
