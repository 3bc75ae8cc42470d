//! The error taxonomy of the engine. Every failure a caller can see is one
//! of these variants; request-level code maps them to its own presentation.

use vstd::prelude::*;

verus! {

/// A typed failure of the storage-and-cache engine.
#[derive(Clone, Copy, Debug, PartialEq, Eq, Structural)]
pub enum EngineError {
    /// An input vector's length differs from the collection's dimension,
    /// or two durable shards of one collection disagree on the dimension.
    DimensionMismatch,
    /// A distance-metric code that names no known metric.
    UnknownMetric,
    /// The collection has no cached and no durable representation.
    NotFound,
    /// Durable bytes that cannot be decoded as a collection.
    CorruptData,
    /// An attempt to create a collection under a name that is already live.
    AlreadyExists,
    /// Internal synchronization was poisoned; fatal to the current request.
    LockFailure,
    /// A bulk-import source row whose values cannot be coerced; the row is
    /// skipped and counted, never fatal to the batch.
    RowCoercionFailure,
}

impl EngineError {
    /// A short, stable description for logs and transport layers.
    pub fn message(&self) -> (r: &'static str)
        ensures
            r@ == self.spec_message(),
    {
        match self {
            EngineError::DimensionMismatch => "dimension mismatch",
            EngineError::UnknownMetric => "unknown metric",
            EngineError::NotFound => "not found",
            EngineError::CorruptData => "corrupt data",
            EngineError::AlreadyExists => "exists",
            EngineError::LockFailure => "lock",
            EngineError::RowCoercionFailure => "row coercion failure",
        }
    }

    pub open spec fn spec_message(&self) -> Seq<char> {
        match self {
            EngineError::DimensionMismatch => "dimension mismatch"@,
            EngineError::UnknownMetric => "unknown metric"@,
            EngineError::NotFound => "not found"@,
            EngineError::CorruptData => "corrupt data"@,
            EngineError::AlreadyExists => "exists"@,
            EngineError::LockFailure => "lock"@,
            EngineError::RowCoercionFailure => "row coercion failure"@,
        }
    }
}

} // verus!
