//! The errors that the executor and the transaction surface to their callers.

use vstd::prelude::*;

verus! {

/// A handle that ties an annotated match of the query to its predicate.
pub type MatchRef = u8;

/// What the executor, the transaction and the endpoint refuse, and why.
#[derive(Debug)]
pub enum Error {
    /// The endpoint text is no URL.
    InvalidUrl(String),
    /// Two full-text predicates of one plan carry the same match reference.
    DuplicatedMatchRef { mr: MatchRef },
    /// A match was asked of an expression that no full-text index serves.
    NoIndexFoundForMatch { value: u64 },
    /// The transaction was already committed or cancelled.
    TxFinished,
    /// A write was asked of a read-only transaction.
    TxReadonly,
    /// The key to insert is already present.
    TxKeyAlreadyExists,
    /// The stored value is not the one the caller expected.
    TxConditionNotMet,
    /// A vector does not have the dimension of the query vector.
    InvalidVectorDimension { current: usize, expected: usize },
    /// The store holds what cannot be read.
    Ds(String),
}

} // verus!
