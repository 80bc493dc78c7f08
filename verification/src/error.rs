//! The library's error type.
use vstd::prelude::*;
use crate::types::ColumnType;
use crate::value::Value;

verus! {

/// What a stored field was too large to be.
#[derive(Clone, Copy, Debug, PartialEq, Eq, Structural)]
pub enum Oversized {
    Text,
    Json,
    Bytes,
    Array,
}

/// Why an operation was refused.
#[allow(inconsistent_fields)]
#[derive(Debug, PartialEq, Eq)]
pub enum Error {
    /// Encoded bytes end early or hold something no writer produces, at byte `offset`.
    MalformedTuple { offset: usize },
    /// Doing `context`, a row has `found` values where `expected` are called for.
    ArityMismatch { context: &'static str, expected: usize, found: usize },
    /// A value is not one that the type can hold.
    InvalidValue { ty: ColumnType, value: Value },
    /// A value of one type stands where another is called for.
    TypeMismatch { expected: ColumnType, found: ColumnType },
    /// A field whose length does not fit its 32-bit prefix.
    TooLarge(Oversized),
    /// The outcome handed back for a conversion is not one that conversion can have.
    UnexpectedOutcome,
    /// A scalar subquery returned more than one row.
    ScalarSubqueryRows,
    /// A sequence call was refused.
    Sequence(SequenceError),
    /// A stage holds `used` bytes, more than the work-memory `budget`.
    OutOfMemory { budget: usize, used: usize, stage: Stage },
    /// This configuration parameter describes the server and cannot be changed.
    UnchangeableParameter(String),
    /// There is no configuration parameter of this name.
    UnknownParameter(String),
    /// A record whose length does not fit its 32-bit prefix.
    RecordTooLong,
    /// A record is cut short.
    TruncatedRecord,
    /// `NTILE` was asked for less than one bucket.
    BucketCount,
    /// Calls are nested deeper than `limit`.
    ProcedureRecursionLimit { limit: usize },
    /// There is a procedure of this name already.
    ProcedureExists(String),
    /// There is no procedure of this name.
    ProcedureNotFound(String),
    /// The procedure `name` takes `expected` arguments and was given `found`.
    ProcedureArgCount { name: String, expected: usize, found: usize },
    /// A recursive query was given up after too many rounds.
    RecursionLimit,
}

/// A stage that is held to the work-memory budget.
#[derive(Clone, Copy, Debug, PartialEq, Eq, Structural)]
pub enum Stage {
    /// A row set that was materialized.
    Materialized,
    /// The rows retained by a limited sort.
    TopN,
    /// The rows of a recursive query.
    Recursive,
}

/// Why a sequence call was refused.
#[derive(Debug, PartialEq, Eq)]
pub enum SequenceError {
    /// The call has no argument for the sequence's name.
    NameMissing,
    /// The sequence's name is NULL.
    NameIsNull,
    /// The sequence's name is not text.
    NameNotText,
    /// There is no sequence of this name.
    NotFound(String),
    /// The value to set is NULL.
    TargetIsNull,
    /// The value to set is missing or no integer.
    TargetNotInteger,
    /// `is_called` is false, a form that is not supported.
    CalledFalse,
    /// `is_called` is NULL.
    CalledIsNull,
    /// `is_called` is no boolean.
    CalledNotBool,
    /// The function is no sequence function.
    NotSequence,
}

} // verus!
