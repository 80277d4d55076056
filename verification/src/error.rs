//! The error kinds that ledger operations report.

use vstd::prelude::*;

verus! {

/// Why a ledger operation failed.
#[derive(Clone, Copy, Debug, PartialEq, Eq, Structural)]
pub enum LedgerError {
    /// The account, transaction, rule, category or user named does not exist.
    NotFound,
    /// A transaction with the same content hash exists and the caller asked
    /// for duplicates to be refused.
    Conflict,
    /// A range was given without any bound.
    InvalidRange,
    /// A rule's pattern is not a well-formed regular expression.
    PatternError,
    /// The store cannot hold the record: its identifiers are used up, or the
    /// timestamp lies before the earliest day the store can represent.
    StorageError,
}

impl LedgerError {
    /// A short text for the error, for logs and responses.
    pub fn message(&self) -> (r: String)
        ensures
            r@ == match *self {
                LedgerError::NotFound => "not found"@,
                LedgerError::Conflict => "conflict"@,
                LedgerError::InvalidRange => "invalid range"@,
                LedgerError::PatternError => "pattern error"@,
                LedgerError::StorageError => "storage error"@,
            },
    {
        match self {
            LedgerError::NotFound => "not found".to_owned(),
            LedgerError::Conflict => "conflict".to_owned(),
            LedgerError::InvalidRange => "invalid range".to_owned(),
            LedgerError::PatternError => "pattern error".to_owned(),
            LedgerError::StorageError => "storage error".to_owned(),
        }
    }
}

} // verus!
