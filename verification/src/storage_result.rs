//! Failure conditions of the store and of command handling against it.
use vstd::prelude::*;

verus! {

/// A recoverable, per-request failure: it is reported to the requesting
/// connection and affects nothing else.
#[derive(Debug, PartialEq, Eq)]
pub enum StorageError {
    /// The request was not a well-formed command.
    IncorrectRequest,
    /// A command's arguments do not follow its syntax; carries the joined
    /// original arguments.
    CommandSyntaxError(String),
    /// The store failed while handling the command; carries the joined
    /// original arguments.
    CommandInternalError(String),
    /// The first token names no known command; carries it unchanged.
    CommandNotAvailable(String),
}

pub type StorageResult<T> = Result<T, StorageError>;

} // verus!
