//! Failure conditions of the protocol codec.
use vstd::prelude::*;

verus! {

/// A failure while decoding one protocol value from a byte buffer.
///
/// All of these are local decode failures: the frame cannot be trusted, so
/// the connection that produced it is closed, but the server itself goes on.
#[derive(Debug, PartialEq, Eq)]
pub enum RESPError {
    /// The bytes of a text element are not valid UTF-8.
    FromUtf8,
    /// The leading type byte is none of `+`, `$`, `*`.
    Unknown,
    /// The leading type byte is not the one the caller asked to remove.
    WrongType,
    /// A length line does not parse as an integer.
    ParseInt,
    /// A negative length other than the null sentinel `-1`.
    IncorrectLength(RESPLength),
    /// The buffer ended before the value did; carries the scan position reached.
    OutOfBounds(usize),
}

pub type RESPResult<T> = Result<T, RESPError>;

pub type RESPLength = i32;

} // verus!
