//! The outcome a request is answered with: a protocol value, or a
//! per-request failure.
use vstd::prelude::*;

use crate::resp::RESP;

verus! {

/// A failure while serving one request. It is reported to the requesting
/// connection only and never stops the server.
#[derive(Debug, PartialEq, Eq)]
pub enum ServerError {
    /// The store failed while running the command; carries the joined
    /// command tokens.
    CommandInternalError(String),
    /// The command's arguments do not follow its syntax; carries the joined
    /// command tokens.
    CommandSyntaxError(String),
    /// The first token names no known command; carries it unchanged.
    CommandNotAvailable(String),
    /// The request was not an array of bulk strings.
    IncorrectData,
    /// The server has no store attached.
    StorageNotInitialized,
}

/// A successful reply payload.
#[derive(Debug, PartialEq, Eq)]
pub enum ServerValue {
    RESP(RESP),
}

/// What the dispatcher sends back for one request.
#[derive(Debug, PartialEq, Eq)]
pub enum ServerMessage {
    Data(ServerValue),
    Error(ServerError),
}

pub type ServerResult = Result<ServerValue, ServerError>;

} // verus!
