//! The per-connection failure surface.
use vstd::prelude::*;

use crate::server_result::ServerError;

verus! {

/// A failure that ends one connection: the dispatcher reported an error for
/// a request this connection sent. Protocol decode failures also end the
/// connection, since its byte stream can no longer be trusted; neither kind
/// ever stops the server.
#[derive(Debug, PartialEq, Eq)]
pub enum ConnectionError {
    ServerError(ServerError),
}

} // verus!
