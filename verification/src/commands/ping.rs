//! PING: a fixed acknowledgement, whatever the arguments.
use vstd::prelude::*;
use vstd::string::StringExecFns;

use crate::resp::RESP;
use crate::server_result::{ServerMessage, ServerValue};

verus! {

/// The reply PING owes: the simple string `PONG`.
pub open spec fn ping_reply(r: ServerMessage) -> bool {
    r matches ServerMessage::Data(ServerValue::RESP(RESP::SimpleString(s))) && s@ == "PONG"@
}

/// Handle a PING command; its arguments are ignored.
pub fn command(_cmd: &Vec<String>) -> (r: ServerMessage)
    ensures
        ping_reply(r),
{
    ServerMessage::Data(ServerValue::RESP(RESP::SimpleString(String::from_str("PONG"))))
}

} // verus!
