//! ECHO: return the single argument verbatim.
use vstd::prelude::*;

use crate::resp::RESP;
use crate::server_result::{ServerError, ServerMessage, ServerValue};
use crate::text::{join_strings, join_with, strs_view};

verus! {

/// The reply ECHO owes: with exactly one argument beyond the name, that
/// argument as a bulk string; with any other arity, a syntax error carrying
/// the joined command tokens.
pub open spec fn echo_reply(cmd: Seq<Seq<char>>, r: ServerMessage) -> bool {
    if cmd.len() == 2 {
        r matches ServerMessage::Data(ServerValue::RESP(RESP::BulkString(s))) && s@ == cmd[1]
    } else {
        r matches ServerMessage::Error(ServerError::CommandSyntaxError(s)) && s@ == join_with(
            cmd,
            " "@,
        )
    }
}

/// Handle an ECHO command.
pub fn command(cmd: &Vec<String>) -> (r: ServerMessage)
    ensures
        echo_reply(strs_view(cmd@), r),
{
    if cmd.len() == 2 {
        ServerMessage::Data(ServerValue::RESP(RESP::BulkString(cmd[1].clone())))
    } else {
        ServerMessage::Error(ServerError::CommandSyntaxError(join_strings(cmd, " ")))
    }
}

} // verus!
