//! GET: read one key from the store, evicting it if its expiry has passed.
use vstd::prelude::*;

use crate::resp::RESP;
use crate::server::Server;
use crate::server_result::{ServerError, ServerMessage, ServerValue};
use crate::storage::{spec_get, StoredVal};
use crate::text::{join_strings, join_with, strs_view};

verus! {

/// The reply GET owes against a store holding `m`, and the store `m2` it
/// leaves behind: with exactly one argument beyond the name, the stored text
/// or the null value, with the read-time eviction applied; with any other
/// arity, a syntax error and an unchanged store.
pub open spec fn get_reply(
    m: Map<Seq<char>, StoredVal>,
    cmd: Seq<Seq<char>>,
    now: u64,
    r: ServerMessage,
    m2: Map<Seq<char>, StoredVal>,
) -> bool {
    if cmd.len() != 2 {
        m2 == m && (r matches ServerMessage::Error(ServerError::CommandSyntaxError(s)) && s@
            == join_with(cmd, " "@))
    } else {
        m2 == spec_get(m, cmd[1], now).0 && match spec_get(m, cmd[1], now).1 {
            Some(v) => r matches ServerMessage::Data(ServerValue::RESP(RESP::BulkString(s))) && s@
                == v,
            None => r == ServerMessage::Data(ServerValue::RESP(RESP::Null)),
        }
    }
}

/// Handle a GET command at time `now`.
pub fn command(server: &mut Server, cmd: &Vec<String>, now: u64) -> (r: ServerMessage)
    requires
        old(server).wf(),
    ensures
        final(server).wf(),
        match old(server).storage {
            None => r == ServerMessage::Error(ServerError::StorageNotInitialized) && *final(server)
                == *old(server),
            Some(st) => final(server).storage matches Some(st2) && st2.spec_active_expiry()
                == st.spec_active_expiry() && get_reply(st@, strs_view(cmd@), now, r, st2@),
        },
{
    let storage = match &mut server.storage {
        Some(storage) => storage,
        None => {
            return ServerMessage::Error(ServerError::StorageNotInitialized);
        },
    };
    if cmd.len() != 2 {
        return ServerMessage::Error(ServerError::CommandSyntaxError(join_strings(cmd, " ")));
    }
    match storage.get_at(&cmd[1], now) {
        Ok(Some(v)) => ServerMessage::Data(ServerValue::RESP(RESP::BulkString(v))),
        Ok(None) => ServerMessage::Data(ServerValue::RESP(RESP::Null)),
        Err(_) => ServerMessage::Error(
            ServerError::CommandInternalError(join_strings(cmd, " ")),
        ),
    }
}

/// Arity law: GET with no argument or more than one argument beyond the
/// name is answered with a syntax error, and the store is untouched.
pub proof fn lemma_get_arity(
    m: Map<Seq<char>, StoredVal>,
    cmd: Seq<Seq<char>>,
    now: u64,
    r: ServerMessage,
    m2: Map<Seq<char>, StoredVal>,
)
    requires
        cmd.len() != 2,
        get_reply(m, cmd, now, r, m2),
    ensures
        m2 == m,
        r matches ServerMessage::Error(ServerError::CommandSyntaxError(_)),
{
}

} // verus!
