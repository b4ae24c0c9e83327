//! SET: write one key, under optional existence and expiry modifiers.
use vstd::prelude::*;

use crate::resp::RESP;
use crate::server::Server;
use crate::server_result::{ServerError, ServerMessage, ServerValue};
use crate::set::{parse_set_arguments, spec_parse_set_args, SetArgs};
use crate::storage::{spec_set, StoredVal};
use crate::text::{join_strings, join_with, strs_view};

verus! {

/// The reply SET owes against a store holding `m`, and the store `m2` it
/// leaves behind: fewer than two arguments beyond the name is a syntax
/// error, as is a modifier tail that does not parse; otherwise the store's
/// write semantics decide, and the store's acknowledgement comes back as a
/// simple string.
pub open spec fn set_reply(
    m: Map<Seq<char>, StoredVal>,
    cmd: Seq<Seq<char>>,
    now: u64,
    r: ServerMessage,
    m2: Map<Seq<char>, StoredVal>,
) -> bool {
    if cmd.len() < 3 {
        m2 == m && (r matches ServerMessage::Error(ServerError::CommandSyntaxError(s)) && s@
            == join_with(cmd, Seq::<char>::empty()))
    } else {
        match spec_parse_set_args(
            cmd.subrange(3, cmd.len() as int),
            0,
            SetArgs { expiry: None, existence: None, get: false },
        ) {
            Err(_) => m2 == m && (r matches ServerMessage::Error(ServerError::CommandSyntaxError(s))
                && s@ == join_with(cmd, " "@)),
            Ok(args) => m2 == spec_set(m, cmd[1], cmd[2], args, now).0 && (r matches
            ServerMessage::Data(ServerValue::RESP(RESP::SimpleString(s))) && s@ == spec_set(
                m,
                cmd[1],
                cmd[2],
                args,
                now,
            ).1),
        }
    }
}

/// Handle a SET command at time `now`.
#[verifier::loop_isolation(false)]
pub fn command(server: &mut Server, cmd: &Vec<String>, now: u64) -> (r: ServerMessage)
    requires
        old(server).wf(),
    ensures
        final(server).wf(),
        match old(server).storage {
            None => r == ServerMessage::Error(ServerError::StorageNotInitialized) && *final(server)
                == *old(server),
            Some(st) => final(server).storage matches Some(st2) && st2.spec_active_expiry()
                == st.spec_active_expiry() && set_reply(st@, strs_view(cmd@), now, r, st2@),
        },
{
    let storage = match &mut server.storage {
        Some(storage) => storage,
        None => {
            return ServerMessage::Error(ServerError::StorageNotInitialized);
        },
    };
    if cmd.len() < 3 {
        proof {
            reveal_strlit("");
            assert(""@ =~= Seq::<char>::empty());
        }
        return ServerMessage::Error(ServerError::CommandSyntaxError(join_strings(cmd, "")));
    }
    let key = cmd[1].clone();
    let value = cmd[2].clone();
    let mut tail: Vec<String> = Vec::new();
    let mut i: usize = 3;
    proof {
        assert(strs_view(tail@) =~= strs_view(cmd@).subrange(3, 3));
    }
    while i < cmd.len()
        invariant
            3 <= i <= cmd@.len(),
            strs_view(tail@) == strs_view(cmd@).subrange(3, i as int),
        decreases cmd@.len() - i,
    {
        tail.push(cmd[i].clone());
        i = i + 1;
        proof {
            assert(strs_view(tail@) =~= strs_view(cmd@).subrange(3, i as int));
        }
    }
    proof {
        assert(strs_view(tail@) =~= strs_view(cmd@).subrange(3, cmd@.len() as int));
    }
    let args = match parse_set_arguments(&tail) {
        Ok(args) => args,
        Err(_) => {
            return ServerMessage::Error(
                ServerError::CommandSyntaxError(join_strings(cmd, " ")),
            );
        },
    };
    match storage.set_at(key, value, args, now) {
        Ok(ack) => ServerMessage::Data(ServerValue::RESP(RESP::SimpleString(ack))),
        Err(_) => ServerMessage::Error(
            ServerError::CommandInternalError(join_strings(cmd, " ")),
        ),
    }
}

/// Arity law: SET with fewer than two arguments beyond the name is answered
/// with a syntax error, and the store is untouched.
pub proof fn lemma_set_arity(
    m: Map<Seq<char>, StoredVal>,
    cmd: Seq<Seq<char>>,
    now: u64,
    r: ServerMessage,
    m2: Map<Seq<char>, StoredVal>,
)
    requires
        cmd.len() < 3,
        set_reply(m, cmd, now, r, m2),
    ensures
        m2 == m,
        r matches ServerMessage::Error(ServerError::CommandSyntaxError(_)),
{
}

} // verus!
