//! The dispatcher: it owns the store and turns one decoded request into one
//! reply, serialized by whatever single loop drives it.
use vstd::prelude::*;
use vstd::string::StringExecFns;

use crate::commands;
use crate::commands::echo::echo_reply;
use crate::commands::get::get_reply;
use crate::commands::ping::ping_reply;
use crate::commands::set::set_reply;
use crate::resp::{resp_seq_view, lemma_resp_seq_view, RespVal, RESP};
use crate::server_result::{ServerError, ServerMessage};
use crate::storage::{spec_sweep, Storage};
use crate::text::{fold_lowercase, lower_of, strs_view};

verus! {

broadcast use vstd::std_specs::vec::group_vec_axioms, vstd::seq::group_seq_axioms;

/// The dispatcher's state: the store, if one has been attached.
pub struct Server {
    pub storage: Option<Storage>,
}

impl Server {
    /// Well-formed: the attached store, if any, is well-formed.
    pub open spec fn wf(&self) -> bool {
        self.storage matches Some(st) ==> st.wf()
    }

    /// A server with no store attached.
    pub fn new() -> (r: Self)
        ensures
            r.storage is None,
            r.wf(),
    {
        Self { storage: None }
    }

    /// A server over the given store.
    pub fn with_new(storage: Storage) -> (r: Self)
        requires
            storage.wf(),
        ensures
            r.storage == Some(storage),
            r.wf(),
    {
        Self { storage: Some(storage) }
    }

    /// Attach a store, replacing any earlier one.
    pub fn set_storage(&mut self, storage: Storage)
        requires
            storage.wf(),
        ensures
            final(self).storage == Some(storage),
            final(self).wf(),
    {
        self.storage = Some(storage);
    }

    /// Run the store's active-expiry sweep at the current wall-clock time;
    /// without a store this does nothing.
    pub fn expire_keys(&mut self)
        requires
            old(self).wf(),
        ensures
            final(self).wf(),
            match old(self).storage {
                None => *final(self) == *old(self),
                Some(st) => final(self).storage matches Some(st2) && st2.spec_active_expiry()
                    == st.spec_active_expiry() && exists|now: u64|
                    st2@ == if st.spec_active_expiry() {
                        #[trigger] spec_sweep(st@, now)
                    } else {
                        st@
                    },
            },
    {
        match &mut self.storage {
            Some(storage) => {
                let now = storage.expire_keys();
                proof {
                    let st = old(self).storage->Some_0;
                    assert(spec_sweep(st@, now@) == spec_sweep(st@, now@));
                }
            },
            None => {},
        }
    }
}

/// What dispatching one request must do to the server and reply with. The
/// request must be an array of bulk strings — the command name and its
/// arguments — and the name, case-insensitively, one of the four commands.
pub open spec fn all_bulk(elems: Seq<RespVal>) -> bool {
    forall|i: int| 0 <= i < elems.len() ==> (#[trigger] elems[i]) matches RespVal::BulkString(_)
}

/// The command tokens of an array of bulk strings.
pub open spec fn bulk_texts(elems: Seq<RespVal>) -> Seq<Seq<char>> {
    elems.map_values(|e: RespVal| e->BulkString_0)
}

/// The dispatcher's whole obligation, relating the server before and after
/// to the request value and the reply.
pub open spec fn process_post(
    pre: Server,
    v: RespVal,
    now: u64,
    r: ServerMessage,
    post: Server,
) -> bool {
    match v {
        RespVal::Array(elems) => if !all_bulk(elems) || elems.len() == 0 {
            r == ServerMessage::Error(ServerError::IncorrectData) && post == pre
        } else {
            let cmd = bulk_texts(elems);
            let name = lower_of(cmd[0]);
            &&& name == "echo"@ ==> echo_reply(cmd, r) && post == pre
            &&& name == "ping"@ ==> ping_reply(r) && post == pre
            &&& name == "get"@ ==> match pre.storage {
                None => r == ServerMessage::Error(ServerError::StorageNotInitialized) && post
                    == pre,
                Some(st) => post.storage matches Some(st2) && st2.spec_active_expiry()
                    == st.spec_active_expiry() && get_reply(st@, cmd, now, r, st2@),
            }
            &&& name == "set"@ ==> match pre.storage {
                None => r == ServerMessage::Error(ServerError::StorageNotInitialized) && post
                    == pre,
                Some(st) => post.storage matches Some(st2) && st2.spec_active_expiry()
                    == st.spec_active_expiry() && set_reply(st@, cmd, now, r, st2@),
            }
            &&& name != "echo"@ && name != "ping"@ && name != "get"@ && name != "set"@ ==> post
                == pre && (r matches ServerMessage::Error(ServerError::CommandNotAvailable(s)) && s@
                == cmd[0])
        },
        _ => r == ServerMessage::Error(ServerError::IncorrectData) && post == pre,
    }
}

/// Dispatch one decoded request against the server at time `now` and return
/// the reply to send back on the requesting connection.
#[verifier::loop_isolation(false)]
pub fn process_request(server: &mut Server, value: &RESP, now: u64) -> (r: ServerMessage)
    requires
        old(server).wf(),
    ensures
        final(server).wf(),
        process_post(*old(server), value@, now, r, *final(server)),
{
    let elems = match value {
        RESP::Array(elems) => elems,
        _ => {
            return ServerMessage::Error(ServerError::IncorrectData);
        },
    };
    let ghost w = resp_seq_view(elems@);
    proof {
        lemma_resp_seq_view(elems@);
    }
    let mut command: Vec<String> = Vec::new();
    let mut i: usize = 0;
    while i < elems.len()
        invariant
            0 <= i <= elems@.len(),
            command@.len() == i,
            forall|j: int| 0 <= j < i ==> (#[trigger] w[j]) matches RespVal::BulkString(_),
            forall|j: int| 0 <= j < i ==> (#[trigger] command@[j])@ == w[j]->BulkString_0,
        decreases elems@.len() - i,
    {
        match &elems[i] {
            RESP::BulkString(s) => {
                command.push(s.clone());
            },
            _ => {
                proof {
                    assert(!(w[i as int] matches RespVal::BulkString(_)));
                }
                return ServerMessage::Error(ServerError::IncorrectData);
            },
        }
        i = i + 1;
    }
    if command.len() == 0 {
        return ServerMessage::Error(ServerError::IncorrectData);
    }
    proof {
        assert(all_bulk(w));
        assert(strs_view(command@) =~= bulk_texts(w));
        reveal_strlit("echo");
        reveal_strlit("ping");
        reveal_strlit("get");
        reveal_strlit("set");
        assert("echo"@[0] == 'e' && "ping"@[0] == 'p' && "get"@[0] == 'g' && "set"@[0] == 's');
        assert("echo"@ != "ping"@ && "echo"@ != "get"@ && "echo"@ != "set"@ && "ping"@ != "get"@
            && "ping"@ != "set"@ && "get"@ != "set"@);
    }
    let name = fold_lowercase(&command[0]);
    if name == String::from_str("echo") {
        commands::echo::command(&command)
    } else if name == String::from_str("ping") {
        commands::ping::command(&command)
    } else if name == String::from_str("get") {
        commands::get::command(server, &command, now)
    } else if name == String::from_str("set") {
        commands::set::command(server, &command, now)
    } else {
        ServerMessage::Error(ServerError::CommandNotAvailable(command[0].clone()))
    }
}

} // verus!
