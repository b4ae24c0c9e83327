use miniredis::resp::RESP;
use miniredis::server::{process_request, Server};
use miniredis::server_result::{ServerError, ServerMessage, ServerValue};
use miniredis::storage::Storage;

#[test]
fn test_process_request_ping() {
    let request = RESP::Array(vec![RESP::BulkString(String::from("PING"))]);
    let mut server = Server::with_new(Storage::new());
    let reply = process_request(&mut server, &request, 0);
    assert_eq!(
        reply,
        ServerMessage::Data(ServerValue::RESP(RESP::SimpleString(String::from("PONG"))))
    );
}

#[test]
fn test_process_request_not_array() {
    let request = RESP::BulkString(String::from("PING"));
    let mut server = Server::with_new(Storage::new());
    let reply = process_request(&mut server, &request, 0);
    assert_eq!(reply, ServerMessage::Error(ServerError::IncorrectData));
}

#[test]
fn test_process_request_not_bulkstrings() {
    let request = RESP::Array(vec![RESP::SimpleString(String::from("PING"))]);
    let mut server = Server::with_new(Storage::new());
    let reply = process_request(&mut server, &request, 0);
    assert_eq!(reply, ServerMessage::Error(ServerError::IncorrectData));
}

#[test]
fn test_process_request_echo() {
    let request = RESP::Array(vec![
        RESP::BulkString(String::from("ECHO")),
        RESP::BulkString(String::from("42")),
    ]);
    let mut server = Server::with_new(Storage::new());
    let reply = process_request(&mut server, &request, 0);
    assert_eq!(
        reply,
        ServerMessage::Data(ServerValue::RESP(RESP::BulkString(String::from("42"))))
    );
}

#[test]
fn server_test_create_new() {
    let server: Server = Server::new();
    match server.storage {
        Some(_) => panic!(),
        None => (),
    };
}

#[test]
fn test_set_storage() {
    let storage = Storage::new();
    let mut server: Server = Server::new();
    server.set_storage(storage);
    match server.storage {
        Some(_) => (),
        None => panic!(),
    };
}

fn cmd(tokens: &[&str]) -> RESP {
    RESP::Array(
        tokens
            .iter()
            .map(|t| RESP::BulkString(String::from(*t)))
            .collect(),
    )
}

#[test]
fn test_process_request_empty_array() {
    let mut server = Server::with_new(Storage::new());
    let reply = process_request(&mut server, &RESP::Array(vec![]), 0);
    assert_eq!(reply, ServerMessage::Error(ServerError::IncorrectData));
}

#[test]
fn test_process_request_unknown_command() {
    let mut server = Server::with_new(Storage::new());
    let reply = process_request(&mut server, &cmd(&["FLUSHALL"]), 0);
    assert_eq!(
        reply,
        ServerMessage::Error(ServerError::CommandNotAvailable(String::from("FLUSHALL")))
    );
}

#[test]
fn test_process_request_set_then_get() {
    let mut server = Server::with_new(Storage::new());
    let reply = process_request(&mut server, &cmd(&["SET", "key", "value"]), 0);
    assert_eq!(
        reply,
        ServerMessage::Data(ServerValue::RESP(RESP::SimpleString(String::from("OK"))))
    );
    let reply = process_request(&mut server, &cmd(&["GET", "key"]), 1);
    assert_eq!(
        reply,
        ServerMessage::Data(ServerValue::RESP(RESP::BulkString(String::from("value"))))
    );
}

#[test]
fn test_process_request_get_missing() {
    let mut server = Server::with_new(Storage::new());
    let reply = process_request(&mut server, &cmd(&["GET", "missing"]), 0);
    assert_eq!(reply, ServerMessage::Data(ServerValue::RESP(RESP::Null)));
}

#[test]
fn test_process_request_set_nx_twice() {
    let mut server = Server::with_new(Storage::new());
    let reply = process_request(&mut server, &cmd(&["SET", "k", "v", "NX"]), 0);
    assert_eq!(
        reply,
        ServerMessage::Data(ServerValue::RESP(RESP::SimpleString(String::from("OK"))))
    );
    let reply = process_request(&mut server, &cmd(&["SET", "k", "v", "NX"]), 1);
    assert_eq!(
        reply,
        ServerMessage::Data(ServerValue::RESP(RESP::SimpleString(String::from(
            "Key is present true"
        ))))
    );
    let reply = process_request(&mut server, &cmd(&["GET", "k"]), 2);
    assert_eq!(
        reply,
        ServerMessage::Data(ServerValue::RESP(RESP::BulkString(String::from("v"))))
    );
}

#[test]
fn test_process_request_get_arity() {
    let mut server = Server::with_new(Storage::new());
    let reply = process_request(&mut server, &cmd(&["GET"]), 0);
    assert_eq!(
        reply,
        ServerMessage::Error(ServerError::CommandSyntaxError(String::from("GET")))
    );
    let reply = process_request(&mut server, &cmd(&["GET", "a", "b"]), 0);
    assert_eq!(
        reply,
        ServerMessage::Error(ServerError::CommandSyntaxError(String::from("GET a b")))
    );
}

#[test]
fn test_process_request_set_arity() {
    let mut server = Server::with_new(Storage::new());
    let reply = process_request(&mut server, &cmd(&["SET", "k"]), 0);
    assert_eq!(
        reply,
        ServerMessage::Error(ServerError::CommandSyntaxError(String::from("SETk")))
    );
}

#[test]
fn test_process_request_set_nx_xx_conflict() {
    let mut server = Server::with_new(Storage::new());
    for tokens in [
        ["SET", "k", "v", "NX", "XX"],
        ["SET", "k", "v", "XX", "NX"],
    ] {
        let reply = process_request(&mut server, &cmd(&tokens), 0);
        assert_eq!(
            reply,
            ServerMessage::Error(ServerError::CommandSyntaxError(String::from(
                tokens.join(" ")
            )))
        );
    }
}

#[test]
fn test_process_request_set_ex_px_conflict() {
    let mut server = Server::with_new(Storage::new());
    for tokens in [
        ["SET", "k", "v", "EX", "5", "PX", "5"],
        ["SET", "k", "v", "PX", "5", "EX", "5"],
    ] {
        let reply = process_request(&mut server, &cmd(&tokens), 0);
        assert_eq!(
            reply,
            ServerMessage::Error(ServerError::CommandSyntaxError(String::from(
                tokens.join(" ")
            )))
        );
    }
}

#[test]
fn test_process_request_px_expiry() {
    let mut server = Server::with_new(Storage::new());
    let reply = process_request(&mut server, &cmd(&["SET", "k", "v", "PX", "10"]), 1_000);
    assert_eq!(
        reply,
        ServerMessage::Data(ServerValue::RESP(RESP::SimpleString(String::from("OK"))))
    );
    let reply = process_request(&mut server, &cmd(&["GET", "k"]), 1_020);
    assert_eq!(reply, ServerMessage::Data(ServerValue::RESP(RESP::Null)));
}

#[test]
fn test_process_request_mixed_case_name() {
    let mut server = Server::with_new(Storage::new());
    let reply = process_request(&mut server, &cmd(&["PiNg"]), 0);
    assert_eq!(
        reply,
        ServerMessage::Data(ServerValue::RESP(RESP::SimpleString(String::from("PONG"))))
    );
}

#[test]
fn test_server_expire_keys_without_storage() {
    let mut server = Server::new();
    server.expire_keys();
    match server.storage {
        Some(_) => panic!(),
        None => (),
    };
}
