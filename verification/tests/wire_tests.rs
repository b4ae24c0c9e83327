//! Whole-cycle exercises: bytes in, decode, dispatch, encode, bytes out.
use miniredis::resp::{bytes_to_resp, RESP};
use miniredis::server::{process_request, Server};
use miniredis::server_result::{ServerMessage, ServerValue};
use miniredis::set::{KeyExipry, SetArgs};
use miniredis::storage::Storage;

fn dispatch_wire(server: &mut Server, wire: &[u8], now: u64) -> ServerMessage {
    let mut index: usize = 0;
    let value = bytes_to_resp(wire, &mut index).unwrap();
    assert_eq!(index, wire.len());
    process_request(server, &value, now)
}

fn reply_bytes(reply: ServerMessage) -> Vec<u8> {
    match reply {
        ServerMessage::Data(ServerValue::RESP(v)) => v.encode(),
        ServerMessage::Error(e) => panic!("unexpected error reply: {:?}", e),
    }
}

#[test]
fn test_wire_ping() {
    let mut server = Server::with_new(Storage::new());
    let reply = dispatch_wire(&mut server, "*1\r\n$4\r\nPING\r\n".as_bytes(), 0);
    assert_eq!(reply_bytes(reply), "+PONG\r\n".as_bytes().to_vec());
}

#[test]
fn test_wire_set_then_get() {
    let mut server = Server::with_new(Storage::new());
    let set_frame = "*3\r\n$3\r\nSET\r\n$3\r\nkey\r\n$5\r\nvalue\r\n".as_bytes();
    let reply = dispatch_wire(&mut server, set_frame, 0);
    assert_eq!(reply_bytes(reply), "+OK\r\n".as_bytes().to_vec());

    let get_frame = "*2\r\n$3\r\nGET\r\n$3\r\nkey\r\n".as_bytes();
    let reply = dispatch_wire(&mut server, get_frame, 1);
    assert_eq!(reply_bytes(reply), "$5\r\nvalue\r\n".as_bytes().to_vec());
}

#[test]
fn test_wire_get_missing_is_null() {
    let mut server = Server::with_new(Storage::new());
    let reply = dispatch_wire(&mut server, "*2\r\n$3\r\nGET\r\n$7\r\nmissing\r\n".as_bytes(), 0);
    assert_eq!(reply_bytes(reply), "$-1\r\n".as_bytes().to_vec());
}

#[test]
fn test_wire_echo() {
    let mut server = Server::with_new(Storage::new());
    let reply = dispatch_wire(&mut server, "*2\r\n$4\r\nECHO\r\n$3\r\nhey\r\n".as_bytes(), 0);
    assert_eq!(reply_bytes(reply), "$3\r\nhey\r\n".as_bytes().to_vec());
}

#[test]
fn test_parse_u64_limits_through_set() {
    // the largest accepted millisecond count, and one past it
    let mut server = Server::with_new(Storage::new());
    let ok = process_request(
        &mut server,
        &cmd(&["SET", "k", "v", "PX", "18446744073709551615"]),
        0,
    );
    assert_eq!(
        ok,
        ServerMessage::Data(ServerValue::RESP(RESP::SimpleString(String::from("OK"))))
    );
    let err = process_request(
        &mut server,
        &cmd(&["SET", "k", "v", "PX", "18446744073709551616"]),
        0,
    );
    assert!(matches!(err, ServerMessage::Error(_)));
}

fn cmd(tokens: &[&str]) -> RESP {
    RESP::Array(
        tokens
            .iter()
            .map(|t| RESP::BulkString(String::from(*t)))
            .collect(),
    )
}

#[test]
fn test_storage_expire_keys_wall_clock() {
    // an entry whose expiry is far in the past is swept at the real clock
    let mut storage = Storage::new();
    let mut px = SetArgs::new();
    px.expiry = Some(KeyExipry::PX(1));
    storage
        .set_at(String::from("k"), String::from("v"), px, 0)
        .unwrap();
    storage.expire_keys();
    assert_eq!(storage.len(), 0);
}

#[test]
fn test_server_expire_keys_with_storage() {
    let mut server = Server::with_new(Storage::new());
    let reply = process_request(&mut server, &cmd(&["SET", "k", "v"]), 0);
    assert!(matches!(reply, ServerMessage::Data(_)));
    server.expire_keys();
    let reply = process_request(&mut server, &cmd(&["GET", "k"]), 1);
    assert_eq!(
        reply,
        ServerMessage::Data(ServerValue::RESP(RESP::BulkString(String::from("v"))))
    );
}
