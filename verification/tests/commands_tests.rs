use miniredis::commands::{echo, get, ping};
use miniredis::resp::RESP;
use miniredis::server::Server;
use miniredis::server_result::{ServerError, ServerMessage, ServerValue};
use miniredis::set::SetArgs;
use miniredis::storage::Storage;

#[test]
fn echo_test_command() {
    let cmd = vec![String::from("echo"), String::from("hey")];
    let reply = echo::command(&cmd);
    assert_eq!(
        reply,
        ServerMessage::Data(ServerValue::RESP(RESP::BulkString(String::from("hey"))))
    );
}

#[test]
fn get_test_command() {
    let mut storage = Storage::new();
    storage
        .set("key".to_string(), "value".to_string(), SetArgs::new())
        .unwrap();
    let mut server = Server::with_new(storage);
    let cmd = vec![String::from("get"), String::from("key")];
    let reply = get::command(&mut server, &cmd, 0);
    assert_eq!(
        reply,
        ServerMessage::Data(ServerValue::RESP(RESP::BulkString(String::from("value"))))
    );
}

#[test]
fn test_storage_not_initialised() {
    let mut server = Server::new();
    let cmd = vec![String::from("get"), String::from("key")];
    let reply = get::command(&mut server, &cmd, 0);
    assert_eq!(
        reply,
        ServerMessage::Error(ServerError::StorageNotInitialized)
    );
}

#[test]
fn test_wrong_syntax() {
    let storage = Storage::new();
    let mut server = Server::with_new(storage);
    let cmd = vec![String::from("get")];
    let reply = get::command(&mut server, &cmd, 0);
    assert_eq!(
        reply,
        ServerMessage::Error(ServerError::CommandSyntaxError("get".to_string()))
    );
}

#[test]
fn test_echo_missing_argument() {
    let cmd = vec![String::from("echo")];
    let reply = echo::command(&cmd);
    assert_eq!(
        reply,
        ServerMessage::Error(ServerError::CommandSyntaxError(String::from("echo")))
    );
}

#[test]
fn test_ping_ignores_arguments() {
    let cmd = vec![String::from("ping"), String::from("noise")];
    let reply = ping::command(&cmd);
    assert_eq!(
        reply,
        ServerMessage::Data(ServerValue::RESP(RESP::SimpleString(String::from("PONG"))))
    );
}

#[test]
fn test_set_command_without_storage() {
    let mut server = Server::new();
    let cmd = vec![
        String::from("set"),
        String::from("k"),
        String::from("v"),
    ];
    let reply = miniredis::commands::set::command(&mut server, &cmd, 0);
    assert_eq!(
        reply,
        ServerMessage::Error(ServerError::StorageNotInitialized)
    );
}

#[test]
fn test_set_command_bad_modifier() {
    let mut server = Server::with_new(Storage::new());
    let cmd = vec![
        String::from("set"),
        String::from("k"),
        String::from("v"),
        String::from("BOGUS"),
    ];
    let reply = miniredis::commands::set::command(&mut server, &cmd, 0);
    assert_eq!(
        reply,
        ServerMessage::Error(ServerError::CommandSyntaxError(String::from("set k v BOGUS")))
    );
}
