use miniredis::resp::{bytes_to_resp, RESP};
use miniredis::resp_result::RESPError;

#[test]
fn test_encode_simple_string() {
    let v = RESP::SimpleString(String::from("OK"));
    assert_eq!(v.encode(), "+OK\r\n".as_bytes().to_vec());
}

#[test]
fn test_encode_bulk_string() {
    let v = RESP::BulkString(String::from("hello"));
    assert_eq!(v.encode(), "$5\r\nhello\r\n".as_bytes().to_vec());
}

#[test]
fn test_encode_null() {
    assert_eq!(RESP::Null.encode(), "$-1\r\n".as_bytes().to_vec());
}

#[test]
fn test_encode_array() {
    let v = RESP::Array(vec![
        RESP::SimpleString(String::from("OK")),
        RESP::BulkString(String::from("VALUE")),
    ]);
    assert_eq!(v.encode(), "*2\r\n+OK\r\n$5\r\nVALUE\r\n".as_bytes().to_vec());
}

#[test]
fn test_encode_bulk_length_is_byte_count() {
    // a two-character text whose encoding takes four bytes
    let v = RESP::BulkString(String::from("éé"));
    assert_eq!(v.encode(), "$4\r\n\u{e9}\u{e9}\r\n".to_string().into_bytes());
}

#[test]
fn test_round_trip_decoded_value() {
    let buffer = "*3\r\n+OK\r\n$5\r\nVALUE\r\n$-1\r\n".as_bytes();
    let mut index: usize = 0;
    let decoded = bytes_to_resp(buffer, &mut index).unwrap();
    let encoded = decoded.encode();
    assert_eq!(encoded, buffer.to_vec());
    let mut index2: usize = 0;
    let redecoded = bytes_to_resp(&encoded, &mut index2).unwrap();
    assert_eq!(redecoded, decoded);
    assert_eq!(index2, encoded.len());
}

#[test]
fn test_round_trip_nested_array() {
    let v = RESP::Array(vec![
        RESP::Array(vec![RESP::BulkString(String::from("a"))]),
        RESP::Null,
        RESP::SimpleString(String::from("fin")),
    ]);
    let encoded = v.encode();
    let mut index: usize = 0;
    let redecoded = bytes_to_resp(&encoded, &mut index).unwrap();
    assert_eq!(redecoded, v);
    assert_eq!(index, encoded.len());
}

#[test]
fn test_empty_simple_string_needs_trailing_bytes() {
    // an empty line decodes only when more bytes follow the terminator
    let mut index: usize = 0;
    let decoded = bytes_to_resp("+\r\nX".as_bytes(), &mut index).unwrap();
    assert_eq!(decoded, RESP::SimpleString(String::from("")));
    assert_eq!(index, 3);
    let mut index2: usize = 0;
    let error = bytes_to_resp(&decoded.encode(), &mut index2).unwrap_err();
    assert_eq!(error, RESPError::OutOfBounds(3));
}

#[test]
fn test_decode_bulk_invalid_utf8() {
    let buffer: Vec<u8> = vec![b'$', b'2', 13, 10, 0xff, 0xfe, 13, 10];
    let mut index: usize = 0;
    let error = bytes_to_resp(&buffer, &mut index).unwrap_err();
    assert_eq!(error, RESPError::FromUtf8);
}

#[test]
fn test_decode_length_not_a_number() {
    let buffer = "$xx\r\nOK\r\n".as_bytes();
    let mut index: usize = 0;
    let error = bytes_to_resp(buffer, &mut index).unwrap_err();
    assert_eq!(error, RESPError::ParseInt);
}

#[test]
fn test_decode_length_overflows() {
    let buffer = "$99999999999\r\nOK\r\n".as_bytes();
    let mut index: usize = 0;
    let error = bytes_to_resp(buffer, &mut index).unwrap_err();
    assert_eq!(error, RESPError::ParseInt);
}

#[test]
fn test_decode_bulk_negative_length() {
    let buffer = "$-2\r\nOK\r\n".as_bytes();
    let mut index: usize = 0;
    let error = bytes_to_resp(buffer, &mut index).unwrap_err();
    assert_eq!(error, RESPError::IncorrectLength(-2));
}

#[test]
fn test_decode_null() {
    let buffer = "$-1\r\n".as_bytes();
    let mut index: usize = 0;
    let decoded = bytes_to_resp(buffer, &mut index).unwrap();
    assert_eq!(decoded, RESP::Null);
    assert_eq!(index, 5);
}

#[test]
fn test_decode_leaves_trailing_bytes() {
    let buffer = "+OK\r\n+MORE\r\n".as_bytes();
    let mut index: usize = 0;
    let decoded = bytes_to_resp(buffer, &mut index).unwrap();
    assert_eq!(decoded, RESP::SimpleString(String::from("OK")));
    assert_eq!(index, 5);
    let next = bytes_to_resp(buffer, &mut index).unwrap();
    assert_eq!(next, RESP::SimpleString(String::from("MORE")));
    assert_eq!(index, buffer.len());
}

#[test]
fn test_decode_length_with_leading_zeros() {
    let buffer = "$02\r\nOK\r\n".as_bytes();
    let mut index: usize = 0;
    let decoded = bytes_to_resp(buffer, &mut index).unwrap();
    assert_eq!(decoded, RESP::BulkString(String::from("OK")));
    assert_eq!(index, 9);
}

#[test]
fn test_decode_empty_array() {
    let buffer = "*0\r\n".as_bytes();
    let mut index: usize = 0;
    let decoded = bytes_to_resp(buffer, &mut index).unwrap();
    assert_eq!(decoded, RESP::Array(vec![]));
    assert_eq!(index, 4);
}

#[test]
fn test_decode_utf8_bulk_string() {
    let buffer = "$4\r\n\u{e9}\u{e9}\r\n".as_bytes();
    let mut index: usize = 0;
    let decoded = bytes_to_resp(buffer, &mut index).unwrap();
    assert_eq!(decoded, RESP::BulkString(String::from("éé")));
    assert_eq!(index, buffer.len());
}
