use miniredis::resp::{
    binary_extract_bytes, binary_extract_line, binary_extract_line_as_string, bytes_to_resp,
    parse_array, parse_simple_string, resp_remove_type, RESP,
};
use miniredis::resp_result::RESPError;

#[test]
fn test_binary_extract_line_empty_buffer() {
    let buffer = "".as_bytes();
    let mut index: usize = 0;
    match binary_extract_line(buffer, &mut index) {
        Err(RESPError::OutOfBounds(_index)) => {
            assert_eq!(_index, 0);
        }
        _ => panic!(),
    }
}

#[test]
fn test_binary_extract_line_single_character() {
    let buffer = "0".as_bytes();
    let mut index: usize = 0;
    match binary_extract_line(buffer, &mut index) {
        Err(RESPError::OutOfBounds(_index)) => {
            assert_eq!(_index, 1);
        }
        _ => panic!(),
    }
}

#[test]
fn test_binary_extract_line_index_too_advanced() {
    let buffer = "OK".as_bytes();
    let mut index: usize = 1;
    match binary_extract_line(buffer, &mut index) {
        Err(RESPError::OutOfBounds(_index)) => {
            assert_eq!(index, 2);
        }
        _ => panic!(),
    }
}

#[test]
fn test_binary_extract_line_no_separator() {
    let buffer = "OK".as_bytes();
    let mut index: usize = 0;
    match binary_extract_line(buffer, &mut index) {
        Err(RESPError::OutOfBounds(index)) => {
            assert_eq!(index, 2);
        }
        _ => panic!(),
    }
}

#[test]
fn test_binary_extract_line_half_separator() {
    let buffer = "OK\r".as_bytes();
    let mut index: usize = 0;
    match binary_extract_line(buffer, &mut index) {
        Err(RESPError::OutOfBounds(index)) => {
            assert_eq!(index, 3);
        }
        _ => panic!(),
    }
}

#[test]
fn test_binary_extract_line_incorrect_separator() {
    let buffer = "OK\n".as_bytes();
    let mut index: usize = 0;
    match binary_extract_line(buffer, &mut index) {
        Err(RESPError::OutOfBounds(index)) => {
            assert_eq!(index, 3);
        }
        _ => panic!(),
    }
}

#[test]
fn test_binary_extract_line() {
    let buffer = "OK\r\n".as_bytes();
    let mut index: usize = 0;
    let output = binary_extract_line(buffer, &mut index).unwrap();
    assert_eq!(output, "OK".as_bytes());
    assert_eq!(index, 4);
}

#[test]
fn test_binary_extract_line_as_string() {
    let buffer = "OK\r\n".as_bytes();
    let mut index: usize = 0;
    let output = binary_extract_line_as_string(buffer, &mut index).unwrap();
    assert_eq!(output, String::from("OK"));
    assert_eq!(index, 4);
}

#[test]
fn test_binary_remove_type() {
    let buffer = "+OK\r\n".as_bytes();
    let mut index: usize = 0;
    resp_remove_type('+', buffer, &mut index).unwrap();
    assert_eq!(index, 1);
}

#[test]
fn test_binary_remove_type_error() {
    let buffer = "*OK\r\n".as_bytes();
    let mut index: usize = 0;
    let error = resp_remove_type('+', buffer, &mut index).unwrap_err();
    assert_eq!(index, 0);
    assert_eq!(error, RESPError::WrongType);
}

#[test]
fn test_parse_simple_string() {
    let buffer = "+OK\r\n".as_bytes();
    let mut index: usize = 0;
    let output = parse_simple_string(buffer, &mut index).unwrap();
    assert_eq!(output, RESP::SimpleString(String::from("OK")));
    assert_eq!(index, 5);
}

#[test]
fn test_bytes_to_resp_simple_string() {
    let buffer = "+OK\r\n".as_bytes();
    let mut index: usize = 0;
    let output = bytes_to_resp(buffer, &mut index).unwrap();
    assert_eq!(output, RESP::SimpleString(String::from("OK")));
    assert_eq!(index, 5);
}

#[test]
fn test_bytes_to_resp_unknown() {
    let buffer = "?OK\r\n".as_bytes();
    let mut index: usize = 0;
    let error = bytes_to_resp(buffer, &mut index).unwrap_err();
    assert_eq!(error, RESPError::Unknown);
    assert_eq!(index, 0);
}

#[test]
fn test_binary_extract_bytes() {
    let buffer = "SOMEBYTES".as_bytes();
    let mut index: usize = 0;
    let output = binary_extract_bytes(buffer, &mut index, 6).unwrap();
    assert_eq!(output, "SOMEBY".as_bytes().to_vec());
    assert_eq!(index, 6);
}

#[test]
fn test_binary_extract_bytes_out_of_bounds() {
    let buffer = "SOMEBYTES".as_bytes();
    let mut index: usize = 0;
    let error = binary_extract_bytes(buffer, &mut index, 10).unwrap_err();
    assert_eq!(error, RESPError::OutOfBounds(9));
    assert_eq!(index, 0);
}

#[test]
fn test_bytes_to_resp_bulk_string() {
    let buffer = "$2\r\nOK\r\n".as_bytes();
    let mut index: usize = 0;
    let output = bytes_to_resp(buffer, &mut index).unwrap();
    assert_eq!(output, RESP::BulkString(String::from("OK")));
    assert_eq!(index, 8);
}

#[test]
fn test_parse_array() {
    let buffer = "*2\r\n+OK\r\n$5\r\nVALUE\r\n".as_bytes();
    let mut index: usize = 0;
    let output = parse_array(buffer, &mut index).unwrap();
    assert_eq!(
        output,
        RESP::Array(vec![
            RESP::SimpleString(String::from("OK")),
            RESP::BulkString(String::from("VALUE"))
        ])
    );
    assert_eq!(index, 20);
}

#[test]
fn test_parse_array_invalid_length() {
    let buffer = "*-1\r\n+OK\r\n$5\r\nVALUE\r\n".as_bytes();
    let mut index: usize = 0;
    let error = parse_array(buffer, &mut index).unwrap_err();
    assert_eq!(error, RESPError::IncorrectLength(-1));
    assert_eq!(index, 5);
}

#[test]
fn test_bytes_to_resp_array() {
    let buffer = "*2\r\n+OK\r\n$5\r\nVALUE\r\n".as_bytes();
    let mut index: usize = 0;
    let output = bytes_to_resp(buffer, &mut index).unwrap();
    assert_eq!(
        output,
        RESP::Array(vec![
            RESP::SimpleString(String::from("OK")),
            RESP::BulkString(String::from("VALUE"))
        ])
    );
    assert_eq!(index, 20);
}
