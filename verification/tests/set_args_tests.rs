use miniredis::set::{parse_set_arguments, KeyExipry, KeyExistence, SetArgs};
use miniredis::storage_result::StorageError;

fn args(tokens: &[&str]) -> Vec<String> {
    tokens.iter().map(|t| String::from(*t)).collect()
}

#[test]
fn test_parse_empty_arguments() {
    let parsed = parse_set_arguments(&args(&[])).unwrap();
    assert_eq!(parsed, SetArgs::new());
}

#[test]
fn test_parse_nx() {
    let parsed = parse_set_arguments(&args(&["NX"])).unwrap();
    assert_eq!(parsed.existence, Some(KeyExistence::NX));
    assert_eq!(parsed.expiry, None);
}

#[test]
fn test_parse_xx_lowercase() {
    let parsed = parse_set_arguments(&args(&["xx"])).unwrap();
    assert_eq!(parsed.existence, Some(KeyExistence::XX));
}

#[test]
fn test_parse_ex_value() {
    let parsed = parse_set_arguments(&args(&["EX", "5"])).unwrap();
    assert_eq!(parsed.expiry, Some(KeyExipry::EX(5)));
}

#[test]
fn test_parse_px_value() {
    let parsed = parse_set_arguments(&args(&["px", "1500"])).unwrap();
    assert_eq!(parsed.expiry, Some(KeyExipry::PX(1500)));
}

#[test]
fn test_parse_get_flag() {
    let parsed = parse_set_arguments(&args(&["GET"])).unwrap();
    assert!(parsed.get);
}

#[test]
fn test_parse_nx_xx_conflict_both_orders() {
    for tokens in [["NX", "XX"], ["XX", "NX"]] {
        let err = parse_set_arguments(&args(&tokens)).unwrap_err();
        assert_eq!(
            err,
            StorageError::CommandSyntaxError(tokens.join(" "))
        );
    }
}

#[test]
fn test_parse_ex_px_conflict_both_orders() {
    for tokens in [["EX", "5", "PX", "5"], ["PX", "5", "EX", "5"]] {
        let err = parse_set_arguments(&args(&tokens)).unwrap_err();
        assert_eq!(
            err,
            StorageError::CommandSyntaxError(tokens.join(" "))
        );
    }
}

#[test]
fn test_parse_dangling_ex() {
    let err = parse_set_arguments(&args(&["EX"])).unwrap_err();
    assert_eq!(err, StorageError::CommandSyntaxError(String::from("EX")));
}

#[test]
fn test_parse_non_numeric_value() {
    let err = parse_set_arguments(&args(&["PX", "soon"])).unwrap_err();
    assert_eq!(
        err,
        StorageError::CommandSyntaxError(String::from("PX soon"))
    );
}

#[test]
fn test_parse_negative_value() {
    let err = parse_set_arguments(&args(&["EX", "-1"])).unwrap_err();
    assert_eq!(err, StorageError::CommandSyntaxError(String::from("EX -1")));
}

#[test]
fn test_parse_plus_signed_value() {
    let parsed = parse_set_arguments(&args(&["EX", "+5"])).unwrap();
    assert_eq!(parsed.expiry, Some(KeyExipry::EX(5)));
}

#[test]
fn test_parse_unknown_token() {
    let err = parse_set_arguments(&args(&["KEEPTTL"])).unwrap_err();
    assert_eq!(
        err,
        StorageError::CommandSyntaxError(String::from("KEEPTTL"))
    );
}

#[test]
fn test_parse_ex_overwrites_ex() {
    let parsed = parse_set_arguments(&args(&["EX", "5", "EX", "7"])).unwrap();
    assert_eq!(parsed.expiry, Some(KeyExipry::EX(7)));
}
