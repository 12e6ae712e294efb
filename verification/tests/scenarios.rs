use partial_json_parser_rs::parser::{complete, ParseSettings, ParserError};

fn all() -> ParseSettings {
    ParseSettings::allow_all()
}

/// Whether the two texts are JSON texts of the same value.
fn same_value(a: &str, b: &str) -> bool {
    let a = serde_json::from_str::<serde_json::Value>(a);
    let b = serde_json::from_str::<serde_json::Value>(b);
    a.is_ok() && b.is_ok() && a.unwrap() == b.unwrap()
}

#[test]
fn empty_input_is_rejected() {
    assert_eq!(complete("", all()), Err(ParserError::EmptyInput));
}

#[test]
fn bare_null_is_kept() {
    assert_eq!(complete("null", all()), Ok("null".to_string()));
}

#[test]
fn trailing_comma_is_dropped() {
    assert_eq!(complete("[1, 2,", all()), Ok("[1, 2]".to_string()));
}

#[test]
fn key_without_value_is_dropped() {
    assert_eq!(complete("{\"a\": 1, \"b\":", all()), Ok("{\"a\": 1}".to_string()));
}

#[test]
fn open_string_is_closed() {
    // the value is written right behind the colon: the white space before it is not kept
    let out = complete("[{\"x\": \"abc", all()).unwrap();
    assert_eq!(out, "[{\"x\":\"abc\"}]");
    assert!(same_value(&out, "[{\"x\": \"abc\"}]"));
}

#[test]
fn negative_infinity_is_completed() {
    assert_eq!(complete("[-Infi", all()), Ok("[-Infinity]".to_string()));
}

#[test]
fn unfinished_unicode_escape_is_cut() {
    // the string is cut before the backslash, and written right behind the colon
    let out = complete("{\"k\": \"v\\u00", all()).unwrap();
    assert_eq!(out, "{\"k\":\"v\"}");
    assert!(same_value(&out, "{\"k\": \"v\"}"));
}

#[test]
fn malformed_exponent_behind_the_first_opener() {
    // the number parser fails on the exponent; cut back to the opener, nothing is left
    assert_eq!(complete("[1e", all()), Err(ParserError::Unamendable));
    // behind a comma, the cut falls on the comma and the array is closed
    assert_eq!(complete("[1, 1e", all()), Ok("[1]".to_string()));
}
