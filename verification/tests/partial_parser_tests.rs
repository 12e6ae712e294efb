use partial_json_parser_rs::partial_parser::parse_obj::sep;
use partial_json_parser_rs::partial_parser::parse_spec::parse_spec;
use partial_json_parser_rs::partial_parser::parse_string::{
    is_space, is_string_character, parse_key, parse_string, sp,
};
use partial_json_parser_rs::partial_parser::{
    cast, completion, incomplete_cast, is_delete, is_incomplete, is_invalid, remove_sp,
    try_to_failure, ErrRes, ErrType, JsonType, ParseErr, ParseRes,
};

fn failed<'a, O>(output: ParseRes<'a, O>) -> ErrRes<'a> {
    match output {
        Err(ParseErr::Error(err)) | Err(ParseErr::Failure(err)) => err,
        _ => panic!("Output is ok or completion!"),
    }
}

fn spec_completion(completion: &str) -> ErrType {
    ErrType::Completion {
        delete: false,
        completion: completion.to_string(),
        json_type: JsonType::Spec,
    }
}

#[test]
fn test_spec_ok() {
    assert_eq!(Ok(("", "true")), parse_spec("true"));
    assert_eq!(Ok(("", "false")), parse_spec("false"));
    assert_eq!(Ok(("", "NaN")), parse_spec("NaN"));
    assert_eq!(Ok(("", "null")), parse_spec("null"));
    assert_eq!(Ok(("", "Infinity")), parse_spec("Infinity"));
    assert_eq!(Ok(("", "-Infinity")), parse_spec("-Infinity"));
}

#[test]
fn test_spec_incomplete() {
    let err = failed(parse_spec("tr"));
    assert_eq!(spec_completion("ue"), err.err_type);
    assert_eq!(Some("tr"), err.err_str);

    let err = failed(parse_spec("fal"));
    assert_eq!(spec_completion("se"), err.err_type);
    assert_eq!(Some("fal"), err.err_str);

    let err = failed(parse_spec("Na"));
    assert_eq!(spec_completion("N"), err.err_type);
    assert_eq!(Some("Na"), err.err_str);

    let err = failed(parse_spec("n"));
    assert_eq!(spec_completion("ull"), err.err_type);
    assert_eq!(Some("n"), err.err_str);

    let err = failed(parse_spec("Inf"));
    assert_eq!(spec_completion("inity"), err.err_type);
    assert_eq!(Some("Inf"), err.err_str);

    let err = failed(parse_spec("-I"));
    assert_eq!(spec_completion("nfinity"), err.err_type);
    assert_eq!(Some("-I"), err.err_str);
}

#[test]
fn test_spec_invalid() {
    let err = failed(parse_spec("-"));
    assert_eq!(ErrType::Failure, err.err_type);
    assert_eq!(Some("-"), err.err_str);

    let err = failed(parse_spec("tu"));
    assert_eq!(ErrType::Failure, err.err_type);
    assert_eq!(Some("tu"), err.err_str);

    let err = failed(parse_spec(""));
    assert_eq!(ErrType::Failure, err.err_type);
    assert_eq!(Some(""), err.err_str);

    let err = failed(parse_spec("fl"));
    assert_eq!(ErrType::Failure, err.err_type);
    assert_eq!(Some("fl"), err.err_str);

    let err = failed(parse_spec("Nau"));
    assert_eq!(ErrType::Failure, err.err_type);
    assert_eq!(Some("Nau"), err.err_str);
}

#[test]
fn spec_incomplete_ends_the_reading() {
    assert!(matches!(parse_spec("tr"), Err(ParseErr::Failure(_))));
    assert!(matches!(parse_spec("tu"), Err(ParseErr::Error(_))));
}

#[test]
fn spec_keeps_what_follows() {
    assert_eq!(Ok((", 1", "true")), parse_spec("true, 1"));
}

#[test]
fn parse_string_test_string_complete_without_escaped() {
    let input = r#""laljfwej""#;
    let output = parse_string(input);
    assert_eq!(Ok(("", "laljfwej")), output);
}

#[test]
fn parse_string_test_string_complete_with_escaped() {
    let input = r#""laljfw\n\fe\"j""#;
    let output = parse_string(input);
    assert_eq!(Ok(("", r#"laljfw\n\fe\"j"#)), output);
}

#[test]
fn parse_string_test_string_invalid() {
    let input = r#""laljfw\q""#;
    let output = parse_string(input);
    match output {
        Err(ParseErr::Error(err)) | Err(ParseErr::Failure(err)) => {
            assert_eq!(ErrType::Failure, err.err_type);
            assert_eq!(Some(input), err.err_str);
        }
        _ => panic!("Output is ok or completion!"),
    }
}

#[test]
fn parse_string_test_string_incomplete() {
    let input = r#""laljfw\""#;
    let output = parse_string(input);
    match output {
        Err(ParseErr::Error(err)) | Err(ParseErr::Failure(err)) => {
            assert_eq!(
                ErrType::Completion {
                    delete: false,
                    completion: r#"""#.to_string(),
                    json_type: JsonType::Str
                },
                err.err_type
            );
            assert_eq!(Some(input), err.err_str);
        }
        _ => panic!("Output is ok or completion!"),
    }
}

#[test]
fn string_edge_cases() {
    // an empty string has no body to read
    let err = failed(parse_string("\"\""));
    assert_eq!(ErrType::Failure, err.err_type);
    assert_eq!("\"", err.rest);
    // a backslash at the very end makes the whole body the error
    let err = failed(parse_string("\"abc\\"));
    assert_eq!(ErrType::Failure, err.err_type);
    assert_eq!("abc\\", err.rest);
    // a lone quote can be completed
    let err = failed(parse_string("\""));
    assert_eq!(
        ErrType::Completion { delete: false, completion: "\"".to_string(), json_type: JsonType::Str },
        err.err_type
    );
    // what follows the closing quote is left
    assert_eq!(Ok((" : 1", "k")), parse_string("\"k\" : 1"));
    // no quote at the start
    let err = failed(parse_string("abc"));
    assert_eq!(ErrType::Failure, err.err_type);
    assert_eq!("abc", err.rest);
}

#[test]
fn keys_are_deleted_where_the_text_ends_in_them() {
    assert_eq!(Ok((": 1", "k")), parse_key("\"k\": 1"));
    let err = failed(parse_key("\"k"));
    assert_eq!(
        ErrType::Completion { delete: true, completion: String::new(), json_type: JsonType::Str },
        err.err_type
    );
    assert_eq!(Some("\"k"), err.err_str);
    let err = failed(parse_key("k"));
    assert_eq!(ErrType::Failure, err.err_type);
}

#[test]
fn casting_errors() {
    // the first reader to judge an error says whether the text can be completed
    let raw: ParseRes<&str> = Err(ParseErr::Error(ErrRes::simple_cast("  ")));
    assert!(!is_invalid(&raw) && is_incomplete(&raw) && !is_delete(&raw));
    assert_eq!(completion(&raw), None);
    let first = cast(raw, "[1,  ", "]", JsonType::Array, false);
    assert!(is_incomplete(&first));
    assert_eq!(completion(&first), Some("]".to_string()));
    // a later one adds its own completion
    let second = cast(first, "{\"a\": [1,  ", "}", JsonType::Object, false);
    assert_eq!(completion(&second), Some("]}".to_string()));
    let err = failed(second);
    assert_eq!(Some("[1,  "), err.err_str);
    // one that deletes takes the error over
    let raw: ParseRes<&str> = Err(ParseErr::Error(ErrRes::simple_cast("")));
    let first = cast(raw, "\"k", "", JsonType::Str, true);
    assert!(is_delete(&first));
    let second = cast(first, "{\"k", "}", JsonType::Object, true);
    let err = failed(second);
    assert_eq!(Some("{\"k"), err.err_str);
    // text is left where reading stopped: no JSON
    let raw: ParseRes<&str> = Err(ParseErr::Error(ErrRes::simple_cast(" x")));
    assert!(is_invalid(&raw) && !is_incomplete(&raw));
    let judged = cast(raw, "1 x", "", JsonType::Num, false);
    assert!(is_invalid(&judged));
    assert_eq!(completion(&judged), None);
    // a success stays
    let ok: ParseRes<&str> = Ok(("rest", "out"));
    assert_eq!(cast(ok, "x", "y", JsonType::Any, false), Ok(("rest", "out")));
    assert_eq!(JsonType::default(), JsonType::Any);
    assert_eq!(ErrType::default(), ErrType::Failure);
}

#[test]
fn failures_end_the_reading() {
    let raw: ParseRes<&str> = Err(ParseErr::Error(ErrRes::simple_cast("x")));
    assert!(matches!(try_to_failure(raw), Err(ParseErr::Failure(_))));
    let ok: ParseRes<&str> = Ok(("", "x"));
    assert_eq!(try_to_failure(ok), Ok(("", "x")));
    assert_eq!(remove_sp(" \n x "), "x ");
    assert_eq!(sp("  x"), Ok(("x", "  ")));
    assert!(is_string_character('a') && !is_string_character('"') && !is_string_character('\\'));
    assert!(is_space('\t') && !is_space('x'));
}

#[test]
fn colon_between_key_and_value() {
    assert_eq!(Ok(("1", " : ")), sep(" : 1"));
    assert_eq!(Ok(("", ":")), sep(":"));
    assert_eq!(Ok(("\"v\"", ":\t")), sep(":\t\"v\""));
    match sep("  x") {
        Err(ParseErr::Error(err)) => {
            assert_eq!(
                ErrType::Completion {
                    delete: true,
                    completion: String::new(),
                    json_type: JsonType::KeyVal
                },
                err.err_type
            );
            assert_eq!(None, err.err_str);
            assert_eq!("x", err.rest);
        }
        _ => panic!("the colon is missing"),
    }
    assert!(sep("").is_err());
}

#[test]
fn values_that_the_text_ends_in_may_go_on() {
    let ok: ParseRes<&str> = Ok((" , 2", "1"));
    assert_eq!(incomplete_cast(ok, "1 , 2", "", JsonType::Num, true), Ok((" , 2", "1")));
    let ok: ParseRes<&str> = Ok(("]", "1"));
    assert_eq!(incomplete_cast(ok, "1]", "", JsonType::Num, true), Ok(("]", "1")));
    let open: ParseRes<&str> = Ok(("  ", "1"));
    let err = failed(incomplete_cast(open, "1  ", "", JsonType::Num, true));
    assert_eq!(
        ErrType::Completion { delete: true, completion: String::new(), json_type: JsonType::Num },
        err.err_type
    );
    assert_eq!(Some("1  "), err.err_str);
    assert_eq!("", err.rest);
    let raw: ParseRes<&str> = Err(ParseErr::Error(ErrRes::simple_cast("x")));
    let err = failed(incomplete_cast(raw, "x", "", JsonType::Num, true));
    assert_eq!(ErrType::Failure, err.err_type);
}
