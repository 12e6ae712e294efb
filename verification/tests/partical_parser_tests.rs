use partial_json_parser_rs::partial_parser::{ErrRes, ParseErr, ParseRes};
use partial_json_parser_rs::partical_parser::{
    is_incomplete, is_invalid, parse_arr, parse_key_value, parse_num, parse_spec, parse_string,
    ErrType, JsonType,
};

fn failed_res<'a, O>(output: ParseRes<'a, O>) -> ErrRes<'a> {
    match output {
        Err(ParseErr::Error(err)) | Err(ParseErr::Failure(err)) => err,
        _ => panic!("Output is ok or completion!"),
    }
}

fn word_completion(completion: &str) -> ErrType {
    ErrType::Completion {
        delete: false,
        completion: completion.to_string(),
        json_type: JsonType::Spec,
    }
}

#[test]
fn partical_parser_test_string_complete_without_escaped() {
    let input = r#""laljfwej""#;
    let output = parse_string(input);
    assert_eq!(Ok(("", "laljfwej")), output);
}

#[test]
fn partical_parser_test_string_complete_with_escaped() {
    let input = r#""laljfw\n\fe\"j""#;
    let output = parse_string(input);
    assert_eq!(Ok(("", r#"laljfw\n\fe\"j"#)), output);
}

#[test]
fn partical_parser_test_string_invalid() {
    let input = r#""laljfw\q""#;
    let output = parse_string(input);
    match output {
        Err(ParseErr::Error(err)) | Err(ParseErr::Failure(err)) => {
            assert_eq!(ErrType::Failure, err.err_type);
            assert_eq!(Some(input), err.err_str);
        }
        _ => panic!("Output is ok or completion!"),
    }
}

#[test]
fn partical_parser_test_string_incomplete() {
    let input = r#""laljfw\""#;
    let output = parse_string(input);
    match output {
        Err(ParseErr::Error(err)) | Err(ParseErr::Failure(err)) => {
            assert_eq!(
                ErrType::Completion {
                    delete: false,
                    completion: r#"""#.to_string(),
                    json_type: JsonType::Str
                },
                err.err_type
            );
            assert_eq!(Some(input), err.err_str);
        }
        _ => panic!("Output is ok or completion!"),
    }
}

#[test]
fn test_keyval_incomplete() {
    let err = failed_res(parse_key_value(r#""laljfw""#));
    assert_eq!(
        ErrType::Completion {
            delete: false,
            completion: r#","#.to_string(),
            json_type: JsonType::KeyVal
        },
        err.err_type
    );
    assert_eq!(Some(r#""laljfw""#), err.err_str);
}

#[test]
fn test_keyval_invalid() {
    let err = failed_res(parse_key_value(r#""laljfw" ("#));
    assert_eq!(ErrType::Failure, err.err_type);
    assert_eq!(Some(r#""laljfw" ("#), err.err_str);
}

#[test]
fn keyval_reads_both_strings() {
    assert_eq!(Ok((", 1", ("k", "v"))), parse_key_value(" \"k\" :\"v\", 1"));
    // an unfinished value is completed by its quote and the comma of the pair
    let err = failed_res(parse_key_value("\"k\":\"v"));
    assert_eq!(
        ErrType::Completion {
            delete: false,
            completion: "\",".to_string(),
            json_type: JsonType::Str
        },
        err.err_type
    );
    assert_eq!(Some("\"v"), err.err_str);
}

#[test]
fn test_bool_ok() {
    assert_eq!(Ok(("", "true")), parse_spec("true"));
    assert_eq!(Ok(("", "false")), parse_spec("false"));
    assert_eq!(Ok(("", "NaN")), parse_spec("NaN"));
    assert_eq!(Ok(("", "Null")), parse_spec("Null"));
    assert_eq!(Ok(("", "Infinity")), parse_spec("Infinity"));
    assert_eq!(Ok(("", "-Infinity")), parse_spec("-Infinity"));
}

#[test]
fn test_bool_incomplete() {
    let err = failed_res(parse_spec("tr"));
    assert_eq!(word_completion("ue"), err.err_type);
    assert_eq!(Some("tr"), err.err_str);

    let err = failed_res(parse_spec("fal"));
    assert_eq!(word_completion("se"), err.err_type);
    assert_eq!(Some("fal"), err.err_str);

    let err = failed_res(parse_spec("Na"));
    assert_eq!(word_completion("N"), err.err_type);
    assert_eq!(Some("Na"), err.err_str);

    let err = failed_res(parse_spec("N"));
    assert_eq!(word_completion("ull"), err.err_type);
    assert_eq!(Some("N"), err.err_str);

    let err = failed_res(parse_spec("Inf"));
    assert_eq!(word_completion("inity"), err.err_type);
    assert_eq!(Some("Inf"), err.err_str);

    let err = failed_res(parse_spec("-I"));
    assert_eq!(word_completion("nfinity"), err.err_type);
    assert_eq!(Some("-I"), err.err_str);
}

#[test]
fn test_bool_invalid() {
    let err = failed_res(parse_spec("-"));
    assert_eq!(ErrType::Failure, err.err_type);
    assert_eq!(Some("-"), err.err_str);

    let err = failed_res(parse_spec("tu"));
    assert_eq!(ErrType::Failure, err.err_type);
    assert_eq!(Some("tu"), err.err_str);

    let err = failed_res(parse_spec(""));
    assert_eq!(ErrType::Failure, err.err_type);
    assert_eq!(Some(""), err.err_str);

    let err = failed_res(parse_spec("fl"));
    assert_eq!(ErrType::Failure, err.err_type);
    assert_eq!(Some("fl"), err.err_str);

    let err = failed_res(parse_spec("Nau"));
    assert_eq!(ErrType::Failure, err.err_type);
    assert_eq!(Some("Nau"), err.err_str);
}

#[test]
fn partical_parser_test_num_valid() {
    assert_eq!(Ok((",", "0")), parse_num("0,"));
    assert_eq!(Ok((",", "-0")), parse_num("-0,"));
    assert_eq!(Ok((",", "123")), parse_num("123,"));
    assert_eq!(Ok((" ,", "-123")), parse_num("-123 ,"));
    assert_eq!(Ok((",", "12.34")), parse_num("12.34,"));
    assert_eq!(Ok(("]", "-12.34")), parse_num("-12.34]"));
    assert_eq!(Ok(("}", "0.123")), parse_num("0.123}"));
    assert_eq!(Ok(("  ]", "123e10")), parse_num("123e10  ]"));
    assert_eq!(Ok((",", "123E10")), parse_num("123E10,"));
    assert_eq!(Ok(("  }", "123e+10")), parse_num("123e+10  }"));
    assert_eq!(Ok((" ,", "123e-10")), parse_num("123e-10 ,"));
    assert_eq!(Ok((",", "-123e-10")), parse_num("-123e-10,"));
    assert_eq!(
        Ok((",", "100000000000000000000000000")),
        parse_num("100000000000000000000000000,")
    );
}

#[test]
fn partical_parser_test_num_incomplete() {
    assert!(is_incomplete(&parse_num("1e")));
    assert!(is_incomplete(&parse_num("0")));
    assert!(is_incomplete(&parse_num("-123")));
    assert!(is_incomplete(&parse_num("0.123")));
    assert!(is_incomplete(&parse_num("0.")));
}

#[test]
fn num_without_digits() {
    // the sign alone is the whole text: it may go on
    assert!(is_incomplete(&parse_num("-")));
    assert!(is_invalid(&parse_num(".123")));
    assert!(is_invalid(&parse_num("-x")));
    let err = failed_res(parse_num("-x"));
    assert_eq!("x", err.rest);
    let err = failed_res(parse_num("12"));
    assert_eq!(
        ErrType::Completion { delete: true, completion: String::new(), json_type: JsonType::Num },
        err.err_type
    );
    assert_eq!(Some("12"), err.err_str);
}

#[test]
fn partical_parser_test_arr_valid() {
    assert_eq!(
        Ok(("", r#"["apple", "banana", "cherry"]"#)),
        parse_arr(r#"["apple", "banana", "cherry"]"#)
    );
    assert_eq!(Ok(("", r#"[1, 2, 3, 4, 5]"#)), parse_arr(r#"[1, 2, 3, 4, 5]"#));
    assert_eq!(
        Ok(("", r#"[true, false, false, true]"#)),
        parse_arr(r#"[true, false, false, true]"#)
    );
    assert_eq!(
        Ok(("", r#"[[1, 2, 3], [4, 5, 6], ["seven", "eight", "nine"]]"#)),
        parse_arr(r#"[[1, 2, 3], [4, 5, 6], ["seven", "eight", "nine"]]"#)
    );
}

#[test]
fn arr_unfinished_and_invalid() {
    assert_eq!(Ok((" x", "[]")), parse_arr("[] x"));
    // white space belongs to an item: an array that holds nothing else is not read
    let err = failed_res(parse_arr("[ ]"));
    assert_eq!(ErrType::Failure, err.err_type);
    assert_eq!(" ]", err.rest);
    // the text ends where the closer should stand
    let err = failed_res(parse_arr("[\"a\", \"b\" "));
    assert_eq!(
        ErrType::Completion { delete: false, completion: "]".to_string(), json_type: JsonType::Array },
        err.err_type
    );
    assert_eq!(Some("[\"a\", \"b\" "), err.err_str);
    // a comma that no item follows is left, and is no closer
    let err = failed_res(parse_arr("[1, 2, "));
    assert_eq!(ErrType::Failure, err.err_type);
    assert_eq!(", ", err.rest);
    // a number at the end of the text may go on: it is no item
    let err = failed_res(parse_arr("[1, 2"));
    assert_eq!(ErrType::Failure, err.err_type);
    assert_eq!(", 2", err.rest);
    // an item that cannot be read leaves the comma before it
    let err = failed_res(parse_arr("[1, x]"));
    assert_eq!(ErrType::Failure, err.err_type);
    assert_eq!(", x]", err.rest);
    let err = failed_res(parse_arr("1]"));
    assert_eq!(ErrType::Failure, err.err_type);
    assert_eq!("1]", err.rest);
    let err = failed_res(parse_arr("[[1], [2"));
    assert_eq!(", [2", err.rest);
}
