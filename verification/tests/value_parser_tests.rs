use partial_json_parser_rs::value_parser::parse_spec::{parse_spec, parse_word, shared, first_tag};
use partial_json_parser_rs::value_parser::{
    is_space, parse_array, parse_bool, parse_infinity, parse_nan, parse_ninfinity, parse_null,
    parse_num, parse_string, sp, VParserRes,
};

#[test]
fn parse_num_test_num_valid() {
    assert_eq!(parse_num("0,"), Ok(VParserRes::new("0", false)));
    assert_eq!(parse_num("-0,"), Ok(VParserRes::new("-0", false)));
    assert_eq!(parse_num("123,"), Ok(VParserRes::new("123", false)));
    assert_eq!(parse_num("-123 ,"), Ok(VParserRes::new("-123", false)));
    assert_eq!(parse_num("12.34,"), Ok(VParserRes::new("12.34", false)));
    assert_eq!(parse_num("-12.34]"), Ok(VParserRes::new("-12.34", false)));
    assert_eq!(parse_num("0.123}"), Ok(VParserRes::new("0.123", false)));
    assert_eq!(parse_num("123e10  ]"), Ok(VParserRes::new("123e10", false)));
    assert_eq!(parse_num("123E10,"), Ok(VParserRes::new("123E10", false)));
    assert_eq!(parse_num("123e+10  }"), Ok(VParserRes::new("123e+10", false)));
    assert_eq!(parse_num("123e-10 ,"), Ok(VParserRes::new("123e-10", false)));
    assert_eq!(parse_num("-123e-10,"), Ok(VParserRes::new("-123e-10", false)));
    assert_eq!(
        parse_num("100000000000000000000000000,"),
        Ok(VParserRes::new("100000000000000000000000000", false))
    );
}

#[test]
fn parse_num_test_num_incomplete() {
    assert!(parse_num("1e").is_err());
    assert!(parse_num("1e-").is_err());
    assert!(parse_num("-123E").is_err());
    assert_eq!(parse_num("0."), Ok(VParserRes::new("0", false)));
    assert_eq!(parse_num("12."), Ok(VParserRes::new("12", false)));
    assert!(parse_num("2E-").is_err());
}

#[test]
fn test_num_invalid() {
    assert!(parse_num("-").is_err());
    assert!(parse_num(".123").is_err());
}

#[test]
fn num_edge_cases() {
    assert!(parse_num("").is_err());
    assert!(parse_num("  ").is_err());
    assert_eq!(parse_num("  7"), Ok(VParserRes::new("7", false)));
    assert_eq!(parse_num("1.5e+"), Err(()));
    assert_eq!(parse_num("1.5E7x"), Ok(VParserRes::new("1.5E7", false)));
    assert_eq!(parse_num("12.3.4"), Ok(VParserRes::new("12.3", false)));
    assert_eq!(parse_num("1é"), Ok(VParserRes::new("1", false)));
    assert!(!parse_num("1").unwrap().is_complete());
}

#[test]
fn test_spec() {
    let spec_vec = [
        ("true", 1),
        ("false", 1),
        ("NaN", 1),
        ("null", 1),
        ("Infinity", 1),
        ("-Infinity", 2),
    ];

    for (s, min_len) in spec_vec {
        for (idx, _) in s.char_indices().skip(min_len - 1) {
            println!("{}, {}", idx, &s[..(idx + 1)]);
            let res = parse_spec(&s[..(idx + 1)]).unwrap();
            assert_eq!(s, res.amend_value().as_str());
        }
    }

    assert!(parse_spec("-").is_err())
}

#[test]
fn test_specs() {
    let spec_vec = [
        ("true", 1),
        ("false", 1),
        ("NaN", 1),
        ("null", 1),
        ("Infinity", 1),
        ("-Infinity", 2),
    ];

    for (vec_idx, (s, min_len)) in spec_vec.iter().enumerate() {
        for (idx, _) in s.char_indices().skip(min_len - 1) {
            println!("{}, {}", idx, &s[..(idx + 1)]);
            let res = if vec_idx == 0 || vec_idx == 1 {
                parse_bool(&s[..(idx + 1)]).unwrap()
            } else if vec_idx == 2 {
                parse_nan(&s[..(idx + 1)]).unwrap()
            } else if vec_idx == 3 {
                parse_null(&s[..(idx + 1)]).unwrap()
            } else if vec_idx == 4 {
                parse_infinity(&s[..(idx + 1)]).unwrap()
            } else {
                parse_ninfinity(&s[..(idx + 1)]).unwrap()
            };
            assert_eq!(*s, res.amend_value().as_str());
        }
    }

    assert!(parse_ninfinity("-").is_err())
}

#[test]
fn keywords_complete_and_not() {
    assert_eq!(parse_bool("true"), Ok(VParserRes::new("true", true)));
    assert_eq!(parse_bool("true, 1"), Ok(VParserRes::new("true", true)));
    assert_eq!(parse_bool("  fa"), Ok(VParserRes::new("false", false)));
    assert_eq!(parse_bool(""), Err(()));
    assert_eq!(parse_bool("tx"), Err(()));
    assert_eq!(parse_bool("null"), Err(()));
    assert_eq!(parse_null("nul"), Ok(VParserRes::new("null", false)));
    assert_eq!(parse_nan("NaN"), Ok(VParserRes::new("NaN", true)));
    assert_eq!(parse_infinity("Infinit"), Ok(VParserRes::new("Infinity", false)));
    assert_eq!(parse_ninfinity("-Infinity]"), Ok(VParserRes::new("-Infinity", true)));
    assert_eq!(parse_ninfinity("-I"), Ok(VParserRes::new("-Infinity", false)));
    assert_eq!(parse_word("ab", "abc", 2), Ok(VParserRes::new("abc", false)));
    assert_eq!(parse_word("a", "abc", 2), Err(()));
    assert_eq!(first_tag(&["false", "true"], "true!"), Some("true"));
    assert_eq!(first_tag(&["false", "true"], "tru"), None);
    assert_eq!(shared(&[("abc", 1)], Some("xyz"), "ab"), Ok(VParserRes::new("abc", false)));
    assert_eq!(shared(&[("abc", 1)], Some("xyz"), "q"), Ok(VParserRes::new("xyz", true)));
    assert_eq!(shared(&[("abc", 1)], None, "q"), Err(()));
}

#[test]
fn test_cases() {
    let test_vec = vec![
        r#""hjkhjk"#,
        r#""\u00"#,
        r#""\u0000\b"#,
        r#""abc""#,
        r#""abc\"\"""#,
    ];
    for i in test_vec {
        let res = parse_string(i).unwrap();
        let s = res.amend_value();
        println!("{}", s);
        assert!(serde_json::from_str::<String>(s).is_ok());
    }
}

#[test]
fn strings_complete_and_not() {
    assert_eq!(parse_string("\"abc\""), Ok(VParserRes::new("\"abc\"", true)));
    assert_eq!(parse_string("  \"abc\" , 1"), Ok(VParserRes::new("\"abc\"", true)));
    assert_eq!(parse_string("\"abc"), Ok(VParserRes::new("\"abc\"", false)));
    assert_eq!(parse_string("\""), Ok(VParserRes::new("\"\"", false)));
    // cut before the backslash of an unfinished escape
    assert_eq!(parse_string("\"ab\\"), Ok(VParserRes::new("\"ab\"", false)));
    assert_eq!(parse_string("\"ab\\u12"), Ok(VParserRes::new("\"ab\"", false)));
    assert_eq!(parse_string("\"a\\nb\\u12"), Ok(VParserRes::new("\"a\\nb\"", false)));
    // a finished escape stays
    assert_eq!(parse_string("\"ab\\n"), Ok(VParserRes::new("\"ab\\n\"", false)));
    assert_eq!(parse_string("\"ab\\u0041"), Ok(VParserRes::new("\"ab\\u0041\"", false)));
    assert_eq!(parse_string("\"é\\\"ü"), Ok(VParserRes::new("\"é\\\"ü\"", false)));
    assert_eq!(parse_string(""), Err(()));
    assert_eq!(parse_string("abc"), Err(()));
    assert_eq!(parse_string("\"a\\q"), Err(()));
}

#[test]
fn arrays() {
    let open = parse_array(" [1, 2").unwrap();
    assert!(open.is_complete() && open.stack_recover());
    assert_eq!(open.amend_value().as_str(), "");
    let closed = parse_array("[1, 2]").unwrap();
    assert!(!closed.is_complete() && !closed.stack_recover());
    assert_eq!(parse_array("1]"), Err(()));
    assert_eq!(parse_array(""), Err(()));
}

#[test]
fn white_space() {
    assert_eq!(sp(" \t\r\n x "), ("x ", " \t\r\n "));
    assert_eq!(sp("x"), ("x", ""));
    assert_eq!(sp(""), ("", ""));
    assert_eq!(sp("\u{a0}x"), ("\u{a0}x", ""));
    assert!(is_space(' ') && is_space('\t') && is_space('\r') && is_space('\n'));
    assert!(!is_space('x'));
}

#[test]
fn result_record() {
    let r = VParserRes::new("x", true);
    assert!(r.is_complete());
    assert!(!r.stack_recover());
    assert_eq!(r.amend_value(), "x");
    let r = r.set_stack_recover(true);
    assert!(r.stack_recover());
    assert_eq!(VParserRes::from_string("x".to_string(), true).set_stack_recover(true), r);
}
