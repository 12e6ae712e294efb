use partial_json_parser_rs::parser::{
    complete, CharType, EscapeCnt, ParseSettings, Parser, ParserError,
};
use partial_json_parser_rs::utils::RunState;

fn is_valid_json(json_str: &str) -> bool {
    if let Err(err) = json5::from_str::<serde_json::Value>(json_str) {
        println!("Error: {:?}", err);
        false
    } else {
        true
    }
}

#[test]
fn amend_test_part_pass() {
        let list = [
            r#"[{"*\t<򀣺󼚨  $񺆨=.?'\/\/ 򎎨􂊖`":true}]"#,
            r#"[["¡¡¡¡",null]]"#,
            r#"[{"M\t     ":"|","*\t<򀣺󼚨  $񺆨=.?'\/\/ 򎎨􂊖`":true}]"#,
            r#"null"#,
            r#"{"":null,"󮐋":NaN}"#,
            r#"[[null,[]]]"#,
            r#"[{"*\t<򀣺󼚨  $񺆨=.?'\/\/ 򎎨􂊖`":true,"":0}]"#,
            r#"[[null,[null]]]"#,
            r#"[null,{}]"#,
            r#"[{"":[]}]"#,
            r#"[null,{"":null}]"#,
            r#"[{"L󼸑":[-Infinity],"G𒇗\/:O=":false}]"#,
            r#"[null]"#,
            "{\"\":{\"\":{",
            r#"["a", [[12, []]"#,
            r#"["a", [[12, {"": { "": {}, "": {}"#,
            r#"-Infinity"#,
        ];
    for s in list {
        for (i, _) in s.char_indices() {
            if i == 0 {
                continue;
            }
            let mut parser = Parser::new(&s[..i], ParseSettings::default());
            parser.parse();
            let res = parser.amend();
            println!("input: {}, {:?}", &s[..i], res);
            if let Ok(res) = res {
                assert!(is_valid_json(&res));
            }
        }
    }
}

#[test]
fn amend_test_full_pass() {
        let list = [
            r#"[{"*\t<򀣺󼚨  $񺆨=.?'\/\/ 򎎨􂊖`":true}]"#,
            r#"[["¡¡¡¡",null]]"#,
            r#"[{"M\t     ":"|","*\t<򀣺󼚨  $񺆨=.?'\/\/ 򎎨􂊖`":true}]"#,
            r#"null"#,
            r#"{"":null,"󮐋":NaN}"#,
            r#"[[null,[]]]"#,
            r#"[{"*\t<򀣺󼚨  $񺆨=.?'\/\/ 򎎨􂊖`":true,"":0}]"#,
            r#"[[null,[null]]]"#,
            r#"[null,{}]"#,
            r#"[{"":[]}]"#,
            r#"[null,{"":null}]"#,
            r#"[{"L󼸑":[-Infinity],"G𒇗\/:O=":false}]"#,
            r#"[null]"#,
            r#""-Infinity""#,
        ];
    for s in list {
        if !is_valid_json(s) {
            continue;
        }
        println!("{}", s);
        let mut parser = Parser::new(s, ParseSettings::default());
        parser.parse();
        let res = parser.amend();
        println!("input: {}, {:?}", s, res);
        if let Ok(res) = res {
            assert!(is_valid_json(&res));
        } else {
            panic!("Should Ok")
        }
        assert!(is_valid_json(s));
    }
}

#[test]
fn amended_prefixes_parse_with_every_kind_allowed() {
        let list = [
            r#"[{"*\t<򀣺󼚨  $񺆨=.?'\/\/ 򎎨􂊖`":true}]"#,
            r#"[["¡¡¡¡",null]]"#,
            r#"[{"M\t     ":"|","*\t<򀣺󼚨  $񺆨=.?'\/\/ 򎎨􂊖`":true}]"#,
            r#"null"#,
            r#"{"":null,"󮐋":NaN}"#,
            r#"[[null,[]]]"#,
            r#"[{"*\t<򀣺󼚨  $񺆨=.?'\/\/ 򎎨􂊖`":true,"":0}]"#,
            r#"[[null,[null]]]"#,
            r#"[null,{}]"#,
            r#"[{"":[]}]"#,
            r#"[null,{"":null}]"#,
            r#"[{"L󼸑":[-Infinity],"G𒇗\/:O=":false}]"#,
            r#"[null]"#,
            "{\"\":{\"\":{",
            r#"["a", [[12, []]"#,
            r#"["a", [[12, {"": { "": {}, "": {}"#,
            r#"-Infinity"#,
        ];
    for s in list {
        for (i, _) in s.char_indices() {
            if i == 0 {
                continue;
            }
            if let Ok(res) = complete(&s[..i], ParseSettings::allow_all()) {
                assert!(is_valid_json(&res), "prefix {:?} gave {:?}", &s[..i], res);
            }
        }
    }
}

#[test]
fn complete_documents_come_back_unchanged() {
    for s in ["[1, 2]", "{\"a\": [1, {\"b\": null}], \"c\": \"x,y\"}", " [ ] ", "{}", "[[],[{}]]"] {
        assert_eq!(complete(s, ParseSettings::default()), Ok(s.to_string()));
        assert_eq!(complete(s, ParseSettings::allow_all()), Ok(s.to_string()));
    }
    assert_eq!(complete("true", ParseSettings::allow_all()), Ok("true".to_string()));
    assert_eq!(complete("12.5e3", ParseSettings::allow_all()), Ok("12.5e3".to_string()));
    assert_eq!(complete("\"a\\nb\"", ParseSettings::default()), Ok("\"a\\nb\"".to_string()));
    // white space around a bare value is not kept
    assert_eq!(complete("  null ", ParseSettings::default()), Ok("null".to_string()));
}

#[test]
fn scan_of_a_whole_text() {
    let s = "{\"a,b\": [1, 2], \"c\": {\"d\": \"]\"}}";
    let mut parser = Parser::new(s, ParseSettings::default());
    assert!(parser.is_parsed().is_none());
    parser.parse();
    assert!(parser.is_parsed().is_success());
    assert_eq!(parser.stack_len(), 0);
    assert!(!parser.in_string());
    assert_eq!(parser.last_sep(), Some(14));
    assert_eq!(parser.last_colon(), Some(25));
    assert_eq!(parser.last_rbracket(), Some(s.len() - 1));
    // no string in the text: the last comma is the last one of the text
    let t = "[1, [2, 3], 4]";
    let mut parser = Parser::new(t, ParseSettings::default());
    parser.parse();
    assert_eq!(parser.last_sep(), t.rfind(','));
    assert_eq!(parser.stack_len(), 0);
}

#[test]
fn scan_of_prefixes_of_a_container() {
    let s = "[{\"k\": \"\\u00e9x\", \"l\": [true, -Infinity]}, \"é\"]";
    for (i, _) in s.char_indices() {
        if i < 1 {
            continue;
        }
        let mut parser = Parser::new(&s[..i], ParseSettings::default());
        parser.parse();
        assert!(parser.is_parsed().is_success(), "prefix {:?}", &s[..i]);
        assert!(parser.stack_len() > 0, "prefix {:?}", &s[..i]);
        // no more is open than openers were read
        let openers = s[..i].chars().filter(|c| *c == '[' || *c == '{').count();
        assert!(parser.stack_len() <= openers);
        // every offset kept can be cut at
        for k in 0..parser.stack_len() {
            let (off, kind) = parser.stack_item(k);
            assert!(s.is_char_boundary(off) && s.is_char_boundary(off + 1));
            assert!(kind == CharType::LFB || kind == CharType::LCB);
        }
        for off in [parser.last_sep(), parser.last_colon(), parser.last_rbracket()] {
            if let Some(off) = off {
                assert!(s.is_char_boundary(off) && s.is_char_boundary(off + 1));
            }
        }
    }
}

#[test]
fn stack_holds_the_open_containers() {
    let mut parser = Parser::new("[1, {\"a\": [", ParseSettings::default());
    parser.parse();
    assert_eq!(parser.stack_len(), 3);
    assert_eq!(parser.stack_item(0), (0, CharType::LFB));
    assert_eq!(parser.stack_item(1), (4, CharType::LCB));
    assert_eq!(parser.stack_item(2), (10, CharType::LFB));
    assert_eq!(parser.opener_before(10), Some((4, CharType::LCB)));
    assert_eq!(parser.opener_before(0), None);
    assert_eq!(parser.get_recover_idx(Some(8)), Ok(5));
    assert_eq!(parser.get_recover_idx(None), Ok(10));
    assert_eq!(parser.get_is_amend(Some(2)), Some(false));
    assert_eq!(parser.get_is_amend(Some(8)), Some(true));
    assert_eq!(parser.get_is_amend(None), Some(false));
    parser.stack_recover(4);
    assert_eq!(parser.stack_len(), 1);
}

#[test]
fn unmatched_closer_is_an_error() {
    assert_eq!(complete("]", ParseSettings::allow_all()), Err(ParserError::StructuralMismatch));
    assert_eq!(complete("[1}", ParseSettings::allow_all()), Err(ParserError::StructuralMismatch));
    assert_eq!(complete("{\"a\": 1]", ParseSettings::allow_all()), Err(ParserError::StructuralMismatch));
    let mut parser = Parser::new("[1}, 2", ParseSettings::default());
    parser.parse();
    assert!(parser.is_parsed().is_error());
    assert!(matches!(parser.is_parsed(), RunState::Error(ParserError::StructuralMismatch)));
    // the scan stopped at the closer
    assert_eq!(parser.last_rbracket(), Some(2));
    assert_eq!(parser.last_sep(), None);
    assert_eq!(parser.stack_len(), 1);
}

#[test]
fn illegal_escape_is_an_error() {
    assert_eq!(complete("[\"a\\q\"]", ParseSettings::allow_all()), Err(ParserError::IllegalEscape));
    assert_eq!(complete("[\"\\u12x4\"]", ParseSettings::allow_all()), Err(ParserError::IllegalEscape));
    assert_eq!(complete("[\"\\é", ParseSettings::allow_all()), Err(ParserError::IllegalEscape));
}

#[test]
fn nothing_left_is_an_error() {
    assert_eq!(complete("[", ParseSettings::allow_all()), Err(ParserError::Unamendable));
    assert_eq!(complete("{\"a", ParseSettings::allow_all()), Err(ParserError::Unamendable));
    assert_eq!(complete("-", ParseSettings::allow_all()), Err(ParserError::Unamendable));
    assert_eq!(complete(":[", ParseSettings::allow_all()), Err(ParserError::Unamendable));
    // a value that may not be completed, with nothing before it
    assert_eq!(complete("nul", ParseSettings::default()), Err(ParserError::Unamendable));
    assert_eq!(complete("12", ParseSettings::default()), Err(ParserError::Unamendable));
}

#[test]
fn malformed_exponent_is_not_kept() {
    // the number parser fails on the exponent, and the cut falls on the opener
    assert_eq!(complete("[1e", ParseSettings::allow_all()), Err(ParserError::Unamendable));
    // with an item before it, the cut falls on the comma
    assert_eq!(complete("[0, 1e", ParseSettings::allow_all()), Ok("[0]".to_string()));
    assert_eq!(complete("[0, 1e-", ParseSettings::allow_all()), Ok("[0]".to_string()));
    assert_eq!(complete("[0, 1e-3", ParseSettings::allow_all()), Ok("[0,1e-3]".to_string()));
    assert_eq!(complete("[0, 1.", ParseSettings::allow_all()), Ok("[0,1]".to_string()));
}

#[test]
fn settings_decide_on_unfinished_values() {
    let none = ParseSettings::default();
    let all = ParseSettings::allow_all();
    assert_eq!(complete("[1, tru", all), Ok("[1,true]".to_string()));
    assert_eq!(complete("[1, tru", none), Ok("[1]".to_string()));
    assert_eq!(complete("[1, true", none), Ok("[1,true]".to_string()));
    assert_eq!(complete("[1, \"ab", none), Ok("[1]".to_string()));
    assert_eq!(complete("[1, \"ab\"", none), Ok("[1,\"ab\"]".to_string()));
    assert_eq!(complete("[1, 2", none), Ok("[1]".to_string()));
    assert_eq!(complete("[1, N", all), Ok("[1,NaN]".to_string()));
    assert_eq!(complete("[1, n", all), Ok("[1,null]".to_string()));
    assert_eq!(complete("[1, I", all), Ok("[1,Infinity]".to_string()));
    assert_eq!(complete("[1, -I", all), Ok("[1,-Infinity]".to_string()));
    let only_numbers = ParseSettings { allow_number: true, ..none };
    assert_eq!(complete("{\"a\": 12", only_numbers), Ok("{\"a\":12}".to_string()));
    assert_eq!(complete("{\"a\": nu", only_numbers), Ok("{}".to_string()));
}

#[test]
fn cut_points() {
    let all = ParseSettings::allow_all();
    // colon behind comma: the member is cut off at the comma
    assert_eq!(complete("{\"a\": 1, \"b\": [", all), Ok("{\"a\": 1}".to_string()));
    // comma behind colon in an object: a key may not be completed
    assert_eq!(complete("{\"a\": 1, \"b", all), Ok("{\"a\": 1}".to_string()));
    // only a colon: cut just behind the opener before it
    assert_eq!(complete("[{\"a\": [", all), Ok("[{}]".to_string()));
    // nothing but openers
    assert_eq!(complete("[[[", all), Ok("[[]]".to_string()));
    assert_eq!(complete("[[[1", all), Ok("[[[1]]]".to_string()));
    // the text ends with a closer
    assert_eq!(complete("{\"a\": [1, {\"b\": 2}", all), Ok("{\"a\": [1, {\"b\": 2}]}".to_string()));
    assert_eq!(complete("[[] ", all), Ok("[[]]".to_string()));
    // a comma in an array, then what is no value
    assert_eq!(complete("[[1], [", all), Ok("[[1]]".to_string()));
}

#[test]
fn parser_uses_the_default_settings() {
    assert_eq!(Parser::parser("[1, tru"), Ok("[1]".to_string()));
    assert_eq!(Parser::parser(""), Err(ParserError::EmptyInput));
    assert_eq!(Parser::parser("[1, 2,"), Ok("[1, 2]".to_string()));
}

#[test]
fn cut_and_amend_reads_one_value() {
    let mut parser = Parser::new("[1,  fal", ParseSettings::allow_all());
    parser.parse();
    assert_eq!(parser.cut_and_amend(3, true), Ok("false".to_string()));
    assert_eq!(parser.cut_and_amend(0, true), Err(false));
    let mut parser = Parser::new("[1,  fal", ParseSettings::default());
    parser.parse();
    assert_eq!(parser.cut_and_amend(3, true), Err(true));
    let mut parser = Parser::new("[\"ab", ParseSettings::allow_all());
    parser.parse();
    assert_eq!(parser.cut_and_amend(1, true), Ok("\"ab\"".to_string()));
    assert_eq!(parser.cut_and_amend(1, false), Err(true));
}

#[test]
fn error_reasons() {
    assert_eq!(ParserError::EmptyInput.reason(), "Input str is Empty");
    assert_eq!(ParserError::Unamendable.reason(), "Amend Error in parser");
    assert!(!ParserError::StructuralMismatch.reason().is_empty());
    assert!(!ParserError::IllegalEscape.reason().is_empty());
}

#[test]
fn char_types() {
    assert_eq!(CharType::simple_from_char(':'), CharType::Colon);
    assert_eq!(CharType::simple_from_char(','), CharType::Comma);
    assert_eq!(CharType::simple_from_char('"'), CharType::Quotation);
    assert_eq!(CharType::simple_from_char('\\'), CharType::Escape);
    assert_eq!(CharType::simple_from_char('['), CharType::LFB);
    assert_eq!(CharType::simple_from_char(']'), CharType::RFB);
    assert_eq!(CharType::simple_from_char('{'), CharType::LCB);
    assert_eq!(CharType::simple_from_char('}'), CharType::RCB);
    assert_eq!(CharType::simple_from_char('x'), CharType::Normal);
    assert_eq!(CharType::default(), CharType::Normal);
    assert_eq!(CharType::LFB.partial_pair(), Some(CharType::RFB));
    assert_eq!(CharType::LCB.partial_pair(), Some(CharType::RCB));
    assert_eq!(CharType::Quotation.partial_pair(), Some(CharType::Quotation));
    assert_eq!(CharType::Comma.partial_pair(), None);
    assert_eq!(CharType::RFB.partial_pair_rev(), Some(CharType::LFB));
    assert_eq!(CharType::RCB.partial_pair_rev(), Some(CharType::LCB));
    assert_eq!(CharType::LFB.partial_pair_rev(), None);
    assert!(CharType::LFB.is_left_available() && CharType::LCB.is_left_available());
    assert!(!CharType::RFB.is_left_available());
    assert!(CharType::RFB.is_right_available() && CharType::RCB.is_right_available());
    assert!(!CharType::Colon.is_right_available());
    assert_eq!(CharType::RCB.type_string(), "}");
    assert_eq!(CharType::Escape.type_string(), "\\");
    assert_eq!(CharType::Special.type_string(), "");
    assert_eq!(CharType::option_type_string(Some(CharType::LFB)), "[");
    assert_eq!(CharType::option_type_string(None), "");
}

#[test]
fn escape_counter() {
    let mut e = EscapeCnt::new();
    assert_eq!(e.input('a'), Ok(CharType::Special));
    assert_eq!(e.cnt(), 0);
    assert_eq!(e.input('\\'), Ok(CharType::Escape));
    assert_eq!(e.cnt(), 1);
    assert_eq!(e.input('n'), Ok(CharType::Normal));
    assert_eq!(e.cnt(), 0);
    assert_eq!(e.input('\\'), Ok(CharType::Escape));
    assert_eq!(e.input('u'), Ok(CharType::Special));
    assert_eq!(e.input('0'), Ok(CharType::Special));
    assert_eq!(e.input('a'), Ok(CharType::Special));
    assert_eq!(e.input('F'), Ok(CharType::Special));
    assert_eq!(e.cnt(), 1);
    assert_eq!(e.input('9'), Ok(CharType::Normal));
    assert_eq!(e.cnt(), 0);
    assert_eq!(e.input('"'), Ok(CharType::Quotation));
    assert_eq!(e.input('\\'), Ok(CharType::Escape));
    assert_eq!(e.input('q'), Err(ParserError::IllegalEscape));
    assert_eq!(e.cnt(), 1);
    assert_eq!(e.input('u'), Ok(CharType::Special));
    assert_eq!(e.input('g'), Err(ParserError::IllegalEscape));
    assert_eq!(e.valid_esc_char(&'1'), Some(false));
    assert!(EscapeCnt::valid_hex_char(&'f') && !EscapeCnt::valid_hex_char(&'G'));
}

#[test]
fn state_machine_follows_strings() {
    let mut parser = Parser::new("x", ParseSettings::default());
    assert_eq!(parser.state_machine_input('['), Ok(CharType::LFB));
    assert_eq!(parser.state_machine_input('"'), Ok(CharType::Quotation));
    assert!(parser.in_string());
    assert_eq!(parser.state_machine_input('['), Ok(CharType::Special));
    assert_eq!(parser.state_machine_input('\\'), Ok(CharType::Escape));
    assert_eq!(parser.state_machine_input('"'), Ok(CharType::Normal));
    assert_eq!(parser.state_machine_input('"'), Ok(CharType::Quotation));
    assert!(!parser.in_string());
    assert_eq!(parser.state_machine_input(','), Ok(CharType::Comma));
}

#[test]
fn traces() {
    let mut parser = Parser::new("[1, {\"a\": \"b", ParseSettings::default());
    parser.parse();
    let title = |s: &str| format!("################################ {} ################################\n", s);
    let stack = format!("{}idx: 0, item [ at 0 of str\nidx: 1, item {{ at 4 of str\n", title("Stack Tracer"));
    assert_eq!(parser.stack_tracer(), stack);
    let want = format!(
        "{}{}{}InStr(EscapeCnt {{ cnt: 0, u_mode: false, u_cnt: 0 }})\n{}Some(2), , {{\"a\": \"b\n",
        title("Parse Tracer"),
        stack,
        title("State"),
        title("Last Sep")
    );
    assert_eq!(parser.parse_tracer(), want);
    let mut parser = Parser::new("[12345678901]]", ParseSettings::default());
    parser.parse();
    let want = format!(
        "{}{}{}NotInStr\n{}None, None\n{}{}\n",
        title("Parse Tracer"),
        title("Stack Tracer"),
        title("State"),
        title("Last Sep"),
        title("Parse State"),
        ParserError::StructuralMismatch.reason()
    );
    assert_eq!(parser.parse_tracer(), want);
}

fn parser_full_pass(s: &str) -> Result<(), String> {
    let mut parser = Parser::new(s, ParseSettings::default());
    parser.parse();
    let res = if parser.is_parsed().is_none() {
        Err("is_paresed is false\n".to_string())
    } else if parser.last_sep() != s.rfind(',') {
        let res = format!("left: {:?}, right: {:?}\n", parser.last_sep(), s.rfind(','));
        Err("Wrong last_sep: ".to_string() + &res + "\n")
    } else if parser.stack_len() != 0 {
        Err("Stack is not empty\n".to_string())
    } else if parser.is_parsed().is_error() {
        Err("Should not get parse error\n".to_string())
    } else {
        Ok(())
    };
    res.map_err(|err| "\n".to_string() + &err + &parser.parse_tracer())
}

#[test]
fn parser_test_full_pass() {
    // whole texts in which no string holds a comma
    let cases = [
        r#"[["¡¡¡¡",null]]"#,
        r#"null"#,
        r#"{"":null,"k":NaN}"#,
        r#"[[null,[]]]"#,
        r#"[[null,[null]]]"#,
        r#"[null,{}]"#,
        r#"[{"":[]}]"#,
        r#"[null,{"":null}]"#,
        r#"[{"L":[-Infinity],"G𒇗\/:O=":false}]"#,
        r#"{"a": [1, 2.5, -3e7], "b": {"c": "x]y}", "d": true}}"#,
    ];
    let mut results = Vec::new();
    for case in cases {
        results.push(RunState::from(parser_full_pass(case)));
    }
    for (case, res) in cases.iter().zip(results.iter()) {
        if let RunState::Error(s) = res {
            println!("{}: {}", case, s);
        }
    }
    assert!(partial_json_parser_rs::utils::none_failed(&results));
}
