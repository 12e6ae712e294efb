use partial_json_parser_rs::parser::{complete, ParseSettings, Parser};

/// A small generator of pseudo-random numbers, the same on every run.
struct Rng(u64);

impl Rng {
    fn next(&mut self) -> u64 {
        self.0 = self.0.wrapping_mul(6364136223846793005).wrapping_add(1442695040888963407);
        self.0 >> 33
    }

    fn below(&mut self, n: u64) -> u64 {
        self.next() % n
    }
}

fn space(rng: &mut Rng, out: &mut String) {
    for _ in 0..rng.below(3) {
        out.push([' ', '\t', '\n', '\r'][rng.below(4) as usize]);
    }
}

fn string(rng: &mut Rng, out: &mut String) {
    out.push('"');
    for _ in 0..rng.below(6) {
        match rng.below(12) {
            0 => out.push_str("\\n"),
            1 => out.push_str("\\\""),
            2 => out.push_str("\\\\"),
            3 => out.push_str("\\u00e9"),
            4 => out.push_str("\\uABcd"),
            5 => out.push('é'),
            6 => out.push('𒇗'),
            7 => out.push_str("\\/"),
            8 => out.push([',', ':', '[', ']', '{', '}'][rng.below(6) as usize]),
            9 => out.push(' '),
            _ => out.push((b'a' + rng.below(26) as u8) as char),
        }
    }
    out.push('"');
}

fn number(rng: &mut Rng, out: &mut String) {
    if rng.below(3) == 0 {
        out.push('-');
    }
    out.push_str(&rng.below(1000).to_string());
    if rng.below(3) == 0 {
        out.push('.');
        out.push_str(&rng.below(100).to_string());
    }
    if rng.below(4) == 0 {
        out.push(['e', 'E'][rng.below(2) as usize]);
        match rng.below(3) {
            0 => out.push('-'),
            1 => out.push('+'),
            _ => {}
        }
        out.push_str(&rng.below(20).to_string());
    }
}

fn value(rng: &mut Rng, depth: u32, words: &[&str], out: &mut String) {
    let kinds = if depth == 0 { 3 } else { 5 };
    match rng.below(kinds) {
        0 => out.push_str(words[rng.below(words.len() as u64) as usize]),
        1 => number(rng, out),
        2 => string(rng, out),
        3 => {
            out.push('[');
            let n = rng.below(4);
            if n == 0 {
                space(rng, out);
            }
            for k in 0..n {
                if k > 0 {
                    out.push(',');
                }
                space(rng, out);
                value(rng, depth - 1, words, out);
                space(rng, out);
            }
            out.push(']');
        }
        _ => {
            out.push('{');
            let n = rng.below(4);
            if n == 0 {
                space(rng, out);
            }
            for k in 0..n {
                if k > 0 {
                    out.push(',');
                }
                space(rng, out);
                string(rng, out);
                space(rng, out);
                out.push(':');
                space(rng, out);
                value(rng, depth - 1, words, out);
                space(rng, out);
            }
            out.push('}');
        }
    }
}

fn document(rng: &mut Rng, words: &[&str]) -> String {
    let mut out = String::new();
    value(rng, 4, words, &mut out);
    out
}

fn strict(s: &str) -> bool {
    serde_json::from_str::<serde_json::Value>(s).is_ok()
}

fn lenient(s: &str) -> bool {
    json5::from_str::<serde_json::Value>(s).is_ok()
}

fn check_prefixes(seed: u64, count: usize, words: &[&str], settings: ParseSettings, valid: fn(&str) -> bool) {
    let mut rng = Rng(seed);
    for _ in 0..count {
        let doc = document(&mut rng, words);
        assert!(valid(&doc), "generated {:?}", doc);
        for (i, _) in doc.char_indices().skip(1) {
            if let Ok(res) = complete(&doc[..i], settings) {
                assert!(valid(&res), "prefix {:?} gave {:?}", &doc[..i], res);
            }
        }
        if let Ok(res) = complete(&doc, settings) {
            assert!(valid(&res), "text {:?} gave {:?}", doc, res);
        }
    }
}

#[test]
fn amended_prefixes_are_json_with_every_kind_allowed() {
    check_prefixes(1, 1500, &["null", "true", "false"], ParseSettings::allow_all(), strict);
}

#[test]
fn amended_prefixes_are_json_with_no_kind_allowed() {
    check_prefixes(2, 1500, &["null", "true", "false"], ParseSettings::default(), strict);
}

#[test]
fn amended_prefixes_are_json5_with_every_keyword() {
    let words = ["null", "true", "false", "NaN", "Infinity", "-Infinity"];
    check_prefixes(3, 800, &words, ParseSettings::allow_all(), lenient);
}

#[test]
fn containers_come_back_unchanged() {
    let mut rng = Rng(4);
    let mut seen = 0;
    while seen < 500 {
        let doc = document(&mut rng, &["null", "true", "false", "NaN", "-Infinity"]);
        if !(doc.starts_with('[') || doc.starts_with('{')) {
            continue;
        }
        seen += 1;
        assert_eq!(complete(&doc, ParseSettings::default()), Ok(doc.clone()));
        assert_eq!(complete(&doc, ParseSettings::allow_all()), Ok(doc.clone()));
    }
}

#[test]
fn scans_of_texts_and_of_their_prefixes() {
    let mut rng = Rng(5);
    for _ in 0..500 {
        let doc = document(&mut rng, &["null", "true", "false", "NaN", "Infinity", "-Infinity"]);
        let mut parser = Parser::new(&doc, ParseSettings::default());
        parser.parse();
        assert!(parser.is_parsed().is_success(), "{:?}", doc);
        assert_eq!(parser.stack_len(), 0, "{:?}", doc);
        assert!(!parser.in_string());
        let container = doc.starts_with('[') || doc.starts_with('{');
        for (i, _) in doc.char_indices().skip(1) {
            let mut parser = Parser::new(&doc[..i], ParseSettings::default());
            parser.parse();
            assert!(parser.is_parsed().is_success(), "{:?}", &doc[..i]);
            if container {
                assert!(parser.stack_len() > 0, "{:?}", &doc[..i]);
            }
        }
    }
}

#[test]
fn amended_prefixes_of_texts_with_white_space_behind() {
    let mut rng = Rng(9);
    for _ in 0..1500 {
        let mut doc = String::new();
        value(&mut rng, 3, &["null", "true", "false"], &mut doc);
        space(&mut rng, &mut doc);
        for (i, _) in doc.char_indices().skip(1) {
            for settings in [ParseSettings::allow_all(), ParseSettings::default()] {
                if let Ok(res) = complete(&doc[..i], settings) {
                    assert!(strict(&res), "prefix {:?} gave {:?}", &doc[..i], res);
                }
            }
        }
    }
}

#[test]
fn white_space_before_the_first_opener_is_all_that_is_left() {
    // cut back to the first opener, the text is white space: no JSON text
    assert_eq!(complete(" [", ParseSettings::allow_all()), Ok(" ".to_string()));
    assert_eq!(complete("\n{ \"a", ParseSettings::allow_all()), Ok("\n".to_string()));
    assert_eq!(complete(" [1", ParseSettings::allow_all()), Ok(" [1]".to_string()));
}

#[test]
fn any_text_is_completed_or_refused() {
    let alphabet = [
        "[", "]", "{", "}", ",", ":", "\"", "\\", " ", "\n", "t", "r", "u", "e", "f", "n", "l",
        "N", "a", "I", "-", "+", ".", "0", "1", "9", "E", "é", "𒇗", "x",
    ];
    let mut rng = Rng(7);
    for _ in 0..20000 {
        let mut text = String::new();
        for _ in 0..rng.below(10) {
            text.push_str(alphabet[rng.below(alphabet.len() as u64) as usize]);
        }
        for settings in [ParseSettings::allow_all(), ParseSettings::default()] {
            let res = complete(&text, settings);
            if text.is_empty() {
                assert!(res.is_err());
            }
            if let Ok(out) = res {
                assert!(!out.is_empty(), "{:?}", text);
            }
        }
        let mut parser = Parser::new(&text, ParseSettings::default());
        parser.parse();
        assert!(parser.stack_len() <= text.len());
        for k in 0..parser.stack_len() {
            assert!(text.is_char_boundary(parser.stack_item(k).0));
        }
        let trace = parser.parse_tracer();
        assert!(trace.starts_with("####"));
    }
}
