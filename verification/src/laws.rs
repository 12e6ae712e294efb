use crate::amend::{complete_spec, first_value};
use crate::json::{
    holds_container, is_container, is_space_text, keeps, lemma_scan_is_run, lemma_value,
    lemma_word_bytes, render, run, wf, Json,
};
use crate::parser::{classify, ParseSettings, ParserError};
use crate::scan::{lemma_scan_wf, scan, scan_upto, Scan};
use crate::text::{lemma_ascii_boundary, starts_with_bytes};
use crate::utils::is_partial_of;
use crate::value_parser::parse_num::{digit_len, number_spec};
use crate::value_parser::parse_spec::{
    bool_table, bool_tags, full_keyword, keyword_spec, one_table, partial_keyword,
};
use crate::value_parser::parse_string::string_spec;
use crate::value_parser::{
    byte_is, is_space_char, lemma_skip_space_twice, lemma_space_len_bound, skip_space, space_len,
};
use vstd::prelude::*;
use vstd::string::*;
use vstd::utf8::*;

verus! {

/// Whether the byte at offset `k` stands outside every string: the scan of
/// the bytes before it did not end inside one.
pub open spec fn outside_strings(bytes: Seq<u8>, k: int) -> bool {
    scan_upto(bytes, k).state is NotInStr
}

/// Whether an opener stands at offset `k`, outside every string.
pub open spec fn opens_at(bytes: Seq<u8>, k: int) -> bool {
    outside_strings(bytes, k) && classify(bytes[k] as char).is_opener()
}

/// Whether a closer stands at offset `k`, outside every string.
pub open spec fn closes_at(bytes: Seq<u8>, k: int) -> bool {
    outside_strings(bytes, k) && classify(bytes[k] as char).is_closer()
}

/// How many openers stand in the first `n` bytes, outside strings.
pub open spec fn openers(bytes: Seq<u8>, n: int) -> int
    decreases n,
{
    if n <= 0 {
        0
    } else if opens_at(bytes, n - 1) {
        openers(bytes, n - 1) + 1
    } else {
        openers(bytes, n - 1)
    }
}

/// How many closers stand in the first `n` bytes, outside strings.
pub open spec fn closer_count(bytes: Seq<u8>, n: int) -> int
    decreases n,
{
    if n <= 0 {
        0
    } else if closes_at(bytes, n - 1) {
        closer_count(bytes, n - 1) + 1
    } else {
        closer_count(bytes, n - 1)
    }
}

/// While a scan has not failed, its stack holds the openers that no closer
/// has met yet: as many as there are openers outside strings, less the
/// closers outside strings. A scan that has failed keeps the stack it
/// failed with.
pub proof fn law_stack_is_unmatched_openers(bytes: Seq<u8>, n: int)
    requires
        0 <= n <= bytes.len(),
        !(scan_upto(bytes, n).run is Error),
    ensures
        scan_upto(bytes, n).stack.len() == openers(bytes, n) - closer_count(bytes, n),
        scan_upto(bytes, n).stack.len() <= openers(bytes, n),
        0 <= closer_count(bytes, n),
    decreases n,
{
    if n > 0 {
        let prev = scan_upto(bytes, n - 1);
        assert(scan_upto(bytes, n) == prev.step(n - 1, bytes[n - 1]));
        law_stack_is_unmatched_openers(bytes, n - 1);
    }
}

/// The stack of a scan never holds more than the bytes read, whether or not
/// the scan has failed.
pub proof fn law_stack_bounded(bytes: Seq<u8>, n: int)
    requires
        0 <= n <= bytes.len(),
    ensures
        scan_upto(bytes, n).stack.len() <= n,
    decreases n,
{
    if n > 0 {
        assert(scan_upto(bytes, n) == scan_upto(bytes, n - 1).step(n - 1, bytes[n - 1]));
        law_stack_bounded(bytes, n - 1);
    }
}

/// Whether a comma stands at offset `k`, outside every string.
pub open spec fn comma_at(bytes: Seq<u8>, k: int) -> bool {
    outside_strings(bytes, k) && bytes[k] as char == ','
}

/// The comma that a scan recorded is the last comma outside strings of what
/// it read; where it recorded none, there is none.
pub proof fn law_last_comma(bytes: Seq<u8>, n: int)
    requires
        0 <= n <= bytes.len(),
        !(scan_upto(bytes, n).run is Error),
    ensures
        match scan_upto(bytes, n).last_comma {
            Some(i) => 0 <= i < n && comma_at(bytes, i) && forall|k: int|
                i < k < n ==> !comma_at(bytes, k),
            None => forall|k: int| 0 <= k < n ==> !comma_at(bytes, k),
        },
    decreases n,
{
    if n > 0 {
        let prev = scan_upto(bytes, n - 1);
        assert(scan_upto(bytes, n) == prev.step(n - 1, bytes[n - 1]));
        law_last_comma(bytes, n - 1);
    }
}

/// In a text that holds no quote, the comma that a scan recorded is the last
/// comma of what it read.
pub proof fn law_last_comma_without_strings(bytes: Seq<u8>, n: int)
    requires
        0 <= n <= bytes.len(),
        !(scan_upto(bytes, n).run is Error),
        forall|k: int| 0 <= k < n ==> bytes[k] as char != '"',
    ensures
        match scan_upto(bytes, n).last_comma {
            Some(i) => 0 <= i < n && bytes[i] as char == ',' && forall|k: int|
                i < k < n ==> bytes[k] as char != ',',
            None => forall|k: int| 0 <= k < n ==> bytes[k] as char != ',',
        },
{
    law_last_comma(bytes, n);
    assert forall|k: int| 0 <= k < n implies (#[trigger] comma_at(bytes, k) <==> bytes[k] as char
        == ',') by {
        lemma_no_quote_no_string(bytes, k);
    }
    match scan_upto(bytes, n).last_comma {
        Some(i) => {
            assert forall|k: int| i < k < n implies bytes[k] as char != ',' by {
                assert(!comma_at(bytes, k));
            }
        },
        None => {
            assert forall|k: int| 0 <= k < n implies bytes[k] as char != ',' by {
                assert(!comma_at(bytes, k));
            }
        },
    }
}

/// A scan of bytes that hold no quote is outside strings.
pub proof fn lemma_no_quote_no_string(bytes: Seq<u8>, n: int)
    requires
        0 <= n <= bytes.len(),
        forall|k: int| 0 <= k < n ==> bytes[k] as char != '"',
    ensures
        scan_upto(bytes, n).state is NotInStr,
    decreases n,
{
    if n > 0 {
        let prev = scan_upto(bytes, n - 1);
        assert(scan_upto(bytes, n) == prev.step(n - 1, bytes[n - 1]));
        lemma_no_quote_no_string(bytes, n - 1);
    }
}

/// Whether a character starts at offset `i` of the text, and one, or
/// nothing, right behind it.
pub open spec fn on_boundaries(bytes: Seq<u8>, i: int) -> bool {
    is_char_boundary(bytes, i) && is_char_boundary(bytes, i + 1)
}

/// Every offset that a scan of a UTF-8 text records lies between two
/// characters, and so does the offset behind it: the text can be cut at
/// either.
pub proof fn law_offsets_on_boundaries(bytes: Seq<u8>, n: int)
    requires
        valid_utf8(bytes),
        0 <= n <= bytes.len(),
    ensures
        forall|k: int|
            0 <= k < scan_upto(bytes, n).stack.len() ==> on_boundaries(
                bytes,
                (#[trigger] scan_upto(bytes, n).stack[k]).0,
            ),
        scan_upto(bytes, n).last_comma matches Some(i) ==> on_boundaries(bytes, i),
        scan_upto(bytes, n).last_colon matches Some(i) ==> on_boundaries(bytes, i),
        scan_upto(bytes, n).last_rbracket matches Some(i) ==> on_boundaries(bytes, i),
{
    lemma_scan_wf(bytes, n);
    let sc = scan_upto(bytes, n);
    assert forall|k: int| 0 <= k < sc.stack.len() implies on_boundaries(
        bytes,
        (#[trigger] sc.stack[k]).0,
    ) by {
        lemma_ascii_boundary(bytes, sc.stack[k].0);
    }
    if let Some(i) = sc.last_comma {
        lemma_ascii_boundary(bytes, i);
    }
    if let Some(i) = sc.last_colon {
        lemma_ascii_boundary(bytes, i);
    }
    if let Some(i) = sc.last_rbracket {
        lemma_ascii_boundary(bytes, i);
    }
}

/// The scan of a JSON text succeeds and leaves nothing open, and the comma
/// it recorded is the last comma of the text that stands outside strings.
pub proof fn law_scan_of_json(j: Json)
    requires
        wf(j),
    ensures
        scan(render(j)).run is Success,
        scan(render(j)).stack.len() == 0,
        scan(render(j)).state is NotInStr,
        match scan(render(j)).last_comma {
            Some(i) => 0 <= i < render(j).len() && comma_at(render(j), i) && forall|k: int|
                i < k < render(j).len() ==> !comma_at(render(j), k),
            None => forall|k: int| 0 <= k < render(j).len() ==> !comma_at(render(j), k),
        },
        holds_container(j) ==> scan(render(j)).last_rbracket is Some,
{
    let t = render(j);
    lemma_value(j, Scan::start(), 0);
    lemma_scan_is_run(t, t.len() as int);
    assert(t.take(t.len() as int) =~= t);
    assert(keeps(Scan::start(), run(Scan::start(), t.take(t.len() as int), 0)));
    law_last_comma(t, t.len() as int);
}

/// The scan of a part of a text is the scan of the text up to there.
pub proof fn lemma_scan_of_prefix(bytes: Seq<u8>, i: int)
    requires
        0 <= i <= bytes.len(),
    ensures
        scan(bytes.take(i)) == scan_upto(bytes, i),
{
    lemma_scan_is_run(bytes, i);
    lemma_scan_is_run(bytes.take(i), i);
    assert(bytes.take(i).take(i) =~= bytes.take(i));
}

/// The scan of a prefix of a JSON text never fails.
pub proof fn law_prefix_scan_succeeds(j: Json, i: int)
    requires
        wf(j),
        0 <= i <= render(j).len(),
    ensures
        scan(render(j).take(i)).run is Success,
{
    let t = render(j);
    lemma_value(j, Scan::start(), 0);
    lemma_scan_is_run(t, i);
    lemma_scan_of_prefix(t, i);
    assert(keeps(Scan::start(), run(Scan::start(), t.take(i), 0)));
}

/// The scan of a prefix of an array or an object that ends inside it
/// succeeds and leaves something open.
pub proof fn law_prefix_of_container(j: Json, i: int)
    requires
        wf(j),
        is_container(j),
        0 < i < render(j).len(),
    ensures
        scan(render(j).take(i)).run is Success,
        scan(render(j).take(i)).stack.len() > 0,
{
    let t = render(j);
    lemma_value(j, Scan::start(), 0);
    lemma_scan_is_run(t, i);
    lemma_scan_of_prefix(t, i);
    assert(keeps(Scan::start(), run(Scan::start(), t.take(i), 0)));
}

/// White space at the start of a text is skipped with the white space of
/// what follows it.
pub proof fn lemma_skip_leading(a: Seq<u8>, x: Seq<u8>)
    requires
        is_space_text(a),
    ensures
        skip_space(a + x) == skip_space(x),
    decreases a.len(),
{
    lemma_space_len_bound(x, 0);
    if a.len() == 0 {
        assert(a + x =~= x);
    } else {
        lemma_space_run(a, x, 0);
        assert((a + x).subrange(a.len() + space_len(x, 0), (a + x).len() as int) =~= x.subrange(
            space_len(x, 0),
            x.len() as int,
        ));
    }
}

/// White space at the start of a text is counted up to its end, and on into
/// what follows.
pub proof fn lemma_space_run(a: Seq<u8>, x: Seq<u8>, from: int)
    requires
        is_space_text(a),
        0 <= from <= a.len(),
    ensures
        space_len(a + x, from) == a.len() - from + space_len(x, 0),
    decreases a.len() - from,
{
    if from < a.len() {
        assert((a + x)[from] == a[from]);
        assert(is_space_char(a[from] as char));
        lemma_space_run(a, x, from + 1);
    } else {
        lemma_space_shift(a, x, 0);
    }
}

/// White space is counted alike in a text and in the text behind another.
pub proof fn lemma_space_shift(a: Seq<u8>, x: Seq<u8>, k: int)
    requires
        0 <= k <= x.len(),
    ensures
        space_len(a + x, a.len() + k) == space_len(x, k),
    decreases x.len() - k,
{
    if k < x.len() {
        assert((a + x)[a.len() + k] == x[k]);
        lemma_space_shift(a, x, k + 1);
    }
}

/// Behind the white space at its start, the text of an array or an object
/// starts with its opener.
pub proof fn lemma_starts_with_opener(j: Json)
    requires
        wf(j),
        holds_container(j),
    ensures
        byte_is(skip_space(render(j)), 0, '[') || byte_is(skip_space(render(j)), 0, '{'),
    decreases j,
{
    match j {
        Json::Padded(a, v, b) => {
            lemma_starts_with_opener(*v);
            let x = render(*v);
            lemma_skip_leading(a, x + b);
            assert(a + x + b =~= a + (x + b));
            lemma_space_len_bound(x, 0);
            let n = space_len(x, 0);
            assert(skip_space(x)[0] == x[n]);
            lemma_space_prefix(x, b, 0);
            assert(skip_space(x + b)[0] == (x + b)[n]);
        },
        _ => {
            let t = render(j);
            assert(t[0] == 0x5b || t[0] == 0x7b);
            assert(space_len(t, 0) == 0);
            assert(t.subrange(0, t.len() as int) =~= t);
        },
    }
}

/// What follows a text does not change the white space at its start, where
/// the text holds more than white space.
pub proof fn lemma_space_prefix(x: Seq<u8>, b: Seq<u8>, from: int)
    requires
        0 <= from <= x.len(),
        from + space_len(x, from) < x.len(),
    ensures
        space_len(x + b, from) == space_len(x, from),
    decreases x.len() - from,
{
    if from < x.len() && is_space_char(x[from] as char) {
        assert((x + b)[from] == x[from]);
        lemma_space_prefix(x, b, from + 1);
    } else {
        assert((x + b)[from] == x[from]);
    }
}

/// No value parser takes a text that starts with a bracket or a brace.
pub proof fn lemma_no_value_at_opener(g: Seq<u8>, allow_string: bool, st: ParseSettings)
    requires
        byte_is(g, 0, '[') || byte_is(g, 0, '{'),
    ensures
        first_value(g, allow_string, st) is None,
{
    assert(space_len(g, 0) == 0);
    assert(skip_space(g) =~= g);
    lemma_word_bytes();
    reveal_with_fuel(partial_keyword, 3);
    reveal_with_fuel(full_keyword, 3);
    assert forall|p: Seq<u8>, min: int|
        p.len() > 0 && p[0] != g[0] implies !(#[trigger] is_partial_of(p, g, min)) by {
        if starts_with_bytes(p, g) {
            assert(p.subrange(0, g.len() as int)[0] == g[0]);
        }
    }
    assert forall|p: Seq<u8>| p.len() > 0 && p[0] != g[0] implies !(#[trigger] starts_with_bytes(
        g,
        p,
    )) by {
        if starts_with_bytes(g, p) {
            assert(g.subrange(0, p.len() as int)[0] == p[0]);
        }
    }
    assert(keyword_spec(bool_table(), bool_tags(), g) is None);
    assert(string_spec(g) is None);
    assert(digit_len(g, 0) == 0);
    assert(number_spec(g) is None);
    assert(keyword_spec(one_table("NaN".spec_bytes(), 1), seq!["NaN".spec_bytes()], g) is None);
    assert(keyword_spec(one_table("null".spec_bytes(), 1), seq!["null".spec_bytes()], g) is None);
    assert(keyword_spec(one_table("Infinity".spec_bytes(), 1), seq!["Infinity".spec_bytes()], g)
        is None);
    assert(keyword_spec(one_table("-Infinity".spec_bytes(), 2), seq!["-Infinity".spec_bytes()], g)
        is None);
}

/// A JSON text that is an array or an object, with or without white space
/// around it, is completed to itself, whatever the settings.
pub proof fn law_complete_keeps_json(j: Json, st: ParseSettings)
    requires
        wf(j),
        holds_container(j),
    ensures
        complete_spec(render(j), st) == Ok::<Seq<u8>, ParserError>(render(j)),
{
    let t = render(j);
    law_scan_of_json(j);
    lemma_value(j, Scan::start(), 0);
    lemma_starts_with_opener(j);
    lemma_skip_space_twice(t);
    lemma_no_value_at_opener(skip_space(t), true, st);
}

/// The completion of a start of a JSON text fails in one way only: nothing
/// is left of it that could stand. It never fails on the structure or on an
/// escape.
pub proof fn law_prefix_fails_only_unamendable(j: Json, i: int, st: ParseSettings)
    requires
        wf(j),
        0 < i <= render(j).len(),
    ensures
        complete_spec(render(j).take(i), st) matches Err(e) ==> e == ParserError::Unamendable,
{
    law_prefix_scan_succeeds(j, i);
}

/// The scan of a start of a JSON text that ends inside its array or object,
/// behind white space that may stand before it, succeeds and leaves
/// something open, whatever white space follows the array or object.
pub proof fn law_prefix_inside_container(a: Seq<u8>, c: Json, b: Seq<u8>, i: int)
    requires
        is_space_text(a),
        wf(c),
        is_container(c),
        is_space_text(b),
        a.len() < i < a.len() + render(c).len(),
    ensures
        scan((a + render(c) + b).take(i)).run is Success,
        scan((a + render(c) + b).take(i)).stack.len() > 0,
{
    let t = a + render(c) + b;
    let start = Scan::start();
    let k = i - a.len();
    crate::json::lemma_space_plain(a);
    crate::json::lemma_plain(start, a, 0);
    lemma_value(c, start, a.len() as int);
    assert(t.take(i) =~= a + render(c).take(k));
    crate::json::lemma_run_concat(start, a, render(c).take(k), 0);
    lemma_scan_is_run(t.take(i), i);
    assert(t.take(i).take(i) =~= t.take(i));
    assert(keeps(start, run(start, render(c).take(k), a.len() as int)));
}

} // verus!
