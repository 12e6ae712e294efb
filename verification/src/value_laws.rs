use crate::amend::{complete_spec, first_value, value_text};
use crate::json::{
    is_number_text, is_space_text, is_word, lemma_word_bytes, quote_byte, render, str_body_ok,
    string_text, wf, Json,
};
use crate::laws::{law_scan_of_json, lemma_skip_leading, lemma_space_prefix};
use crate::parser::{is_hex_char, EscapeState, ParseSettings, ParserError};
use crate::text::starts_with_bytes;
use crate::utils::is_partial_of;
use crate::value_parser::parse_num::{
    base_len, digit_len, exponent_len, is_digit_char, lemma_digit_len_bound, number_len,
    number_spec,
};
use crate::value_parser::parse_spec::{
    bool_table, bool_tags, full_keyword, keyword_spec, one_table, partial_keyword,
};
use crate::value_parser::parse_string::{quote, str_walk, string_spec, StrEnd};
use crate::value_parser::{
    byte_is, is_space_char, lemma_space_len_bound, skip_space, space_len, ValueRes,
};
use vstd::prelude::*;
use vstd::string::*;

verus! {

/// The value that stands in the tree once the white space around it is taken
/// away.
pub open spec fn core_of(j: Json) -> Json
    decreases j,
{
    match j {
        Json::Padded(_, v, _) => core_of(*v),
        _ => j,
    }
}

/// Whether the tree is a keyword, a number or a string, with or without
/// white space around it.
pub open spec fn holds_scalar(j: Json) -> bool {
    core_of(j) is Word || core_of(j) is Number || core_of(j) is Str
}

/// A text that starts with what is no white space, followed by white space
/// only.
pub open spec fn padded_right(g: Seq<u8>, t: Seq<u8>) -> bool {
    &&& t.len() > 0
    &&& !is_space_char(t[0] as char)
    &&& g.len() >= t.len()
    &&& g.subrange(0, t.len() as int) == t
    &&& is_space_text(g.subrange(t.len() as int, g.len() as int))
}

/// Behind the white space at its start, the text of a value is the text of
/// its core, followed by white space.
pub proof fn lemma_skip_to_core(j: Json)
    requires
        wf(j),
        render(core_of(j)).len() > 0,
        !is_space_char(render(core_of(j))[0] as char),
    ensures
        padded_right(skip_space(render(j)), render(core_of(j))),
    decreases j,
{
    let t = render(core_of(j));
    match j {
        Json::Padded(a, v, b) => {
            lemma_skip_to_core(*v);
            let x = render(*v);
            let gx = skip_space(x);
            lemma_skip_leading(a, x + b);
            assert(a + x + b =~= a + (x + b));
            lemma_space_len_bound(x, 0);
            let n = space_len(x, 0);
            assert(gx[0] == x[n]);
            assert(gx.subrange(0, t.len() as int)[0] == t[0]);
            lemma_space_prefix(x, b, 0);
            let g = skip_space(x + b);
            assert(g =~= gx + b);
            assert(g.subrange(0, t.len() as int) =~= gx.subrange(0, t.len() as int));
            assert(g.subrange(t.len() as int, g.len() as int) =~= gx.subrange(
                t.len() as int,
                gx.len() as int,
            ) + b);
            assert forall|k: int|
                0 <= k < g.len() - t.len() implies is_space_char(
                #[trigger] g.subrange(t.len() as int, g.len() as int)[k] as char,
            ) by {
                if k < gx.len() - t.len() {
                    assert(g.subrange(t.len() as int, g.len() as int)[k] == gx.subrange(
                        t.len() as int,
                        gx.len() as int,
                    )[k]);
                } else {
                    assert(g.subrange(t.len() as int, g.len() as int)[k] == b[k - (gx.len()
                        - t.len())]);
                }
            }
        },
        _ => {
            assert(space_len(t, 0) == 0);
            assert(skip_space(t) =~= t);
            assert(t.subrange(0, t.len() as int) =~= t);
            assert(t.subrange(t.len() as int, t.len() as int) =~= Seq::<u8>::empty());
        },
    }
}

/// A text that does not start with white space has none to skip.
pub proof fn lemma_nothing_to_skip(g: Seq<u8>)
    requires
        g.len() > 0,
        !is_space_char(g[0] as char),
    ensures
        skip_space(g) == g,
{
    assert(space_len(g, 0) == 0);
    assert(g.subrange(0, g.len() as int) =~= g);
}

/// A keyword is not read from a text that starts with another byte than it.
pub proof fn lemma_word_miss(p: Seq<u8>, min: int, g: Seq<u8>)
    requires
        p.len() > 0,
        g.len() > 0,
        !is_space_char(g[0] as char),
        p[0] != g[0],
    ensures
        keyword_spec(one_table(p, min), seq![p], g) is None,
        !is_partial_of(p, g, min),
        !starts_with_bytes(g, p),
{
    lemma_nothing_to_skip(g);
    reveal_with_fuel(partial_keyword, 3);
    reveal_with_fuel(full_keyword, 3);
    if starts_with_bytes(p, g) {
        assert(p.subrange(0, g.len() as int)[0] == g[0]);
    }
    if starts_with_bytes(g, p) {
        assert(g.subrange(0, p.len() as int)[0] == p[0]);
    }
}

/// A keyword is read in full from a text that starts with it.
pub proof fn lemma_word_hit(p: Seq<u8>, min: int, g: Seq<u8>)
    requires
        p.len() > 0,
        g.len() > 0,
        !is_space_char(g[0] as char),
        starts_with_bytes(g, p),
    ensures
        keyword_spec(one_table(p, min), seq![p], g) == Some(
            ValueRes { text: p, is_complete: true, stack_recover: false },
        ),
        !is_partial_of(p, g, min),
{
    lemma_nothing_to_skip(g);
    reveal_with_fuel(partial_keyword, 3);
    reveal_with_fuel(full_keyword, 3);
}

/// Neither `true` nor `false` is read from a text that starts with neither
/// `t` nor `f`.
pub proof fn lemma_bool_miss(g: Seq<u8>)
    requires
        g.len() > 0,
        !is_space_char(g[0] as char),
        g[0] != 0x74 && g[0] != 0x66,
    ensures
        keyword_spec(bool_table(), bool_tags(), g) is None,
{
    lemma_word_bytes();
    lemma_nothing_to_skip(g);
    lemma_word_miss("true".spec_bytes(), 1, g);
    lemma_word_miss("false".spec_bytes(), 1, g);
    reveal_with_fuel(partial_keyword, 3);
    reveal_with_fuel(full_keyword, 3);
}

/// No string is read from a text that does not start with a quote.
pub proof fn lemma_string_miss(g: Seq<u8>)
    requires
        g.len() > 0,
        !is_space_char(g[0] as char),
        g[0] != quote_byte(),
    ensures
        string_spec(g) is None,
{
    lemma_nothing_to_skip(g);
}

/// No number is read from a text that starts with neither a digit nor a
/// minus sign and a digit.
pub proof fn lemma_number_miss(g: Seq<u8>)
    requires
        g.len() > 0,
        !is_space_char(g[0] as char),
        !is_digit_char(g[0] as char),
        g[0] as char == '-' ==> !(g.len() > 1 && is_digit_char(g[1] as char)),
    ensures
        number_spec(g) is None,
{
    lemma_nothing_to_skip(g);
}

/// The value that is read from a text which starts with a keyword and goes
/// on with white space: the keyword, complete.
pub proof fn lemma_first_value_word(w: Seq<u8>, g: Seq<u8>, allow_string: bool, st: ParseSettings)
    requires
        is_word(w),
        g.len() > 0,
        starts_with_bytes(g, w),
    ensures
        first_value(g, allow_string, st) matches Some((v, _)) && v == (ValueRes {
            text: w,
            is_complete: true,
            stack_recover: false,
        }),
{
    lemma_word_bytes();
    assert(g[0] == g.subrange(0, w.len() as int)[0]);
    assert(g.len() > 1 ==> g[1] == g.subrange(0, w.len() as int)[1]);
    lemma_nothing_to_skip(g);
    let t = "true".spec_bytes();
    let f = "false".spec_bytes();
    let nan = "NaN".spec_bytes();
    let null = "null".spec_bytes();
    let inf = "Infinity".spec_bytes();
    let ninf = "-Infinity".spec_bytes();
    if w == t || w == f {
        reveal_with_fuel(partial_keyword, 3);
        reveal_with_fuel(full_keyword, 3);
        if w == t {
            lemma_word_miss(f, 1, g);
            lemma_word_hit(t, 1, g);
        } else {
            lemma_word_miss(t, 1, g);
            lemma_word_hit(f, 1, g);
        }
    } else {
        lemma_bool_miss(g);
        lemma_string_miss(g);
        lemma_number_miss(g);
        if w == nan {
            lemma_word_hit(nan, 1, g);
        } else {
            lemma_word_miss(nan, 1, g);
            if w == null {
                lemma_word_hit(null, 1, g);
            } else {
                lemma_word_miss(null, 1, g);
                if w == inf {
                    lemma_word_hit(inf, 1, g);
                } else {
                    lemma_word_miss(inf, 1, g);
                    lemma_word_hit(ninf, 2, g);
                }
            }
        }
    }
}

/// Digits are counted alike in a text and in the text with white space
/// behind it.
pub proof fn lemma_digit_len_padded(g: Seq<u8>, t: Seq<u8>, from: int)
    requires
        g.len() >= t.len(),
        g.subrange(0, t.len() as int) == t,
        g.len() > t.len() ==> !is_digit_char(g[t.len() as int] as char),
        0 <= from,
    ensures
        digit_len(g, from) == digit_len(t, from) || from > t.len(),
    decreases t.len() - from,
{
    if from < t.len() {
        assert(g[from] == g.subrange(0, t.len() as int)[from]);
        lemma_digit_len_padded(g, t, from + 1);
    }
}

/// The value that is read from a text which starts with a number and goes on
/// with white space: the number, which is never complete.
pub proof fn lemma_first_value_number(
    t: Seq<u8>,
    g: Seq<u8>,
    allow_string: bool,
    st: ParseSettings,
)
    requires
        is_number_text(t),
        padded_right(g, t),
    ensures
        first_value(g, allow_string, st) == Some(
            (ValueRes { text: t, is_complete: false, stack_recover: false }, st.allow_number),
        ),
{
    lemma_nothing_to_skip(g);
    let n = t.len() as int;
    assert forall|k: int| 0 <= k < n implies g[k] == t[k] by {
        assert(g[k] == g.subrange(0, n)[k]);
    }
    if g.len() > n {
        assert(is_space_char(g.subrange(n, g.len() as int)[0] as char));
        assert(g.subrange(n, g.len() as int)[0] == g[n]);
    }
    let sign = if byte_is(t, 0, '-') {
        1int
    } else {
        0int
    };
    lemma_digit_len_bound(t, sign);
    lemma_digit_len_padded(g, t, sign);
    let dot = sign + digit_len(t, sign);
    lemma_digit_len_bound(t, dot + 1);
    lemma_digit_len_padded(g, t, dot + 1);
    assert(base_len(g) == base_len(t));
    let b = base_len(t).unwrap();
    if b < n {
        let es = if byte_is(t, b + 1, '-') || byte_is(t, b + 1, '+') {
            1int
        } else {
            0int
        };
        lemma_digit_len_bound(t, b + 1 + es);
        lemma_digit_len_padded(g, t, b + 1 + es);
        assert(exponent_len(g, b) == exponent_len(t, b));
    }
    assert(number_len(g) == Some(n));
    lemma_bool_miss(g);
    lemma_string_miss(g);
}

/// The walk through a string body that is well formed ends at the closing
/// quote.
pub proof fn lemma_walk_closes(g: Seq<u8>, body: Seq<u8>, i: int, last_esc: Option<int>)
    requires
        0 <= i <= body.len(),
        str_body_ok(body, i),
        g.len() >= body.len() + 2,
        forall|k: int| 0 <= k < body.len() ==> g[1 + k] == #[trigger] body[k],
        g[1 + body.len() as int] == quote_byte(),
    ensures
        str_walk(g, 1 + i, EscapeState::start(), last_esc) == StrEnd::Closed(1 + body.len() as int),
    decreases body.len() - i,
{
    let e0 = EscapeState::start();
    if i == body.len() {
    } else if byte_is(body, i, '\\') {
        assert(g[1 + i] == body[i]);
        assert(g[2 + i] == body[i + 1]);
        if i + 1 < body.len() && is_simple_escape_at(body, i + 1) {
            lemma_walk_closes(g, body, i + 2, Some(1 + i));
            reveal_with_fuel(str_walk, 3);
        } else {
            assert(g[3 + i] == body[i + 2]);
            assert(g[4 + i] == body[i + 3]);
            assert(g[5 + i] == body[i + 4]);
            assert(g[6 + i] == body[i + 5]);
            lemma_walk_closes(g, body, i + 6, Some(1 + i));
            reveal_with_fuel(str_walk, 7);
        }
    } else {
        assert(g[1 + i] == body[i]);
        lemma_walk_closes(g, body, i + 1, last_esc);
    }
}

/// Whether the byte at offset `k` may follow a backslash.
pub open spec fn is_simple_escape_at(body: Seq<u8>, k: int) -> bool {
    crate::parser::is_simple_escape(body[k] as char)
}

/// The value that is read from a text which starts with a string and goes on
/// with white space: the string, complete.
pub proof fn lemma_first_value_string(
    body: Seq<u8>,
    g: Seq<u8>,
    allow_string: bool,
    st: ParseSettings,
)
    requires
        str_body_ok(body, 0),
        g.len() > 0,
        starts_with_bytes(g, string_text(body)),
    ensures
        first_value(g, allow_string, st) matches Some((v, _)) && v == (ValueRes {
            text: string_text(body),
            is_complete: true,
            stack_recover: false,
        }),
{
    let t = string_text(body);
    assert forall|k: int| 0 <= k < t.len() implies g[k] == t[k] by {
        assert(g[k] == g.subrange(0, t.len() as int)[k]);
    }
    assert(t[0] == quote_byte());
    lemma_nothing_to_skip(g);
    lemma_bool_miss(g);
    assert forall|k: int| 0 <= k < body.len() implies g[1 + k] == #[trigger] body[k] by {
        assert(t[1 + k] == body[k]);
    }
    assert(t[1 + body.len() as int] == quote_byte());
    lemma_walk_closes(g, body, 0, None);
    assert(g.subrange(0, body.len() as int + 2) =~= t);
}

/// A JSON text that is a keyword or a string, with or without white space
/// around it, is completed to the keyword or the string, whatever the
/// settings; one that is a number, where the settings let numbers be
/// written out, to the number.
pub proof fn law_complete_keeps_scalar(j: Json, st: ParseSettings)
    requires
        wf(j),
        holds_scalar(j),
        core_of(j) is Number ==> st.allow_number,
    ensures
        complete_spec(render(j), st) == Ok::<Seq<u8>, ParserError>(render(core_of(j))),
{
    let t = render(core_of(j));
    lemma_core_wf(j);
    lemma_scalar_start(core_of(j));
    lemma_skip_to_core(j);
    law_scan_of_json(j);
    let g = skip_space(render(j));
    match core_of(j) {
        Json::Word(w) => {
            lemma_first_value_word(w, g, true, st);
        },
        Json::Number(n) => {
            lemma_first_value_number(n, g, true, st);
        },
        Json::Str(b) => {
            lemma_first_value_string(b, g, true, st);
        },
        _ => {},
    }
    assert(render(j).len() > 0) by {
        lemma_space_len_bound(render(j), 0);
    }
}

/// The core of a well-formed tree is well formed.
pub proof fn lemma_core_wf(j: Json)
    requires
        wf(j),
    ensures
        wf(core_of(j)),
    decreases j,
{
    if let Json::Padded(_, v, _) = j {
        lemma_core_wf(*v);
    }
}

/// A keyword, a number and a string do not start with white space.
pub proof fn lemma_scalar_start(j: Json)
    requires
        wf(j),
        j is Word || j is Number || j is Str,
    ensures
        render(j).len() > 0,
        !is_space_char(render(j)[0] as char),
{
    match j {
        Json::Word(w) => {
            lemma_word_bytes();
        },
        Json::Number(t) => {
            let sign = if byte_is(t, 0, '-') {
                1int
            } else {
                0int
            };
            lemma_digit_len_bound(t, sign);
            if sign == 0 {
                assert(is_digit_char(t[0] as char));
            }
        },
        _ => {},
    }
}

/// The text of a string: a quote, a body, a quote.
pub open spec fn is_string_text(t: Seq<u8>) -> bool {
    &&& t.len() >= 2
    &&& t[0] == quote_byte()
    &&& t.last() == quote_byte()
    &&& str_body_ok(t.subrange(1, t.len() - 1), 0)
}

/// The text of a keyword, a number or a string.
pub open spec fn is_scalar_text(t: Seq<u8>) -> bool {
    is_word(t) || is_number_text(t) || is_string_text(t)
}

/// The tree of a keyword, a number or a string, from its text.
pub open spec fn scalar_of(t: Seq<u8>) -> Json {
    if is_word(t) {
        Json::Word(t)
    } else if is_number_text(t) {
        Json::Number(t)
    } else {
        Json::Str(t.subrange(1, t.len() - 1))
    }
}

/// The tree of the text of a keyword, a number or a string has that text.
pub proof fn lemma_scalar_of(t: Seq<u8>)
    requires
        is_scalar_text(t),
    ensures
        wf(scalar_of(t)),
        render(scalar_of(t)) == t,
        scalar_of(t) is Word || scalar_of(t) is Number || scalar_of(t) is Str,
{
    if !is_word(t) && !is_number_text(t) {
        assert(string_text(t.subrange(1, t.len() - 1)) =~= t);
    }
}

/// Digits are counted alike in a text and in a start of it that holds them
/// all.
pub proof fn lemma_digit_len_cut(g: Seq<u8>, n: int, from: int)
    requires
        0 <= from,
        0 <= n <= g.len(),
        from + digit_len(g, from) <= n || (digit_len(g, from) == 0 && from >= n),
    ensures
        digit_len(g.take(n), from) == digit_len(g, from),
    decreases g.len() - from,
{
    lemma_digit_len_bound(g, from);
    if from < n && is_digit_char(g[from] as char) {
        assert(g.take(n)[from] == g[from]);
        lemma_digit_len_bound(g, from + 1);
        lemma_digit_len_cut(g, n, from + 1);
    } else if from < n {
        assert(g.take(n)[from] == g[from]);
    }
}

/// What the number parser keeps of a text is a number.
pub proof fn lemma_number_kept(g: Seq<u8>)
    ensures
        number_len(g) matches Some(n) ==> 0 < n <= g.len() && is_number_text(g.take(n)),
{
    if let Some(n) = number_len(g) {
        let sign = if byte_is(g, 0, '-') {
            1int
        } else {
            0int
        };
        lemma_digit_len_bound(g, sign);
        let dot = sign + digit_len(g, sign);
        lemma_digit_len_bound(g, dot + 1);
        let b = base_len(g).unwrap();
        let es = if byte_is(g, b + 1, '-') || byte_is(g, b + 1, '+') {
            1int
        } else {
            0int
        };
        lemma_digit_len_bound(g, b + 1 + es);
        let t = g.take(n);
        assert forall|k: int| 0 <= k < n implies t[k] == g[k] by {}
        lemma_digit_len_cut(g, n, sign);
        if byte_is(g, dot, '.') && digit_len(g, dot + 1) > 0 {
            lemma_digit_len_cut(g, n, dot + 1);
        } else {
            if dot + 1 <= n {
                lemma_digit_len_cut(g, n, dot + 1);
            } else {
                assert(digit_len(t, dot + 1) == 0);
            }
        }
        assert(base_len(t) == Some(b));
        if n > b {
            lemma_digit_len_cut(g, n, b + 1 + es);
            assert(exponent_len(t, b) == exponent_len(g, b));
        }
    }
}

/// Where the walk through a string ends at a closing quote, what it passed
/// is the body of a string.
pub proof fn lemma_walk_closed(f: Seq<u8>, i: int, last_esc: Option<int>)
    requires
        1 <= i,
    ensures
        str_walk(f, i, EscapeState::start(), last_esc) matches StrEnd::Closed(end) ==> i <= end
            < f.len() && f[end] == quote_byte() && str_body_ok(f.subrange(1, end), i - 1),
    decreases f.len() - i,
{
    reveal_with_fuel(str_walk, 7);
    if i < f.len() {
        if let StrEnd::Closed(end) = str_walk(f, i, EscapeState::start(), last_esc) {
            let body = f.subrange(1, end);
            if byte_is(f, i, '\\') {
                if i + 1 < f.len() && crate::parser::is_simple_escape(f[i + 1] as char) {
                    lemma_walk_closed(f, i + 2, Some(i));
                    assert(body[i - 1] == f[i]);
                    assert(body[i] == f[i + 1]);
                } else {
                    lemma_walk_closed(f, i + 6, Some(i));
                    assert(body[i - 1] == f[i]);
                    assert(body[i] == f[i + 1]);
                    assert(body[i + 1] == f[i + 2]);
                    assert(body[i + 2] == f[i + 3]);
                    assert(body[i + 3] == f[i + 4]);
                    assert(body[i + 4] == f[i + 5]);
                }
            } else if byte_is(f, i, '"') {
            } else {
                lemma_walk_closed(f, i + 1, last_esc);
                assert(body[i - 1] == f[i]);
            }
        }
    }
}

/// Where the text ends before the string does: with no escape open, what
/// the walk passed is the body of a string; with an escape open, what it
/// passed before the last backslash is one.
pub proof fn lemma_walk_open(f: Seq<u8>, i: int, last_esc: Option<int>)
    requires
        1 <= i <= f.len(),
    ensures
        str_walk(f, i, EscapeState::start(), last_esc) matches StrEnd::Open(e, le) ==> (e.cnt == 0
            && str_body_ok(f.subrange(1, f.len() as int), i - 1)) || (e.cnt == 1 && le is Some && i
            <= le.unwrap() < f.len() && str_body_ok(f.subrange(1, le.unwrap()), i - 1)),
    decreases f.len() - i,
{
    reveal_with_fuel(str_walk, 7);
    if i < f.len() {
        if let StrEnd::Open(e, le) = str_walk(f, i, EscapeState::start(), last_esc) {
            let body = f.subrange(1, f.len() as int);
            if byte_is(f, i, '\\') {
                if i + 1 < f.len() && crate::parser::is_simple_escape(f[i + 1] as char) {
                    lemma_walk_open(f, i + 2, Some(i));
                    assert(body[i - 1] == f[i]);
                    assert(body[i] == f[i + 1]);
                    if e.cnt == 1 {
                        let k = le.unwrap();
                        let cut = f.subrange(1, k);
                        assert(cut[i - 1] == f[i]);
                        assert(cut[i] == f[i + 1]);
                    }
                } else if i + 5 < f.len() && f[i + 1] as char == 'u' && is_hex_char(
                    f[i + 2] as char,
                ) && is_hex_char(f[i + 3] as char) && is_hex_char(f[i + 4] as char) && is_hex_char(
                    f[i + 5] as char,
                ) {
                    lemma_walk_open(f, i + 6, Some(i));
                    assert(body[i - 1] == f[i]);
                    assert(body[i] == f[i + 1]);
                    assert(body[i + 1] == f[i + 2]);
                    assert(body[i + 2] == f[i + 3]);
                    assert(body[i + 3] == f[i + 4]);
                    assert(body[i + 4] == f[i + 5]);
                    if e.cnt == 1 {
                        let k = le.unwrap();
                        let cut = f.subrange(1, k);
                        assert(cut[i - 1] == f[i]);
                        assert(cut[i] == f[i + 1]);
                        assert(cut[i + 1] == f[i + 2]);
                        assert(cut[i + 2] == f[i + 3]);
                        assert(cut[i + 3] == f[i + 4]);
                        assert(cut[i + 4] == f[i + 5]);
                    }
                } else {
                    // the text ends inside the escape
                    assert(e.cnt == 1 && le == Some(i));
                }
            } else {
                lemma_walk_open(f, i + 1, last_esc);
                assert(body[i - 1] == f[i]);
                if e.cnt == 1 {
                    let k = le.unwrap();
                    assert(f.subrange(1, k)[i - 1] == f[i]);
                }
            }
        }
    }
}

/// What the string parser returns is the text of a string.
pub proof fn lemma_string_kept(g: Seq<u8>)
    ensures
        string_spec(g) matches Some(v) ==> is_string_text(v.text),
{
    let f = skip_space(g);
    if let Some(v) = string_spec(g) {
        match str_walk(f, 1, EscapeState::start(), None) {
            StrEnd::Closed(end) => {
                lemma_walk_closed(f, 1, None);
                let t = f.subrange(0, end + 1);
                assert(t.subrange(1, t.len() - 1) =~= f.subrange(1, end));
            },
            StrEnd::Open(e, le) => {
                lemma_walk_open(f, 1, None);
                let kept = match le {
                    Some(k) if e.cnt == 1 => f.subrange(0, k),
                    _ => f,
                };
                let t = kept + quote();
                if e.cnt == 1 {
                    let k = le.unwrap();
                    assert(t.subrange(1, t.len() - 1) =~= f.subrange(1, k));
                } else {
                    assert(t.subrange(1, t.len() - 1) =~= f.subrange(1, f.len() as int));
                }
            },
            StrEnd::Illegal => {},
        }
    }
}

/// What a keyword parser of this library returns is a keyword.
pub proof fn lemma_word_kept(g: Seq<u8>)
    ensures
        keyword_spec(bool_table(), bool_tags(), g) matches Some(v) ==> is_word(v.text),
        keyword_spec(one_table("NaN".spec_bytes(), 1), seq!["NaN".spec_bytes()], g) matches Some(v)
            ==> is_word(v.text),
        keyword_spec(one_table("null".spec_bytes(), 1), seq!["null".spec_bytes()], g) matches Some(
            v,
        ) ==> is_word(v.text),
        keyword_spec(
            one_table("Infinity".spec_bytes(), 1),
            seq!["Infinity".spec_bytes()],
            g,
        ) matches Some(v) ==> is_word(v.text),
        keyword_spec(
            one_table("-Infinity".spec_bytes(), 2),
            seq!["-Infinity".spec_bytes()],
            g,
        ) matches Some(v) ==> is_word(v.text),
{
    reveal_with_fuel(partial_keyword, 3);
    reveal_with_fuel(full_keyword, 3);
}

/// Whatever the text and the settings, the value that is written for it is
/// a keyword, a number or a string.
pub proof fn law_value_text_is_scalar(f: Seq<u8>, allow_string: bool, st: ParseSettings)
    ensures
        value_text(f, allow_string, st) matches Ok(t) ==> is_scalar_text(t),
{
    let g = skip_space(f);
    lemma_word_kept(g);
    lemma_string_kept(g);
    lemma_number_kept(skip_space(g));
}

} // verus!
