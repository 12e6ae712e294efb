use crate::partial_parser::parse_spec::{read_word, word_result};
use crate::partial_parser::parse_string::{is_string_char, read_string, res_is, string_result_as};
use crate::partial_parser::{
    cast_as, cut_short, ends_value, incomplete_cast_as, is_invalid_as, ErrRes, ErrView, ParseErr,
    ParseRes,
};
use crate::text::{lemma_ascii_boundary, str_head, str_tail};
use crate::value_parser::parse_num::{base_len, exponent_len, parse_base_, parse_e_};
use crate::value_parser::parse_spec::{table_view, tags_view};
use crate::value_parser::{byte_is, holds, lemma_space_len_bound, skip_space, sp};
use vstd::prelude::*;
use vstd::slice::*;
use vstd::string::*;
use vstd::utf8::*;

pub use crate::partial_parser::ErrType;
pub use crate::partial_parser::JsonType;

verus! {

/// The result `res` as the reader of `cur_str` judges it. This reader takes
/// only the very end of the text for its end, not white space before it.
pub fn cast<'a, O>(
    res: ParseRes<'a, O>,
    cur_str: &'a str,
    cur_completion: &str,
    json_type: JsonType,
    delete: bool,
) -> (r: ParseRes<'a, O>)
    ensures
        match res {
            Ok(v) => r == Ok::<(&'a str, O), ParseErr<'a>>(v),
            Err(e) => r matches Err(e2) && e2@ == e@.cast_as(
                cur_str.spec_bytes(),
                cur_completion.spec_bytes(),
                json_type,
                delete,
                false,
            ),
        },
{
    cast_as(res, cur_str, cur_completion, json_type, delete, false)
}

/// Whether the result is an error that says the text is no JSON.
pub fn is_invalid<'a, O>(res: &ParseRes<'a, O>) -> (b: bool)
    ensures
        b == (res matches Err(e) && e@.is_invalid_as(false)),
{
    is_invalid_as(res, false)
}

/// Whether the result is an error that the text can be completed from.
pub fn is_incomplete<'a, O>(res: &ParseRes<'a, O>) -> (b: bool)
    ensures
        b == (res matches Err(e) && !e@.is_invalid_as(false)),
{
    res.is_err() && !is_invalid(res)
}

/// As `cast`, for a value that is complete only where something follows it
/// that ends a value: read to the end of the text, it may go on.
pub fn incomplete_cast<'a, O>(
    res: ParseRes<'a, O>,
    cur_str: &'a str,
    cur_completion: &str,
    json_type: JsonType,
    delete: bool,
) -> (r: ParseRes<'a, O>)
    ensures
        match res {
            Ok(v) => if ends_value(v.0.spec_bytes()) {
                r == Ok::<(&'a str, O), ParseErr<'a>>(v)
            } else {
                r matches Err(e2) && e2@ == cut_short(
                    cur_str.spec_bytes(),
                    cur_completion.spec_bytes(),
                    json_type,
                    delete,
                    false,
                )
            },
            Err(e) => r matches Err(e2) && e2@ == e@.cast_as(
                cur_str.spec_bytes(),
                cur_completion.spec_bytes(),
                json_type,
                delete,
                false,
            ),
        },
{
    incomplete_cast_as(res, cur_str, cur_completion, json_type, delete, false)
}

/// Whether `c` may stand in a string as it is.
pub fn is_string_character(c: char) -> (b: bool)
    ensures
        b == is_string_char(c),
{
    c != '"' && c != '\\'
}

/// Reads a string; one that the text ends in can be completed by a quote.
pub fn parse_string<'a>(i: &'a str) -> (r: ParseRes<'a, &'a str>)
    ensures
        res_is(r, string_result_as(i.spec_bytes(), "\"".spec_bytes(), false, false)),
{
    cast(read_string(i), i, "\"", JsonType::Str, false)
}

/// What a reader of two texts returns, with its texts as bytes.
pub open spec fn pair_is<'a>(
    r: ParseRes<'a, (&'a str, &'a str)>,
    want: Result<(Seq<u8>, (Seq<u8>, Seq<u8>)), ErrView>,
) -> bool {
    match want {
        Ok((rest, out)) => r matches Ok(v) && v.0.spec_bytes() == rest && v.1.0.spec_bytes()
            == out.0 && v.1.1.spec_bytes() == out.1,
        Err(e) => r matches Err(x) && x@ == e,
    }
}

/// What reading a key, a colon and a value gives before the reader of the
/// pair has judged it. Key and value are strings; white space may stand
/// before the key and before the colon. A key with no colon behind it ends
/// the reading.
pub open spec fn key_value_raw(f: Seq<u8>) -> Result<(Seq<u8>, (Seq<u8>, Seq<u8>)), ErrView> {
    let quote = "\"".spec_bytes();
    match string_result_as(skip_space(f), quote, false, false) {
        Err(e) => Err(e),
        Ok((after_key, key)) => {
            let g = skip_space(after_key);
            if !byte_is(g, 0, ':') {
                Err(ErrView { fatal: true, ..ErrView::raw(g) })
            } else {
                match string_result_as(g.subrange(1, g.len() as int), quote, false, false) {
                    Err(e) => Err(e),
                    Ok((rest, value)) => Ok((rest, (key, value))),
                }
            }
        },
    }
}

/// `key_value_raw` as the reader of the pair judges it.
pub open spec fn key_value_result(f: Seq<u8>) -> Result<(Seq<u8>, (Seq<u8>, Seq<u8>)), ErrView> {
    match key_value_raw(f) {
        Ok(v) => Ok(v),
        Err(e) => Err(e.cast_as(f, ",".spec_bytes(), JsonType::KeyVal, false, false)),
    }
}

/// Reads a key, a colon and a value.
pub fn read_key_value<'a>(i: &'a str) -> (r: ParseRes<'a, (&'a str, &'a str)>)
    ensures
        pair_is(r, key_value_raw(i.spec_bytes())),
{
    let (s, _) = sp(i);
    let (after_key, key) = match parse_string(s) {
        Ok(v) => v,
        Err(e) => {
            return Err(e);
        },
    };
    let (g, _) = sp(after_key);
    if !holds(g.as_bytes(), 0, ':') {
        return Err(ParseErr::Failure(ErrRes::simple_cast(g)));
    }
    proof {
        encode_utf8_valid_utf8(g@);
        lemma_ascii_boundary(g.spec_bytes(), 0);
    }
    match parse_string(str_tail(g, 1)) {
        Ok((rest, value)) => Ok((rest, (key, value))),
        Err(e) => Err(e),
    }
}

/// Reads a member of an object; one that the text ends in can be completed
/// by a comma.
pub fn parse_key_value<'a>(i: &'a str) -> (r: ParseRes<'a, (&'a str, &'a str)>)
    ensures
        pair_is(r, key_value_result(i.spec_bytes())),
{
    cast(read_key_value(i), i, ",", JsonType::KeyVal, false)
}

/// The keywords, each with the least length at which a start of it is taken
/// for it.
pub open spec fn word_table() -> Seq<(Seq<u8>, int)> {
    seq![
        ("true".spec_bytes(), 1int),
        ("false".spec_bytes(), 1int),
        ("NaN".spec_bytes(), 2int),
        ("Null".spec_bytes(), 1int),
        ("Infinity".spec_bytes(), 1int),
        ("-Infinity".spec_bytes(), 2int),
    ]
}

/// The keywords in the order in which they are tried.
pub open spec fn word_tags() -> Seq<Seq<u8>> {
    seq![
        "false".spec_bytes(),
        "true".spec_bytes(),
        "NaN".spec_bytes(),
        "Null".spec_bytes(),
        "Infinity".spec_bytes(),
        "-Infinity".spec_bytes(),
    ]
}

/// Reads `false`, `true`, `NaN`, `Null`, `Infinity` or `-Infinity`.
pub fn parse_spec<'a>(i: &'a str) -> (r: ParseRes<'a, &'a str>)
    ensures
        res_is(r, word_result(word_table(), word_tags(), i.spec_bytes(), false)),
{
    let tags = ["false", "true", "NaN", "Null", "Infinity", "-Infinity"];
    let spec_vec: [(&str, usize); 6] = [
        ("true", 1),
        ("false", 1),
        ("NaN", 2),
        ("Null", 1),
        ("Infinity", 1),
        ("-Infinity", 2),
    ];
    assert(tags_view(tags@) =~= word_tags());
    assert(table_view(spec_vec@) =~= word_table());
    read_word(tags.as_slice(), spec_vec.as_slice(), i, false)
}

/// The length of the minus sign that `f` starts with, if any.
pub open spec fn sign_len(f: Seq<u8>) -> int {
    if byte_is(f, 0, '-') {
        1
    } else {
        0
    }
}

/// How much of `f` is a number: its base, and an exponent where one follows
/// in full.
pub open spec fn number_end(f: Seq<u8>) -> Option<int> {
    match base_len(f) {
        None => None,
        Some(b) => match exponent_len(f, b) {
            Some(e) => Some(b + e),
            None => Some(b),
        },
    }
}

/// What reading a number from `f` gives before any reader has judged it.
/// Where no digit follows the sign, the error names the text behind the
/// sign.
pub open spec fn number_raw(f: Seq<u8>) -> Result<(Seq<u8>, Seq<u8>), ErrView> {
    match number_end(f) {
        None => Err(ErrView::raw(f.subrange(sign_len(f), f.len() as int))),
        Some(end) => Ok((f.subrange(end, f.len() as int), f.subrange(0, end))),
    }
}

/// What the number reader returns: a number is complete only where a
/// comma or a closer follows it.
pub open spec fn number_result(f: Seq<u8>) -> Result<(Seq<u8>, Seq<u8>), ErrView> {
    match number_raw(f) {
        Ok((rest, out)) => if ends_value(rest) {
            Ok((rest, out))
        } else {
            Err(cut_short(f, Seq::empty(), JsonType::Num, true, false))
        },
        Err(e) => Err(e.cast_as(f, Seq::empty(), JsonType::Num, true, false)),
    }
}

/// Reads a number at the start of `i`.
pub fn read_num<'a>(i: &'a str) -> (r: ParseRes<'a, &'a str>)
    ensures
        res_is(r, number_raw(i.spec_bytes())),
{
    let bytes = i.as_bytes();
    let n = bytes.len();
    proof {
        encode_utf8_valid_utf8(i@);
        is_char_boundary_start_end_of_seq(bytes@);
    }
    match parse_base_(bytes) {
        None => {
            if holds(bytes, 0, '-') {
                proof {
                    lemma_ascii_boundary(bytes@, 0);
                }
                Err(ParseErr::Error(ErrRes::simple_cast(str_tail(i, 1))))
            } else {
                Err(ParseErr::Error(ErrRes::simple_cast(str_tail(i, 0))))
            }
        },
        Some(base) => {
            let end = match parse_e_(bytes, base) {
                Some(e) => e,
                None => base,
            };
            proof {
                assert(bytes@[end - 1] < 0x80);
                lemma_ascii_boundary(bytes@, end - 1);
            }
            Ok((str_tail(i, end), str_head(i, end)))
        },
    }
}

/// Reads a number; one that the text ends in is deleted.
pub fn parse_num<'a>(i: &'a str) -> (r: ParseRes<'a, &'a str>)
    ensures
        res_is(r, number_result(i.spec_bytes())),
{
    proof {
        reveal_strlit("");
        assert("".spec_bytes() =~= Seq::<u8>::empty());
    }
    incomplete_cast(read_num(i), i, "", JsonType::Num, true)
}

/// Whether `r` is what is left of `f` behind some offset.
pub open spec fn is_rest_of(r: Seq<u8>, f: Seq<u8>) -> bool {
    r.len() <= f.len() && f.subrange(f.len() - r.len(), f.len() as int) == r
}

/// What is left of `f` behind one item of an array: a number, a keyword, a
/// string or an array, tried in this order.
pub open spec fn content_rest(f: Seq<u8>) -> Option<Seq<u8>>
    decreases f.len(), 1int,
{
    if let Ok((r, _)) = number_result(f) {
        Some(r)
    } else if let Ok((r, _)) = word_result(word_table(), word_tags(), f, false) {
        Some(r)
    } else if let Ok((r, _)) = string_result_as(f, "\"".spec_bytes(), false, false) {
        Some(r)
    } else if let Ok((r, _)) = array_raw(f) {
        Some(r)
    } else {
        None
    }
}

/// What is left of `f` behind one item and the white space around it.
pub open spec fn item_rest(f: Seq<u8>) -> Option<Seq<u8>>
    decreases f.len(), 2int,
{
    let g = skip_space(f);
    if g.len() <= f.len() {
        match content_rest(g) {
            Some(r) => Some(skip_space(r)),
            None => None,
        }
    } else {
        None
    }
}

/// What is left of `f` behind as many items, each with a comma before it, as
/// can be read. A comma that no item follows is left.
pub open spec fn more_items(f: Seq<u8>) -> Seq<u8>
    decreases f.len(), 3int,
{
    if byte_is(f, 0, ',') {
        match item_rest(f.subrange(1, f.len() as int)) {
            Some(r) => if r.len() < f.len() {
                more_items(r)
            } else {
                r
            },
            None => f,
        }
    } else {
        f
    }
}

/// What reading an array from `f` gives before the reader has judged it:
/// the array and what follows its closer, or an error at the place where
/// the opener or the closer is missing.
pub open spec fn array_raw(f: Seq<u8>) -> Result<(Seq<u8>, Seq<u8>), ErrView>
    decreases f.len(), 0int,
{
    if !byte_is(f, 0, '[') {
        Err(ErrView::raw(f))
    } else {
        let inner = f.subrange(1, f.len() as int);
        let r = match item_rest(inner) {
            Some(r) => if r.len() <= inner.len() {
                more_items(r)
            } else {
                r
            },
            None => inner,
        };
        if byte_is(r, 0, ']') {
            Ok((r.subrange(1, r.len() as int), f.subrange(0, f.len() - r.len() + 1)))
        } else {
            Err(ErrView::raw(r))
        }
    }
}

/// `array_raw` as the reader of the array judges it.
pub open spec fn array_result(f: Seq<u8>) -> Result<(Seq<u8>, Seq<u8>), ErrView> {
    match array_raw(f) {
        Ok(v) => Ok(v),
        Err(e) => Err(e.cast_as(f, "]".spec_bytes(), JsonType::Array, false, false)),
    }
}

/// What is left of what is left of a text is left of the text.
pub proof fn lemma_rest_of_rest(a: Seq<u8>, b: Seq<u8>, c: Seq<u8>)
    requires
        is_rest_of(a, b),
        is_rest_of(b, c),
    ensures
        is_rest_of(a, c),
{
    assert(c.subrange(c.len() - a.len(), c.len() as int) =~= c.subrange(
        c.len() - b.len(),
        c.len() as int,
    ).subrange(b.len() - a.len(), b.len() as int));
}

/// `i` without the white space at its start.
fn skip<'a>(i: &'a str) -> (r: &'a str)
    ensures
        r.spec_bytes() == skip_space(i.spec_bytes()),
        is_rest_of(r.spec_bytes(), i.spec_bytes()),
{
    proof {
        lemma_space_len_bound(i.spec_bytes(), 0);
    }
    let (r, _) = sp(i);
    r
}

/// `i` without its first byte, which is an ASCII character.
fn behind_first<'a>(i: &'a str) -> (r: &'a str)
    requires
        i.spec_bytes().len() > 0,
        i.spec_bytes()[0] < 0x80,
    ensures
        r.spec_bytes() == i.spec_bytes().subrange(1, i.spec_bytes().len() as int),
        is_rest_of(r.spec_bytes(), i.spec_bytes()),
{
    proof {
        encode_utf8_valid_utf8(i@);
        lemma_ascii_boundary(i.spec_bytes(), 0);
    }
    str_tail(i, 1)
}

/// Reads one item of an array.
fn content<'a>(i: &'a str) -> (r: Option<&'a str>)
    ensures
        match content_rest(i.spec_bytes()) {
            Some(rest) => r matches Some(x) && x.spec_bytes() == rest && is_rest_of(
                rest,
                i.spec_bytes(),
            ),
            None => r is None,
        },
    decreases i.spec_bytes().len(), 1int,
{
    if let Ok((rest, _)) = parse_num(i) {
        proof {
            lemma_number_rest(i.spec_bytes());
        }
        return Some(rest);
    }
    if let Ok((rest, _)) = parse_spec(i) {
        proof {
            lemma_word_rest(i.spec_bytes());
        }
        return Some(rest);
    }
    if let Ok((rest, _)) = parse_string(i) {
        proof {
            lemma_string_rest(i.spec_bytes());
        }
        return Some(rest);
    }
    match read_arr(i) {
        Ok((rest, _)) => Some(rest),
        Err(_) => None,
    }
}

/// What a reader leaves is the end of what it was given.
pub proof fn lemma_number_rest(f: Seq<u8>)
    ensures
        number_result(f) matches Ok((r, _)) ==> is_rest_of(r, f),
{
    if let Some(b) = base_len(f) {
        let sign = sign_len(f);
        crate::value_parser::parse_num::lemma_digit_len_bound(f, sign);
        let dot = sign + crate::value_parser::parse_num::digit_len(f, sign);
        crate::value_parser::parse_num::lemma_digit_len_bound(f, dot + 1);
        if let Some(e) = exponent_len(f, b) {
            let es = if byte_is(f, b + 1, '-') || byte_is(f, b + 1, '+') {
                1int
            } else {
                0int
            };
            crate::value_parser::parse_num::lemma_digit_len_bound(f, b + 1 + es);
        }
    }
}

/// What the keyword reader leaves is the end of what it was given.
pub proof fn lemma_word_rest(f: Seq<u8>)
    ensures
        word_result(word_table(), word_tags(), f, false) matches Ok((r, _)) ==> is_rest_of(r, f),
{
    lemma_full_keyword(word_tags(), f, 0);
}

/// A keyword that is read in full stands at the start of the text.
pub proof fn lemma_full_keyword(tags: Seq<Seq<u8>>, f: Seq<u8>, from: int)
    ensures
        crate::value_parser::parse_spec::full_keyword(tags, f, from) matches Some(k) ==> k.len()
            <= f.len(),
    decreases tags.len() - from,
{
    if 0 <= from < tags.len() {
        lemma_full_keyword(tags, f, from + 1);
    }
}

/// What the string reader leaves is the end of what it was given.
pub proof fn lemma_string_rest(f: Seq<u8>)
    ensures
        string_result_as(f, "\"".spec_bytes(), false, false) matches Ok((r, _)) ==> is_rest_of(
            r,
            f,
        ),
{
    lemma_escaped_end(f, 1);
}

/// The body of a string ends inside the text.
pub proof fn lemma_escaped_end(f: Seq<u8>, i: int)
    requires
        0 <= i,
    ensures
        crate::partial_parser::parse_string::escaped_from(f, 1, i) matches crate::partial_parser::parse_string::Escaped::Done(
            k,
        ) ==> (i <= k <= f.len() || k == f.len()),
    decreases f.len() - i + 2,
{
    if i < f.len() {
        lemma_escaped_end(f, i + 1);
        lemma_escaped_end(f, i + 2);
    }
}

/// Reads one item of an array and the white space around it.
fn item<'a>(i: &'a str) -> (r: Option<&'a str>)
    ensures
        match item_rest(i.spec_bytes()) {
            Some(rest) => r matches Some(x) && x.spec_bytes() == rest && is_rest_of(
                rest,
                i.spec_bytes(),
            ),
            None => r is None,
        },
    decreases i.spec_bytes().len(), 2int,
{
    let g = skip(i);
    match content(g) {
        Some(rest) => {
            let r = skip(rest);
            proof {
                lemma_rest_of_rest(rest.spec_bytes(), g.spec_bytes(), i.spec_bytes());
                lemma_rest_of_rest(r.spec_bytes(), rest.spec_bytes(), i.spec_bytes());
            }
            Some(r)
        },
        None => None,
    }
}

/// Reads the items that follow the first one.
fn items<'a>(i: &'a str) -> (r: &'a str)
    ensures
        r.spec_bytes() == more_items(i.spec_bytes()),
        is_rest_of(r.spec_bytes(), i.spec_bytes()),
    decreases i.spec_bytes().len(), 3int,
{
    let bytes = i.as_bytes();
    assert(i.spec_bytes().subrange(0, i.spec_bytes().len() as int) =~= i.spec_bytes());
    if holds(bytes, 0, ',') {
        let inner = behind_first(i);
        match item(inner) {
            Some(rest) => {
                proof {
                    lemma_rest_of_rest(rest.spec_bytes(), inner.spec_bytes(), i.spec_bytes());
                }
                if rest.as_bytes().len() < bytes.len() {
                    let r = items(rest);
                    proof {
                        lemma_rest_of_rest(r.spec_bytes(), rest.spec_bytes(), i.spec_bytes());
                    }
                    r
                } else {
                    rest
                }
            },
            None => i,
        }
    } else {
        i
    }
}

/// Reads an array at the start of `i`.
pub fn read_arr<'a>(i: &'a str) -> (r: ParseRes<'a, &'a str>)
    ensures
        res_is(r, array_raw(i.spec_bytes())),
        r matches Ok(v) ==> is_rest_of(v.0.spec_bytes(), i.spec_bytes()),
    decreases i.spec_bytes().len(), 0int,
{
    let bytes = i.as_bytes();
    let n = bytes.len();
    if !holds(bytes, 0, '[') {
        return Err(ParseErr::Error(ErrRes::simple_cast(i)));
    }
    let inner = behind_first(i);
    let r = match item(inner) {
        Some(rest) => {
            proof {
                lemma_rest_of_rest(rest.spec_bytes(), inner.spec_bytes(), i.spec_bytes());
            }
            if rest.as_bytes().len() <= inner.as_bytes().len() {
                let r = items(rest);
                proof {
                    lemma_rest_of_rest(r.spec_bytes(), rest.spec_bytes(), i.spec_bytes());
                }
                r
            } else {
                rest
            }
        },
        None => inner,
    };
    let left = r.as_bytes().len();
    if !holds(r.as_bytes(), 0, ']') {
        return Err(ParseErr::Error(ErrRes::simple_cast(r)));
    }
    let end = n - left + 1;
    proof {
        encode_utf8_valid_utf8(i@);
        assert(bytes@[end - 1] == r.spec_bytes()[0]) by {
            assert(bytes@.subrange(n - left, n as int)[0] == bytes@[n - left]);
        }
        lemma_ascii_boundary(bytes@, end - 1);
    }
    let rest = behind_first(r);
    proof {
        lemma_rest_of_rest(rest.spec_bytes(), r.spec_bytes(), i.spec_bytes());
    }
    Ok((rest, str_head(i, end)))
}

/// Reads an array of numbers, keywords, strings and arrays; one that the
/// text ends in can be completed by a closing bracket.
pub fn parse_arr<'a>(i: &'a str) -> (r: ParseRes<'a, &'a str>)
    ensures
        res_is(r, array_result(i.spec_bytes())),
{
    cast(read_arr(i), i, "]", JsonType::Array, false)
}

} // verus!
