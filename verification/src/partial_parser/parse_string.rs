use super::{cast, ErrRes, ErrView, JsonType, ParseErr, ParseRes};
use crate::text::{lemma_ascii_boundary, str_head, str_tail};
use crate::value_parser::{byte_is, holds, is_space_char, skip_space, space_len};
use vstd::prelude::*;
use vstd::slice::*;
use vstd::string::*;
use vstd::utf8::*;

verus! {

/// What a reader of texts returns, with its texts as bytes.
pub open spec fn res_is<'a>(
    r: ParseRes<'a, &'a str>,
    want: Result<(Seq<u8>, Seq<u8>), ErrView>,
) -> bool {
    match want {
        Ok((rest, out)) => r matches Ok(v) && v.0.spec_bytes() == rest && v.1.spec_bytes() == out,
        Err(e) => r matches Err(x) && x@ == e,
    }
}

/// Whether `c` is white space.
pub fn is_space(c: char) -> (b: bool)
    ensures
        b == is_space_char(c),
{
    c == ' ' || c == '\t' || c == '\r' || c == '\n'
}

/// Reads the white space at the start of `i`. It never fails.
pub fn sp<'a>(i: &'a str) -> (r: ParseRes<'a, &'a str>)
    ensures
        res_is(
            r,
            Ok(
                (
                    skip_space(i.spec_bytes()),
                    i.spec_bytes().subrange(0, space_len(i.spec_bytes(), 0)),
                ),
            ),
        ),
{
    Ok(crate::value_parser::sp(i))
}

/// Whether `c` may stand in a string as it is.
pub open spec fn is_string_char(c: char) -> bool {
    c != '"' && c != '\\'
}

/// Whether `c` may stand in a string as it is.
pub fn is_string_character(c: char) -> (b: bool)
    ensures
        b == is_string_char(c),
{
    c != '"' && c != '\\'
}

/// The characters that may follow a backslash.
pub open spec fn is_escapable(c: char) -> bool {
    c == '"' || c == 'b' || c == 'f' || c == 'n' || c == 'r' || c == 't' || c == '\\'
}

/// How the body of a string ends.
pub enum Escaped {
    /// The body ends at this offset: at a quote, or at the end of the text.
    Done(int),
    /// The body is no string body; the error names the text from this offset
    /// on.
    Fail(int),
}

/// Reads the body of a string that starts at offset `start`, from offset `i`
/// on. A backslash at the very end of the text, and a quote at the very
/// start of the body, make the whole body an error.
pub open spec fn escaped_from(f: Seq<u8>, start: int, i: int) -> Escaped
    decreases f.len() - i,
{
    if i < 0 || i >= f.len() {
        Escaped::Done(f.len() as int)
    } else if is_string_char(f[i] as char) {
        escaped_from(f, start, i + 1)
    } else if byte_is(f, i, '\\') {
        if i + 1 >= f.len() {
            Escaped::Fail(start)
        } else if is_escapable(f[i + 1] as char) {
            escaped_from(f, start, i + 2)
        } else {
            Escaped::Fail(i + 1)
        }
    } else if i == start {
        Escaped::Fail(start)
    } else {
        Escaped::Done(i)
    }
}

/// What reading a string from `f` gives before any reader has judged it: the
/// text between the quotes and what follows the closing quote, or an error
/// at the place where reading stopped.
pub open spec fn string_raw(f: Seq<u8>) -> Result<(Seq<u8>, Seq<u8>), ErrView> {
    if !byte_is(f, 0, '"') {
        Err(ErrView::raw(f))
    } else {
        match escaped_from(f, 1, 1) {
            Escaped::Fail(k) => Err(ErrView::raw(f.subrange(k, f.len() as int))),
            Escaped::Done(k) => if byte_is(f, k, '"') {
                Ok((f.subrange(k + 1, f.len() as int), f.subrange(1, k)))
            } else {
                Err(ErrView::raw(f.subrange(k, f.len() as int)))
            },
        }
    }
}

/// `string_raw` as the reader with this completion judges it.
pub open spec fn string_result(f: Seq<u8>, completion: Seq<u8>, delete: bool) -> Result<
    (Seq<u8>, Seq<u8>),
    ErrView,
> {
    string_result_as(f, completion, delete, true)
}

/// `string_raw` as a reader that is lenient or not judges it.
pub open spec fn string_result_as(
    f: Seq<u8>,
    completion: Seq<u8>,
    delete: bool,
    lenient: bool,
) -> Result<(Seq<u8>, Seq<u8>), ErrView> {
    match string_raw(f) {
        Ok(v) => Ok(v),
        Err(e) => Err(e.cast_as(f, completion, JsonType::Str, delete, lenient)),
    }
}

/// Reads a quoted string at the start of `i`.
#[verifier::loop_isolation(false)]
pub fn read_string<'a>(i: &'a str) -> (r: ParseRes<'a, &'a str>)
    ensures
        res_is(r, string_raw(i.spec_bytes())),
{
    let bytes = i.as_bytes();
    let n = bytes.len();
    proof {
        encode_utf8_valid_utf8(i@);
        is_char_boundary_start_end_of_seq(bytes@);
    }
    if !holds(bytes, 0, '"') {
        assert(bytes@.subrange(0, n as int) =~= bytes@);
        return Err(ParseErr::Error(ErrRes::simple_cast(i)));
    }
    proof {
        lemma_ascii_boundary(bytes@, 0);
    }
    let mut k: usize = 1;
    while k < n
        invariant
            1 <= k <= n,
            escaped_from(bytes@, 1, 1) == escaped_from(bytes@, 1, k as int),
        decreases n - k,
    {
        let c = bytes[k] as char;
        if is_string_character(c) {
            k += 1;
        } else if c == '\\' {
            if k + 1 >= n {
                proof {
                    lemma_ascii_boundary(bytes@, 0);
                }
                return Err(ParseErr::Error(ErrRes::simple_cast(str_tail(i, 1))));
            }
            proof {
                lemma_ascii_boundary(bytes@, k as int);
            }
            let e = bytes[k + 1] as char;
            if e == '"' || e == 'b' || e == 'f' || e == 'n' || e == 'r' || e == 't' || e == '\\' {
                proof {
                    lemma_ascii_boundary(bytes@, k + 1);
                }
                k += 2;
            } else {
                return Err(ParseErr::Error(ErrRes::simple_cast(str_tail(i, k + 1))));
            }
        } else {
            if k == 1 {
                return Err(ParseErr::Error(ErrRes::simple_cast(str_tail(i, 1))));
            }
            proof {
                lemma_ascii_boundary(bytes@, k as int);
            }
            let body = str_head(str_tail(i, 1), k - 1);
            assert(body.spec_bytes() =~= bytes@.subrange(1, k as int));
            return Ok((str_tail(i, k + 1), body));
        }
    }
    Err(ParseErr::Error(ErrRes::simple_cast(str_tail(i, n))))
}

/// Reads a string; one that the text ends in can be completed by a quote.
pub fn parse_string<'a>(i: &'a str) -> (r: ParseRes<'a, &'a str>)
    ensures
        res_is(r, string_result(i.spec_bytes(), "\"".spec_bytes(), false)),
{
    cast(read_string(i), i, "\"", JsonType::Str, false)
}

/// Reads the key of an object member; one that the text ends in is deleted.
pub fn parse_key<'a>(i: &'a str) -> (r: ParseRes<'a, &'a str>)
    ensures
        res_is(r, string_result(i.spec_bytes(), "".spec_bytes(), true)),
{
    cast(read_string(i), i, "", JsonType::Str, true)
}

} // verus!
