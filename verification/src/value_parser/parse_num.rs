use super::parse_spec::result_is;
use super::{byte_is, holds, skip_space, sp, VParserRes, ValueRes};
use crate::text::{lemma_ascii_boundary, str_head};
use vstd::prelude::*;
use vstd::slice::*;
use vstd::string::*;
use vstd::utf8::*;

verus! {

/// Whether `c` is a digit.
pub open spec fn is_digit_char(c: char) -> bool {
    '0' <= c && c <= '9'
}

/// How many digits stand in `f` from offset `from` on.
pub open spec fn digit_len(f: Seq<u8>, from: int) -> int
    decreases f.len() - from,
{
    if 0 <= from < f.len() && is_digit_char(f[from] as char) {
        1 + digit_len(f, from + 1)
    } else {
        0
    }
}

/// The digits that are counted lie in the text.
pub proof fn lemma_digit_len_bound(f: Seq<u8>, from: int)
    requires
        0 <= from,
    ensures
        0 <= digit_len(f, from),
        from + digit_len(f, from) <= f.len() || digit_len(f, from) == 0,
        forall|k: int| from <= k < from + digit_len(f, from) ==> is_digit_char(#[trigger] f[k] as char),
    decreases f.len() - from,
{
    if from < f.len() && is_digit_char(f[from] as char) {
        lemma_digit_len_bound(f, from + 1);
    }
}

/// The length of the base of a number at the start of `f`: an optional minus
/// sign, digits, and a point with digits behind it where there is one.
pub open spec fn base_len(f: Seq<u8>) -> Option<int> {
    let sign = if byte_is(f, 0, '-') {
        1int
    } else {
        0int
    };
    let whole = digit_len(f, sign);
    if whole == 0 {
        None
    } else {
        let dot = sign + whole;
        let frac = digit_len(f, dot + 1);
        if byte_is(f, dot, '.') && frac > 0 {
            Some(dot + 1 + frac)
        } else {
            Some(dot)
        }
    }
}

/// Whether `e` or `E` stands at offset `i`.
pub open spec fn is_exp_mark(f: Seq<u8>, i: int) -> bool {
    byte_is(f, i, 'e') || byte_is(f, i, 'E')
}

/// The length of an exponent that starts at offset `from` of `f`: `e` or `E`,
/// an optional sign, digits.
pub open spec fn exponent_len(f: Seq<u8>, from: int) -> Option<int> {
    if !is_exp_mark(f, from) {
        None
    } else {
        let sign = if byte_is(f, from + 1, '-') || byte_is(f, from + 1, '+') {
            1int
        } else {
            0int
        };
        let digits = digit_len(f, from + 1 + sign);
        if digits == 0 {
            None
        } else {
            Some(1 + sign + digits)
        }
    }
}

/// How much of `f` is kept as a number: the base, and the exponent where one
/// follows in full. A point with no digits behind it is left out; an
/// exponent that has begun and lacks its digits makes the fragment no number.
pub open spec fn number_len(f: Seq<u8>) -> Option<int> {
    match base_len(f) {
        None => None,
        Some(b) => if byte_is(f, b, '.') || !is_exp_mark(f, b) {
            Some(b)
        } else {
            match exponent_len(f, b) {
                Some(e) => Some(b + e),
                None => None,
            }
        },
    }
}

/// What the number parser returns on the fragment `f`. A number is never
/// complete: more digits may follow.
pub open spec fn number_spec(f: Seq<u8>) -> Option<ValueRes> {
    let g = skip_space(f);
    match number_len(g) {
        Some(n) => Some(ValueRes { text: g.subrange(0, n), is_complete: false, stack_recover: false }),
        None => None,
    }
}

/// Whether `c` is a digit.
pub fn is_digit(c: char) -> (b: bool)
    ensures
        b == is_digit_char(c),
{
    '0' <= c && c <= '9'
}

/// The offset behind the digits that start at `from`.
pub fn digits_end(input: &[u8], from: usize) -> (end: usize)
    requires
        from <= input@.len(),
    ensures
        end == from + digit_len(input@, from as int),
        end <= input@.len(),
{
    let n = input.len();
    let mut k: usize = from;
    while k < n && is_digit(input[k] as char)
        invariant
            from <= k <= n,
            n == input@.len(),
            digit_len(input@, from as int) == (k - from) + digit_len(input@, k as int),
        decreases n - k,
    {
        k += 1;
    }
    k
}

/// The offset behind the base of a number at the start of `input`.
pub fn parse_base_(input: &[u8]) -> (r: Option<usize>)
    ensures
        match base_len(input@) {
            Some(n) => r == Some(n as usize) && 0 < n <= input@.len(),
            None => r is None,
        },
        r is Some ==> forall|k: int| 0 <= k < r.unwrap() ==> #[trigger] input@[k] < 0x80,
{
    let n = input.len();
    let sign: usize = if holds(input, 0, '-') {
        1
    } else {
        0
    };
    let dot = digits_end(input, sign);
    proof {
        lemma_digit_len_bound(input@, sign as int);
        lemma_digit_len_bound(input@, dot + 1);
    }
    if dot == sign {
        return None;
    }
    if holds(input, dot, '.') {
        let end = digits_end(input, dot + 1);
        if end > dot + 1 {
            return Some(end);
        }
    }
    Some(dot)
}

/// The offset behind an exponent that starts at offset `from` of `input`.
pub fn parse_e_(input: &[u8], from: usize) -> (r: Option<usize>)
    requires
        from <= input@.len(),
    ensures
        match exponent_len(input@, from as int) {
            Some(n) => r == Some((from + n) as usize) && 0 < n && from + n <= input@.len(),
            None => r is None,
        },
        r is Some ==> forall|k: int| from <= k < r.unwrap() ==> #[trigger] input@[k] < 0x80,
{
    let n = input.len();
    if !(holds(input, from, 'e') || holds(input, from, 'E')) {
        return None;
    }
    let sign: usize = if holds(input, from + 1, '-') || holds(input, from + 1, '+') {
        1
    } else {
        0
    };
    let end = digits_end(input, from + 1 + sign);
    proof {
        lemma_digit_len_bound(input@, from + 1 + sign);
    }
    if end == from + 1 + sign {
        None
    } else {
        Some(end)
    }
}

/// Reads a number at the start of `i`, behind white space.
pub fn parse_num(i: &str) -> (r: Result<VParserRes, ()>)
    ensures
        result_is(r, number_spec(i.spec_bytes())),
{
    let (s, _) = sp(i);
    let bytes = s.as_bytes();
    let n = bytes.len();
    let base = match parse_base_(bytes) {
        Some(b) => b,
        None => {
            return Err(());
        },
    };
    let no_e = !(holds(bytes, base, 'e') || holds(bytes, base, 'E'));
    let end = if holds(bytes, base, '.') || no_e {
        base
    } else {
        match parse_e_(bytes, base) {
            Some(e) => e,
            None => {
                return Err(());
            },
        }
    };
    proof {
        encode_utf8_valid_utf8(s@);
        assert(bytes@[end - 1] < 0x80);
        lemma_ascii_boundary(bytes@, end - 1);
    }
    Ok(VParserRes::new(str_head(s, end), false))
}

} // verus!
