use super::parse_spec::result_is;
use super::{byte_is, holds, skip_space, sp, VParserRes, ValueRes};
use crate::parser::{CharType, EscapeCnt, EscapeState};
use crate::text::{lemma_ascii_boundary, push_text, str_head};
use vstd::prelude::*;
use vstd::slice::*;
use vstd::string::*;
use vstd::utf8::*;

verus! {

/// How the walk through a string ends.
pub enum StrEnd {
    /// The closing quote stands at this offset.
    Closed(int),
    /// The text ended first, with this escape state; the offset is that of the
    /// last backslash that began an escape.
    Open(EscapeState, Option<int>),
    /// A backslash is followed by what is no escape.
    Illegal,
}

/// Walks the string body from offset `i` on.
pub open spec fn str_walk(f: Seq<u8>, i: int, e: EscapeState, last_esc: Option<int>) -> StrEnd
    decreases f.len() - i,
{
    if i < 0 || i >= f.len() {
        StrEnd::Open(e, last_esc)
    } else {
        match e.step(f[i] as char) {
            None => StrEnd::Illegal,
            Some((next, t)) => if t == CharType::Quotation {
                StrEnd::Closed(i)
            } else {
                str_walk(
                    f,
                    i + 1,
                    next,
                    if t == CharType::Escape {
                        Some(i)
                    } else {
                        last_esc
                    },
                )
            },
        }
    }
}

/// The quote that closes a string.
pub open spec fn quote() -> Seq<u8> {
    seq![0x22u8]
}

/// What the string parser returns on the fragment `f`: the string up to its
/// closing quote; or, where the text ends first, the text with a quote added,
/// cut before the last backslash if its escape is unfinished.
pub open spec fn string_spec(f: Seq<u8>) -> Option<ValueRes> {
    let g = skip_space(f);
    if !byte_is(g, 0, '"') {
        None
    } else {
        match str_walk(g, 1, EscapeState::start(), None) {
            StrEnd::Illegal => None,
            StrEnd::Closed(end) => Some(
                ValueRes { text: g.subrange(0, end + 1), is_complete: true, stack_recover: false },
            ),
            StrEnd::Open(e, last_esc) => {
                let kept = match last_esc {
                    Some(k) if e.cnt == 1 => g.subrange(0, k),
                    _ => g,
                };
                Some(ValueRes { text: kept + quote(), is_complete: false, stack_recover: false })
            },
        }
    }
}

/// Reads a string at the start of `i`, behind white space.
#[verifier::loop_isolation(false)]
pub fn parse_string(i: &str) -> (r: Result<VParserRes, ()>)
    ensures
        result_is(r, string_spec(i.spec_bytes())),
{
    let (s, _) = sp(i);
    let bytes = s.as_bytes();
    let n = bytes.len();
    if !holds(bytes, 0, '"') {
        return Err(());
    }
    let mut esc_cnt = EscapeCnt::new();
    let mut last_esc: Option<usize> = None;
    let mut idx: usize = 1;
    proof {
        encode_utf8_valid_utf8(s@);
    }
    while idx < n
        invariant
            1 <= idx <= n,
            n == bytes@.len(),
            bytes@ == s.spec_bytes(),
            valid_utf8(bytes@),
            str_walk(bytes@, 1, EscapeState::start(), None) == str_walk(
                bytes@,
                idx as int,
                esc_cnt@,
                match last_esc {
                    Some(k) => Some(k as int),
                    None => None,
                },
            ),
            last_esc matches Some(k) ==> k < n && bytes@[k as int] == 0x5c,
        decreases n - idx,
    {
        match esc_cnt.input(bytes[idx] as char) {
            Err(_) => {
                return Err(());
            },
            Ok(char_type) => {
                if char_type == CharType::Quotation {
                    proof {
                        lemma_ascii_boundary(bytes@, idx as int);
                    }
                    return Ok(VParserRes::new(str_head(s, idx + 1), true));
                } else if char_type == CharType::Escape {
                    last_esc = Some(idx);
                }
            },
        }
        idx += 1;
    }
    let mut amend_value = String::new();
    proof {
        assert(encode_utf8(amend_value@) =~= Seq::<u8>::empty());
        reveal_strlit("\"");
        crate::text::lemma_encode_ascii("\""@);
        assert("\"".spec_bytes() =~= quote());
    }
    match last_esc {
        Some(k) if esc_cnt.cnt() == 1 => {
            proof {
                lemma_ascii_boundary(bytes@, k as int);
            }
            push_text(&mut amend_value, str_head(s, k));
        },
        _ => {
            push_text(&mut amend_value, s);
        },
    }
    push_text(&mut amend_value, "\"");
    Ok(VParserRes::from_string(amend_value, false))
}

} // verus!
