use crate::parser::{CharType, ParseSettings, ParserError};
use crate::scan::{scan, Scan};
use crate::utils::RunState;
use crate::value_parser::parse_num::number_spec;
use crate::value_parser::parse_spec::{bool_table, bool_tags, keyword_spec, one_table};
use crate::value_parser::parse_string::string_spec;
use crate::value_parser::{skip_space, ValueRes};
use vstd::prelude::*;
use vstd::string::*;
use vstd::utf8::*;

verus! {

/// The innermost open container that starts before offset `idx`.
pub open spec fn opener_before(stack: Seq<(int, CharType)>, idx: int) -> Option<(int, CharType)>
    decreases stack.len(),
{
    if stack.len() == 0 {
        None
    } else if stack.last().0 < idx {
        Some(stack.last())
    } else {
        opener_before(stack.drop_last(), idx)
    }
}

/// The stack without the containers that start at offset `idx` or behind it.
pub open spec fn recovered(stack: Seq<(int, CharType)>, idx: int) -> Seq<(int, CharType)>
    decreases stack.len(),
{
    if stack.len() == 0 || stack.last().0 < idx {
        stack
    } else {
        recovered(stack.drop_last(), idx)
    }
}

/// The closer of one open container.
pub open spec fn closer_of(kind: CharType) -> Seq<u8> {
    encode_utf8(CharType::option_text(kind.pair()))
}

/// The closers of the lowest `k` containers of the stack, the innermost first.
pub open spec fn closers_upto(stack: Seq<(int, CharType)>, k: int) -> Seq<u8>
    decreases k,
{
    if k <= 0 || k > stack.len() {
        Seq::empty()
    } else {
        closer_of(stack[k - 1].1) + closers_upto(stack, k - 1)
    }
}

/// The closers of all open containers, the innermost first.
pub open spec fn closers(stack: Seq<(int, CharType)>) -> Seq<u8> {
    closers_upto(stack, stack.len() as int)
}

/// The value parser that takes the fragment `g`, first in the order bool,
/// string, number, NaN, null, Infinity, -Infinity, with what it found and
/// whether the settings let an unfinished value of its kind be written out.
pub open spec fn first_value(g: Seq<u8>, allow_string: bool, st: ParseSettings) -> Option<
    (ValueRes, bool),
> {
    if let Some(v) = keyword_spec(bool_table(), bool_tags(), g) {
        Some((v, st.allow_bool))
    } else if let Some(v) = string_spec(g) {
        Some((v, allow_string && st.allow_string))
    } else if let Some(v) = number_spec(g) {
        Some((v, st.allow_number))
    } else if let Some(v) = keyword_spec(
        one_table("NaN".spec_bytes(), 1),
        seq!["NaN".spec_bytes()],
        g,
    ) {
        Some((v, st.allow_nan))
    } else if let Some(v) = keyword_spec(
        one_table("null".spec_bytes(), 1),
        seq!["null".spec_bytes()],
        g,
    ) {
        Some((v, st.allow_null))
    } else if let Some(v) = keyword_spec(
        one_table("Infinity".spec_bytes(), 1),
        seq!["Infinity".spec_bytes()],
        g,
    ) {
        Some((v, st.allow_infinity))
    } else if let Some(v) = keyword_spec(
        one_table("-Infinity".spec_bytes(), 2),
        seq!["-Infinity".spec_bytes()],
        g,
    ) {
        Some((v, st.allow_ninfinity))
    } else {
        None
    }
}

/// What is written for the value that the fragment `f` starts with: its text
/// where the value is complete or may be completed; `Err(true)` where a value
/// was read that may not be completed; `Err(false)` where none was read.
pub open spec fn value_text(f: Seq<u8>, allow_string: bool, st: ParseSettings) -> Result<
    Seq<u8>,
    bool,
> {
    match first_value(skip_space(f), allow_string, st) {
        None => Err(false),
        Some((v, allowed)) => if allowed || v.is_complete {
            Ok(v.text)
        } else {
            Err(true)
        },
    }
}

/// Where the amender cuts.
pub struct Plan {
    /// Offset of the last byte known to end a finished unit: a comma, a
    /// colon, or the innermost opener.
    pub valid_idx: int,
    /// Where the text is cut if the value behind `valid_idx` cannot stand.
    pub recover_idx: int,
    /// Whether what follows `valid_idx` is the key of an object member.
    pub key_only: bool,
}

/// Whether the innermost open container that starts before offset `idx` is
/// an object.
pub open spec fn in_object(stack: Seq<(int, CharType)>, idx: int) -> bool {
    match opener_before(stack, idx) {
        Some(o) => o.1 == CharType::LCB,
        None => false,
    }
}

/// The cut points for a scan that left containers open. There is none where
/// only a colon was seen and no container starts before it.
pub open spec fn plan(sc: Scan) -> Option<Plan> {
    match (sc.last_colon, sc.last_comma) {
        (Some(c), Some(s)) => if c > s {
            Some(Plan { valid_idx: c, recover_idx: s, key_only: false })
        } else {
            Some(Plan { valid_idx: s, recover_idx: s, key_only: in_object(sc.stack, s) })
        },
        (Some(c), None) => match opener_before(sc.stack, c) {
            Some(o) => Some(Plan { valid_idx: c, recover_idx: o.0 + 1, key_only: false }),
            None => None,
        },
        (None, Some(s)) => Some(
            Plan { valid_idx: s, recover_idx: s, key_only: in_object(sc.stack, s) },
        ),
        (None, None) => Some(
            Plan {
                valid_idx: sc.stack.last().0,
                recover_idx: sc.stack.last().0,
                key_only: sc.stack.last().1 == CharType::LCB,
            },
        ),
    }
}

/// The text kept and the containers left open, before the closers are added.
pub struct Body {
    pub text: Seq<u8>,
    pub stack: Seq<(int, CharType)>,
}

/// The text cut back to the recover offset.
pub open spec fn cut_back(src: Seq<u8>, sc: Scan, p: Plan) -> Body {
    Body { text: src.subrange(0, p.recover_idx), stack: recovered(sc.stack, p.recover_idx) }
}

/// What is kept of a text whose scan left containers open.
pub open spec fn body(src: Seq<u8>, sc: Scan, st: ParseSettings, p: Plan) -> Body {
    let rb = match sc.last_rbracket {
        Some(b) => b,
        None => p.valid_idx,
    };
    if p.valid_idx == src.len() - 1 {
        cut_back(src, sc, p)
    } else if rb <= p.valid_idx {
        if p.key_only {
            cut_back(src, sc, p)
        } else {
            match value_text(src.subrange(p.valid_idx + 1, src.len() as int), true, st) {
                Ok(t) => Body { text: src.subrange(0, p.valid_idx + 1) + t, stack: sc.stack },
                Err(_) => cut_back(src, sc, p),
            }
        }
    } else {
        Body { text: src.subrange(0, rb + 1), stack: sc.stack }
    }
}

/// The containers that are still open after the amendment.
pub open spec fn amend_stack(src: Seq<u8>, sc: Scan, st: ParseSettings) -> Seq<(int, CharType)> {
    if sc.run is Success && sc.stack.len() > 0 {
        match plan(sc) {
            Some(p) => body(src, sc, st, p).stack,
            None => sc.stack,
        }
    } else {
        sc.stack
    }
}

/// The amendment of the text `src` whose scan is `sc`.
pub open spec fn amend_spec(src: Seq<u8>, sc: Scan, st: ParseSettings) -> Result<
    Seq<u8>,
    ParserError,
> {
    match sc.run {
        RunState::Error(e) => Err(e),
        _ => if sc.stack.len() == 0 {
            match value_text(src, true, st) {
                Ok(t) => Ok(t),
                Err(_) => if sc.last_rbracket is Some {
                    Ok(src)
                } else {
                    Err(ParserError::Unamendable)
                },
            }
        } else {
            match plan(sc) {
                None => Err(ParserError::Unamendable),
                Some(p) => {
                    let b = body(src, sc, st, p);
                    let out = b.text + closers(b.stack);
                    if out.len() == 0 {
                        Err(ParserError::Unamendable)
                    } else {
                        Ok(out)
                    }
                },
            }
        },
    }
}

/// The completion of the prefix `src`.
pub open spec fn complete_spec(src: Seq<u8>, st: ParseSettings) -> Result<Seq<u8>, ParserError> {
    if src.len() == 0 {
        Err(ParserError::EmptyInput)
    } else {
        amend_spec(src, scan(src), st)
    }
}

} // verus!
