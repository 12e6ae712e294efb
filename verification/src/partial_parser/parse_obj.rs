use super::parse_string::res_is;
use super::{ErrKind, ErrRes, ErrType, ErrView, JsonType, ParseErr, ParseRes};
use crate::text::{lemma_ascii_boundary, str_head, str_tail};
use crate::value_parser::{byte_is, holds, lemma_space_len_bound, skip_space, sp, space_len};
use vstd::prelude::*;
use vstd::slice::*;
use vstd::string::*;
use vstd::utf8::*;

verus! {

/// The length of the white space at the start of `f`.
pub open spec fn lead_len(f: Seq<u8>) -> int {
    space_len(f, 0)
}

/// How much of `f` the colon between a key and its value takes, with the
/// white space on both sides of it.
pub open spec fn sep_len(f: Seq<u8>) -> Option<int> {
    let g = skip_space(f);
    if byte_is(g, 0, ':') {
        Some(lead_len(f) + 1 + lead_len(g.subrange(1, g.len() as int)))
    } else {
        None
    }
}

/// What reading the colon between a key and its value gives: the colon with
/// the white space around it, and what follows; else an error at the place
/// where the colon should stand, which asks for the key to be deleted and
/// which no reader has judged yet.
pub open spec fn sep_result(f: Seq<u8>) -> Result<(Seq<u8>, Seq<u8>), ErrView> {
    match sep_len(f) {
        Some(n) => Ok((f.subrange(n, f.len() as int), f.subrange(0, n))),
        None => Err(
            ErrView {
                fatal: false,
                rest: skip_space(f),
                err_type: ErrKind::Completion {
                    delete: true,
                    json_type: JsonType::KeyVal,
                    completion: Seq::empty(),
                },
                err_str: None,
            },
        ),
    }
}

/// Reads the colon between a key and its value.
pub fn sep<'a>(i: &'a str) -> (r: ParseRes<'a, &'a str>)
    ensures
        res_is(r, sep_result(i.spec_bytes())),
{
    let ghost f = i.spec_bytes();
    proof {
        lemma_space_len_bound(f, 0);
        encode_utf8_valid_utf8(i@);
    }
    let (g, lead) = sp(i);
    if !holds(g.as_bytes(), 0, ':') {
        let completion = String::new();
        assert(encode_utf8(completion@) =~= Seq::<u8>::empty());
        return Err(
            ParseErr::Error(
                ErrRes {
                    rest: g,
                    err_type: ErrType::Completion {
                        delete: true,
                        json_type: JsonType::KeyVal,
                        completion,
                    },
                    err_str: None,
                },
            ),
        );
    }
    proof {
        encode_utf8_valid_utf8(g@);
        lemma_ascii_boundary(g.spec_bytes(), 0);
    }
    let (rest, _) = sp(str_tail(g, 1));
    proof {
        lemma_space_len_bound(g.spec_bytes().subrange(1, g.spec_bytes().len() as int), 0);
    }
    let n = i.as_bytes().len() - rest.as_bytes().len();
    proof {
        let h = g.spec_bytes().subrange(1, g.spec_bytes().len() as int);
        let k = lead_len(f);
        assert(n == k + 1 + lead_len(h));
        assert(rest.spec_bytes() =~= f.subrange(n as int, f.len() as int));
        // the colon and the white space around it are ASCII
        assert(f[k] == g.spec_bytes()[0]);
        if lead_len(h) == 0 {
            lemma_ascii_boundary(f, k);
        } else {
            assert(f[n - 1] == h[lead_len(h) - 1]);
            assert(crate::value_parser::is_space_char(h[lead_len(h) - 1] as char));
            lemma_ascii_boundary(f, n - 1);
        }
    }
    Ok((rest, str_head(i, n)))
}

} // verus!
