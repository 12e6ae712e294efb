use super::parse_string::res_is;
use super::{ErrKind, ErrRes, ErrType, ErrView, JsonType, ParseErr, ParseRes};
use crate::text::{first_occurrence, lemma_valid_prefix_boundary, occurs_at, str_head, str_tail};
use crate::utils::{complement_after, is_prefix_with_min_length};
use crate::value_parser::parse_spec::{
    all_table, all_tags, first_tag, full_keyword, partial_keyword, table_view, tags_view,
};
use vstd::prelude::*;
use vstd::slice::*;
use vstd::string::*;
use vstd::utf8::*;

verus! {

/// What is missing of the first keyword of the table that `f` is an
/// unfinished start of.
pub open spec fn keyword_rest(table: Seq<(Seq<u8>, int)>, f: Seq<u8>) -> Option<Seq<u8>> {
    match partial_keyword(table, f, 0) {
        Some(p) => Some(p.subrange(f.len() as int, p.len() as int)),
        None => None,
    }
}

/// What reading a keyword from `f` gives: the keyword that `f` starts with
/// and what follows it; else an error that says how a keyword that `f` is
/// a start of goes on, and that ends the reading; else an error that says
/// that `f` is no keyword.
pub open spec fn word_result(
    table: Seq<(Seq<u8>, int)>,
    tags: Seq<Seq<u8>>,
    f: Seq<u8>,
    fatal: bool,
) -> Result<(Seq<u8>, Seq<u8>), ErrView> {
    match full_keyword(tags, f, 0) {
        Some(k) => Ok((f.subrange(k.len() as int, f.len() as int), k)),
        None => match keyword_rest(table, f) {
            Some(rest) => Err(
                ErrView {
                    fatal: fatal,
                    rest: f,
                    err_type: ErrKind::Completion {
                        delete: false,
                        json_type: JsonType::Spec,
                        completion: rest,
                    },
                    err_str: Some(f),
                },
            ),
            None => Err(
                ErrView { fatal: false, rest: f, err_type: ErrKind::Failure, err_str: Some(f) },
            ),
        },
    }
}

/// What is missing of the first keyword of `spec_vec` that `i` is an
/// unfinished start of.
pub fn find_completion<'a>(spec_vec: &[(&'a str, usize)], i: &'a str) -> (r: Option<&'a str>)
    ensures
        match keyword_rest(table_view(spec_vec@), i.spec_bytes()) {
            Some(rest) => r matches Some(s) && s.spec_bytes() == rest && rest.len() > 0,
            None => r is None,
        },
{
    let n = spec_vec.len();
    let mut k: usize = 0;
    while k < n
        invariant
            k <= n,
            n == spec_vec@.len(),
            partial_keyword(table_view(spec_vec@), i.spec_bytes(), 0) == partial_keyword(
                table_view(spec_vec@),
                i.spec_bytes(),
                k as int,
            ),
        decreases n - k,
    {
        let (pattern, min_len) = spec_vec[k];
        if is_prefix_with_min_length(pattern, i, min_len) {
            proof {
                let p = pattern.spec_bytes();
                let f = i.spec_bytes();
                assert(occurs_at(p, f, 0));
                assert(first_occurrence(p, f, 0) == Some(0int));
                if f.len() == p.len() {
                    assert(p.subrange(0, f.len() as int) =~= p);
                }
            }
            let found = complement_after(pattern, i);
            if found.is_some() {
                return found;
            }
        }
        k += 1;
    }
    None
}

/// Reads one of the keywords `tags`; `spec_vec` says from which length on a
/// start of a keyword is taken for it.
pub fn read_word<'a>(
    tags: &[&'a str],
    spec_vec: &[(&'a str, usize)],
    i: &'a str,
    fatal: bool,
) -> (r: ParseRes<'a, &'a str>)
    ensures
        res_is(r, word_result(table_view(spec_vec@), tags_view(tags@), i.spec_bytes(), fatal)),
{
    if let Some(k) = first_tag(tags, i) {
        let n = k.as_bytes().len();
        proof {
            encode_utf8_valid_utf8(i@);
            encode_utf8_valid_utf8(k@);
            lemma_valid_prefix_boundary(i.spec_bytes(), n as int);
        }
        return Ok((str_tail(i, n), str_head(i, n)));
    }
    match find_completion(spec_vec, i) {
        Some(rest) => {
            let err = ErrRes {
                rest: i,
                err_type: ErrType::Completion {
                    delete: false,
                    completion: String::from_str(rest),
                    json_type: JsonType::Spec,
                },
                err_str: Some(i),
            };
            if fatal {
                Err(ParseErr::Failure(err))
            } else {
                Err(ParseErr::Error(err))
            }
        },
        None => Err(ParseErr::Error(ErrRes { rest: i, err_type: ErrType::Failure, err_str: Some(i) })),
    }
}

/// Reads `false`, `true`, `NaN`, `null`, `Infinity` or `-Infinity`.
pub fn parse_spec<'a>(i: &'a str) -> (r: ParseRes<'a, &'a str>)
    ensures
        res_is(r, word_result(all_table(), all_tags(), i.spec_bytes(), true)),
{
    let tags = ["false", "true", "NaN", "null", "Infinity", "-Infinity"];
    let spec_vec: [(&str, usize); 6] = [
        ("true", 1),
        ("false", 1),
        ("NaN", 1),
        ("null", 1),
        ("Infinity", 1),
        ("-Infinity", 2),
    ];
    assert(tags_view(tags@) =~= all_tags());
    assert(table_view(spec_vec@) =~= all_table());
    read_word(tags.as_slice(), spec_vec.as_slice(), i, true)
}

} // verus!
