use super::{skip_space, sp, VParserRes, ValueRes};
use crate::text::{first_occurrence, occurs_at, push_text, starts_with_bytes};
use crate::utils::{complement_after, is_partial_of, is_prefix_with_min_length, starts_with};
use vstd::prelude::*;
use vstd::slice::*;
use vstd::string::*;
use vstd::utf8::*;

verus! {

/// A table of keywords, each with the least length at which a start of it is
/// taken for it.
pub open spec fn table_view(t: Seq<(&str, usize)>) -> Seq<(Seq<u8>, int)> {
    Seq::new(t.len(), |k: int| (t[k].0.spec_bytes(), t[k].1 as int))
}

/// Keywords as bytes.
pub open spec fn tags_view(t: Seq<&str>) -> Seq<Seq<u8>> {
    Seq::new(t.len(), |k: int| t[k].spec_bytes())
}

/// The first keyword of the table, from entry `from` on, that `f` is an
/// unfinished start of.
pub open spec fn partial_keyword(table: Seq<(Seq<u8>, int)>, f: Seq<u8>, from: int) -> Option<
    Seq<u8>,
>
    decreases table.len() - from,
{
    if from < 0 || from >= table.len() {
        None
    } else if is_partial_of(table[from].0, f, table[from].1) {
        Some(table[from].0)
    } else {
        partial_keyword(table, f, from + 1)
    }
}

/// The first keyword, from entry `from` on, that `f` starts with.
pub open spec fn full_keyword(tags: Seq<Seq<u8>>, f: Seq<u8>, from: int) -> Option<Seq<u8>>
    decreases tags.len() - from,
{
    if from < 0 || from >= tags.len() {
        None
    } else if starts_with_bytes(f, tags[from]) {
        Some(tags[from])
    } else {
        full_keyword(tags, f, from + 1)
    }
}

/// What a fragment is taken for: a keyword it is an unfinished start of, not
/// complete; else the keyword it starts with, complete; else nothing.
pub open spec fn keyword_result(
    table: Seq<(Seq<u8>, int)>,
    full: Option<Seq<u8>>,
    f: Seq<u8>,
) -> Option<ValueRes> {
    match partial_keyword(table, f, 0) {
        Some(k) => Some(ValueRes { text: k, is_complete: false, stack_recover: false }),
        None => match full {
            Some(k) => Some(ValueRes { text: k, is_complete: true, stack_recover: false }),
            None => None,
        },
    }
}

/// What a keyword parser returns on the fragment `f`.
pub open spec fn keyword_spec(table: Seq<(Seq<u8>, int)>, tags: Seq<Seq<u8>>, f: Seq<u8>) -> Option<
    ValueRes,
> {
    keyword_result(table, full_keyword(tags, skip_space(f), 0), skip_space(f))
}

/// What the result of a value parser says.
pub open spec fn result_is(r: Result<VParserRes, ()>, want: Option<ValueRes>) -> bool {
    match want {
        Some(v) => r is Ok && r.unwrap()@ == v,
        None => r is Err,
    }
}

/// The first of `tags` that `i` starts with.
pub fn first_tag<'a>(tags: &[&'a str], i: &str) -> (r: Option<&'a str>)
    ensures
        match full_keyword(tags_view(tags@), i.spec_bytes(), 0) {
            Some(k) => r is Some && r.unwrap().spec_bytes() == k && starts_with_bytes(
                i.spec_bytes(),
                k,
            ),
            None => r is None,
        },
{
    let n = tags.len();
    let mut k: usize = 0;
    while k < n
        invariant
            k <= n,
            n == tags@.len(),
            full_keyword(tags_view(tags@), i.spec_bytes(), 0) == full_keyword(
                tags_view(tags@),
                i.spec_bytes(),
                k as int,
            ),
        decreases n - k,
    {
        if starts_with(i, tags[k]) {
            return Some(tags[k]);
        }
        k += 1;
    }
    None
}

/// Decides between an unfinished keyword of `spec_vec`, the keyword `res` that
/// was read in full, and no keyword at all.
pub fn shared(spec_vec: &[(&str, usize)], res: Option<&str>, i: &str) -> (r: Result<VParserRes, ()>)
    ensures
        result_is(
            r,
            keyword_result(
                table_view(spec_vec@),
                match res {
                    Some(k) => Some(k.spec_bytes()),
                    None => None,
                },
                i.spec_bytes(),
            ),
        ),
{
    let n = spec_vec.len();
    let mut k: usize = 0;
    while k < n
        invariant
            k <= n,
            n == spec_vec@.len(),
            partial_keyword(table_view(spec_vec@), i.spec_bytes(), 0) == partial_keyword(
                table_view(spec_vec@),
                i.spec_bytes(),
                k as int,
            ),
        decreases n - k,
    {
        let (pattern, min_len) = spec_vec[k];
        if is_prefix_with_min_length(pattern, i, min_len) {
            let completion = complement_after(pattern, i);
            proof {
                let p = pattern.spec_bytes();
                let f = i.spec_bytes();
                assert(occurs_at(p, f, 0));
                assert(first_occurrence(p, f, 0) == Some(0int));
                assert(f + p.subrange(f.len() as int, p.len() as int) =~= p);
            }
            if let Some(rest) = completion {
                let mut text = String::from_str(i);
                push_text(&mut text, rest);
                return Ok(VParserRes::from_string(text, false));
            }
        }
        k += 1;
    }
    if let Some(full) = res {
        Ok(VParserRes::new(full, true))
    } else {
        Err(())
    }
}

/// `true` and `false`: a start of one byte is taken for either.
pub open spec fn bool_table() -> Seq<(Seq<u8>, int)> {
    seq![("true".spec_bytes(), 1int), ("false".spec_bytes(), 1int)]
}

/// `false` and `true`, in the order in which they are tried.
pub open spec fn bool_tags() -> Seq<Seq<u8>> {
    seq!["false".spec_bytes(), "true".spec_bytes()]
}

/// The six keywords, each with the least length at which a start of it is
/// taken for it.
pub open spec fn all_table() -> Seq<(Seq<u8>, int)> {
    seq![
        ("true".spec_bytes(), 1int),
        ("false".spec_bytes(), 1int),
        ("NaN".spec_bytes(), 1int),
        ("null".spec_bytes(), 1int),
        ("Infinity".spec_bytes(), 1int),
        ("-Infinity".spec_bytes(), 2int),
    ]
}

/// The six keywords in the order in which they are tried.
pub open spec fn all_tags() -> Seq<Seq<u8>> {
    seq![
        "false".spec_bytes(),
        "true".spec_bytes(),
        "NaN".spec_bytes(),
        "null".spec_bytes(),
        "Infinity".spec_bytes(),
        "-Infinity".spec_bytes(),
    ]
}

/// A table of one keyword.
pub open spec fn one_table(k: Seq<u8>, min: int) -> Seq<(Seq<u8>, int)> {
    seq![(k, min)]
}

/// Any of the six keywords.
pub fn parse_spec(i: &str) -> (r: Result<VParserRes, ()>)
    ensures
        result_is(r, keyword_spec(all_table(), all_tags(), i.spec_bytes())),
{
    let (i, _) = sp(i);
    let tags = ["false", "true", "NaN", "null", "Infinity", "-Infinity"];
    let spec_vec: [(&str, usize); 6] = [
        ("true", 1),
        ("false", 1),
        ("NaN", 1),
        ("null", 1),
        ("Infinity", 1),
        ("-Infinity", 2),
    ];
    assert(tags_view(tags@) =~= all_tags());
    assert(table_view(spec_vec@) =~= all_table());
    let res = first_tag(tags.as_slice(), i);
    shared(spec_vec.as_slice(), res, i)
}

/// `true` or `false`.
pub fn parse_bool(i: &str) -> (r: Result<VParserRes, ()>)
    ensures
        result_is(r, keyword_spec(bool_table(), bool_tags(), i.spec_bytes())),
{
    let (i, _) = sp(i);
    let tags = ["false", "true"];
    let spec_vec: [(&str, usize); 2] = [("true", 1), ("false", 1)];
    assert(tags_view(tags@) =~= bool_tags());
    assert(table_view(spec_vec@) =~= bool_table());
    let res = first_tag(tags.as_slice(), i);
    shared(spec_vec.as_slice(), res, i)
}

/// The one keyword `word`, of which a start of at least `min_len` bytes is
/// taken for the whole.
pub fn parse_word(i: &str, word: &'static str, min_len: usize) -> (r: Result<VParserRes, ()>)
    ensures
        result_is(
            r,
            keyword_spec(
                one_table(word.spec_bytes(), min_len as int),
                seq![word.spec_bytes()],
                i.spec_bytes(),
            ),
        ),
{
    let (i, _) = sp(i);
    let tags = [word];
    let spec_vec: [(&str, usize); 1] = [(word, min_len)];
    assert(tags_view(tags@) =~= seq![word.spec_bytes()]);
    assert(table_view(spec_vec@) =~= one_table(word.spec_bytes(), min_len as int));
    let res = first_tag(tags.as_slice(), i);
    shared(spec_vec.as_slice(), res, i)
}

/// `NaN`.
pub fn parse_nan(i: &str) -> (r: Result<VParserRes, ()>)
    ensures
        result_is(
            r,
            keyword_spec(
                one_table("NaN".spec_bytes(), 1),
                seq!["NaN".spec_bytes()],
                i.spec_bytes(),
            ),
        ),
{
    parse_word(i, "NaN", 1)
}

/// `null`.
pub fn parse_null(i: &str) -> (r: Result<VParserRes, ()>)
    ensures
        result_is(
            r,
            keyword_spec(
                one_table("null".spec_bytes(), 1),
                seq!["null".spec_bytes()],
                i.spec_bytes(),
            ),
        ),
{
    parse_word(i, "null", 1)
}

/// `Infinity`.
pub fn parse_infinity(i: &str) -> (r: Result<VParserRes, ()>)
    ensures
        result_is(
            r,
            keyword_spec(
                one_table("Infinity".spec_bytes(), 1),
                seq!["Infinity".spec_bytes()],
                i.spec_bytes(),
            ),
        ),
{
    parse_word(i, "Infinity", 1)
}

/// `-Infinity`, of which a start of two bytes or more is taken for the
/// whole.
pub fn parse_ninfinity(i: &str) -> (r: Result<VParserRes, ()>)
    ensures
        result_is(
            r,
            keyword_spec(
                one_table("-Infinity".spec_bytes(), 2),
                seq!["-Infinity".spec_bytes()],
                i.spec_bytes(),
            ),
        ),
{
    parse_word(i, "-Infinity", 2)
}

} // verus!
