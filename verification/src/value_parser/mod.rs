use crate::text::{lemma_ascii_boundary, str_head, str_tail};
use vstd::prelude::*;
use vstd::slice::*;
use vstd::string::*;
use vstd::utf8::*;

pub mod parse_array;
pub mod parse_num;
pub mod parse_spec;
pub mod parse_string;



pub use parse_array::parse_array;
pub use parse_num::parse_num;
pub use parse_string::parse_string;
pub use parse_spec::{parse_bool, parse_infinity, parse_nan, parse_ninfinity, parse_null};


verus! {

/// What a value parser found: the text that stands for the value once it is
/// completed, and whether the fragment held all of the value already.
pub struct ValueRes {
    pub text: Seq<u8>,
    pub is_complete: bool,
    pub stack_recover: bool,
}

/// Result of a value parser.
#[derive(Debug, PartialEq, Eq)]
pub struct VParserRes {
    amend_value: String,
    is_complete: bool,
    stack_recover: bool,
}

impl View for VParserRes {
    type V = ValueRes;

    closed spec fn view(&self) -> ValueRes {
        ValueRes {
            text: encode_utf8(self.amend_value@),
            is_complete: self.is_complete,
            stack_recover: self.stack_recover,
        }
    }
}

impl VParserRes {
    /// A result with the text `amend_value`.
    pub fn new(amend_value: &str, is_complete: bool) -> (r: VParserRes)
        ensures
            r@ == (ValueRes {
                text: amend_value.spec_bytes(),
                is_complete: is_complete,
                stack_recover: false,
            }),
    {
        VParserRes { amend_value: String::from_str(amend_value), is_complete, stack_recover: false }
    }

    /// As `new`, from a text that is owned already.
    pub fn from_string(amend_value: String, is_complete: bool) -> (r: VParserRes)
        ensures
            r@ == (ValueRes {
                text: encode_utf8(amend_value@),
                is_complete: is_complete,
                stack_recover: false,
            }),
    {
        VParserRes { amend_value, is_complete, stack_recover: false }
    }

    /// The result with the mark that asks for the stack to be cut back.
    pub fn set_stack_recover(self, stack_recover: bool) -> (r: VParserRes)
        ensures
            r@ == (ValueRes { stack_recover: stack_recover, ..self@ }),
    {
        let mut res = self;
        res.stack_recover = stack_recover;
        res
    }

    /// Whether the stack is to be cut back.
    pub fn stack_recover(&self) -> (b: bool)
        ensures
            b == self@.stack_recover,
    {
        self.stack_recover
    }

    /// The text that stands for the value once it is completed.
    pub fn amend_value(&self) -> (s: &String)
        ensures
            encode_utf8(s@) == self@.text,
    {
        &self.amend_value
    }

    /// Whether the fragment held all of the value.
    pub fn is_complete(&self) -> (b: bool)
        ensures
            b == self@.is_complete,
    {
        self.is_complete
    }
}

/// Whether `c` is white space: a space, a tab, a carriage return or a line
/// feed.
pub open spec fn is_space_char(c: char) -> bool {
    c == ' ' || c == '\t' || c == '\r' || c == '\n'
}

/// Whether `c` is white space.
pub fn is_space(c: char) -> (b: bool)
    ensures
        b == is_space_char(c),
{
    c == ' ' || c == '\t' || c == '\r' || c == '\n'
}

/// Whether `f` holds the character `c` at offset `i`.
pub open spec fn byte_is(f: Seq<u8>, i: int, c: char) -> bool {
    0 <= i < f.len() && f[i] as char == c
}

/// Whether `input` holds the character `c` at offset `i`.
pub fn holds(input: &[u8], i: usize, c: char) -> (b: bool)
    ensures
        b == byte_is(input@, i as int, c),
{
    i < input.len() && input[i] as char == c
}

/// How many bytes of white space stand in `f` from offset `from` on.
pub open spec fn space_len(f: Seq<u8>, from: int) -> int
    decreases f.len() - from,
{
    if 0 <= from < f.len() && is_space_char(f[from] as char) {
        1 + space_len(f, from + 1)
    } else {
        0
    }
}

/// The white space that is counted lies in the text, and what follows it
/// is no white space.
pub proof fn lemma_space_len_bound(f: Seq<u8>, from: int)
    requires
        0 <= from <= f.len(),
    ensures
        0 <= space_len(f, from) <= f.len() - from,
        forall|k: int| from <= k < from + space_len(f, from) ==> is_space_char(#[trigger] f[k] as char),
        !(0 <= from + space_len(f, from) < f.len() && is_space_char(
            f[from + space_len(f, from)] as char,
        )),
    decreases f.len() - from,
{
    if from < f.len() && is_space_char(f[from] as char) {
        lemma_space_len_bound(f, from + 1);
    }
}

/// `f` without the white space at its start.
pub open spec fn skip_space(f: Seq<u8>) -> Seq<u8> {
    f.subrange(space_len(f, 0), f.len() as int)
}

/// Behind the white space at the start of a text stands no white space.
pub proof fn lemma_skip_space_twice(f: Seq<u8>)
    ensures
        skip_space(skip_space(f)) == skip_space(f),
{
    lemma_space_len_bound(f, 0);
    let g = skip_space(f);
    assert(space_len(g, 0) == 0) by {
        if g.len() > 0 {
            assert(g[0] == f[space_len(f, 0)]);
        }
    }
    assert(g.subrange(0, g.len() as int) =~= g);
}

/// Splits the white space at the start of `i` from the rest: the rest comes
/// first, the white space second.
pub fn sp<'a>(i: &'a str) -> (r: (&'a str, &'a str))
    ensures
        r.0.spec_bytes() == skip_space(i.spec_bytes()),
        r.1.spec_bytes() == i.spec_bytes().subrange(0, space_len(i.spec_bytes(), 0)),
{
    let bytes = i.as_bytes();
    let n = bytes.len();
    let mut k: usize = 0;
    proof {
        lemma_space_len_bound(bytes@, 0);
    }
    while k < n && is_space(bytes[k] as char)
        invariant
            k <= n,
            n == bytes@.len(),
            space_len(bytes@, 0) == k + space_len(bytes@, k as int),
            forall|j: int| 0 <= j < k ==> is_space_char(#[trigger] bytes@[j] as char),
        decreases n - k,
    {
        k += 1;
    }
    proof {
        encode_utf8_valid_utf8(i@);
        if k > 0 {
            assert(is_space_char(bytes@[k - 1] as char));
            lemma_ascii_boundary(bytes@, k - 1);
        }
    }
    (str_tail(i, k), str_head(i, k))
}

} // verus!
