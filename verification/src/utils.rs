use crate::text::{
    first_occurrence, lemma_occurrence_boundary, occurs_at, push_text, starts_with_bytes, str_tail,
};
use vstd::prelude::*;
use vstd::slice::*;
use vstd::string::*;
use vstd::utf8::*;

verus! {

/// Outcome of a pass that may not have run yet.
#[derive(Debug, PartialEq)]
pub enum RunState<E> {
    Fresh,
    Error(E),
    Success,
}

impl<E> RunState<E> {
    /// Whether the pass has run.
    pub fn is_not_none(&self) -> (b: bool)
        ensures
            b == !(self is Fresh),
    {
        match self {
            RunState::Fresh => false,
            _ => true,
        }
    }

    /// Whether the pass has not run yet.
    pub fn is_none(&self) -> (b: bool)
        ensures
            b == (self is Fresh),
    {
        !self.is_not_none()
    }

    /// Whether the pass has failed.
    pub fn is_error(&self) -> (b: bool)
        ensures
            b == (self is Error),
    {
        match self {
            RunState::Error(_) => true,
            _ => false,
        }
    }

    /// Whether the pass has succeeded.
    pub fn is_success(&self) -> (b: bool)
        ensures
            b == (self is Success),
    {
        match self {
            RunState::Success => true,
            _ => false,
        }
    }
}

impl<E> Default for RunState<E> {
    fn default() -> (r: RunState<E>)
        ensures
            r is Fresh,
    {
        RunState::Fresh
    }
}

impl<T, E> From<Result<T, E>> for RunState<E> {
    fn from(value: Result<T, E>) -> (r: RunState<E>) {
        match value {
            Ok(_) => RunState::Success,
            Err(s) => RunState::Error(s),
        }
    }
}

impl<T, E> vstd::std_specs::convert::FromSpecImpl<Result<T, E>> for RunState<E> {
    open spec fn obeys_from_spec() -> bool {
        true
    }

    open spec fn from_spec(value: Result<T, E>) -> RunState<E> {
        match value {
            Ok(_) => RunState::Success,
            Err(s) => RunState::Error(s),
        }
    }
}

/// Whether none of the runs has failed; a run that has not started counts
/// as not failed.
pub fn none_failed<E>(results: &[RunState<E>]) -> (b: bool)
    ensures
        b == forall|i: int| 0 <= i < results@.len() ==> !(#[trigger] results@[i] is Error),
{
    let n = results.len();
    let mut k: usize = 0;
    while k < n
        invariant
            k <= n,
            n == results@.len(),
            forall|i: int| 0 <= i < k ==> !(#[trigger] results@[i] is Error),
        decreases n - k,
    {
        if results[k].is_error() {
            return false;
        }
        k += 1;
    }
    true
}

/// The title line of a section of a trace.
pub open spec fn title_text(s: Seq<char>) -> Seq<char> {
    "################################ "@ + s + " ################################\n"@
}

/// `s` between two rows of hash signs, on a line of its own.
pub fn add_title(s: &str) -> (r: String)
    ensures
        r@ == title_text(s@),
{
    let mut out = String::from_str("################################ ");
    push_text(&mut out, s);
    push_text(&mut out, " ################################\n");
    out
}

/// Whether the bytes of `a` from `from` on start with `b`.
pub fn bytes_match_at(a: &[u8], from: usize, b: &[u8]) -> (r: bool)
    ensures
        r == occurs_at(a@, b@, from as int),
{
    let n = b.len();
    if from > a.len() || n > a.len() - from {
        return false;
    }
    let mut k: usize = 0;
    while k < n
        invariant
            k <= n,
            n == b@.len(),
            from + n <= a@.len(),
            a@.len() <= usize::MAX,
            forall|j: int| 0 <= j < k ==> a@[from + j] == b@[j],
        decreases n - k,
    {
        if a[from + k] != b[k] {
            assert(a@.subrange(from as int, from + n)[k as int] != b@[k as int]);
            return false;
        }
        k += 1;
    }
    assert(a@.subrange(from as int, from + n) =~= b@);
    true
}

/// Whether `s` starts with `p`.
pub fn starts_with(s: &str, p: &str) -> (r: bool)
    ensures
        r == starts_with_bytes(s.spec_bytes(), p.spec_bytes()),
{
    bytes_match_at(s.as_bytes(), 0, p.as_bytes())
}

/// What follows the first occurrence of `part` in `full`, if there is one.
pub fn complement_after<'a>(full: &'a str, part: &'a str) -> (r: Option<&'a str>)
    ensures
        match first_occurrence(full.spec_bytes(), part.spec_bytes(), 0) {
            Some(i) => r is Some && r.unwrap().spec_bytes() == full.spec_bytes().subrange(
                i + part.spec_bytes().len(),
                full.spec_bytes().len() as int,
            ),
            None => r is None,
        },
{
    let a = full.as_bytes();
    let b = part.as_bytes();
    if b.len() > a.len() {
        return None;
    }
    let last = a.len() - b.len();
    let mut i: usize = 0;
    while i <= last
        invariant
            i <= last + 1,
            last + b@.len() == a@.len(),
            a@.len() <= usize::MAX,
            b@.len() == 0 ==> i == 0,
            a@ == full.spec_bytes(),
            b@ == part.spec_bytes(),
            first_occurrence(a@, b@, 0) == first_occurrence(a@, b@, i as int),
        decreases last + 1 - i,
    {
        if bytes_match_at(a, i, b) {
            proof {
                encode_utf8_valid_utf8(full@);
                encode_utf8_valid_utf8(part@);
                if b@.len() > 0 {
                    lemma_occurrence_boundary(a@, b@, i as int);
                } else {
                    assert(i == 0);
                }
            }
            return Some(str_tail(full, i + b.len()));
        }
        assert(b@.len() == 0 ==> a@.subrange(i as int, i as int) =~= b@);
        i += 1;
    }
    None
}

/// The rule by which a fragment counts as an unfinished `pattern`: it is a
/// start of the pattern, at least `min` bytes long, and not all of it.
pub open spec fn is_partial_of(pattern: Seq<u8>, frag: Seq<u8>, min: int) -> bool {
    starts_with_bytes(pattern, frag) && frag.len() >= min && !starts_with_bytes(frag, pattern)
}

/// Whether `str2` is an unfinished `str1`: a start of it, at least
/// `min_length` bytes long, and not all of it.
pub fn is_prefix_with_min_length(str1: &str, str2: &str, min_length: usize) -> (r: bool)
    ensures
        r == is_partial_of(str1.spec_bytes(), str2.spec_bytes(), min_length as int),
{
    starts_with(str1, str2) && str2.as_bytes().len() >= min_length && !starts_with(str2, str1)
}

/// The digit for `d`.
pub open spec fn digit_char(d: nat) -> char {
    if d == 0 {
        '0'
    } else if d == 1 {
        '1'
    } else if d == 2 {
        '2'
    } else if d == 3 {
        '3'
    } else if d == 4 {
        '4'
    } else if d == 5 {
        '5'
    } else if d == 6 {
        '6'
    } else if d == 7 {
        '7'
    } else if d == 8 {
        '8'
    } else {
        '9'
    }
}

/// The digits of `n` to the base ten.
pub open spec fn decimal_text(n: nat) -> Seq<char>
    decreases n,
{
    if n < 10 {
        seq![digit_char(n)]
    } else {
        decimal_text(n / 10) + seq![digit_char(n % 10)]
    }
}

/// Appends the digits of `n` to `out`.
pub fn push_decimal(out: &mut String, n: usize)
    ensures
        final(out)@ == old(out)@ + decimal_text(n as nat),
    decreases n,
{
    if n >= 10 {
        push_decimal(out, n / 10);
    }
    let ghost before = out@;
    let d = n % 10;
    let digit = if d == 0 {
        "0"
    } else if d == 1 {
        "1"
    } else if d == 2 {
        "2"
    } else if d == 3 {
        "3"
    } else if d == 4 {
        "4"
    } else if d == 5 {
        "5"
    } else if d == 6 {
        "6"
    } else if d == 7 {
        "7"
    } else if d == 8 {
        "8"
    } else {
        "9"
    };
    proof {
        reveal_strlit("0");
        reveal_strlit("1");
        reveal_strlit("2");
        reveal_strlit("3");
        reveal_strlit("4");
        reveal_strlit("5");
        reveal_strlit("6");
        reveal_strlit("7");
        reveal_strlit("8");
        reveal_strlit("9");
        assert(digit@ =~= seq![digit_char(d as nat)]);
    }
    push_text(out, digit);
    proof {
        if n >= 10 {
            assert(out@ =~= old(out)@ + (decimal_text((n / 10) as nat) + seq![digit_char(d as nat)]));
        } else {
            assert(out@ =~= old(out)@ + seq![digit_char(d as nat)]);
        }
    }
}

} // verus!
