use vstd::prelude::*;
use vstd::string::*;
use vstd::utf8::*;

verus! {

/// Encoding a concatenation is concatenating the encodings.
pub proof fn lemma_encode_concat(a: Seq<char>, b: Seq<char>)
    ensures
        encode_utf8(a + b) == encode_utf8(a) + encode_utf8(b),
    decreases a.len(),
{
    if a.len() == 0 {
        assert(a + b =~= b);
        assert(encode_utf8(a) =~= Seq::<u8>::empty());
        assert(encode_utf8(a) + encode_utf8(b) =~= encode_utf8(b));
    } else {
        assert((a + b).drop_first() =~= a.drop_first() + b);
        lemma_encode_concat(a.drop_first(), b);
        assert((a + b)[0] == a[0]);
        assert(encode_utf8(a + b) =~= encode_utf8(a) + encode_utf8(b));
    }
}

/// Two texts with the same encoding are the same text.
pub proof fn law_encoding_is_injective(a: Seq<char>, b: Seq<char>)
    requires
        encode_utf8(a) == encode_utf8(b),
    ensures
        a == b,
{
    encode_utf8_decode_utf8(a);
    encode_utf8_decode_utf8(b);
}

/// The encoding of a text of ASCII characters holds one byte for each.
pub proof fn lemma_encode_ascii(a: Seq<char>)
    requires
        is_ascii_chars(a),
    ensures
        encode_utf8(a) =~= Seq::new(a.len(), |i: int| a[i] as u8),
{
    is_ascii_chars_encode_utf8(a);
}

/// In well-formed UTF-8, a byte below 0x80 is a character of its own: a
/// character starts at it and another one, or the end, right behind it.
pub proof fn lemma_ascii_boundary(bytes: Seq<u8>, i: int)
    requires
        valid_utf8(bytes),
        0 <= i < bytes.len(),
        bytes[i] < 0x80,
    ensures
        is_char_boundary(bytes, i),
        is_char_boundary(bytes, i + 1),
    decreases bytes.len(),
{
    let n = length_of_first_scalar(bytes);
    let rest = pop_first_scalar(bytes);
    if i == 0 {
        assert(n == 1);
        assert(valid_utf8(rest));
        assert(is_char_boundary(rest, 0));
        assert(is_char_boundary(bytes, 1));
    } else if i < n {
        assert(is_continuation_byte(bytes[i]));
    } else {
        assert(rest[i - n] == bytes[i]);
        lemma_ascii_boundary(rest, i - n);
        assert(is_char_boundary(bytes, i));
        assert(is_char_boundary(bytes, i + 1));
    }
}

/// The bytes of `s` before offset `k`.
pub fn str_head<'a>(s: &'a str, k: usize) -> (r: &'a str)
    requires
        is_char_boundary(s.spec_bytes(), k as int),
    ensures
        r.spec_bytes() == s.spec_bytes().subrange(0, k as int),
{
    let (a, _) = s.split_at(k);
    a
}

/// The bytes of `s` from offset `k` on.
pub fn str_tail<'a>(s: &'a str, k: usize) -> (r: &'a str)
    requires
        is_char_boundary(s.spec_bytes(), k as int),
    ensures
        r.spec_bytes() == s.spec_bytes().subrange(k as int, s.spec_bytes().len() as int),
{
    let (_, b) = s.split_at(k);
    b
}

/// Appends `t` to `out`.
pub fn push_text(out: &mut String, t: &str)
    ensures
        final(out)@ == old(out)@ + t@,
        encode_utf8(final(out)@) == encode_utf8(old(out)@) + t.spec_bytes(),
{
    proof {
        lemma_encode_concat(out@, t@);
    }
    out.append(t);
}

/// Where a well-formed prefix of a well-formed text ends, a character starts.
pub proof fn lemma_valid_prefix_boundary(bytes: Seq<u8>, k: int)
    requires
        valid_utf8(bytes),
        0 <= k <= bytes.len(),
        valid_utf8(bytes.subrange(0, k)),
    ensures
        is_char_boundary(bytes, k),
    decreases bytes.len(),
{
    if k > 0 {
        let p = bytes.subrange(0, k);
        assert(p[0] == bytes[0]);
        let n = length_of_first_scalar(bytes);
        assert(length_of_first_scalar(p) == n);
        assert(valid_first_scalar(p));
        assert(n <= k);
        let rest = pop_first_scalar(bytes);
        assert(pop_first_scalar(p) =~= rest.subrange(0, k - n));
        lemma_valid_prefix_boundary(rest, k - n);
    }
}

/// Whether `p` stands at the start of `s`.
pub open spec fn starts_with_bytes(s: Seq<u8>, p: Seq<u8>) -> bool {
    p.len() <= s.len() && s.subrange(0, p.len() as int) == p
}

/// Whether `part` stands in `full` at offset `i`.
pub open spec fn occurs_at(full: Seq<u8>, part: Seq<u8>, i: int) -> bool {
    0 <= i && i + part.len() <= full.len() && full.subrange(i, i + part.len()) == part
}

/// The first offset from `from` on at which `part` stands in `full`.
pub open spec fn first_occurrence(full: Seq<u8>, part: Seq<u8>, from: int) -> Option<int>
    decreases full.len() - from + 1,
{
    if from < 0 || from + part.len() > full.len() {
        None
    } else if occurs_at(full, part, from) {
        Some(from)
    } else {
        first_occurrence(full, part, from + 1)
    }
}

/// Where a text that is not empty occurs inside another, it ends between
/// characters.
pub proof fn lemma_occurrence_boundary(full: Seq<u8>, part: Seq<u8>, i: int)
    requires
        valid_utf8(full),
        valid_utf8(part),
        part.len() > 0,
        occurs_at(full, part, i),
    ensures
        is_char_boundary(full, i),
        is_char_boundary(full, i + part.len()),
{
    assert(full[i] == part[0]) by {
        assert(full.subrange(i, i + part.len())[0] == full[i]);
    }
    assert(valid_first_scalar(part));
    assert(!is_continuation_byte(part[0]));
    is_char_boundary_iff_not_is_continuation_byte(full, i);
    valid_utf8_split(full, i);
    valid_utf8_concat(full.subrange(0, i), part);
    assert(full.subrange(0, i) + part =~= full.subrange(0, i + part.len()));
    lemma_valid_prefix_boundary(full, i + part.len());
}

} // verus!
