use crate::parser::{classify, is_hex_char, is_simple_escape, CharType, EscapeState, StrState};
use crate::scan::{scan, scan_upto, Scan};
use crate::text::lemma_encode_ascii;
use crate::value_parser::parse_num::{
    base_len, digit_len, is_digit_char, lemma_digit_len_bound, number_len,
};
use crate::value_parser::{byte_is, is_space_char};
use vstd::prelude::*;
use vstd::string::*;

verus! {

/// The scan that starts in state `sc` and reads the bytes `t`, which stand at
/// offset `base` of the text.
pub open spec fn run(sc: Scan, t: Seq<u8>, base: int) -> Scan
    decreases t.len(),
{
    if t.len() == 0 {
        sc
    } else {
        run(sc, t.drop_last(), base).step(base + t.len() - 1, t.last())
    }
}

/// A scan of a text is a run from the start.
pub proof fn lemma_scan_is_run(bytes: Seq<u8>, n: int)
    requires
        0 <= n <= bytes.len(),
    ensures
        scan_upto(bytes, n) == run(Scan::start(), bytes.take(n), 0),
    decreases n,
{
    if n > 0 {
        lemma_scan_is_run(bytes, n - 1);
        assert(bytes.take(n).drop_last() =~= bytes.take(n - 1));
    }
}

/// Reading two texts one after the other is reading them joined.
pub proof fn lemma_run_concat(sc: Scan, a: Seq<u8>, b: Seq<u8>, base: int)
    ensures
        run(sc, a + b, base) == run(run(sc, a, base), b, base + a.len()),
    decreases b.len(),
{
    if b.len() == 0 {
        assert(a + b =~= a);
    } else {
        lemma_run_concat(sc, a, b.drop_last(), base);
        assert((a + b).drop_last() =~= a + b.drop_last());
    }
}

/// Reading one byte is one step.
pub proof fn lemma_run_one(sc: Scan, b: u8, base: int)
    ensures
        run(sc, seq![b], base) == sc.step(base, b),
{
    assert(seq![b].drop_last() =~= Seq::<u8>::empty());
    assert(run(sc, seq![b].drop_last(), base) == sc);
}

/// The state `m` was reached from `sc` without failure, and what was open
/// in `sc` is still open in `m`.
pub open spec fn keeps(sc: Scan, m: Scan) -> bool {
    &&& m.run == sc.run
    &&& m.stack.len() >= sc.stack.len()
    &&& m.stack.take(sc.stack.len() as int) == sc.stack
}

/// Reading `t` from `sc`, the scan never fails and never closes what was open
/// in `sc`.
pub open spec fn steady(sc: Scan, t: Seq<u8>, base: int) -> bool {
    forall|k: int| 0 <= k <= t.len() ==> keeps(sc, #[trigger] run(sc, t.take(k), base))
}

/// A state from which a value can be read: outside strings, not failed.
pub open spec fn ready(sc: Scan) -> bool {
    !(sc.run is Error) && sc.state is NotInStr
}

/// Reading `t` from `sc` is steady and ends outside strings with the stack
/// of `sc`.
pub open spec fn balanced(sc: Scan, t: Seq<u8>, base: int) -> bool {
    &&& steady(sc, t, base)
    &&& run(sc, t, base).stack == sc.stack
    &&& run(sc, t, base).state is NotInStr
}

/// As `balanced`, and at every place inside `t` something more is open than
/// in `sc`.
pub open spec fn enclosed(sc: Scan, t: Seq<u8>, base: int) -> bool {
    &&& balanced(sc, t, base)
    &&& forall|k: int|
        0 < k < t.len() ==> (#[trigger] run(sc, t.take(k), base)).stack.len() > sc.stack.len()
}

/// What was open is kept from state to state.
pub proof fn lemma_keeps_trans(a: Scan, b: Scan, c: Scan)
    requires
        keeps(a, b),
        keeps(b, c),
    ensures
        keeps(a, c),
{
    assert(c.stack.take(a.stack.len() as int) =~= c.stack.take(b.stack.len() as int).take(
        a.stack.len() as int,
    ));
}

/// Two steady readings, one after the other, are a steady reading.
pub proof fn lemma_steady_concat(sc: Scan, a: Seq<u8>, b: Seq<u8>, base: int)
    requires
        steady(sc, a, base),
        steady(run(sc, a, base), b, base + a.len()),
    ensures
        steady(sc, a + b, base),
        run(sc, a + b, base) == run(run(sc, a, base), b, base + a.len()),
{
    lemma_run_concat(sc, a, b, base);
    let mid = run(sc, a, base);
    assert(a.take(a.len() as int) =~= a);
    assert(keeps(sc, run(sc, a.take(a.len() as int), base)));
    assert forall|k: int| 0 <= k <= (a + b).len() implies keeps(
        sc,
        #[trigger] run(sc, (a + b).take(k), base),
    ) by {
        if k <= a.len() {
            assert((a + b).take(k) =~= a.take(k));
        } else {
            assert((a + b).take(k) =~= a + b.take(k - a.len()));
            lemma_run_concat(sc, a, b.take(k - a.len()), base);
            assert(keeps(mid, run(mid, b.take(k - a.len()), base + a.len())));
            lemma_keeps_trans(sc, mid, run(mid, b.take(k - a.len()), base + a.len()));
        }
    }
}

/// Two balanced readings, one after the other, are a balanced reading.
pub proof fn lemma_balanced_concat(sc: Scan, a: Seq<u8>, b: Seq<u8>, base: int)
    requires
        balanced(sc, a, base),
        balanced(run(sc, a, base), b, base + a.len()),
    ensures
        balanced(sc, a + b, base),
        run(sc, a + b, base) == run(run(sc, a, base), b, base + a.len()),
{
    lemma_steady_concat(sc, a, b, base);
}

/// A byte that the scan passes over outside a string.
pub open spec fn is_plain(b: u8) -> bool {
    classify(b as char) == CharType::Normal
}

/// Whether every byte of `t` is plain.
pub open spec fn all_plain(t: Seq<u8>) -> bool {
    forall|k: int| 0 <= k < t.len() ==> is_plain(#[trigger] t[k])
}

/// Outside a string, plain bytes change nothing.
pub proof fn lemma_plain(sc: Scan, t: Seq<u8>, base: int)
    requires
        ready(sc),
        all_plain(t),
    ensures
        balanced(sc, t, base),
        run(sc, t, base) == sc,
    decreases t.len(),
{
    assert(sc.stack.take(sc.stack.len() as int) =~= sc.stack);
    if t.len() > 0 {
        lemma_plain(sc, t.drop_last(), base);
        assert(is_plain(t[t.len() - 1]));
        assert forall|k: int| 0 <= k <= t.len() implies keeps(
            sc,
            #[trigger] run(sc, t.take(k), base),
        ) by {
            if k < t.len() {
                assert(t.take(k) =~= t.drop_last().take(k));
            } else {
                assert(t.take(k) =~= t);
            }
        }
    } else {
        assert forall|k: int| 0 <= k <= t.len() implies keeps(
            sc,
            #[trigger] run(sc, t.take(k), base),
        ) by {
            assert(t.take(k) =~= t);
        }
    }
}

/// Reading one byte is steady where the step keeps what was open.
pub proof fn lemma_steady_one(sc: Scan, b: u8, base: int)
    requires
        keeps(sc, sc.step(base, b)),
    ensures
        steady(sc, seq![b], base),
        run(sc, seq![b], base) == sc.step(base, b),
{
    lemma_run_one(sc, b, base);
    assert(sc.stack.take(sc.stack.len() as int) =~= sc.stack);
    assert forall|k: int| 0 <= k <= 1 implies keeps(
        sc,
        #[trigger] run(sc, seq![b].take(k), base),
    ) by {
        if k == 0 {
            assert(seq![b].take(0) =~= Seq::<u8>::empty());
        } else {
            assert(seq![b].take(1) =~= seq![b]);
        }
    }
}

/// Reading a byte and then a text is steady where the step and the rest are.
pub proof fn lemma_steady_cons(sc: Scan, b: u8, rest: Seq<u8>, base: int)
    requires
        keeps(sc, sc.step(base, b)),
        steady(sc.step(base, b), rest, base + 1),
    ensures
        steady(sc, seq![b] + rest, base),
        run(sc, seq![b] + rest, base) == run(sc.step(base, b), rest, base + 1),
{
    lemma_steady_one(sc, b, base);
    lemma_steady_concat(sc, seq![b], rest, base);
}

/// The body of a string, from offset `i` on: characters other than the quote
/// and the backslash, and escapes, which are a backslash and one of
/// `" \ / b f n r t`, or a backslash, `u` and four hex digits.
pub open spec fn str_body_ok(b: Seq<u8>, i: int) -> bool
    decreases b.len() - i,
{
    if i < 0 || i >= b.len() {
        i == b.len()
    } else if byte_is(b, i, '\\') {
        if i + 1 < b.len() && is_simple_escape(b[i + 1] as char) {
            str_body_ok(b, i + 2)
        } else if i + 5 < b.len() && b[i + 1] as char == 'u' && is_hex_char(b[i + 2] as char)
            && is_hex_char(b[i + 3] as char) && is_hex_char(b[i + 4] as char) && is_hex_char(
            b[i + 5] as char,
        ) {
            str_body_ok(b, i + 6)
        } else {
            false
        }
    } else if byte_is(b, i, '"') {
        false
    } else {
        str_body_ok(b, i + 1)
    }
}

/// A state inside a string with no escape open.
pub open spec fn in_string(sc: Scan) -> bool {
    !(sc.run is Error) && sc.state == StrState::InStr(EscapeState::start())
}

/// Inside a string, a byte that is no closing quote changes the escape state
/// only.
pub proof fn lemma_step_in_string(sc: Scan, b: u8, base: int, e: EscapeState)
    requires
        !(sc.run is Error),
        sc.state == StrState::InStr(e),
        e.step(b as char) matches Some((next, t)) && t != CharType::Quotation,
    ensures
        sc.step(base, b) == (Scan { state: StrState::InStr(e.step(b as char).unwrap().0), ..sc }),
        keeps(sc, sc.step(base, b)),
{
    assert(sc.stack.take(sc.stack.len() as int) =~= sc.stack);
}

/// Reading the body of a string leaves the scan as it was.
pub proof fn lemma_body(sc: Scan, body: Seq<u8>, i: int, base: int)
    requires
        in_string(sc),
        0 <= i <= body.len(),
        str_body_ok(body, i),
    ensures
        steady(sc, body.subrange(i, body.len() as int), base + i),
        run(sc, body.subrange(i, body.len() as int), base + i) == sc,
    decreases body.len() - i,
{
    let t = body.subrange(i, body.len() as int);
    let e0 = EscapeState::start();
    assert(sc.stack.take(sc.stack.len() as int) =~= sc.stack);
    if i == body.len() {
        assert(t =~= Seq::<u8>::empty());
        assert forall|k: int| 0 <= k <= t.len() implies keeps(
            sc,
            #[trigger] run(sc, t.take(k), base + i),
        ) by {
            assert(t.take(k) =~= t);
        }
    } else if byte_is(body, i, '\\') {
        let s1 = Scan { state: StrState::InStr(EscapeState { cnt: 1, ..e0 }), ..sc };
        lemma_step_in_string(sc, body[i], base + i, e0);
        assert(sc.step(base + i, body[i]) == s1);
        if i + 1 < body.len() && is_simple_escape(body[i + 1] as char) {
            let rest = body.subrange(i + 2, body.len() as int);
            lemma_body(sc, body, i + 2, base);
            lemma_step_in_string(s1, body[i + 1], base + i + 1, EscapeState { cnt: 1, ..e0 });
            assert(s1.step(base + i + 1, body[i + 1]) == sc);
            lemma_steady_cons(s1, body[i + 1], rest, base + i + 1);
            lemma_steady_cons(sc, body[i], seq![body[i + 1]] + rest, base + i);
            assert(t =~= seq![body[i]] + (seq![body[i + 1]] + rest));
        } else {
            let rest = body.subrange(i + 6, body.len() as int);
            lemma_body(sc, body, i + 6, base);
            let e1 = EscapeState { cnt: 1, ..e0 };
            let e2 = EscapeState { cnt: 1, u_mode: true, u_cnt: 0 };
            let e3 = EscapeState { cnt: 1, u_mode: true, u_cnt: 1 };
            let e4 = EscapeState { cnt: 1, u_mode: true, u_cnt: 2 };
            let e5 = EscapeState { cnt: 1, u_mode: true, u_cnt: 3 };
            let s2 = Scan { state: StrState::InStr(e2), ..sc };
            let s3 = Scan { state: StrState::InStr(e3), ..sc };
            let s4 = Scan { state: StrState::InStr(e4), ..sc };
            let s5 = Scan { state: StrState::InStr(e5), ..sc };
            lemma_step_in_string(s1, body[i + 1], base + i + 1, e1);
            lemma_step_in_string(s2, body[i + 2], base + i + 2, e2);
            lemma_step_in_string(s3, body[i + 3], base + i + 3, e3);
            lemma_step_in_string(s4, body[i + 4], base + i + 4, e4);
            lemma_step_in_string(s5, body[i + 5], base + i + 5, e5);
            assert(s1.step(base + i + 1, body[i + 1]) == s2);
            assert(s2.step(base + i + 2, body[i + 2]) == s3);
            assert(s3.step(base + i + 3, body[i + 3]) == s4);
            assert(s4.step(base + i + 4, body[i + 4]) == s5);
            assert(s5.step(base + i + 5, body[i + 5]) == sc);
            let t5 = seq![body[i + 5]] + rest;
            let t4 = seq![body[i + 4]] + t5;
            let t3 = seq![body[i + 3]] + t4;
            let t2 = seq![body[i + 2]] + t3;
            let t1 = seq![body[i + 1]] + t2;
            lemma_steady_cons(s5, body[i + 5], rest, base + i + 5);
            lemma_steady_cons(s4, body[i + 4], t5, base + i + 4);
            lemma_steady_cons(s3, body[i + 3], t4, base + i + 3);
            lemma_steady_cons(s2, body[i + 2], t3, base + i + 2);
            lemma_steady_cons(s1, body[i + 1], t2, base + i + 1);
            lemma_steady_cons(sc, body[i], t1, base + i);
            assert(t =~= seq![body[i]] + t1);
        }
    } else {
        let rest = body.subrange(i + 1, body.len() as int);
        lemma_body(sc, body, i + 1, base);
        lemma_step_in_string(sc, body[i], base + i, e0);
        assert(sc.step(base + i, body[i]) == sc);
        lemma_steady_cons(sc, body[i], rest, base + i);
        assert(t =~= seq![body[i]] + rest);
    }
}

/// The quote that opens and closes a string.
pub open spec fn quote_byte() -> u8 {
    0x22
}

/// The text of a string with the body `body`.
pub open spec fn string_text(body: Seq<u8>) -> Seq<u8> {
    seq![quote_byte()] + body + seq![quote_byte()]
}

/// Reading a string leaves the scan as it was.
pub proof fn lemma_string(sc: Scan, body: Seq<u8>, base: int)
    requires
        ready(sc),
        str_body_ok(body, 0),
    ensures
        balanced(sc, string_text(body), base),
        run(sc, string_text(body), base) == sc,
{
    let q = quote_byte();
    let inside = Scan { state: StrState::InStr(EscapeState::start()), ..sc };
    assert(sc.stack.take(sc.stack.len() as int) =~= sc.stack);
    assert(sc.step(base, q) == inside);
    assert(inside.step(base + 1 + body.len(), q) == sc);
    lemma_body(inside, body, 0, base + 1);
    assert(body.subrange(0, body.len() as int) =~= body);
    lemma_steady_one(inside, q, base + 1 + body.len());
    lemma_steady_concat(inside, body, seq![q], base + 1);
    lemma_steady_cons(sc, q, body + seq![q], base);
    assert(string_text(body) =~= seq![q] + (body + seq![q]));
}

/// Reading a text and then a byte is steady where the text is and the last
/// step keeps what was open at the start.
pub proof fn lemma_steady_snoc(sc: Scan, pre: Seq<u8>, b: u8, base: int)
    requires
        steady(sc, pre, base),
        keeps(sc, run(sc, pre, base).step(base + pre.len(), b)),
    ensures
        steady(sc, pre + seq![b], base),
        run(sc, pre + seq![b], base) == run(sc, pre, base).step(base + pre.len(), b),
{
    let t = pre + seq![b];
    assert(t.drop_last() =~= pre);
    assert forall|k: int| 0 <= k <= t.len() implies keeps(sc, #[trigger] run(sc, t.take(k), base)) by {
        if k <= pre.len() {
            assert(t.take(k) =~= pre.take(k));
        } else {
            assert(t.take(k) =~= t);
        }
    }
}

/// Whether `t` holds white space only.
pub open spec fn is_space_text(t: Seq<u8>) -> bool {
    forall|k: int| 0 <= k < t.len() ==> is_space_char(#[trigger] t[k] as char)
}

/// The six keywords.
pub open spec fn is_word(w: Seq<u8>) -> bool {
    w == "true".spec_bytes() || w == "false".spec_bytes() || w == "null".spec_bytes() || w
        == "NaN".spec_bytes() || w == "Infinity".spec_bytes() || w == "-Infinity".spec_bytes()
}

/// A number: an optional minus sign, digits, an optional point with digits
/// behind it, and an optional exponent, which is `e` or `E`, an optional
/// sign, and digits.
pub open spec fn is_number_text(t: Seq<u8>) -> bool {
    number_len(t) == Some(t.len() as int)
}

/// What stands before the colon of an object member: white space, the key,
/// white space.
pub struct Key {
    pub before: Seq<u8>,
    pub body: Seq<u8>,
    pub after: Seq<u8>,
}

/// A JSON text as a tree, with the white space that stands in it.
pub enum Json {
    /// A keyword.
    Word(Seq<u8>),
    /// A number, by its text.
    Number(Seq<u8>),
    /// A string, by what stands between its quotes.
    Str(Seq<u8>),
    /// A value with white space before and behind it.
    Padded(Seq<u8>, Box<Json>, Seq<u8>),
    /// An array, by its items; the white space is that of an array with no
    /// item.
    Array(Seq<u8>, Seq<Json>),
    /// An object, by the keys and the values of its members; the white space
    /// is that of an object with no member.
    Object(Seq<u8>, Seq<Key>, Seq<Json>),
}

/// Whether `k` is the key of a member: a string body between white space.
pub open spec fn key_ok(k: Key) -> bool {
    is_space_text(k.before) && str_body_ok(k.body, 0) && is_space_text(k.after)
}

/// The text of a key: white space, the string, white space.
pub open spec fn key_text(k: Key) -> Seq<u8> {
    k.before + string_text(k.body) + k.after
}

/// Whether the tree is one of a JSON text.
pub open spec fn wf(j: Json) -> bool
    decreases j,
{
    match j {
        Json::Word(w) => is_word(w),
        Json::Number(t) => is_number_text(t),
        Json::Str(b) => str_body_ok(b, 0),
        Json::Padded(a, v, b) => is_space_text(a) && wf(*v) && is_space_text(b),
        Json::Array(ws, items) => is_space_text(ws) && forall|i: int|
            0 <= i < items.len() ==> wf(#[trigger] items[i]),
        Json::Object(ws, keys, values) => is_space_text(ws) && keys.len() == values.len() && (
        forall|i: int| 0 <= i < keys.len() ==> key_ok(#[trigger] keys[i])) && (forall|i: int|
            0 <= i < values.len() ==> wf(#[trigger] values[i])),
    }
}

/// The text of a tree.
pub open spec fn render(j: Json) -> Seq<u8>
    decreases j,
{
    match j {
        Json::Word(w) => w,
        Json::Number(t) => t,
        Json::Str(b) => string_text(b),
        Json::Padded(a, v, b) => a + render(*v) + b,
        Json::Array(ws, items) => seq![0x5bu8] + (if items.len() == 0 {
            ws
        } else {
            render_items(items)
        }) + seq![0x5du8],
        Json::Object(ws, keys, values) => seq![0x7bu8] + (if values.len() == 0 {
            ws
        } else {
            render_members(keys, values)
        }) + seq![0x7du8],
    }
}

/// The items of an array, with commas between them.
pub open spec fn render_items(items: Seq<Json>) -> Seq<u8>
    decreases items,
{
    if items.len() == 0 {
        Seq::empty()
    } else if items.len() == 1 {
        render(items[0])
    } else {
        render_items(items.drop_last()) + seq![0x2cu8] + render(items.last())
    }
}

/// One member of an object: key, colon, value.
pub open spec fn member_text(k: Key, v: Seq<u8>) -> Seq<u8> {
    key_text(k) + seq![0x3au8] + v
}

/// The members of an object, with commas between them. The key of a value
/// is the one at its index.
pub open spec fn render_members(keys: Seq<Key>, values: Seq<Json>) -> Seq<u8>
    decreases values,
{
    if values.len() == 0 {
        Seq::empty()
    } else if values.len() == 1 {
        member_text(keys[0], render(values[0]))
    } else {
        render_members(keys, values.drop_last()) + seq![0x2cu8] + member_text(
            keys[values.len() - 1],
            render(values.last()),
        )
    }
}

/// Whether the tree is an array or an object.
pub open spec fn is_container(j: Json) -> bool {
    j is Array || j is Object
}

/// Whether the tree is an array or an object, with or without white space
/// around it.
pub open spec fn holds_container(j: Json) -> bool
    decreases j,
{
    match j {
        Json::Padded(_, v, _) => holds_container(*v),
        Json::Array(_, _) => true,
        Json::Object(_, _, _) => true,
        _ => false,
    }
}

/// White space is plain.
pub proof fn lemma_space_plain(t: Seq<u8>)
    requires
        is_space_text(t),
    ensures
        all_plain(t),
{
    assert forall|k: int| 0 <= k < t.len() implies is_plain(#[trigger] t[k]) by {
        assert(is_space_char(t[k] as char));
    }
}

/// What the six keywords are made of.
pub proof fn lemma_word_bytes()
    ensures
        "true".spec_bytes() =~= seq![0x74u8, 0x72, 0x75, 0x65],
        "false".spec_bytes() =~= seq![0x66u8, 0x61, 0x6c, 0x73, 0x65],
        "null".spec_bytes() =~= seq![0x6eu8, 0x75, 0x6c, 0x6c],
        "NaN".spec_bytes() =~= seq![0x4eu8, 0x61, 0x4e],
        "Infinity".spec_bytes() =~= seq![0x49u8, 0x6e, 0x66, 0x69, 0x6e, 0x69, 0x74, 0x79],
        "-Infinity".spec_bytes() =~= seq![0x2du8, 0x49, 0x6e, 0x66, 0x69, 0x6e, 0x69, 0x74, 0x79],
{
    reveal_strlit("true");
    reveal_strlit("false");
    reveal_strlit("null");
    reveal_strlit("NaN");
    reveal_strlit("Infinity");
    reveal_strlit("-Infinity");
    lemma_encode_ascii("true"@);
    lemma_encode_ascii("false"@);
    lemma_encode_ascii("null"@);
    lemma_encode_ascii("NaN"@);
    lemma_encode_ascii("Infinity"@);
    lemma_encode_ascii("-Infinity"@);
}

/// The bytes of a keyword are plain.
pub proof fn lemma_word_plain(w: Seq<u8>)
    requires
        is_word(w),
    ensures
        all_plain(w),
        w.len() > 0,
{
    lemma_word_bytes();
}

/// A number is made of digits, signs, a point and an exponent mark.
pub proof fn lemma_number_plain(t: Seq<u8>)
    requires
        is_number_text(t),
    ensures
        all_plain(t),
        t.len() > 0,
{
    let sign = if byte_is(t, 0, '-') {
        1int
    } else {
        0int
    };
    lemma_digit_len_bound(t, sign);
    let whole = digit_len(t, sign);
    let dot = sign + whole;
    lemma_digit_len_bound(t, dot + 1);
    let b = base_len(t).unwrap();
    assert forall|k: int| 0 <= k < b implies is_plain(#[trigger] t[k]) by {
        if k < sign {
        } else if k < dot {
            assert(is_digit_char(t[k] as char));
        } else if k == dot {
        } else {
            assert(is_digit_char(t[k] as char));
        }
    }
    if b < t.len() {
        let es = if byte_is(t, b + 1, '-') || byte_is(t, b + 1, '+') {
            1int
        } else {
            0int
        };
        lemma_digit_len_bound(t, b + 1 + es);
        assert forall|k: int| b <= k < t.len() implies is_plain(#[trigger] t[k]) by {
            if k == b {
            } else if k < b + 1 + es {
            } else {
                assert(is_digit_char(t[k] as char));
            }
        }
    }
}

/// Reading a container: the opener, what stands inside, the closer.
pub proof fn lemma_wrap(sc: Scan, open: u8, inner: Seq<u8>, close: u8, base: int)
    requires
        ready(sc),
        classify(open as char).is_opener(),
        Some(classify(close as char)) == classify(open as char).pair(),
        balanced(sc.step(base, open), inner, base + 1),
    ensures
        enclosed(sc, seq![open] + inner + seq![close], base),
        run(sc, seq![open] + inner + seq![close], base).last_rbracket == Some(
            base + 1 + inner.len(),
        ),
{
    let kind = classify(open as char);
    let sc1 = sc.step(base, open);
    assert(sc1 == Scan { stack: sc.stack.push((base, kind)), ..sc });
    assert(sc1.stack.take(sc.stack.len() as int) =~= sc.stack);
    assert(keeps(sc, sc1));
    let pre = seq![open] + inner;
    lemma_steady_cons(sc, open, inner, base);
    let end1 = run(sc1, inner, base + 1);
    assert(inner.take(inner.len() as int) =~= inner);
    assert(keeps(sc1, run(sc1, inner.take(inner.len() as int), base + 1)));
    let pos = base + 1 + inner.len();
    let end = end1.step(pos, close);
    assert(end1.stack.last() == (base, kind));
    assert(end.stack =~= sc.stack);
    assert(end.stack.take(sc.stack.len() as int) =~= sc.stack);
    lemma_steady_snoc(sc, pre, close, base);
    let t = seq![open] + inner + seq![close];
    assert forall|k: int| 0 < k < t.len() implies (#[trigger] run(sc, t.take(k), base)).stack.len()
        > sc.stack.len() by {
        assert(t.take(k) =~= seq![open] + inner.take(k - 1));
        lemma_run_concat(sc, seq![open], inner.take(k - 1), base);
        lemma_run_one(sc, open, base);
        assert(keeps(sc1, run(sc1, inner.take(k - 1), base + 1)));
    }
}

/// Reading one byte that is a comma or a colon, outside strings.
pub proof fn lemma_separator(sc: Scan, b: u8, base: int)
    requires
        ready(sc),
        b as char == ',' || b as char == ':',
    ensures
        balanced(sc, seq![b], base),
        ready(run(sc, seq![b], base)),
{
    assert(sc.stack.take(sc.stack.len() as int) =~= sc.stack);
    lemma_steady_one(sc, b, base);
}

/// Reading the text of a tree leaves open what was open and closes what it
/// opens; inside an array or an object, the array or object is open; behind
/// one, its closer is the last closer seen.
pub proof fn lemma_value(j: Json, sc: Scan, base: int)
    requires
        wf(j),
        ready(sc),
    ensures
        balanced(sc, render(j), base),
        is_container(j) ==> enclosed(sc, render(j), base),
        holds_container(j) ==> run(sc, render(j), base).last_rbracket is Some,
        is_container(j) ==> run(sc, render(j), base).last_rbracket == Some(
            base + render(j).len() - 1,
        ),
        render(j).len() > 0,
    decreases j, 0int,
{
    match j {
        Json::Word(w) => {
            lemma_word_plain(w);
            lemma_plain(sc, w, base);
        },
        Json::Number(t) => {
            lemma_number_plain(t);
            lemma_plain(sc, t, base);
        },
        Json::Str(b) => {
            lemma_string(sc, b, base);
        },
        Json::Padded(a, v, b) => {
            lemma_space_plain(a);
            lemma_space_plain(b);
            lemma_plain(sc, a, base);
            lemma_value(*v, sc, base + a.len());
            lemma_balanced_concat(sc, a, render(*v), base);
            let mid = run(sc, a + render(*v), base);
            assert(render(*v).take(render(*v).len() as int) =~= render(*v));
            assert(keeps(sc, run(sc, render(*v).take(render(*v).len() as int), base + a.len())));
            lemma_plain(mid, b, base + a.len() + render(*v).len());
            lemma_balanced_concat(sc, a + render(*v), b, base);
        },
        Json::Array(ws, items) => {
            let sc1 = sc.step(base, 0x5bu8);
            let inner = if items.len() == 0 {
                ws
            } else {
                render_items(items)
            };
            if items.len() == 0 {
                lemma_space_plain(ws);
                lemma_plain(sc1, ws, base + 1);
            } else {
                lemma_items(items, sc1, base + 1);
            }
            lemma_wrap(sc, 0x5bu8, inner, 0x5du8, base);
        },
        Json::Object(ws, keys, values) => {
            let sc1 = sc.step(base, 0x7bu8);
            let inner = if values.len() == 0 {
                ws
            } else {
                render_members(keys, values)
            };
            if values.len() == 0 {
                lemma_space_plain(ws);
                lemma_plain(sc1, ws, base + 1);
            } else {
                lemma_members(keys, values, sc1, base + 1);
            }
            lemma_wrap(sc, 0x7bu8, inner, 0x7du8, base);
        },
    }
}

/// The end of a balanced reading is ready for more.
pub proof fn lemma_balanced_end(sc: Scan, t: Seq<u8>, base: int)
    requires
        ready(sc),
        balanced(sc, t, base),
    ensures
        ready(run(sc, t, base)),
        keeps(sc, run(sc, t, base)),
{
    assert(t.take(t.len() as int) =~= t);
    assert(keeps(sc, run(sc, t.take(t.len() as int), base)));
}

/// Reading the items of an array.
pub proof fn lemma_items(items: Seq<Json>, sc: Scan, base: int)
    requires
        items.len() > 0,
        forall|i: int| 0 <= i < items.len() ==> wf(#[trigger] items[i]),
        ready(sc),
    ensures
        balanced(sc, render_items(items), base),
    decreases items, 0int,
{
    if items.len() == 1 {
        lemma_value(items[0], sc, base);
    } else {
        let front = items.drop_last();
        assert forall|i: int| 0 <= i < front.len() implies wf(#[trigger] front[i]) by {
            assert(front[i] == items[i]);
        }
        lemma_items(front, sc, base);
        let a = render_items(front);
        let mid = run(sc, a, base);
        lemma_balanced_end(sc, a, base);
        lemma_separator(mid, 0x2cu8, base + a.len());
        lemma_balanced_concat(sc, a, seq![0x2cu8], base);
        let ac = a + seq![0x2cu8];
        let mid2 = run(sc, ac, base);
        lemma_value(items.last(), mid2, base + ac.len());
        lemma_balanced_concat(sc, ac, render(items.last()), base);
    }
}

/// Reading one member of an object.
pub proof fn lemma_member(k: Key, v: Json, sc: Scan, base: int)
    requires
        key_ok(k),
        wf(v),
        ready(sc),
    ensures
        balanced(sc, member_text(k, render(v)), base),
    decreases v, 1int,
{
    lemma_space_plain(k.before);
    lemma_space_plain(k.after);
    lemma_plain(sc, k.before, base);
    lemma_string(sc, k.body, base + k.before.len());
    lemma_balanced_concat(sc, k.before, string_text(k.body), base);
    let t1 = k.before + string_text(k.body);
    lemma_balanced_end(sc, t1, base);
    lemma_plain(run(sc, t1, base), k.after, base + t1.len());
    lemma_balanced_concat(sc, t1, k.after, base);
    let t2 = key_text(k);
    lemma_balanced_end(sc, t2, base);
    lemma_separator(run(sc, t2, base), 0x3au8, base + t2.len());
    lemma_balanced_concat(sc, t2, seq![0x3au8], base);
    let t3 = t2 + seq![0x3au8];
    lemma_balanced_end(sc, t3, base);
    lemma_value(v, run(sc, t3, base), base + t3.len());
    lemma_balanced_concat(sc, t3, render(v), base);
}

/// Reading the members of an object.
pub proof fn lemma_members(keys: Seq<Key>, values: Seq<Json>, sc: Scan, base: int)
    requires
        values.len() > 0,
        keys.len() >= values.len(),
        forall|i: int| 0 <= i < values.len() ==> key_ok(#[trigger] keys[i]),
        forall|i: int| 0 <= i < values.len() ==> wf(#[trigger] values[i]),
        ready(sc),
    ensures
        balanced(sc, render_members(keys, values), base),
    decreases values, 2int,
{
    if values.len() == 1 {
        lemma_member(keys[0], values[0], sc, base);
    } else {
        let front = values.drop_last();
        assert forall|i: int| 0 <= i < front.len() implies wf(#[trigger] front[i]) by {
            assert(front[i] == values[i]);
        }
        lemma_members(keys, front, sc, base);
        let a = render_members(keys, front);
        lemma_balanced_end(sc, a, base);
        lemma_separator(run(sc, a, base), 0x2cu8, base + a.len());
        lemma_balanced_concat(sc, a, seq![0x2cu8], base);
        let ac = a + seq![0x2cu8];
        lemma_balanced_end(sc, ac, base);
        lemma_member(keys[values.len() - 1], values.last(), run(sc, ac, base), base + ac.len());
        lemma_balanced_concat(
            sc,
            ac,
            member_text(keys[values.len() - 1], render(values.last())),
            base,
        );
    }
}

} // verus!
