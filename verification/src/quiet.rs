use crate::json::{
    all_plain, in_string, is_space_text, lemma_plain, lemma_run_concat, lemma_run_one,
    lemma_space_plain, quote_byte, ready, run, str_body_ok, string_text,
};
use crate::parser::{is_simple_escape, CharType, EscapeState, StrState};
use crate::scan::Scan;
use crate::value_parser::byte_is;
use vstd::prelude::*;

verus! {

/// Between `sc` and `m` nothing was opened, closed or recorded, and nothing
/// failed; only the string state may differ.
pub open spec fn still(sc: Scan, m: Scan) -> bool {
    &&& m.stack == sc.stack
    &&& m.last_comma == sc.last_comma
    &&& m.last_colon == sc.last_colon
    &&& m.last_rbracket == sc.last_rbracket
    &&& m.run == sc.run
}

/// Reading `t` from `sc`, nothing is opened, closed or recorded.
pub open spec fn hushed(sc: Scan, t: Seq<u8>, base: int) -> bool {
    forall|k: int| 0 <= k <= t.len() ==> still(sc, #[trigger] run(sc, t.take(k), base))
}

/// A text that holds nothing of the structure: wherever it is read, outside
/// a string, nothing is opened, closed or recorded.
pub open spec fn quiet(t: Seq<u8>) -> bool {
    forall|sc: Scan, base: int| ready(sc) ==> still(sc, #[trigger] run(sc, t, base))
}

/// A quiet text behind which the scan stands outside strings again.
pub open spec fn calm(t: Seq<u8>) -> bool {
    forall|sc: Scan, base: int|
        ready(sc) ==> still(sc, #[trigger] run(sc, t, base)) && ready(run(sc, t, base))
}

/// A text of plain bytes is calm.
pub proof fn lemma_calm_plain(t: Seq<u8>)
    requires
        all_plain(t),
    ensures
        calm(t),
        quiet(t),
{
    assert forall|sc: Scan, base: int| ready(sc) implies still(sc, #[trigger] run(sc, t, base))
        && ready(run(sc, t, base)) by {
        lemma_plain(sc, t, base);
    }
}

/// White space is calm.
pub proof fn lemma_calm_space(t: Seq<u8>)
    requires
        is_space_text(t),
    ensures
        calm(t),
        quiet(t),
{
    lemma_space_plain(t);
    lemma_calm_plain(t);
}

/// A quiet text behind a calm one is quiet.
pub proof fn lemma_quiet_concat(a: Seq<u8>, b: Seq<u8>)
    requires
        calm(a),
        quiet(b),
    ensures
        quiet(a + b),
{
    assert forall|sc: Scan, base: int| ready(sc) implies still(
        sc,
        #[trigger] run(sc, a + b, base),
    ) by {
        lemma_run_concat(sc, a, b, base);
        let mid = run(sc, a, base);
        assert(still(mid, run(mid, b, base + a.len())));
    }
}

/// A calm text behind a calm one is calm.
pub proof fn lemma_calm_concat(a: Seq<u8>, b: Seq<u8>)
    requires
        calm(a),
        calm(b),
    ensures
        calm(a + b),
{
    assert forall|sc: Scan, base: int| ready(sc) implies still(
        sc,
        #[trigger] run(sc, a + b, base),
    ) && ready(run(sc, a + b, base)) by {
        lemma_run_concat(sc, a, b, base);
        let mid = run(sc, a, base);
        assert(still(mid, run(mid, b, base + a.len())));
    }
}

/// A start of a text of plain bytes is calm.
pub proof fn lemma_plain_prefix(t: Seq<u8>, k: int)
    requires
        all_plain(t),
        0 <= k <= t.len(),
    ensures
        calm(t.take(k)),
        all_plain(t.take(k)),
{
    assert forall|i: int| 0 <= i < k implies crate::json::is_plain(#[trigger] t.take(k)[i]) by {
        assert(t.take(k)[i] == t[i]);
    }
    lemma_calm_plain(t.take(k));
}

/// Reading a byte and then a text is hushed where the step and the rest are.
pub proof fn lemma_hushed_cons(sc: Scan, b: u8, rest: Seq<u8>, base: int)
    requires
        still(sc, sc.step(base, b)),
        hushed(sc.step(base, b), rest, base + 1),
    ensures
        hushed(sc, seq![b] + rest, base),
        run(sc, seq![b] + rest, base) == run(sc.step(base, b), rest, base + 1),
{
    let t = seq![b] + rest;
    let s1 = sc.step(base, b);
    lemma_run_one(sc, b, base);
    lemma_run_concat(sc, seq![b], rest, base);
    assert forall|k: int| 0 <= k <= t.len() implies still(sc, #[trigger] run(sc, t.take(k), base)) by {
        if k == 0 {
            assert(t.take(0) =~= Seq::<u8>::empty());
        } else {
            assert(t.take(k) =~= seq![b] + rest.take(k - 1));
            lemma_run_concat(sc, seq![b], rest.take(k - 1), base);
            assert(still(s1, run(s1, rest.take(k - 1), base + 1)));
        }
    }
}

/// Inside a string, a byte that is no closing quote changes the escape state
/// only.
pub proof fn lemma_still_in_string(sc: Scan, b: u8, base: int, e: EscapeState)
    requires
        !(sc.run is Error),
        sc.state == StrState::InStr(e),
        e.step(b as char) matches Some((next, t)) && t != CharType::Quotation,
    ensures
        sc.step(base, b) == (Scan { state: StrState::InStr(e.step(b as char).unwrap().0), ..sc }),
        still(sc, sc.step(base, b)),
{
}

/// A scan inside a string with the escape state `e`.
pub open spec fn inside(sc: Scan, e: EscapeState) -> Scan {
    Scan { state: StrState::InStr(e), ..sc }
}

/// Reading any start of the body of a string, nothing is opened, closed or
/// recorded.
pub proof fn lemma_body_hushed(sc: Scan, body: Seq<u8>, i: int, base: int)
    requires
        in_string(sc),
        0 <= i <= body.len(),
        str_body_ok(body, i),
    ensures
        hushed(sc, body.subrange(i, body.len() as int), base + i),
        run(sc, body.subrange(i, body.len() as int), base + i) == sc,
    decreases body.len() - i,
{
    let t = body.subrange(i, body.len() as int);
    let e0 = EscapeState::start();
    if i == body.len() {
        assert(t =~= Seq::<u8>::empty());
        assert forall|k: int| 0 <= k <= t.len() implies still(
            sc,
            #[trigger] run(sc, t.take(k), base + i),
        ) by {
            assert(t.take(k) =~= t);
        }
    } else if byte_is(body, i, '\\') {
        let e1 = EscapeState { cnt: 1, ..e0 };
        let s1 = inside(sc, e1);
        lemma_still_in_string(sc, body[i], base + i, e0);
        assert(sc.step(base + i, body[i]) == s1);
        if i + 1 < body.len() && is_simple_escape(body[i + 1] as char) {
            let rest = body.subrange(i + 2, body.len() as int);
            lemma_body_hushed(sc, body, i + 2, base);
            lemma_still_in_string(s1, body[i + 1], base + i + 1, e1);
            assert(s1.step(base + i + 1, body[i + 1]) == sc);
            lemma_hushed_cons(s1, body[i + 1], rest, base + i + 1);
            lemma_hushed_cons(sc, body[i], seq![body[i + 1]] + rest, base + i);
            assert(t =~= seq![body[i]] + (seq![body[i + 1]] + rest));
        } else {
            let rest = body.subrange(i + 6, body.len() as int);
            lemma_body_hushed(sc, body, i + 6, base);
            let e2 = EscapeState { cnt: 1, u_mode: true, u_cnt: 0 };
            let e3 = EscapeState { cnt: 1, u_mode: true, u_cnt: 1 };
            let e4 = EscapeState { cnt: 1, u_mode: true, u_cnt: 2 };
            let e5 = EscapeState { cnt: 1, u_mode: true, u_cnt: 3 };
            let s2 = inside(sc, e2);
            let s3 = inside(sc, e3);
            let s4 = inside(sc, e4);
            let s5 = inside(sc, e5);
            lemma_still_in_string(s1, body[i + 1], base + i + 1, e1);
            lemma_still_in_string(s2, body[i + 2], base + i + 2, e2);
            lemma_still_in_string(s3, body[i + 3], base + i + 3, e3);
            lemma_still_in_string(s4, body[i + 4], base + i + 4, e4);
            lemma_still_in_string(s5, body[i + 5], base + i + 5, e5);
            assert(s1.step(base + i + 1, body[i + 1]) == s2);
            assert(s2.step(base + i + 2, body[i + 2]) == s3);
            assert(s3.step(base + i + 3, body[i + 3]) == s4);
            assert(s4.step(base + i + 4, body[i + 4]) == s5);
            assert(s5.step(base + i + 5, body[i + 5]) == sc);
            let t5 = seq![body[i + 5]] + rest;
            let t4 = seq![body[i + 4]] + t5;
            let t3 = seq![body[i + 3]] + t4;
            let t2 = seq![body[i + 2]] + t3;
            let t1 = seq![body[i + 1]] + t2;
            lemma_hushed_cons(s5, body[i + 5], rest, base + i + 5);
            lemma_hushed_cons(s4, body[i + 4], t5, base + i + 4);
            lemma_hushed_cons(s3, body[i + 3], t4, base + i + 3);
            lemma_hushed_cons(s2, body[i + 2], t3, base + i + 2);
            lemma_hushed_cons(s1, body[i + 1], t2, base + i + 1);
            lemma_hushed_cons(sc, body[i], t1, base + i);
            assert(t =~= seq![body[i]] + t1);
        }
    } else {
        let rest = body.subrange(i + 1, body.len() as int);
        lemma_body_hushed(sc, body, i + 1, base);
        lemma_still_in_string(sc, body[i], base + i, e0);
        assert(sc.step(base + i, body[i]) == sc);
        lemma_hushed_cons(sc, body[i], rest, base + i);
        assert(t =~= seq![body[i]] + rest);
    }
}

/// A string is calm, and every start of it is quiet.
pub proof fn lemma_string_quiet(body: Seq<u8>, k: int)
    requires
        str_body_ok(body, 0),
        0 <= k <= string_text(body).len(),
    ensures
        quiet(string_text(body).take(k)),
        calm(string_text(body)),
{
    let q = quote_byte();
    let t = string_text(body);
    assert(t =~= seq![q] + (body + seq![q]));
    assert(body.subrange(0, body.len() as int) =~= body);
    assert forall|sc: Scan, base: int| ready(sc) implies still(sc, #[trigger] run(sc, t, base))
        && ready(run(sc, t, base)) by {
        crate::json::lemma_string(sc, body, base);
    }
    assert forall|sc: Scan, base: int| ready(sc) implies still(
        sc,
        #[trigger] run(sc, t.take(k), base),
    ) by {
        let ins = inside(sc, EscapeState::start());
        assert(sc.step(base, q) == ins);
        if k == 0 {
            assert(t.take(0) =~= Seq::<u8>::empty());
        } else if k <= 1 + body.len() {
            assert(t.take(k) =~= seq![q] + body.take(k - 1));
            lemma_run_concat(sc, seq![q], body.take(k - 1), base);
            lemma_run_one(sc, q, base);
            lemma_body_hushed(ins, body, 0, base + 1);
            assert(still(ins, run(ins, body.take(k - 1), base + 1)));
        } else {
            assert(t.take(k) =~= t);
        }
    }
}

} // verus!
