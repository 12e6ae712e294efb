use crate::amend::{
    amend_spec, body, closers, complete_spec, cut_back, in_object, opener_before, plan, recovered,
    value_text, Body,
};
use crate::json::{
    is_container, is_space_text, lemma_run_concat, lemma_scan_is_run, lemma_value, render, run, wf,
    Json,
};
use crate::laws::{lemma_no_value_at_opener, lemma_space_run};
use crate::parser::{CharType, ParseSettings};
use crate::prefix::{
    before, comma_pos, frames_ok, frames_text, lemma_frames_scan, lemma_run_range, openers_of,
    sep_pos, Frame,
};
use crate::quiet::{quiet, still};
use crate::rebuild::{
    close_frames, emptied, lemma_close_frames, lemma_closers_push, lemma_emptied, lemma_shut, shut,
};
use crate::scan::{lemma_scan_wf, scan, scan_wf, Scan};
use crate::value_laws::{law_value_text_is_scalar, lemma_scalar_of, scalar_of};
use crate::value_parser::{is_space_char, skip_space, space_len};
use crate::json::{lemma_plain, lemma_space_plain};
use crate::zipper::{lemma_zip, zip, Prefix, Tail};
use vstd::prelude::*;

verus! {

/// Whether `t` is a JSON text: the text of a tree.
pub open spec fn is_json(t: Seq<u8>) -> bool {
    exists|j: Json| wf(j) && #[trigger] render(j) == t
}

/// The text of a tree is a JSON text.
pub proof fn lemma_is_json(j: Json)
    requires
        wf(j),
    ensures
        is_json(render(j)),
{
}

/// The frames but the innermost are frames.
pub proof fn lemma_front_ok(frames: Seq<Frame>)
    requires
        frames_ok(frames),
        frames.len() > 0,
    ensures
        frames_ok(frames.drop_last()),
        frames.last().ok(),
        frames.drop_last().len() > 0 ==> !(frames.drop_last().last() is Keys),
{
    let front = frames.drop_last();
    assert(frames.last() == frames[frames.len() - 1]);
    assert forall|i: int| 0 <= i < front.len() implies (#[trigger] front[i]).ok() && !(front[i]
        is Keys) by {
        assert(front[i] == frames[i]);
    }
}

/// The stack of the frames: one opener for each, at growing offsets inside
/// the text of the frames.
pub proof fn lemma_openers(frames: Seq<Frame>)
    ensures
        openers_of(frames).len() == frames.len(),
        forall|i: int|
            0 <= i < frames.len() ==> 0 <= (#[trigger] openers_of(frames)[i]).0 < frames_text(
                frames,
            ).len() && openers_of(frames)[i].1.is_opener(),
        frames.len() > 0 ==> openers_of(frames).last() == (
            (frames_text(frames.drop_last()).len() + frames.last().lead().len()) as int,
            frames.last().kind(),
        ),
        frames.len() > 0 ==> openers_of(frames).drop_last() == openers_of(frames.drop_last()),
    decreases frames.len(),
{
    if frames.len() > 0 {
        lemma_openers(frames.drop_last());
        let st = openers_of(frames);
        let fs = openers_of(frames.drop_last());
        assert(st.drop_last() =~= fs);
        assert forall|i: int| 0 <= i < frames.len() implies 0 <= (#[trigger] st[i]).0
            < frames_text(frames).len() && st[i].1.is_opener() by {
            if i < frames.len() - 1 {
                assert(st[i] == fs[i]);
            }
        }
    }
}

/// The last comma of the frames lies in their text.
pub proof fn lemma_comma_in_text(frames: Seq<Frame>)
    ensures
        comma_pos(frames) matches Some(s) ==> 0 <= s < frames_text(frames).len(),
        sep_pos(frames) matches Some(v) ==> 0 <= v < frames_text(frames).len(),
        sep_pos(frames) is None ==> comma_pos(frames) is None,
    decreases frames.len(),
{
    if frames.len() > 0 {
        lemma_comma_in_text(frames.drop_last());
    }
}

/// The tree that is left where the text is cut back to the last comma of the
/// frames.
pub open spec fn comma_cut(frames: Seq<Frame>) -> Json
    decreases frames.len(),
{
    if frames.len() == 0 {
        Json::Word(Seq::empty())
    } else if frames.last().comma() is Some {
        close_frames(frames.drop_last(), shut(frames.last()))
    } else {
        comma_cut(frames.drop_last())
    }
}

/// Cut back to the last comma of the frames, with the containers closed
/// that are open there, the text is a JSON text.
pub proof fn lemma_cut_comma(frames: Seq<Frame>, extra: Seq<u8>)
    requires
        frames_ok(frames),
        comma_pos(frames) is Some,
    ensures
        wf(comma_cut(frames)),
        render(comma_cut(frames)) == (frames_text(frames) + extra).subrange(
            0,
            comma_pos(frames).unwrap(),
        ) + closers(recovered(openers_of(frames), comma_pos(frames).unwrap())),
    decreases frames.len(),
{
    let s = comma_pos(frames).unwrap();
    let front = frames.drop_last();
    let f = frames.last();
    let ft = frames_text(front);
    let p = frames_text(frames) + extra;
    lemma_front_ok(frames);
    lemma_openers(frames);
    lemma_comma_in_text(frames);
    lemma_comma_in_text(front);
    let st = openers_of(frames);
    if f.comma() is Some {
        let c = f.comma().unwrap();
        lemma_shut(f);
        lemma_close_frames(front, shut(f));
        assert(st.last().0 < s);
        assert(recovered(st, s) == st);
        lemma_closers_push(openers_of(front), st.last());
        assert(st =~= openers_of(front).push(st.last()));
        assert(f.text().subrange(0, c) =~= f.text_before_comma());
        assert(p.subrange(0, s) =~= ft + f.text_before_comma());
        assert(render(comma_cut(frames)) =~= p.subrange(0, s) + closers(recovered(st, s)));
    } else {
        lemma_cut_comma(front, f.text() + extra);
        assert(s < ft.len());
        assert(st.last().0 >= s);
        assert(recovered(st, s) == recovered(openers_of(front), s));
        assert(p.subrange(0, s) =~= (ft + (f.text() + extra)).subrange(0, s));
    }
}

/// The tree that is left where the text is cut back to the opener of the
/// innermost object whose member has got its colon.
pub open spec fn colon_cut(frames: Seq<Frame>) -> Json
    decreases frames.len(),
{
    if frames.len() == 0 {
        Json::Word(Seq::empty())
    } else if frames.last() is Obj {
        close_frames(frames.drop_last(), emptied(frames.last(), Seq::empty()))
    } else {
        colon_cut(frames.drop_last())
    }
}

/// Where the frames hold no comma and their last colon stands at `c`: the
/// innermost container that starts before `c` is found, and cut back to
/// just behind its opener, with the containers closed that are open there,
/// the text is a JSON text.
pub proof fn lemma_cut_colon(frames: Seq<Frame>, extra: Seq<u8>)
    requires
        frames_ok(frames),
        comma_pos(frames) is None,
        sep_pos(frames) is Some,
    ensures
        opener_before(openers_of(frames), sep_pos(frames).unwrap()) is Some,
        wf(colon_cut(frames)),
        ({
            let o = opener_before(openers_of(frames), sep_pos(frames).unwrap()).unwrap();
            render(colon_cut(frames)) == (frames_text(frames) + extra).subrange(0, o.0 + 1)
                + closers(recovered(openers_of(frames), o.0 + 1))
        }),
    decreases frames.len(),
{
    let c = sep_pos(frames).unwrap();
    let front = frames.drop_last();
    let f = frames.last();
    let ft = frames_text(front);
    let p = frames_text(frames) + extra;
    lemma_front_ok(frames);
    lemma_openers(frames);
    lemma_comma_in_text(frames);
    lemma_comma_in_text(front);
    let st = openers_of(frames);
    if f is Obj {
        let o = st.last();
        assert(o.0 < c);
        assert(opener_before(st, c) == Some(o));
        assert(is_space_text(Seq::<u8>::empty()));
        lemma_emptied(f, Seq::empty());
        lemma_close_frames(front, emptied(f, Seq::empty()));
        assert(recovered(st, o.0 + 1) == st);
        lemma_closers_push(openers_of(front), o);
        assert(st =~= openers_of(front).push(o));
        assert(p.subrange(0, o.0 + 1) =~= ft + f.lead() + seq![f.opener()]);
        assert(render(colon_cut(frames)) =~= p.subrange(0, o.0 + 1) + closers(
            recovered(st, o.0 + 1),
        ));
    } else {
        lemma_cut_colon(front, f.text() + extra);
        assert(c < ft.len());
        assert(st.last().0 >= c);
        assert(opener_before(st, c) == opener_before(openers_of(front), c));
        let o = opener_before(st, c).unwrap();
        crate::parser::lemma_opener_before(openers_of(front), c);
        assert(o.0 + 1 <= c);
        assert(recovered(st, o.0 + 1) == recovered(openers_of(front), o.0 + 1));
        assert(p.subrange(0, o.0 + 1) =~= (ft + (f.text() + extra)).subrange(0, o.0 + 1));
    }
}

/// Frames that hold no comma and no colon: each is an array or, the
/// innermost, an object, with nothing behind its opener.
pub proof fn lemma_no_sep(frames: Seq<Frame>)
    requires
        frames_ok(frames),
        sep_pos(frames) is None,
        frames.len() > 0,
    ensures
        frames.last().text() == frames.last().lead() + seq![frames.last().opener()],
        !(frames.last() is Obj),
        frames.last().count() == 0,
        sep_pos(frames.drop_last()) is None,
        openers_of(frames).last().0 == frames_text(frames).len() - 1,
{
    lemma_openers(frames);
    let f = frames.last();
    assert(f.inner() =~= Seq::<u8>::empty());
    assert(f.text() =~= f.lead() + seq![f.opener()]);
}

/// The tree that is left where the innermost frame is cut off.
pub open spec fn top_cut(frames: Seq<Frame>) -> Json {
    let front = frames.drop_last();
    close_frames(front.drop_last(), emptied(front.last(), frames.last().lead()))
}

/// Where the frames hold no comma and no colon: cut back to the opener of
/// the innermost frame, with the containers closed that are open there,
/// the text is a JSON text, or white space that stood before the first
/// opener.
pub proof fn lemma_cut_top(frames: Seq<Frame>, extra: Seq<u8>)
    requires
        frames_ok(frames),
        sep_pos(frames) is None,
        frames.len() > 0,
    ensures
        ({
            let o = openers_of(frames).last().0;
            let out = (frames_text(frames) + extra).subrange(0, o) + closers(
                recovered(openers_of(frames), o),
            );
            if frames.len() == 1 {
                out == frames[0].lead()
            } else {
                wf(top_cut(frames)) && render(top_cut(frames)) == out
            }
        }),
{
    let front = frames.drop_last();
    let f = frames.last();
    let ft = frames_text(front);
    let p = frames_text(frames) + extra;
    let st = openers_of(frames);
    lemma_front_ok(frames);
    lemma_openers(frames);
    lemma_openers(front);
    lemma_no_sep(frames);
    let o = st.last().0;
    assert(recovered(st, o) == recovered(openers_of(front), o));
    assert(p.subrange(0, o) =~= ft + f.lead());
    if frames.len() == 1 {
        assert(ft =~= Seq::<u8>::empty());
        assert(openers_of(front) =~= Seq::<(int, CharType)>::empty());
        assert(closers(openers_of(front)) =~= Seq::<u8>::empty());
        assert(p.subrange(0, o) + closers(recovered(st, o)) =~= f.lead());
        assert(frames[0] == f);
    } else {
        lemma_no_sep(front);
        let parent = front.last();
        let front2 = front.drop_last();
        lemma_front_ok(front);
        lemma_openers(front2);
        let sf = openers_of(front);
        assert(sf.last().0 < o);
        assert(recovered(sf, o) == sf);
        lemma_emptied(parent, f.lead());
        lemma_close_frames(front2, emptied(parent, f.lead()));
        lemma_closers_push(openers_of(front2), sf.last());
        assert(sf =~= openers_of(front2).push(sf.last()));
        assert(ft =~= frames_text(front2) + parent.lead() + seq![parent.opener()]);
        assert(render(top_cut(frames)) =~= p.subrange(0, o) + closers(recovered(st, o)));
    }
}

/// A text that holds an opener behind white space.
pub open spec fn opens_behind(t: Seq<u8>) -> bool {
    exists|n: int|
        0 <= n < t.len() && is_space_text(#[trigger] t.take(n)) && (t[n] == 0x5b || t[n] == 0x7b)
}

/// Behind the last comma or colon of the frames, where the text of the
/// frames goes on, an opener follows behind white space.
pub proof fn lemma_after_sep(frames: Seq<Frame>)
    requires
        frames_ok(frames),
        sep_pos(frames) is Some,
        sep_pos(frames).unwrap() + 1 < frames_text(frames).len(),
    ensures
        opens_behind(
            frames_text(frames).subrange(
                sep_pos(frames).unwrap() + 1,
                frames_text(frames).len() as int,
            ),
        ),
    decreases frames.len(),
{
    let v = sep_pos(frames).unwrap();
    let front = frames.drop_last();
    let f = frames.last();
    let ft = frames_text(front);
    let all = frames_text(frames);
    lemma_front_ok(frames);
    lemma_comma_in_text(front);
    if f is Obj {
    } else if f.comma() is Some {
        assert(f.text() =~= f.text_before_comma() + seq![0x2cu8]);
    } else {
        assert(f.inner() =~= Seq::<u8>::empty());
        assert(f.text() =~= f.lead() + seq![f.opener()]);
        let rest = all.subrange(v + 1, all.len() as int);
        if v + 1 == ft.len() {
            let n = f.lead().len() as int;
            assert(rest =~= f.lead() + seq![f.opener()]);
            assert(rest.take(n) =~= f.lead());
        } else {
            lemma_after_sep(front);
            let r0 = ft.subrange(v + 1, ft.len() as int);
            let n = choose|n: int|
                0 <= n < r0.len() && is_space_text(#[trigger] r0.take(n)) && (r0[n] == 0x5b
                    || r0[n] == 0x7b);
            assert(rest =~= r0 + f.text());
            assert(rest.take(n) =~= r0.take(n));
            assert(rest[n] == r0[n]);
        }
    }
}

/// No value is read from a text that holds an opener behind white space.
pub proof fn lemma_no_value_behind(t: Seq<u8>, x: Seq<u8>, allow_string: bool, st: ParseSettings)
    requires
        opens_behind(t),
    ensures
        value_text(t + x, allow_string, st) is Err,
{
    let n = choose|n: int|
        0 <= n < t.len() && is_space_text(#[trigger] t.take(n)) && (t[n] == 0x5b || t[n] == 0x7b);
    let a = t.take(n);
    let r = t.subrange(n, t.len() as int) + x;
    assert(t + x =~= a + r);
    assert(r[0] == t[n]);
    assert(space_len(r, 0) == 0);
    lemma_space_run(a, r, 0);
    assert(skip_space(a + r) =~= r);
    lemma_no_value_at_opener(r, allow_string, st);
}

/// A JSON text, or the white space `lead`.
pub open spec fn fine(out: Seq<u8>, lead: Seq<u8>) -> bool {
    is_json(out) || out == lead
}

/// What is known of the scan of the frames with a quiet text behind them.
pub open spec fn frames_seen(frames: Seq<Frame>, sc: Scan) -> bool {
    &&& sc.run is Success
    &&& sc.stack == openers_of(frames)
    &&& sc.last_comma == comma_pos(frames)
    &&& (frames.len() > 0 && frames.last() is Obj ==> sc.last_colon == sep_pos(frames))
    &&& match sep_pos(frames) {
        None => sc.last_colon is None && sc.last_rbracket is None && sc.last_comma is None,
        Some(v) => {
            &&& 0 <= v < frames_text(frames).len()
            &&& (sc.last_colon matches Some(c) ==> c <= v)
            &&& (sc.last_comma matches Some(s) ==> s <= v)
            &&& (sc.last_rbracket matches Some(b) ==> b < v)
            &&& (sc.last_colon == Some(v) || sc.last_comma == Some(v))
        },
    }
}

/// The text cut back, with the containers closed that are open there, is
/// a JSON text, or the white space before the first opener.
pub proof fn lemma_cut_back_fine(frames: Seq<Frame>, t: Seq<u8>, sc: Scan)
    requires
        frames_ok(frames),
        frames.len() > 0,
        frames_seen(frames, sc),
        scan_wf(frames_text(frames) + t, (frames_text(frames) + t).len() as int, sc),
    ensures
        plan(sc) is Some,
        ({
            let p = frames_text(frames) + t;
            let b = cut_back(p, sc, plan(sc).unwrap());
            fine(b.text + closers(b.stack), frames[0].lead())
        }),
        match sep_pos(frames) {
            Some(v) => plan(sc).unwrap().valid_idx == v,
            None => plan(sc).unwrap().valid_idx == frames_text(frames).len() - 1 && (plan(
                sc,
            ).unwrap().key_only <==> frames.last().kind() == CharType::LCB),
        },
        sep_pos(frames) is Some && sc.last_comma == sep_pos(frames) ==> (plan(sc).unwrap().key_only
            <==> in_object(sc.stack, sep_pos(frames).unwrap())),
        sep_pos(frames) is Some && sc.last_comma != sep_pos(frames) ==> !plan(sc).unwrap().key_only,
{
    let ft = frames_text(frames);
    let p = ft + t;
    lemma_openers(frames);
    lemma_comma_in_text(frames);
    match sep_pos(frames) {
        None => {
            lemma_no_sep(frames);
            lemma_cut_top(frames, t);
            if frames.len() > 1 {
                lemma_is_json(top_cut(frames));
            }
        },
        Some(v) => {
            if sc.last_colon == Some(v) {
                assert(p[v] as char == ':');
                match sc.last_comma {
                    Some(s) => {
                        assert(p[s] as char == ',');
                        lemma_cut_comma(frames, t);
                        lemma_is_json(comma_cut(frames));
                    },
                    None => {
                        lemma_cut_colon(frames, t);
                        lemma_is_json(colon_cut(frames));
                    },
                }
            } else {
                if let Some(c) = sc.last_colon {
                    assert(c < v);
                }
                lemma_cut_comma(frames, t);
                lemma_is_json(comma_cut(frames));
            }
        },
    }
}

/// The amendment of a text that ends in a quiet text, inside the frames,
/// is a JSON text, or the white space before the first opener.
pub proof fn lemma_amend_text(frames: Seq<Frame>, t: Seq<u8>, sc: Scan, st: ParseSettings)
    requires
        frames_ok(frames),
        frames.len() > 0,
        frames_seen(frames, sc),
        scan_wf(frames_text(frames) + t, (frames_text(frames) + t).len() as int, sc),
    ensures
        amend_spec(frames_text(frames) + t, sc, st) matches Ok(out) ==> out.len() > 0 && fine(
            out,
            frames[0].lead(),
        ),
{
    let ft = frames_text(frames);
    let p = ft + t;
    lemma_openers(frames);
    lemma_comma_in_text(frames);
    lemma_cut_back_fine(frames, t, sc);
    lemma_front_ok(frames);
    let pl = plan(sc).unwrap();
    let v = pl.valid_idx;
    let rb = match sc.last_rbracket {
        Some(b) => b,
        None => v,
    };
    assert(rb <= v);
    let b = body(p, sc, st, pl);
    if b != cut_back(p, sc, pl) {
        // a value was read behind the last comma, colon or opener
        let rest = p.subrange(v + 1, p.len() as int);
        let tv = value_text(rest, true, st).unwrap();
        assert(b == Body { text: p.subrange(0, v + 1) + tv, stack: sc.stack });
        law_value_text_is_scalar(rest, true, st);
        lemma_scalar_of(tv);
        if v + 1 < ft.len() {
            lemma_after_sep(frames);
            lemma_no_value_behind(ft.subrange(v + 1, ft.len() as int), t, true, st);
            assert(rest =~= ft.subrange(v + 1, ft.len() as int) + t);
        }
        assert(v + 1 == ft.len());
        let f = frames.last();
        let front = frames.drop_last();
        lemma_comma_in_text(front);
        if f is Keys {
            if f.comma() is Some {
                assert(sc.stack.last().0 < v);
                assert(opener_before(sc.stack, v) == Some(sc.stack.last()));
            }
        }
        assert(!(f is Keys));
        lemma_close_frames(frames, scalar_of(tv));
        lemma_is_json(close_frames(frames, scalar_of(tv)));
        assert(p.subrange(0, v + 1) =~= ft);
    }
}

/// A container that starts before an offset is found where the outermost
/// one does.
pub proof fn lemma_opener_found(stack: Seq<(int, CharType)>, idx: int)
    requires
        stack.len() > 0,
        stack[0].0 < idx,
    ensures
        opener_before(stack, idx) is Some,
    decreases stack.len(),
{
    if stack.last().0 >= idx {
        assert(stack.drop_last()[0] == stack[0]);
        lemma_opener_found(stack.drop_last(), idx);
    }
}

/// The text of the frames starts with the text of the outermost.
pub proof fn lemma_first_frame(frames: Seq<Frame>)
    requires
        frames.len() > 0,
    ensures
        frames_text(frames).len() >= frames[0].text().len(),
        frames_text(frames).subrange(0, frames[0].text().len() as int) == frames[0].text(),
        openers_of(frames)[0].0 == frames[0].lead().len(),
    decreases frames.len(),
{
    let f = frames[0];
    if frames.len() == 1 {
        assert(frames.drop_last() =~= Seq::<Frame>::empty());
        assert(frames_text(frames.drop_last()) =~= Seq::<u8>::empty());
        assert(frames.last() == f);
        assert(frames_text(frames) =~= f.text());
        assert(frames_text(frames).subrange(0, f.text().len() as int) =~= f.text());
        assert(openers_of(frames.drop_last()) =~= Seq::<(int, CharType)>::empty());
    } else {
        let front = frames.drop_last();
        assert(front[0] == f);
        lemma_first_frame(front);
        lemma_openers(front);
        assert(frames_text(frames).subrange(0, f.text().len() as int) =~= frames_text(
            front,
        ).subrange(0, f.text().len() as int));
        assert(openers_of(frames)[0] == openers_of(front)[0]);
    }
}

/// What the scan holds of a text that ends behind an array or an object
/// that is complete, inside the frames.
pub open spec fn closed_seen(frames: Seq<Frame>, sc: Scan, last: int) -> bool {
    &&& sc.run is Success
    &&& sc.stack == openers_of(frames)
    &&& sc.last_rbracket == Some(last)
    &&& (sc.last_colon matches Some(c) ==> sc.stack[0].0 < c < last)
    &&& (sc.last_comma matches Some(s) ==> s < last)
}

/// The scan of a text that ends behind an array or an object that is
/// complete, inside the frames: what is open is what the frames hold open,
/// the closer of that array or object is the last closer, and the last
/// comma and colon stand before or at it.
pub proof fn lemma_closed_run(frames: Seq<Frame>, a: Seq<u8>, v: Json, b: Seq<u8>)
    requires
        frames_ok(frames),
        frames.len() > 0,
        is_space_text(a),
        wf(v),
        is_container(v),
        is_space_text(b),
    ensures
        ({
            let p = frames_text(frames) + (a + render(v) + b);
            let last = frames_text(frames).len() + a.len() + render(v).len() - 1;
            let sc = scan(p);
            &&& sc.run is Success
            &&& sc.stack == openers_of(frames)
            &&& sc.last_rbracket == Some(last)
            &&& (sc.last_colon matches Some(c) ==> c <= last)
            &&& (sc.last_comma matches Some(s) ==> s <= last)
            &&& 0 <= last < p.len()
            &&& classify_closer(p[last])
        }),
{
    let ft = frames_text(frames);
    let tail = a + render(v) + b;
    let p = ft + tail;
    let start = Scan::start();
    lemma_frames_scan(frames);
    let m = run(start, ft, 0);
    lemma_scan_is_run(p, p.len() as int);
    assert(p.take(p.len() as int) =~= p);
    lemma_run_concat(start, ft, tail, 0);
    let base = (ft.len() + a.len()) as int;
    lemma_space_plain(a);
    lemma_plain(m, a, ft.len() as int);
    lemma_run_concat(m, a, render(v), ft.len() as int);
    lemma_value(v, m, base);
    let m2 = run(m, render(v), base);
    assert(render(v).take(render(v).len() as int) =~= render(v));
    assert(crate::json::keeps(m, run(m, render(v).take(render(v).len() as int), base)));
    lemma_run_range(m, render(v), base);
    lemma_space_plain(b);
    lemma_plain(m2, b, base + render(v).len());
    lemma_run_concat(m, a + render(v), b, ft.len() as int);
    assert(scan(p) == m2);
    let last = base + render(v).len() - 1;
    assert(p[last] == render(v)[render(v).len() - 1]);
    assert(render(v)[render(v).len() - 1] == 0x5d || render(v)[render(v).len() - 1] == 0x7d);
}

/// Whether the byte is a closing bracket or brace.
pub open spec fn classify_closer(b: u8) -> bool {
    b == 0x5d || b == 0x7d
}

/// The scan of a text that ends behind an array or an object that is
/// complete, inside the frames: the closer of that array or object is the
/// last thing seen of the structure.
pub proof fn lemma_closed_scan(frames: Seq<Frame>, a: Seq<u8>, v: Json, b: Seq<u8>)
    requires
        frames_ok(frames),
        frames.len() > 0,
        is_space_text(a),
        wf(v),
        is_container(v),
        is_space_text(b),
    ensures
        ({
            let p = frames_text(frames) + (a + render(v) + b);
            closed_seen(frames, scan(p), frames_text(frames).len() + a.len() + render(v).len() - 1)
        }),
{
    let ft = frames_text(frames);
    let p = ft + (a + render(v) + b);
    let sc = scan(p);
    lemma_closed_run(frames, a, v, b);
    lemma_first_frame(frames);
    lemma_scan_wf(p, p.len() as int);
    lemma_openers(frames);
    if let Some(c) = sc.last_colon {
        assert(p[c] as char == ':');
        let f = frames[0];
        assert(f.ok());
        if c <= f.lead().len() {
            assert(p[c] == f.text()[c]) by {
                assert(ft.subrange(0, f.text().len() as int)[c] == ft[c]);
            }
            if c < f.lead().len() {
                assert(is_space_char(f.lead()[c] as char));
            }
        }
    }
    if let Some(s) = sc.last_comma {
        assert(p[s] as char == ',');
    }
}

/// The amendment of a text that ends behind an array or an object that is
/// complete, inside the frames, is a JSON text.
pub proof fn lemma_amend_closed(
    frames: Seq<Frame>,
    a: Seq<u8>,
    v: Json,
    b: Seq<u8>,
    st: ParseSettings,
)
    requires
        frames_ok(frames),
        frames.len() > 0,
        !(frames.last() is Keys),
        is_space_text(a),
        wf(v),
        is_container(v),
        is_space_text(b),
    ensures
        ({
            let p = frames_text(frames) + (a + render(v) + b);
            amend_spec(p, scan(p), st) matches Ok(out) ==> out.len() > 0 && is_json(out)
        }),
{
    let ft = frames_text(frames);
    let p = ft + (a + render(v) + b);
    let sc = scan(p);
    let last = ft.len() + a.len() + render(v).len() - 1;
    lemma_closed_scan(frames, a, v, b);
    lemma_openers(frames);
    lemma_first_frame(frames);
    if let Some(c) = sc.last_colon {
        lemma_opener_found(sc.stack, c);
    }
    let pl = plan(sc).unwrap();
    assert(pl.valid_idx < last);
    let bd = body(p, sc, st, pl);
    assert(bd == Body { text: p.subrange(0, last + 1), stack: sc.stack });
    let x = Json::Padded(a, Box::new(v), Seq::empty());
    assert(is_space_text(Seq::<u8>::empty()));
    assert(wf(x));
    assert(render(x) =~= a + render(v));
    lemma_close_frames(frames, x);
    lemma_is_json(close_frames(frames, x));
    assert(p.subrange(0, last + 1) =~= ft + render(x));
}

/// The amendment of a start of a JSON text in which containers are open is
/// a JSON text, or the white space before the first opener.
pub proof fn lemma_amend_frames(z: Prefix, st: ParseSettings)
    requires
        z.ok(),
        z.frames.len() > 0,
    ensures
        amend_spec(z.text(), scan(z.text()), st) matches Ok(out) ==> out.len() > 0 && fine(
            out,
            z.frames[0].lead(),
        ),
{
    let frames = z.frames;
    let ft = frames_text(frames);
    let p = z.text();
    match z.tail {
        Tail::Text(t) => {
            let start = Scan::start();
            lemma_frames_scan(frames);
            let m = run(start, ft, 0);
            lemma_scan_is_run(p, p.len() as int);
            assert(p.take(p.len() as int) =~= p);
            lemma_run_concat(start, ft, t, 0);
            let sc = scan(p);
            assert(still(m, sc));
            lemma_scan_wf(p, p.len() as int);
            lemma_amend_text(frames, t, sc, st);
        },
        Tail::Closed(a, v, b) => {
            lemma_amend_closed(frames, a, v, b, st);
        },
    }
}

/// The amendment of a start of a JSON text in which no container is open is
/// a JSON text.
pub proof fn lemma_amend_flat(z: Prefix, st: ParseSettings)
    requires
        z.ok(),
        z.frames.len() == 0,
    ensures
        amend_spec(z.text(), scan(z.text()), st) matches Ok(out) ==> is_json(out),
{
    let p = z.text();
    let start = Scan::start();
    assert(frames_text(z.frames) =~= Seq::<u8>::empty());
    lemma_scan_is_run(p, p.len() as int);
    assert(p.take(p.len() as int) =~= p);
    law_value_text_is_scalar(p, true, st);
    if let Ok(tv) = value_text(p, true, st) {
        lemma_scalar_of(tv);
        lemma_is_json(scalar_of(tv));
    }
    match z.tail {
        Tail::Text(t) => {
            assert(p =~= t);
            assert(still(start, run(start, t, 0)));
        },
        Tail::Closed(a, v, b) => {
            assert(p =~= a + render(v) + b);
            lemma_space_plain(a);
            lemma_plain(start, a, 0);
            lemma_value(v, start, a.len() as int);
            lemma_run_concat(start, a, render(v), 0);
            let m2 = run(start, a + render(v), 0);
            assert(render(v).take(render(v).len() as int) =~= render(v));
            assert(crate::json::keeps(
                start,
                run(start, render(v).take(render(v).len() as int), a.len() as int),
            ));
            lemma_space_plain(b);
            lemma_plain(m2, b, (a.len() + render(v).len()) as int);
            lemma_run_concat(start, a + render(v), b, 0);
            let x = Json::Padded(a, Box::new(v), b);
            assert(wf(x));
            lemma_is_json(x);
        },
    }
}

/// Whatever the settings, where the completion of a start of a JSON text
/// succeeds, it gives a JSON text; or, where the JSON text starts with white
/// space and the start is cut back to the first opener, that white space.
pub proof fn law_completion_is_json_or_space(j: Json, i: int, st: ParseSettings)
    requires
        wf(j),
        0 < i <= render(j).len(),
    ensures
        complete_spec(render(j).take(i), st) matches Ok(out) ==> is_json(out) || (is_space_text(out)
            && 0 < out.len() < i && out == render(j).take(out.len() as int)),
{
    let p = render(j).take(i);
    lemma_zip(j, i);
    let z = zip(j, i);
    if z.frames.len() > 0 {
        lemma_first_frame(z.frames);
        let f = z.frames[0];
        assert(f.ok());
        lemma_amend_frames(z, st);
        let n = f.lead().len() as int;
        let ft = frames_text(z.frames);
        assert(p.len() == i);
        assert(p.len() >= ft.len());
        assert(p.take(n) =~= ft.subrange(0, f.text().len() as int).take(n));
        assert(f.text().take(n) =~= f.lead());
        assert(render(j).take(n) =~= p.take(n));
    } else {
        lemma_amend_flat(z, st);
    }
}

/// Whatever the settings, where the completion of a start of a JSON text
/// that does not start with white space succeeds, it gives a JSON text.
pub proof fn law_completion_is_json(j: Json, i: int, st: ParseSettings)
    requires
        wf(j),
        0 < i <= render(j).len(),
        !is_space_char(render(j)[0] as char),
    ensures
        complete_spec(render(j).take(i), st) matches Ok(out) ==> is_json(out),
{
    law_completion_is_json_or_space(j, i, st);
    if let Ok(out) = complete_spec(render(j).take(i), st) {
        if !is_json(out) {
            assert(out[0] == render(j).take(out.len() as int)[0]);
            assert(is_space_char(out[0] as char));
        }
    }
}

} // verus!
