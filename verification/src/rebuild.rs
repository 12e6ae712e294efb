use crate::amend::{closer_of, closers, closers_upto};
use crate::json::{
    is_space_text, key_ok, member_text, render, render_items, render_members, wf, Json,
};
use crate::parser::CharType;
use crate::prefix::{frames_ok, frames_text, items_sep, members_sep, openers_of, Frame};
use crate::text::lemma_encode_ascii;
use crate::zipper::lemma_members_keys;
use vstd::prelude::*;
use vstd::utf8::*;

verus! {

/// The closer of a container of kind `kind`.
pub open spec fn closer_byte(kind: CharType) -> Seq<u8> {
    if kind == CharType::LFB {
        seq![0x5du8]
    } else {
        seq![0x7du8]
    }
}

/// The bytes of the closer of a container.
pub proof fn lemma_closer_of(kind: CharType)
    requires
        kind.is_opener(),
    ensures
        closer_of(kind) == closer_byte(kind),
{
    lemma_encode_ascii(seq![']']);
    lemma_encode_ascii(seq!['}']);
    assert(closer_of(kind) =~= closer_byte(kind));
}

/// One more container on the stack does not change the closers of those
/// below it.
pub proof fn lemma_closers_upto_push(stack: Seq<(int, CharType)>, e: (int, CharType), k: int)
    requires
        0 <= k <= stack.len(),
    ensures
        closers_upto(stack.push(e), k) == closers_upto(stack, k),
    decreases k,
{
    if k > 0 {
        lemma_closers_upto_push(stack, e, k - 1);
        assert(stack.push(e)[k - 1] == stack[k - 1]);
    }
}

/// The closers of a stack with one more container open: the closer of that
/// one, then the others.
pub proof fn lemma_closers_push(stack: Seq<(int, CharType)>, e: (int, CharType))
    requires
        e.1.is_opener(),
    ensures
        closers(stack.push(e)) == closer_byte(e.1) + closers(stack),
{
    lemma_closer_of(e.1);
    lemma_closers_upto_push(stack, e, stack.len() as int);
    assert(stack.push(e)[stack.len() as int] == e);
}

/// The container of the frame with the items or members that are complete,
/// and nothing more.
pub open spec fn shut(f: Frame) -> Json {
    match f {
        Frame::Arr { lead, done } => Json::Padded(
            lead,
            Box::new(Json::Array(Seq::empty(), done)),
            Seq::empty(),
        ),
        Frame::Obj { lead, keys, values, .. } => Json::Padded(
            lead,
            Box::new(Json::Object(Seq::empty(), keys, values)),
            Seq::empty(),
        ),
        Frame::Keys { lead, keys, values } => Json::Padded(
            lead,
            Box::new(Json::Object(Seq::empty(), keys, values)),
            Seq::empty(),
        ),
    }
}

/// The container of the frame with nothing in it but the white space `ws`.
pub open spec fn emptied(f: Frame, ws: Seq<u8>) -> Json {
    match f {
        Frame::Arr { lead, .. } => Json::Padded(
            lead,
            Box::new(Json::Array(ws, Seq::empty())),
            Seq::empty(),
        ),
        Frame::Obj { lead, .. } => Json::Padded(
            lead,
            Box::new(Json::Object(ws, Seq::empty(), Seq::empty())),
            Seq::empty(),
        ),
        Frame::Keys { lead, .. } => Json::Padded(
            lead,
            Box::new(Json::Object(ws, Seq::empty(), Seq::empty())),
            Seq::empty(),
        ),
    }
}

/// The container of the frame with `x` as the item, or as the value of the
/// member, that the frame waits for.
pub open spec fn close_frame(f: Frame, x: Json) -> Json {
    match f {
        Frame::Arr { lead, done } => Json::Padded(
            lead,
            Box::new(Json::Array(Seq::empty(), done.push(x))),
            Seq::empty(),
        ),
        Frame::Obj { lead, keys, values, key } => Json::Padded(
            lead,
            Box::new(Json::Object(Seq::empty(), keys.push(key), values.push(x))),
            Seq::empty(),
        ),
        Frame::Keys { .. } => shut(f),
    }
}

/// The tree of the frames with `x` where the innermost frame waits for a
/// value.
pub open spec fn close_frames(frames: Seq<Frame>, x: Json) -> Json
    decreases frames.len(),
{
    if frames.len() == 0 {
        x
    } else {
        close_frames(frames.drop_last(), close_frame(frames.last(), x))
    }
}

/// The text of a frame that is shut: its text before the comma, and its
/// closer.
pub proof fn lemma_shut(f: Frame)
    requires
        f.ok(),
    ensures
        wf(shut(f)),
        render(shut(f)) == f.text_before_comma() + closer_byte(f.kind()),
{
    let none = Seq::<u8>::empty();
    assert(is_space_text(none));
    reveal_with_fuel(render, 3);
    reveal_with_fuel(wf, 3);
    match f {
        Frame::Arr { lead, done } => {
            assert(render_items(done) =~= if done.len() == 0 {
                none
            } else {
                render_items(done)
            });
            assert(render(shut(f)) =~= f.text_before_comma() + closer_byte(f.kind()));
        },
        Frame::Obj { lead, keys, values, key } => {
            assert(render(shut(f)) =~= f.text_before_comma() + closer_byte(f.kind()));
        },
        Frame::Keys { lead, keys, values } => {
            assert(render(shut(f)) =~= f.text_before_comma() + closer_byte(f.kind()));
        },
    }
}

/// The text of a frame that is emptied: its opener, the white space, and
/// its closer.
pub proof fn lemma_emptied(f: Frame, ws: Seq<u8>)
    requires
        f.ok(),
        is_space_text(ws),
    ensures
        wf(emptied(f, ws)),
        render(emptied(f, ws)) == f.lead() + seq![f.opener()] + ws + closer_byte(f.kind()),
{
    let none = Seq::<u8>::empty();
    assert(is_space_text(none));
    reveal_with_fuel(render, 3);
    reveal_with_fuel(wf, 3);
    assert(render(emptied(f, ws)) =~= f.lead() + seq![f.opener()] + ws + closer_byte(f.kind()));
}

/// The text of a frame with `x` in it: the text of the frame, of `x`, and
/// the closer.
pub proof fn lemma_close_frame(f: Frame, x: Json)
    requires
        f.ok(),
        !(f is Keys),
        wf(x),
    ensures
        wf(close_frame(f, x)),
        render(close_frame(f, x)) == f.text() + render(x) + closer_byte(f.kind()),
{
    let none = Seq::<u8>::empty();
    assert(is_space_text(none));
    reveal_with_fuel(render, 3);
    reveal_with_fuel(wf, 3);
    match f {
        Frame::Arr { lead, done } => {
            let items = done.push(x);
            assert(items.drop_last() =~= done);
            assert(items.last() == x);
            assert forall|i: int| 0 <= i < items.len() implies wf(#[trigger] items[i]) by {
                if i < done.len() {
                    assert(items[i] == done[i]);
                }
            }
            assert(render_items(items) =~= items_sep(done) + render(x));
            assert(render(close_frame(f, x)) =~= f.text() + render(x) + closer_byte(f.kind()));
        },
        Frame::Obj { lead, keys, values, key } => {
            let ks = keys.push(key);
            let vs = values.push(x);
            assert(vs.drop_last() =~= values);
            assert(vs.last() == x);
            assert(ks[vs.len() - 1] == key);
            assert forall|i: int| 0 <= i < ks.len() implies key_ok(#[trigger] ks[i]) by {
                if i < keys.len() {
                    assert(ks[i] == keys[i]);
                }
            }
            assert forall|i: int| 0 <= i < vs.len() implies wf(#[trigger] vs[i]) by {
                if i < values.len() {
                    assert(vs[i] == values[i]);
                }
            }
            lemma_members_keys(ks, keys, values);
            assert(render_members(ks, vs) =~= members_sep(keys, values) + member_text(
                key,
                render(x),
            ));
            assert(render(close_frame(f, x)) =~= f.text() + render(x) + closer_byte(f.kind()));
        },
        Frame::Keys { .. } => {},
    }
}

/// The tree of the frames with `x` in the innermost: its text is the text of
/// the frames, the text of `x`, and the closers of the frames.
pub proof fn lemma_close_frames(frames: Seq<Frame>, x: Json)
    requires
        frames_ok(frames),
        frames.len() > 0 ==> !(frames.last() is Keys),
        wf(x),
    ensures
        wf(close_frames(frames, x)),
        render(close_frames(frames, x)) == frames_text(frames) + render(x) + closers(
            openers_of(frames),
        ),
    decreases frames.len(),
{
    if frames.len() == 0 {
        assert(frames_text(frames) + render(x) + closers(openers_of(frames)) =~= render(x));
    } else {
        let front = frames.drop_last();
        let f = frames.last();
        assert(f == frames[frames.len() - 1]);
        assert(f.ok());
        lemma_close_frame(f, x);
        let y = close_frame(f, x);
        assert(frames_ok(front) && (front.len() > 0 ==> !(front.last() is Keys))) by {
            assert forall|i: int| 0 <= i < front.len() implies (#[trigger] front[i]).ok() && !(
            front[i] is Keys) by {
                assert(front[i] == frames[i]);
            }
        }
        lemma_close_frames(front, y);
        lemma_closers_push(
            openers_of(front),
            ((frames_text(front).len() + f.lead().len()) as int, f.kind()),
        );
        assert(render(close_frames(frames, x)) =~= frames_text(frames) + render(x) + closers(
            openers_of(frames),
        ));
    }
}

} // verus!
