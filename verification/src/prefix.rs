use crate::json::{
    is_space_text, key_ok, key_text, lemma_balanced_end, lemma_items, lemma_members, lemma_plain,
    lemma_run_concat, lemma_run_one, lemma_space_plain, ready, render_items, render_members, run,
    string_text, wf, Json, Key,
};
use crate::parser::CharType;
use crate::quiet::{calm, lemma_calm_concat, lemma_calm_space, lemma_string_quiet, still};
use crate::scan::Scan;
use vstd::prelude::*;

verus! {

/// A container that is open where a text ends, with what was read of it
/// before the item or member that the text ends in.
pub enum Frame {
    /// An array, with the items that are complete.
    Arr { lead: Seq<u8>, done: Seq<Json> },
    /// An object, with the members that are complete and the key of the
    /// member whose value is awaited.
    Obj { lead: Seq<u8>, keys: Seq<Key>, values: Seq<Json>, key: Key },
    /// An object in which a key is awaited, with the members that are
    /// complete.
    Keys { lead: Seq<u8>, keys: Seq<Key>, values: Seq<Json> },
}

/// The items of an array that another item follows.
pub open spec fn items_sep(done: Seq<Json>) -> Seq<u8> {
    if done.len() == 0 {
        Seq::empty()
    } else {
        render_items(done) + seq![0x2cu8]
    }
}

/// The members of an object that another member follows.
pub open spec fn members_sep(keys: Seq<Key>, values: Seq<Json>) -> Seq<u8> {
    if values.len() == 0 {
        Seq::empty()
    } else {
        render_members(keys, values) + seq![0x2cu8]
    }
}

impl Frame {
    /// The white space before the opener.
    pub open spec fn lead(self) -> Seq<u8> {
        match self {
            Frame::Arr { lead, .. } => lead,
            Frame::Obj { lead, .. } => lead,
            Frame::Keys { lead, .. } => lead,
        }
    }

    /// The category of the opener.
    pub open spec fn kind(self) -> CharType {
        match self {
            Frame::Arr { .. } => CharType::LFB,
            _ => CharType::LCB,
        }
    }

    /// The opener.
    pub open spec fn opener(self) -> u8 {
        match self {
            Frame::Arr { .. } => 0x5bu8,
            _ => 0x7bu8,
        }
    }

    /// What was read behind the opener.
    pub open spec fn inner(self) -> Seq<u8> {
        match self {
            Frame::Arr { done, .. } => items_sep(done),
            Frame::Obj { keys, values, key, .. } => members_sep(keys, values) + key_text(key)
                + seq![0x3au8],
            Frame::Keys { keys, values, .. } => members_sep(keys, values),
        }
    }

    /// The text of the frame.
    pub open spec fn text(self) -> Seq<u8> {
        self.lead() + seq![self.opener()] + self.inner()
    }

    /// Whether the frame is well formed.
    pub open spec fn ok(self) -> bool {
        match self {
            Frame::Arr { lead, done } => is_space_text(lead) && forall|i: int|
                0 <= i < done.len() ==> wf(#[trigger] done[i]),
            Frame::Obj { lead, keys, values, key } => is_space_text(lead) && keys.len()
                == values.len() && key_ok(key) && (forall|i: int|
                0 <= i < keys.len() ==> key_ok(#[trigger] keys[i])) && (forall|i: int|
                0 <= i < values.len() ==> wf(#[trigger] values[i])),
            Frame::Keys { lead, keys, values } => is_space_text(lead) && keys.len() == values.len()
                && (forall|i: int| 0 <= i < keys.len() ==> key_ok(#[trigger] keys[i])) && (
            forall|i: int| 0 <= i < values.len() ==> wf(#[trigger] values[i])),
        }
    }

    /// How many items or members are complete.
    pub open spec fn count(self) -> nat {
        match self {
            Frame::Arr { done, .. } => done.len(),
            Frame::Obj { values, .. } => values.len(),
            Frame::Keys { values, .. } => values.len(),
        }
    }

    /// The text of the frame up to its last comma, the comma left out.
    pub open spec fn text_before_comma(self) -> Seq<u8> {
        self.lead() + seq![self.opener()] + match self {
            Frame::Arr { done, .. } => render_items(done),
            Frame::Obj { keys, values, .. } => render_members(keys, values),
            Frame::Keys { keys, values, .. } => render_members(keys, values),
        }
    }

    /// The offset in the text of the frame of its last comma, where items or
    /// members are complete.
    pub open spec fn comma(self) -> Option<int> {
        if self.count() == 0 {
            None
        } else {
            Some(self.text_before_comma().len() as int)
        }
    }
}

/// The text of the frames, the outermost first.
pub open spec fn frames_text(frames: Seq<Frame>) -> Seq<u8>
    decreases frames.len(),
{
    if frames.len() == 0 {
        Seq::empty()
    } else {
        frames_text(frames.drop_last()) + frames.last().text()
    }
}

/// The open containers of the frames, each with the offset of its opener.
pub open spec fn openers_of(frames: Seq<Frame>) -> Seq<(int, CharType)>
    decreases frames.len(),
{
    if frames.len() == 0 {
        Seq::empty()
    } else {
        openers_of(frames.drop_last()).push(
            (
                (frames_text(frames.drop_last()).len() + frames.last().lead().len()) as int,
                frames.last().kind(),
            ),
        )
    }
}

/// The offset of the last comma that belongs to a frame.
pub open spec fn comma_pos(frames: Seq<Frame>) -> Option<int>
    decreases frames.len(),
{
    if frames.len() == 0 {
        None
    } else {
        match frames.last().comma() {
            Some(c) => Some(frames_text(frames.drop_last()).len() + c),
            None => comma_pos(frames.drop_last()),
        }
    }
}

/// The offset of the last comma or colon that belongs to a frame.
pub open spec fn sep_pos(frames: Seq<Frame>) -> Option<int>
    decreases frames.len(),
{
    if frames.len() == 0 {
        None
    } else if frames.last() is Obj {
        Some(frames_text(frames).len() - 1)
    } else {
        match frames.last().comma() {
            Some(c) => Some(frames_text(frames.drop_last()).len() + c),
            None => sep_pos(frames.drop_last()),
        }
    }
}

/// Whether the frames are well formed; only the innermost may wait for a
/// key.
pub open spec fn frames_ok(frames: Seq<Frame>) -> bool {
    &&& forall|i: int| 0 <= i < frames.len() ==> (#[trigger] frames[i]).ok()
    &&& forall|i: int| 0 <= i < frames.len() - 1 ==> !((#[trigger] frames[i]) is Keys)
}

/// Every offset that the scan holds lies before `end`.
pub open spec fn before(sc: Scan, end: int) -> bool {
    &&& (sc.last_comma matches Some(p) ==> 0 <= p < end)
    &&& (sc.last_colon matches Some(p) ==> 0 <= p < end)
    &&& (sc.last_rbracket matches Some(p) ==> 0 <= p < end)
}

/// Whatever is read, an offset that the scan holds afterwards is one it held
/// before or one of what was read.
pub proof fn lemma_run_range(sc: Scan, t: Seq<u8>, base: int)
    ensures
        ({
            let m = run(sc, t, base);
            &&& (m.last_comma == sc.last_comma || (m.last_comma matches Some(p) && base <= p < base
                + t.len()))
            &&& (m.last_colon == sc.last_colon || (m.last_colon matches Some(p) && base <= p < base
                + t.len()))
            &&& (m.last_rbracket == sc.last_rbracket || (m.last_rbracket matches Some(p) && base
                <= p < base + t.len()))
        }),
    decreases t.len(),
{
    if t.len() > 0 {
        lemma_run_range(sc, t.drop_last(), base);
    }
}

/// What the scan of the frames holds: the openers of the frames on its
/// stack; the last comma of the frames; and no comma, colon or closer behind
/// the last comma or colon that belongs to a frame.
pub open spec fn frames_scan(frames: Seq<Frame>, m: Scan) -> bool {
    &&& ready(m)
    &&& m.run is Success
    &&& m.stack == openers_of(frames)
    &&& m.last_comma == comma_pos(frames)
    &&& before(m, frames_text(frames).len() as int)
    &&& (frames.len() > 0 && frames.last() is Obj ==> m.last_colon == sep_pos(frames))
    &&& match sep_pos(frames) {
        None => m.last_colon is None && m.last_rbracket is None && m.last_comma is None,
        Some(v) => {
            &&& 0 <= v < frames_text(frames).len()
            &&& (m.last_colon matches Some(c) ==> c <= v)
            &&& (m.last_comma matches Some(s) ==> s <= v)
            &&& (m.last_rbracket matches Some(b) ==> b < v)
            &&& (m.last_colon == Some(v) || m.last_comma == Some(v))
        },
    }
}

/// The key of a member is calm: nothing of the structure stands in it.
pub proof fn lemma_key_calm(k: Key)
    requires
        key_ok(k),
    ensures
        calm(key_text(k)),
{
    lemma_calm_space(k.before);
    lemma_calm_space(k.after);
    lemma_string_quiet(k.body, 0);
    lemma_calm_concat(k.before, string_text(k.body));
    lemma_calm_concat(k.before + string_text(k.body), k.after);
}

/// Reading one byte that is a comma, outside strings.
pub proof fn lemma_comma_step(sc: Scan, base: int)
    requires
        ready(sc),
    ensures
        run(sc, seq![0x2cu8], base) == (Scan { last_comma: Some(base), ..sc }),
{
    lemma_run_one(sc, 0x2cu8, base);
}

/// Reading one byte that is a colon, outside strings.
pub proof fn lemma_colon_step(sc: Scan, base: int)
    requires
        ready(sc),
    ensures
        run(sc, seq![0x3au8], base) == (Scan { last_colon: Some(base), ..sc }),
{
    lemma_run_one(sc, 0x3au8, base);
}

/// What reading a frame does to the scan.
pub open spec fn frame_scan(f: Frame, sc: Scan, base: int, m: Scan) -> bool {
    let end = base + f.text().len();
    &&& ready(m)
    &&& m.run == sc.run
    &&& m.stack == sc.stack.push((base + f.lead().len(), f.kind()))
    &&& m.last_comma == match f.comma() {
        Some(c) => Some(base + c),
        None => sc.last_comma,
    }
    &&& (f is Obj ==> m.last_colon == Some(end - 1) && (f.comma() matches Some(c) ==> base + c
        < end - 1))
    &&& (!(f is Obj) ==> (m.last_colon == sc.last_colon || (m.last_colon matches Some(p)
        && f.comma() matches Some(c) && base <= p < base + c)))
    &&& (m.last_rbracket == sc.last_rbracket || (m.last_rbracket matches Some(p)
        && f.comma() matches Some(c) && base <= p < base + c))
    &&& (!(f is Obj) ==> (f.comma() matches Some(c) ==> base + c == end - 1))
    &&& base + f.lead().len() < end
    &&& (f.comma() matches Some(c) ==> f.lead().len() < c < f.text().len())
}

/// The scan of the text of a frame.
pub proof fn lemma_frame_scan(f: Frame, sc: Scan, base: int)
    requires
        f.ok(),
        ready(sc),
    ensures
        frame_scan(f, sc, base, run(sc, f.text(), base)),
{
    let lead = f.lead();
    let o = base + lead.len();
    lemma_space_plain(lead);
    lemma_plain(sc, lead, base);
    let s1 = sc.step(o, f.opener());
    lemma_run_one(sc, f.opener(), o);
    assert(s1 == Scan { stack: sc.stack.push((o, f.kind())), ..sc });
    let head = lead + seq![f.opener()];
    lemma_run_concat(sc, lead, seq![f.opener()], base);
    assert(run(sc, head, base) == s1);
    lemma_run_concat(sc, head, f.inner(), base);
    let b1 = o + 1;
    match f {
        Frame::Arr { lead, done } => {
            if done.len() == 0 {
                assert(f.inner() =~= Seq::<u8>::empty());
            } else {
                let t = render_items(done);
                lemma_items(done, s1, b1);
                lemma_balanced_end(s1, t, b1);
                lemma_run_range(s1, t, b1);
                let s2 = run(s1, t, b1);
                lemma_comma_step(s2, b1 + t.len());
                lemma_run_concat(s1, t, seq![0x2cu8], b1);
                assert(f.text_before_comma() =~= head + t);
            }
        },
        Frame::Obj { lead, keys, values, key } => {
            let ms = members_sep(keys, values);
            let s3 = run(s1, ms, b1);
            if values.len() == 0 {
                assert(ms =~= Seq::<u8>::empty());
                assert(f.text_before_comma() =~= head);
            } else {
                let t = render_members(keys, values);
                lemma_members(keys, values, s1, b1);
                lemma_balanced_end(s1, t, b1);
                lemma_run_range(s1, t, b1);
                let s2 = run(s1, t, b1);
                lemma_comma_step(s2, b1 + t.len());
                lemma_run_concat(s1, t, seq![0x2cu8], b1);
                assert(f.text_before_comma() =~= head + t);
            }
            lemma_key_calm(key);
            let kt = key_text(key);
            let s4 = run(s3, kt, b1 + ms.len());
            assert(still(s3, s4) && ready(s4));
            lemma_colon_step(s4, b1 + ms.len() + kt.len());
            lemma_run_concat(s1, ms, kt, b1);
            lemma_run_concat(s1, ms + kt, seq![0x3au8], b1);
        },
        Frame::Keys { lead, keys, values } => {
            if values.len() == 0 {
                assert(f.inner() =~= Seq::<u8>::empty());
            } else {
                let t = render_members(keys, values);
                lemma_members(keys, values, s1, b1);
                lemma_balanced_end(s1, t, b1);
                lemma_run_range(s1, t, b1);
                let s2 = run(s1, t, b1);
                lemma_comma_step(s2, b1 + t.len());
                lemma_run_concat(s1, t, seq![0x2cu8], b1);
                assert(f.text_before_comma() =~= head + t);
            }
        },
    }
}

/// The scan of the text of the frames.
pub proof fn lemma_frames_scan(frames: Seq<Frame>)
    requires
        frames_ok(frames),
    ensures
        frames_scan(frames, run(Scan::start(), frames_text(frames), 0)),
    decreases frames.len(),
{
    if frames.len() > 0 {
        let front = frames.drop_last();
        let f = frames.last();
        assert(frames_ok(front)) by {
            assert forall|i: int| 0 <= i < front.len() implies (#[trigger] front[i]).ok() by {
                assert(front[i] == frames[i]);
            }
            assert forall|i: int| 0 <= i < front.len() - 1 implies !((#[trigger] front[i])
                is Keys) by {
                assert(front[i] == frames[i]);
            }
        }
        lemma_frames_scan(front);
        let ft = frames_text(front);
        let sc = run(Scan::start(), ft, 0);
        assert(f == frames[frames.len() - 1]);
        lemma_frame_scan(f, sc, ft.len() as int);
        lemma_run_concat(Scan::start(), ft, f.text(), 0);
    }
}

} // verus!
