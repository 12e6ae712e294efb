use crate::json::{
    is_container, is_space_text, key_ok, key_text, lemma_number_plain, lemma_word_plain,
    member_text, render, render_items, render_members, string_text, wf, Json, Key,
};
use crate::prefix::{frames_ok, frames_text, lemma_key_calm, members_sep, Frame};
use crate::quiet::{
    calm, lemma_calm_concat, lemma_calm_plain, lemma_calm_space, lemma_plain_prefix,
    lemma_quiet_concat, lemma_string_quiet, quiet,
};
use vstd::prelude::*;

verus! {

/// What a text ends in, behind the frames.
pub enum Tail {
    /// A text that holds nothing of the structure: white space, a keyword,
    /// a number or a string, or a start of one.
    Text(Seq<u8>),
    /// An array or an object that is complete, with the white space around
    /// it.
    Closed(Seq<u8>, Json, Seq<u8>),
}

impl Tail {
    /// The text.
    pub open spec fn text(self) -> Seq<u8> {
        match self {
            Tail::Text(t) => t,
            Tail::Closed(a, v, b) => a + render(v) + b,
        }
    }

    /// Whether it is well formed.
    pub open spec fn ok(self) -> bool {
        match self {
            Tail::Text(t) => quiet(t),
            Tail::Closed(a, v, b) => is_space_text(a) && wf(v) && is_container(v) && is_space_text(
                b,
            ),
        }
    }
}

/// A start of a JSON text: the containers that are open where it ends, and
/// what it ends in.
pub struct Prefix {
    pub frames: Seq<Frame>,
    pub tail: Tail,
}

impl Prefix {
    /// The text.
    pub open spec fn text(self) -> Seq<u8> {
        frames_text(self.frames) + self.tail.text()
    }

    /// Whether it is well formed.
    pub open spec fn ok(self) -> bool {
        &&& frames_ok(self.frames)
        &&& self.tail.ok()
        &&& (self.tail is Closed && self.frames.len() > 0 ==> !(self.frames.last() is Keys))
    }
}

/// Whether the tail is a calm text.
pub open spec fn calm_text(tail: Tail) -> bool {
    match tail {
        Tail::Text(t) => calm(t),
        _ => false,
    }
}

/// The frame with the white space `lead` before its opener.
pub open spec fn set_lead(f: Frame, lead: Seq<u8>) -> Frame {
    match f {
        Frame::Arr { done, .. } => Frame::Arr { lead: lead, done: done },
        Frame::Obj { keys, values, key, .. } => Frame::Obj {
            lead: lead,
            keys: keys,
            values: values,
            key: key,
        },
        Frame::Keys { keys, values, .. } => Frame::Keys { lead: lead, keys: keys, values: values },
    }
}

/// The prefix with the white space `a` before it.
pub open spec fn with_lead(z: Prefix, a: Seq<u8>) -> Prefix {
    if z.frames.len() > 0 {
        Prefix { frames: z.frames.update(0, set_lead(z.frames[0], a + z.frames[0].lead())), ..z }
    } else {
        match z.tail {
            Tail::Text(t) => Prefix { tail: Tail::Text(a + t), ..z },
            Tail::Closed(a2, v, b2) => Prefix { tail: Tail::Closed(a + a2, v, b2), ..z },
        }
    }
}

/// The prefix of a complete value with the white space `b` behind it.
pub open spec fn with_trail(z: Prefix, b: Seq<u8>) -> Prefix {
    match z.tail {
        Tail::Text(t) => Prefix { tail: Tail::Text(t + b), ..z },
        Tail::Closed(a2, v, b2) => Prefix { tail: Tail::Closed(a2, v, b2 + b), ..z },
    }
}

/// The prefix inside the frame `f`.
pub open spec fn under(f: Frame, z: Prefix) -> Prefix {
    Prefix { frames: seq![f] + z.frames, ..z }
}

/// The frame of an array with the items `done`, and no white space before
/// its opener.
pub open spec fn arr_frame(done: Seq<Json>) -> Frame {
    Frame::Arr { lead: Seq::empty(), done: done }
}

/// The start of length `k` of the text of `j`, as a prefix.
pub open spec fn zip(j: Json, k: int) -> Prefix
    decreases j, 0int,
{
    match j {
        Json::Padded(a, v, b) => {
            let n = render(*v).len();
            if k <= a.len() {
                Prefix { frames: Seq::empty(), tail: Tail::Text(a.take(k)) }
            } else if k <= a.len() + n {
                with_lead(zip(*v, k - a.len()), a)
            } else {
                with_trail(with_lead(zip(*v, n as int), a), b.take(k - a.len() - n))
            }
        },
        Json::Array(ws, items) => {
            if k <= 0 {
                Prefix { frames: Seq::empty(), tail: Tail::Text(Seq::empty()) }
            } else if k >= render(j).len() {
                Prefix { frames: Seq::empty(), tail: Tail::Closed(Seq::empty(), j, Seq::empty()) }
            } else if items.len() == 0 {
                Prefix { frames: seq![arr_frame(Seq::empty())], tail: Tail::Text(ws.take(k - 1)) }
            } else {
                zip_items(items, k - 1)
            }
        },
        Json::Object(ws, keys, values) => {
            if k <= 0 {
                Prefix { frames: Seq::empty(), tail: Tail::Text(Seq::empty()) }
            } else if k >= render(j).len() {
                Prefix { frames: Seq::empty(), tail: Tail::Closed(Seq::empty(), j, Seq::empty()) }
            } else if values.len() == 0 {
                Prefix {
                    frames: seq![
                        Frame::Keys { lead: Seq::empty(), keys: Seq::empty(), values: Seq::empty() },
                    ],
                    tail: Tail::Text(ws.take(k - 1)),
                }
            } else {
                zip_members(keys, values, k - 1)
            }
        },
        _ => Prefix { frames: Seq::empty(), tail: Tail::Text(render(j).take(k)) },
    }
}

/// The start of length `p` of the items of an array, as a prefix.
pub open spec fn zip_items(items: Seq<Json>, p: int) -> Prefix
    decreases items, 1int,
{
    if items.len() == 0 {
        Prefix { frames: Seq::empty(), tail: Tail::Text(Seq::empty()) }
    } else if items.len() == 1 {
        under(arr_frame(Seq::empty()), zip(items[0], p))
    } else {
        let front = items.drop_last();
        let n = render_items(front).len();
        if p <= n {
            zip_items(front, p)
        } else {
            under(arr_frame(front), zip(items.last(), p - n - 1))
        }
    }
}

/// The start of length `q` of one member, which follows the members
/// `values`, as a prefix.
pub open spec fn zip_member(keys: Seq<Key>, values: Seq<Json>, key: Key, value: Json, q: int) -> Prefix
    decreases value, 1int,
{
    let kt = key_text(key);
    if q <= kt.len() {
        Prefix {
            frames: seq![Frame::Keys { lead: Seq::empty(), keys: keys, values: values }],
            tail: Tail::Text(kt.take(q)),
        }
    } else {
        under(
            Frame::Obj { lead: Seq::empty(), keys: keys, values: values, key: key },
            zip(value, q - kt.len() - 1),
        )
    }
}

/// The start of length `p` of the members of an object, as a prefix.
pub open spec fn zip_members(keys: Seq<Key>, values: Seq<Json>, p: int) -> Prefix
    decreases values, 2int,
{
    if values.len() == 0 {
        Prefix { frames: Seq::empty(), tail: Tail::Text(Seq::empty()) }
    } else if values.len() == 1 {
        zip_member(Seq::empty(), Seq::empty(), keys[0], values[0], p)
    } else {
        let front = values.drop_last();
        let n = render_members(keys, front).len();
        if p <= n {
            zip_members(keys, front, p)
        } else {
            zip_member(
                keys.take(front.len() as int),
                front,
                keys[values.len() - 1],
                values.last(),
                p - n - 1,
            )
        }
    }
}

/// The text of frames with one more frame before them.
pub proof fn lemma_frames_text_front(f: Frame, frames: Seq<Frame>)
    ensures
        frames_text(seq![f] + frames) == f.text() + frames_text(frames),
    decreases frames.len(),
{
    let all = seq![f] + frames;
    if frames.len() == 0 {
        assert(all.drop_last() =~= Seq::<Frame>::empty());
        assert(all.last() == f);
        assert(frames_text(all.drop_last()) =~= Seq::<u8>::empty());
        assert(frames_text(frames) =~= Seq::<u8>::empty());
        assert(frames_text(all) =~= f.text());
        assert(f.text() + frames_text(frames) =~= f.text());
    } else {
        assert(all.drop_last() =~= seq![f] + frames.drop_last());
        assert(all.last() == frames.last());
        lemma_frames_text_front(f, frames.drop_last());
        assert(frames_text(all) =~= f.text() + frames_text(frames));
    }
}

/// The text of a prefix inside a frame: the text of the frame, then that
/// of the prefix.
pub proof fn lemma_under(f: Frame, z: Prefix)
    requires
        f.ok(),
        !(f is Keys),
        z.ok(),
    ensures
        under(f, z).text() == f.text() + z.text(),
        under(f, z).ok(),
{
    lemma_frames_text_front(f, z.frames);
    let fs = seq![f] + z.frames;
    assert(under(f, z).text() =~= f.text() + z.text());
    assert forall|i: int| 0 <= i < fs.len() implies (#[trigger] fs[i]).ok() by {
        if i > 0 {
            assert(fs[i] == z.frames[i - 1]);
        }
    }
    assert forall|i: int| 0 <= i < fs.len() - 1 implies !((#[trigger] fs[i]) is Keys) by {
        if i > 0 {
            assert(fs[i] == z.frames[i - 1]);
        }
    }
    if z.frames.len() > 0 {
        assert(fs.last() == z.frames.last());
    }
}

/// White space before the first frame stands before the text of the
/// frames.
pub proof fn lemma_frames_text_lead(frames: Seq<Frame>, a: Seq<u8>)
    requires
        frames.len() > 0,
    ensures
        frames_text(frames.update(0, set_lead(frames[0], a + frames[0].lead()))) == a + frames_text(
            frames,
        ),
    decreases frames.len(),
{
    let g = set_lead(frames[0], a + frames[0].lead());
    let fs = frames.update(0, g);
    assert(g.text() =~= a + frames[0].text());
    if frames.len() == 1 {
        assert(fs.drop_last() =~= Seq::<Frame>::empty());
        assert(frames.drop_last() =~= Seq::<Frame>::empty());
        assert(fs.last() == g);
        assert(frames.last() == frames[0]);
        assert(frames_text(fs.drop_last()) =~= Seq::<u8>::empty());
        assert(frames_text(frames.drop_last()) =~= Seq::<u8>::empty());
        assert(frames_text(fs) =~= g.text());
        assert(frames_text(frames) =~= frames[0].text());
    } else {
        lemma_frames_text_lead(frames.drop_last(), a);
        assert(fs.drop_last() =~= frames.drop_last().update(0, g));
        assert(fs.last() == frames.last());
        assert(frames_text(fs) =~= a + frames_text(frames));
    }
}

/// The text of a prefix with white space before it.
pub proof fn lemma_with_lead(z: Prefix, a: Seq<u8>)
    requires
        z.ok(),
        is_space_text(a),
    ensures
        with_lead(z, a).text() == a + z.text(),
        with_lead(z, a).ok(),
        with_lead(z, a).frames.len() == z.frames.len(),
        z.frames.len() == 0 && calm_text(z.tail) ==> calm_text(with_lead(z, a).tail),
        z.tail is Closed <==> with_lead(z, a).tail is Closed,
{
    lemma_calm_space(a);
    if z.frames.len() > 0 {
        lemma_frames_text_lead(z.frames, a);
        let g = set_lead(z.frames[0], a + z.frames[0].lead());
        let fs = z.frames.update(0, g);
        assert(with_lead(z, a).text() =~= a + z.text());
        assert(g.ok()) by {
            assert(z.frames[0].ok());
            assert forall|k: int| 0 <= k < (a + z.frames[0].lead()).len() implies crate::value_parser::is_space_char(
                #[trigger] (a + z.frames[0].lead())[k] as char,
            ) by {
                if k >= a.len() {
                    assert((a + z.frames[0].lead())[k] == z.frames[0].lead()[k - a.len()]);
                }
            }
        }
        assert forall|i: int| 0 <= i < fs.len() implies (#[trigger] fs[i]).ok() by {
            if i > 0 {
                assert(fs[i] == z.frames[i]);
            }
        }
        assert forall|i: int| 0 <= i < fs.len() - 1 implies !((#[trigger] fs[i]) is Keys) by {
            assert(!(z.frames[i] is Keys));
        }
        if z.frames.len() > 1 {
            assert(fs.last() == z.frames.last());
        }
    } else {
        assert(frames_text(z.frames) =~= Seq::<u8>::empty());
        match z.tail {
            Tail::Text(t) => {
                lemma_quiet_concat(a, t);
                if calm(t) {
                    lemma_calm_concat(a, t);
                }
                assert(with_lead(z, a).text() =~= a + z.text());
            },
            Tail::Closed(a2, v, b2) => {
                assert(with_lead(z, a).text() =~= a + z.text());
                assert forall|k: int| 0 <= k < (a + a2).len() implies crate::value_parser::is_space_char(
                    #[trigger] (a + a2)[k] as char,
                ) by {
                    if k >= a.len() {
                        assert((a + a2)[k] == a2[k - a.len()]);
                    }
                }
            },
        }
    }
}

/// The text of the prefix of a complete value with white space behind it.
pub proof fn lemma_with_trail(z: Prefix, b: Seq<u8>)
    requires
        z.ok(),
        z.frames.len() == 0,
        is_space_text(b),
        z.tail is Text ==> calm_text(z.tail),
    ensures
        with_trail(z, b).text() == z.text() + b,
        with_trail(z, b).ok(),
        with_trail(z, b).frames.len() == 0,
        with_trail(z, b).tail is Text ==> calm_text(with_trail(z, b).tail),
{
    lemma_calm_space(b);
    assert(frames_text(z.frames) =~= Seq::<u8>::empty());
    match z.tail {
        Tail::Text(t) => {
            lemma_calm_concat(t, b);
            assert(with_trail(z, b).text() =~= z.text() + b);
        },
        Tail::Closed(a2, v, b2) => {
            assert(with_trail(z, b).text() =~= z.text() + b);
            assert forall|k: int| 0 <= k < (b2 + b).len() implies crate::value_parser::is_space_char(
                #[trigger] (b2 + b)[k] as char,
            ) by {
                if k >= b2.len() {
                    assert((b2 + b)[k] == b[k - b2.len()]);
                }
            }
        },
    }
}

/// A start of white space is white space.
pub proof fn lemma_space_take(a: Seq<u8>, k: int)
    requires
        is_space_text(a),
        0 <= k <= a.len(),
    ensures
        is_space_text(a.take(k)),
        calm(a.take(k)),
{
    assert forall|i: int| 0 <= i < k implies crate::value_parser::is_space_char(
        #[trigger] a.take(k)[i] as char,
    ) by {
        assert(a.take(k)[i] == a[i]);
    }
    lemma_calm_space(a.take(k));
}

/// What `zip` makes of a start of the text of a tree: a prefix whose text
/// is that start.
pub open spec fn zipped(z: Prefix, t: Seq<u8>, k: int) -> bool {
    &&& z.ok()
    &&& z.text() == t.take(k)
    &&& (k == t.len() ==> z.frames.len() == 0 && (z.tail is Text ==> calm_text(z.tail)))
}

/// `zip` gives a well-formed prefix whose text is the start of the text of
/// the tree.
pub proof fn lemma_zip(j: Json, k: int)
    requires
        wf(j),
        0 <= k <= render(j).len(),
    ensures
        zipped(zip(j, k), render(j), k),
    decreases j, 0int,
{
    let t = render(j);
    let none = Seq::<Frame>::empty();
    assert(frames_text(none) =~= Seq::<u8>::empty());
    match j {
        Json::Padded(a, v, b) => {
            let x = render(*v);
            let n = x.len();
            if k <= a.len() {
                lemma_space_take(a, k);
                assert(t.take(k) =~= a.take(k));
                assert(zip(j, k).text() =~= a.take(k));
                if k == t.len() {
                    assert(a.take(k) =~= a);
                }
            } else if k <= a.len() + n {
                lemma_zip(*v, k - a.len());
                lemma_with_lead(zip(*v, k - a.len()), a);
                assert(t.take(k) =~= a + x.take(k - a.len()));
            } else {
                lemma_zip(*v, n as int);
                let z1 = with_lead(zip(*v, n as int), a);
                lemma_with_lead(zip(*v, n as int), a);
                let b1 = b.take(k - a.len() - n);
                lemma_space_take(b, k - a.len() - n);
                lemma_with_trail(z1, b1);
                assert(x.take(n as int) =~= x);
                assert(t.take(k) =~= a + x + b1);
            }
        },
        Json::Array(ws, items) => {
            if k <= 0 {
                crate::quiet::lemma_calm_plain(Seq::<u8>::empty());
                assert(t.take(k) =~= Seq::<u8>::empty());
                assert(zip(j, k).text() =~= Seq::<u8>::empty());
            } else if k >= t.len() {
                assert(t.take(k) =~= t);
                assert(zip(j, k).text() =~= t);
                assert(is_space_text(Seq::<u8>::empty()));
            } else if items.len() == 0 {
                lemma_space_take(ws, k - 1);
                let f = arr_frame(Seq::empty());
                assert(seq![f].drop_last() =~= none);
                assert(f.text() =~= seq![0x5bu8]);
                assert(frames_text(seq![f]) =~= seq![0x5bu8]);
                assert(t.take(k) =~= seq![0x5bu8] + ws.take(k - 1));
                assert(f.ok());
            } else {
                lemma_zip_items(items, k - 1);
                assert(t.take(k) =~= seq![0x5bu8] + render_items(items).take(k - 1));
            }
        },
        Json::Object(ws, keys, values) => {
            if k <= 0 {
                crate::quiet::lemma_calm_plain(Seq::<u8>::empty());
                assert(t.take(k) =~= Seq::<u8>::empty());
                assert(zip(j, k).text() =~= Seq::<u8>::empty());
            } else if k >= t.len() {
                assert(t.take(k) =~= t);
                assert(zip(j, k).text() =~= t);
                assert(is_space_text(Seq::<u8>::empty()));
            } else if values.len() == 0 {
                lemma_space_take(ws, k - 1);
                let f = Frame::Keys {
                    lead: Seq::empty(),
                    keys: Seq::empty(),
                    values: Seq::empty(),
                };
                assert(seq![f].drop_last() =~= none);
                assert(f.text() =~= seq![0x7bu8]);
                assert(frames_text(seq![f]) =~= seq![0x7bu8]);
                assert(t.take(k) =~= seq![0x7bu8] + ws.take(k - 1));
                assert(f.ok());
            } else {
                lemma_zip_members(keys, values, k - 1);
                assert(t.take(k) =~= seq![0x7bu8] + render_members(keys, values).take(k - 1));
            }
        },
        Json::Word(w) => {
            lemma_word_plain(w);
            lemma_plain_prefix(w, k);
            assert(zip(j, k).text() =~= w.take(k));
            if k == t.len() {
                assert(w.take(k) =~= w);
            }
        },
        Json::Number(n) => {
            lemma_number_plain(n);
            lemma_plain_prefix(n, k);
            assert(zip(j, k).text() =~= n.take(k));
            if k == t.len() {
                assert(n.take(k) =~= n);
            }
        },
        Json::Str(b) => {
            lemma_string_quiet(b, k);
            assert(zip(j, k).text() =~= t.take(k));
            if k == t.len() {
                assert(t.take(k) =~= t);
            }
        },
    }
}

/// What `zip_items` makes of a start of the items of an array: a prefix
/// whose text, behind the opener of the array, is that start.
pub proof fn lemma_zip_items(items: Seq<Json>, p: int)
    requires
        items.len() > 0,
        forall|i: int| 0 <= i < items.len() ==> wf(#[trigger] items[i]),
        0 <= p <= render_items(items).len(),
    ensures
        zip_items(items, p).ok(),
        zip_items(items, p).text() == seq![0x5bu8] + render_items(items).take(p),
        zip_items(items, p).frames.len() > 0,
        zip_items(items, p).tail is Closed ==> !(zip_items(items, p).frames.last() is Keys),
    decreases items, 1int,
{
    if items.len() == 1 {
        let f = arr_frame(Seq::empty());
        lemma_zip(items[0], p);
        assert(f.ok());
        lemma_under(f, zip(items[0], p));
        assert(f.text() =~= seq![0x5bu8]);
    } else {
        let front = items.drop_last();
        let n = render_items(front).len();
        assert forall|i: int| 0 <= i < front.len() implies wf(#[trigger] front[i]) by {
            assert(front[i] == items[i]);
        }
        let all = render_items(items);
        if p <= n {
            lemma_zip_items(front, p);
            assert(all.take(p) =~= render_items(front).take(p));
        } else {
            let f = arr_frame(front);
            lemma_zip(items.last(), p - n - 1);
            assert(f.ok());
            lemma_under(f, zip(items.last(), p - n - 1));
            assert(f.text() =~= seq![0x5bu8] + render_items(front) + seq![0x2cu8]);
            assert(all.take(p) =~= render_items(front) + seq![0x2cu8] + render(items.last()).take(
                p - n - 1,
            ));
        }
    }
}

/// The members of an object are written from as many of the keys as there
/// are values.
pub proof fn lemma_members_keys(k1: Seq<Key>, k2: Seq<Key>, values: Seq<Json>)
    requires
        k1.len() >= values.len(),
        k2.len() >= values.len(),
        forall|i: int| 0 <= i < values.len() ==> k1[i] == k2[i],
    ensures
        render_members(k1, values) == render_members(k2, values),
    decreases values.len(),
{
    if values.len() > 1 {
        lemma_members_keys(k1, k2, values.drop_last());
    }
}

/// What `zip_member` makes of a start of a member: a prefix whose text,
/// behind the opener of the object and the members before, is that start.
pub proof fn lemma_zip_member(keys: Seq<Key>, values: Seq<Json>, key: Key, value: Json, q: int)
    requires
        keys.len() == values.len(),
        forall|i: int| 0 <= i < keys.len() ==> key_ok(#[trigger] keys[i]),
        forall|i: int| 0 <= i < values.len() ==> wf(#[trigger] values[i]),
        key_ok(key),
        wf(value),
        0 <= q <= member_text(key, render(value)).len(),
    ensures
        zip_member(keys, values, key, value, q).ok(),
        zip_member(keys, values, key, value, q).text() == seq![0x7bu8] + members_sep(keys, values)
            + member_text(key, render(value)).take(q),
        zip_member(keys, values, key, value, q).frames.len() > 0,
    decreases value, 1int,
{
    let kt = key_text(key);
    let mt = member_text(key, render(value));
    let none = Seq::<Frame>::empty();
    if q <= kt.len() {
        let f = Frame::Keys { lead: Seq::empty(), keys: keys, values: values };
        lemma_key_calm(key);
        lemma_key_prefix_quiet(key, q);
        assert(seq![f].drop_last() =~= none);
        assert(frames_text(none) =~= Seq::<u8>::empty());
        assert(f.text() =~= seq![0x7bu8] + members_sep(keys, values));
        assert(frames_text(seq![f]) =~= f.text());
        assert(mt.take(q) =~= kt.take(q));
        assert(f.ok());
    } else {
        let f = Frame::Obj { lead: Seq::empty(), keys: keys, values: values, key: key };
        lemma_zip(value, q - kt.len() - 1);
        assert(f.ok());
        lemma_under(f, zip(value, q - kt.len() - 1));
        assert(f.text() =~= seq![0x7bu8] + members_sep(keys, values) + kt + seq![0x3au8]);
        assert(mt.take(q) =~= kt + seq![0x3au8] + render(value).take(q - kt.len() - 1));
    }
}

/// A start of the key of a member is quiet.
pub proof fn lemma_key_prefix_quiet(key: Key, q: int)
    requires
        key_ok(key),
        0 <= q <= key_text(key).len(),
    ensures
        quiet(key_text(key).take(q)),
{
    let kt = key_text(key);
    let st = string_text(key.body);
    lemma_calm_space(key.before);
    if q <= key.before.len() {
        lemma_space_take(key.before, q);
        assert(kt.take(q) =~= key.before.take(q));
    } else if q <= key.before.len() + st.len() {
        lemma_string_quiet(key.body, q - key.before.len());
        lemma_quiet_concat(key.before, st.take(q - key.before.len()));
        assert(kt.take(q) =~= key.before + st.take(q - key.before.len()));
    } else {
        lemma_string_quiet(key.body, 0);
        lemma_calm_concat(key.before, st);
        let r = q - key.before.len() - st.len();
        lemma_space_take(key.after, r);
        lemma_quiet_concat(key.before + st, key.after.take(r));
        assert(kt.take(q) =~= key.before + st + key.after.take(r));
    }
}

/// What `zip_members` makes of a start of the members of an object: a
/// prefix whose text, behind the opener of the object, is that start.
pub proof fn lemma_zip_members(keys: Seq<Key>, values: Seq<Json>, p: int)
    requires
        values.len() > 0,
        keys.len() >= values.len(),
        forall|i: int| 0 <= i < values.len() ==> key_ok(#[trigger] keys[i]),
        forall|i: int| 0 <= i < values.len() ==> wf(#[trigger] values[i]),
        0 <= p <= render_members(keys, values).len(),
    ensures
        zip_members(keys, values, p).ok(),
        zip_members(keys, values, p).text() == seq![0x7bu8] + render_members(keys, values).take(p),
        zip_members(keys, values, p).frames.len() > 0,
    decreases values, 2int,
{
    let none_k = Seq::<Key>::empty();
    let none_v = Seq::<Json>::empty();
    if values.len() == 1 {
        lemma_zip_member(none_k, none_v, keys[0], values[0], p);
        assert(members_sep(none_k, none_v) =~= Seq::<u8>::empty());
        assert(seq![0x7bu8] + members_sep(none_k, none_v) + member_text(
            keys[0],
            render(values[0]),
        ).take(p) =~= seq![0x7bu8] + render_members(keys, values).take(p));
    } else {
        let front = values.drop_last();
        let n = render_members(keys, front).len();
        let all = render_members(keys, values);
        assert forall|i: int| 0 <= i < front.len() implies wf(#[trigger] front[i]) by {
            assert(front[i] == values[i]);
        }
        if p <= n {
            lemma_zip_members(keys, front, p);
            assert(all.take(p) =~= render_members(keys, front).take(p));
        } else {
            let fk = keys.take(front.len() as int);
            assert forall|i: int| 0 <= i < fk.len() implies key_ok(#[trigger] fk[i]) by {
                assert(fk[i] == keys[i]);
            }
            let key = keys[values.len() - 1];
            lemma_zip_member(fk, front, key, values.last(), p - n - 1);
            lemma_members_keys(fk, keys, front);
            let mt = member_text(key, render(values.last()));
            assert(members_sep(fk, front) =~= render_members(keys, front) + seq![0x2cu8]);
            assert(all.take(p) =~= render_members(keys, front) + seq![0x2cu8] + mt.take(p - n - 1));
        }
    }
}

} // verus!
