use crate::text::push_text;
use crate::value_parser::{byte_is, holds, skip_space, sp};
use vstd::prelude::*;
use vstd::slice::*;
use vstd::string::*;
use vstd::utf8::*;

pub mod parse_obj;
pub mod parse_spec;
pub mod parse_string;

verus! {

/// The kinds of JSON text that a reader stands for.
#[derive(Debug, PartialEq, Eq, Structural, Clone, Copy)]
pub enum JsonType {
    Any,
    Str,
    Spec,
    Num,
    KeyVal,
    Array,
    Object,
}

impl Default for JsonType {
    fn default() -> (r: JsonType)
        ensures
            r == JsonType::Any,
    {
        JsonType::Any
    }
}

/// What a failed reader says of the text: that it is no JSON, or how it can be
/// completed to JSON.
#[derive(Debug, PartialEq, Eq)]
pub enum ErrType {
    Failure,
    Completion { delete: bool, json_type: JsonType, completion: String },
}

/// `ErrType` with its completion as bytes.
pub enum ErrKind {
    Failure,
    Completion { delete: bool, json_type: JsonType, completion: Seq<u8> },
}

impl View for ErrType {
    type V = ErrKind;

    open spec fn view(&self) -> ErrKind {
        match self {
            ErrType::Failure => ErrKind::Failure,
            ErrType::Completion { delete, json_type, completion } => ErrKind::Completion {
                delete: *delete,
                json_type: *json_type,
                completion: encode_utf8(completion@),
            },
        }
    }
}

impl Default for ErrType {
    fn default() -> (r: ErrType)
        ensures
            r@ == ErrKind::Failure,
    {
        ErrType::Failure
    }
}

/// The error of a reader.
#[derive(Debug, PartialEq, Eq)]
pub struct ErrRes<'a> {
    /// The text at which reading stopped.
    pub rest: &'a str,
    pub err_type: ErrType,
    /// The text that the reader which first judged the error was given.
    pub err_str: Option<&'a str>,
}

/// An error with its texts as bytes; `fatal` tells a `Failure` from an `Error`.
pub struct ErrView {
    pub fatal: bool,
    pub rest: Seq<u8>,
    pub err_type: ErrKind,
    pub err_str: Option<Seq<u8>>,
}

/// The bytes of a text that may be missing.
pub open spec fn opt_bytes(s: Option<&str>) -> Option<Seq<u8>> {
    match s {
        Some(t) => Some(t.spec_bytes()),
        None => None,
    }
}

impl<'a> ErrRes<'a> {
    /// The error with its texts as bytes.
    pub open spec fn view_as(&self, fatal: bool) -> ErrView {
        ErrView {
            fatal: fatal,
            rest: self.rest.spec_bytes(),
            err_type: self.err_type@,
            err_str: opt_bytes(self.err_str),
        }
    }

    /// An error at `rest` that no reader has judged yet.
    pub fn simple_cast(rest: &'a str) -> (r: ErrRes<'a>)
        ensures
            r.view_as(false) == ErrView::raw(rest.spec_bytes()),
    {
        ErrRes { rest, err_type: ErrType::Failure, err_str: None }
    }
}

/// An error that lets other readers be tried, or one that ends the reading.
#[derive(Debug, PartialEq, Eq)]
pub enum ParseErr<'a> {
    Error(ErrRes<'a>),
    Failure(ErrRes<'a>),
}

impl<'a> View for ParseErr<'a> {
    type V = ErrView;

    open spec fn view(&self) -> ErrView {
        match self {
            ParseErr::Error(e) => e.view_as(false),
            ParseErr::Failure(e) => e.view_as(true),
        }
    }
}

impl ErrView {
    /// An error at `rest` that no reader has judged yet.
    pub open spec fn raw(rest: Seq<u8>) -> ErrView {
        ErrView { fatal: false, rest: rest, err_type: ErrKind::Failure, err_str: None }
    }

    /// Whether reading stopped at the end of the text. A lenient reader
    /// takes white space for the end.
    pub open spec fn at_end(self, lenient: bool) -> bool {
        if lenient {
            skip_space(self.rest).len() == 0
        } else {
            self.rest.len() == 0
        }
    }

    /// The error as the reader of `cur_str` judges it. The first to judge
    /// says whether the text can be completed: it can where reading stopped
    /// at the end of the text. A later one adds its own completion.
    pub open spec fn cast(
        self,
        cur_str: Seq<u8>,
        cur_completion: Seq<u8>,
        json_type: JsonType,
        delete: bool,
    ) -> ErrView {
        self.cast_as(cur_str, cur_completion, json_type, delete, true)
    }

    /// `cast` for a reader that is lenient or not. Only a lenient reader
    /// takes over an error whose text is to be deleted.
    pub open spec fn cast_as(
        self,
        cur_str: Seq<u8>,
        cur_completion: Seq<u8>,
        json_type: JsonType,
        delete: bool,
        lenient: bool,
    ) -> ErrView {
        if self.err_str is None {
            ErrView {
                err_type: if self.at_end(lenient) {
                    ErrKind::Completion {
                        delete: delete,
                        json_type: json_type,
                        completion: if delete {
                            Seq::empty()
                        } else {
                            cur_completion
                        },
                    }
                } else {
                    ErrKind::Failure
                },
                err_str: Some(cur_str),
                ..self
            }
        } else {
            self.extend(cur_str, cur_completion, delete, lenient)
        }
    }

    /// An error that was judged already, seen by the reader of `cur_str`.
    pub open spec fn extend(
        self,
        cur_str: Seq<u8>,
        cur_completion: Seq<u8>,
        delete: bool,
        lenient: bool,
    ) -> ErrView {
        match self.err_type {
            ErrKind::Failure => self,
            ErrKind::Completion { delete: _, json_type, completion } => ErrView {
                err_type: ErrKind::Completion {
                    delete: delete,
                    json_type: json_type,
                    completion: if delete {
                        completion
                    } else {
                        completion + cur_completion
                    },
                },
                err_str: if delete && lenient {
                    Some(cur_str)
                } else {
                    self.err_str
                },
                ..self
            },
        }
    }

    /// Whether a lenient reader takes the error to say that the text is no
    /// JSON.
    pub open spec fn is_invalid(self) -> bool {
        self.is_invalid_as(true)
    }

    /// Whether the error says that the text is no JSON: one that no reader has
    /// judged, where text is left; one that was judged, where it was judged so.
    pub open spec fn is_invalid_as(self, lenient: bool) -> bool {
        if self.err_str is None {
            !self.at_end(lenient)
        } else {
            self.err_type is Failure
        }
    }

    /// Whether the error asks for the unfinished text to be deleted.
    pub open spec fn is_delete(self) -> bool {
        match self.err_type {
            ErrKind::Completion { delete, .. } => delete,
            ErrKind::Failure => false,
        }
    }
}

/// What a reader returns: the text left and what was read, or an error.
pub type ParseRes<'a, O> = Result<(&'a str, O), ParseErr<'a>>;

/// `i` without the white space at its start.
pub fn remove_sp<'a>(i: &'a str) -> (r: &'a str)
    ensures
        r.spec_bytes() == skip_space(i.spec_bytes()),
{
    let (rem, _) = sp(i);
    rem
}

/// Whether `i` is at its end: empty, or for a lenient reader white space only.
fn at_end(i: &str, lenient: bool) -> (b: bool)
    ensures
        b == ErrView::raw(i.spec_bytes()).at_end(lenient),
{
    if lenient {
        remove_sp(i).as_bytes().len() == 0
    } else {
        i.as_bytes().len() == 0
    }
}

/// The error `e` as the reader of `cur_str` judges it.
pub fn cast_err<'a>(
    e: ErrRes<'a>,
    cur_str: &'a str,
    cur_completion: &str,
    json_type: JsonType,
    delete: bool,
    lenient: bool,
) -> (r: ErrRes<'a>)
    ensures
        forall|fatal: bool|
            #[trigger] r.view_as(fatal) == e.view_as(fatal).cast_as(
                cur_str.spec_bytes(),
                cur_completion.spec_bytes(),
                json_type,
                delete,
                lenient,
            ),
{
    let ErrRes { rest, err_type, err_str } = e;
    if err_str.is_none() {
        let err_type = if at_end(rest, lenient) {
            let mut completion = String::new();
            assert(encode_utf8(completion@) =~= Seq::<u8>::empty());
            if !delete {
                push_text(&mut completion, cur_completion);
                assert(encode_utf8(completion@) =~= cur_completion.spec_bytes());
            }
            ErrType::Completion { delete, completion, json_type }
        } else {
            ErrType::Failure
        };
        ErrRes { rest, err_type, err_str: Some(cur_str) }
    } else {
        match err_type {
            ErrType::Failure => ErrRes { rest, err_type: ErrType::Failure, err_str },
            ErrType::Completion { delete: _, json_type: jt, completion } => {
                let mut completion = completion;
                if !delete {
                    push_text(&mut completion, cur_completion);
                }
                ErrRes {
                    rest,
                    err_type: ErrType::Completion { delete, json_type: jt, completion },
                    err_str: if delete && lenient {
                        Some(cur_str)
                    } else {
                        err_str
                    },
                }
            },
        }
    }
}

/// The result `res` as the reader of `cur_str` judges it: a success stays,
/// an error is cast.
pub fn cast_as<'a, O>(
    res: ParseRes<'a, O>,
    cur_str: &'a str,
    cur_completion: &str,
    json_type: JsonType,
    delete: bool,
    lenient: bool,
) -> (r: ParseRes<'a, O>)
    ensures
        match res {
            Ok(v) => r == Ok::<(&'a str, O), ParseErr<'a>>(v),
            Err(e) => r matches Err(e2) && e2@ == e@.cast_as(
                cur_str.spec_bytes(),
                cur_completion.spec_bytes(),
                json_type,
                delete,
                lenient,
            ),
        },
{
    match res {
        Ok(v) => Ok(v),
        Err(ParseErr::Error(e)) => Err(
            ParseErr::Error(cast_err(e, cur_str, cur_completion, json_type, delete, lenient)),
        ),
        Err(ParseErr::Failure(e)) => Err(
            ParseErr::Failure(cast_err(e, cur_str, cur_completion, json_type, delete, lenient)),
        ),
    }
}

/// `cast_as` for a lenient reader.
pub fn cast<'a, O>(
    res: ParseRes<'a, O>,
    cur_str: &'a str,
    cur_completion: &str,
    json_type: JsonType,
    delete: bool,
) -> (r: ParseRes<'a, O>)
    ensures
        match res {
            Ok(v) => r == Ok::<(&'a str, O), ParseErr<'a>>(v),
            Err(e) => r matches Err(e2) && e2@ == e@.cast(
                cur_str.spec_bytes(),
                cur_completion.spec_bytes(),
                json_type,
                delete,
            ),
        },
{
    cast_as(res, cur_str, cur_completion, json_type, delete, true)
}

/// Whether the result is an error that says the text is no JSON.
pub fn is_invalid<'a, O>(res: &ParseRes<'a, O>) -> (b: bool)
    ensures
        b == (res matches Err(e) && e@.is_invalid()),
{
    is_invalid_as(res, true)
}

/// `is_invalid` for a reader that is lenient or not.
pub fn is_invalid_as<'a, O>(res: &ParseRes<'a, O>, lenient: bool) -> (b: bool)
    ensures
        b == (res matches Err(e) && e@.is_invalid_as(lenient)),
{
    match res {
        Ok(_) => false,
        Err(ParseErr::Error(e)) | Err(ParseErr::Failure(e)) => {
            if e.err_str.is_none() {
                !at_end(e.rest, lenient)
            } else {
                match &e.err_type {
                    ErrType::Failure => true,
                    _ => false,
                }
            }
        },
    }
}

/// Whether the result is an error that the text can be completed from.
pub fn is_incomplete<'a, O>(res: &ParseRes<'a, O>) -> (b: bool)
    ensures
        b == (res matches Err(e) && !e@.is_invalid()),
{
    res.is_err() && !is_invalid(res)
}

/// Whether the result asks for the unfinished text to be deleted.
pub fn is_delete<'a, O>(res: &ParseRes<'a, O>) -> (b: bool)
    ensures
        b == (res matches Err(e) && e@.is_delete()),
{
    match res {
        Ok(_) => false,
        Err(ParseErr::Error(e)) | Err(ParseErr::Failure(e)) => match &e.err_type {
            ErrType::Completion { delete, .. } => *delete,
            ErrType::Failure => false,
        },
    }
}

/// The completion that the result carries.
pub fn completion<'a, O>(res: &ParseRes<'a, O>) -> (r: Option<String>)
    ensures
        match res {
            Err(e) => match e@.err_type {
                ErrKind::Completion { completion, .. } => r matches Some(s) && encode_utf8(s@)
                    == completion,
                ErrKind::Failure => r is None,
            },
            Ok(_) => r is None,
        },
{
    match res {
        Ok(_) => None,
        Err(ParseErr::Error(e)) | Err(ParseErr::Failure(e)) => match &e.err_type {
            ErrType::Completion { completion, .. } => Some(completion.clone()),
            ErrType::Failure => None,
        },
    }
}

/// Makes an error one that ends the reading.
pub fn try_to_failure<'a, O>(res: ParseRes<'a, O>) -> (r: ParseRes<'a, O>)
    ensures
        match res {
            Ok(v) => r == Ok::<(&'a str, O), ParseErr<'a>>(v),
            Err(e) => r matches Err(e2) && e2@ == (ErrView { fatal: true, ..e@ }),
        },
{
    match res {
        Ok(v) => Ok(v),
        Err(ParseErr::Error(e)) => Err(ParseErr::Failure(e)),
        Err(ParseErr::Failure(e)) => Err(ParseErr::Failure(e)),
    }
}

/// Whether a value may end where `rest` starts: at a comma or a closer,
/// behind white space.
pub open spec fn ends_value(rest: Seq<u8>) -> bool {
    let g = skip_space(rest);
    byte_is(g, 0, ',') || byte_is(g, 0, ']') || byte_is(g, 0, '}')
}

/// The error of a value that the text ends in.
pub open spec fn cut_short(
    cur_str: Seq<u8>,
    cur_completion: Seq<u8>,
    json_type: JsonType,
    delete: bool,
    lenient: bool,
) -> ErrView {
    ErrView::raw(Seq::empty()).cast_as(cur_str, cur_completion, json_type, delete, lenient)
}

/// As `cast_as`, for a value that is complete only where something follows
/// it that ends a value: read to the end of the text, it may go on.
pub fn incomplete_cast_as<'a, O>(
    res: ParseRes<'a, O>,
    cur_str: &'a str,
    cur_completion: &str,
    json_type: JsonType,
    delete: bool,
    lenient: bool,
) -> (r: ParseRes<'a, O>)
    ensures
        match res {
            Ok(v) => if ends_value(v.0.spec_bytes()) {
                r == Ok::<(&'a str, O), ParseErr<'a>>(v)
            } else {
                r matches Err(e2) && e2@ == cut_short(
                    cur_str.spec_bytes(),
                    cur_completion.spec_bytes(),
                    json_type,
                    delete,
                    lenient,
                )
            },
            Err(e) => r matches Err(e2) && e2@ == e@.cast_as(
                cur_str.spec_bytes(),
                cur_completion.spec_bytes(),
                json_type,
                delete,
                lenient,
            ),
        },
{
    match res {
        Ok(v) => {
            let (rem, _) = sp(v.0);
            let b = rem.as_bytes();
            if holds(b, 0, ',') || holds(b, 0, ']') || holds(b, 0, '}') {
                return Ok(v);
            }
            proof {
                reveal_strlit("");
                assert("".spec_bytes() =~= Seq::<u8>::empty());
            }
            cast_as(
                Err(ParseErr::Error(ErrRes::simple_cast(""))),
                cur_str,
                cur_completion,
                json_type,
                delete,
                lenient,
            )
        },
        Err(e) => cast_as(Err(e), cur_str, cur_completion, json_type, delete, lenient),
    }
}

/// `incomplete_cast_as` for a lenient reader.
pub fn incomplete_cast<'a, O>(
    res: ParseRes<'a, O>,
    cur_str: &'a str,
    cur_completion: &str,
    json_type: JsonType,
    delete: bool,
) -> (r: ParseRes<'a, O>)
    ensures
        match res {
            Ok(v) => if ends_value(v.0.spec_bytes()) {
                r == Ok::<(&'a str, O), ParseErr<'a>>(v)
            } else {
                r matches Err(e2) && e2@ == cut_short(
                    cur_str.spec_bytes(),
                    cur_completion.spec_bytes(),
                    json_type,
                    delete,
                    true,
                )
            },
            Err(e) => r matches Err(e2) && e2@ == e@.cast(
                cur_str.spec_bytes(),
                cur_completion.spec_bytes(),
                json_type,
                delete,
            ),
        },
{
    incomplete_cast_as(res, cur_str, cur_completion, json_type, delete, true)
}

} // verus!
