use crate::amend::{
    amend_spec, amend_stack, body, closer_of, closers, closers_upto, complete_spec, opener_before,
    plan, recovered, value_text, Plan,
};
use crate::scan::{lemma_scan_error_stays, lemma_scan_wf, scan, scan_upto, Scan};
use crate::text::{lemma_ascii_boundary, push_text, str_head, str_tail};
use crate::utils::{add_title, decimal_text, push_decimal, title_text, RunState};
use crate::value_parser::{
    lemma_skip_space_twice, parse_bool, parse_infinity, parse_nan, parse_ninfinity, parse_null,
    parse_num, parse_string, sp, VParserRes,
};
use vstd::prelude::*;
use vstd::slice::*;
use vstd::string::*;
use vstd::utf8::*;

verus! {

/// Why a prefix could not be completed.
#[derive(Clone, Copy, Debug, PartialEq, Eq, Structural)]
pub enum ParserError {
    /// The prefix has no bytes.
    EmptyInput,
    /// A closing bracket or brace met no matching opener.
    StructuralMismatch,
    /// Inside a string, a backslash was followed by something that is no escape.
    IllegalEscape,
    /// Nothing of the prefix is left once the unfinished tail is cut off.
    Unamendable,
}

impl ParserError {
    /// The reason in words.
    pub open spec fn reason_text(self) -> Seq<char> {
        match self {
            ParserError::EmptyInput => "Input str is Empty"@,
            ParserError::StructuralMismatch => "Stack is empty or its top element is unmatched"@,
            ParserError::IllegalEscape => "Illegal escape sequence in string"@,
            ParserError::Unamendable => "Amend Error in parser"@,
        }
    }

    /// The reason in words.
    pub fn reason(&self) -> (s: String)
        ensures
            s@ == self.reason_text(),
    {
        match self {
            ParserError::EmptyInput => String::from_str("Input str is Empty"),
            ParserError::StructuralMismatch => String::from_str(
                "Stack is empty or its top element is unmatched",
            ),
            ParserError::IllegalEscape => String::from_str("Illegal escape sequence in string"),
            ParserError::Unamendable => String::from_str("Amend Error in parser"),
        }
    }
}

/// Category of one character of the text, as the scanner sees it.
#[derive(PartialEq, Eq, Structural, Debug, Clone, Copy)]
pub enum CharType {
    Colon,
    Comma,
    /// A quote that opens or closes a string, not the character `"` as such.
    Quotation,
    /// A backslash that starts an escape, not the character `\` as such.
    Escape,
    /// Left square bracket.
    LFB,
    /// Right square bracket.
    RFB,
    /// Left curly bracket.
    LCB,
    /// Right curly bracket.
    RCB,
    Normal,
    Special,
}

impl Default for CharType {
    fn default() -> (r: CharType)
        ensures
            r == CharType::Normal,
    {
        CharType::Normal
    }
}

/// The category of `c` outside a string.
pub open spec fn classify(c: char) -> CharType {
    if c == ':' {
        CharType::Colon
    } else if c == ',' {
        CharType::Comma
    } else if c == '"' {
        CharType::Quotation
    } else if c == '\\' {
        CharType::Escape
    } else if c == '[' {
        CharType::LFB
    } else if c == ']' {
        CharType::RFB
    } else if c == '{' {
        CharType::LCB
    } else if c == '}' {
        CharType::RCB
    } else {
        CharType::Normal
    }
}

impl CharType {
    /// The closer that an opener waits for; a quote waits for a quote.
    pub open spec fn pair(self) -> Option<CharType> {
        match self {
            CharType::Quotation => Some(CharType::Quotation),
            CharType::LFB => Some(CharType::RFB),
            CharType::LCB => Some(CharType::RCB),
            _ => None,
        }
    }

    /// The opener that a closer ends; a quote ends a quote.
    pub open spec fn pair_rev(self) -> Option<CharType> {
        match self {
            CharType::Quotation => Some(CharType::Quotation),
            CharType::RFB => Some(CharType::LFB),
            CharType::RCB => Some(CharType::LCB),
            _ => None,
        }
    }

    /// Whether the category is that of an opening bracket or brace.
    pub open spec fn is_opener(self) -> bool {
        self == CharType::LFB || self == CharType::LCB
    }

    /// Whether the category is that of a closing bracket or brace.
    pub open spec fn is_closer(self) -> bool {
        self == CharType::RFB || self == CharType::RCB
    }

    /// The character that stands for the category; none for `Normal` and `Special`.
    pub open spec fn text(self) -> Seq<char> {
        match self {
            CharType::Colon => seq![':'],
            CharType::Comma => seq![','],
            CharType::Quotation => seq!['"'],
            CharType::Escape => seq!['\\'],
            CharType::LFB => seq!['['],
            CharType::RFB => seq![']'],
            CharType::LCB => seq!['{'],
            CharType::RCB => seq!['}'],
            CharType::Normal | CharType::Special => Seq::<char>::empty(),
        }
    }

    /// The character of a category; none where there is no category.
    pub open spec fn option_text(t: Option<CharType>) -> Seq<char> {
        match t {
            Some(t) => t.text(),
            None => Seq::<char>::empty(),
        }
    }

    /// The category that closes what this one opens.
    pub fn partial_pair(&self) -> (r: Option<CharType>)
        ensures
            r == self.pair(),
    {
        match self {
            CharType::Quotation => Some(CharType::Quotation),
            CharType::LFB => Some(CharType::RFB),
            CharType::LCB => Some(CharType::RCB),
            _ => None,
        }
    }

    /// The category that opens what this one closes.
    pub fn partial_pair_rev(&self) -> (r: Option<CharType>)
        ensures
            r == self.pair_rev(),
    {
        match self {
            CharType::Quotation => Some(CharType::Quotation),
            CharType::RFB => Some(CharType::LFB),
            CharType::RCB => Some(CharType::LCB),
            _ => None,
        }
    }

    /// Whether this is an opening bracket or brace.
    pub fn is_left_available(&self) -> (b: bool)
        ensures
            b == self.is_opener(),
    {
        match self {
            CharType::LFB | CharType::LCB => true,
            _ => false,
        }
    }

    /// Whether this is a closing bracket or brace.
    pub fn is_right_available(&self) -> (b: bool)
        ensures
            b == self.is_closer(),
    {
        match self {
            CharType::RFB | CharType::RCB => true,
            _ => false,
        }
    }

    /// The character of the category; the empty text for `Normal` and
    /// `Special`.
    pub fn type_string(&self) -> (s: String)
        ensures
            s@ == self.text(),
    {
        let res = match self {
            CharType::Colon => {
                proof {
                    reveal_strlit(":");
                }
                ":"
            },
            CharType::Comma => {
                proof {
                    reveal_strlit(",");
                }
                ","
            },
            CharType::Quotation => {
                proof {
                    reveal_strlit("\"");
                }
                "\""
            },
            CharType::Escape => {
                proof {
                    reveal_strlit("\\");
                }
                "\\"
            },
            CharType::LFB => {
                proof {
                    reveal_strlit("[");
                }
                "["
            },
            CharType::RFB => {
                proof {
                    reveal_strlit("]");
                }
                "]"
            },
            CharType::LCB => {
                proof {
                    reveal_strlit("{");
                }
                "{"
            },
            CharType::RCB => {
                proof {
                    reveal_strlit("}");
                }
                "}"
            },
            CharType::Normal | CharType::Special => {
                proof {
                    reveal_strlit("");
                }
                ""
            },
        };
        assert(res@ =~= self.text());
        String::from_str(res)
    }

    /// The character of the category; the empty text where there is none.
    pub fn option_type_string(char_type: Option<CharType>) -> (s: String)
        ensures
            s@ == CharType::option_text(char_type),
    {
        if let Some(t) = char_type {
            t.type_string()
        } else {
            String::new()
        }
    }

    /// The category of `c` outside a string.
    pub fn simple_from_char(c: char) -> (r: CharType)
        ensures
            r == classify(c),
    {
        match c {
            ':' => CharType::Colon,
            ',' => CharType::Comma,
            '"' => CharType::Quotation,
            '\\' => CharType::Escape,
            '[' => CharType::LFB,
            ']' => CharType::RFB,
            '{' => CharType::LCB,
            '}' => CharType::RCB,
            _ => CharType::default(),
        }
    }
}

/// What the escape counter of a string stands for.
pub struct EscapeState {
    /// 1 while a backslash waits for the rest of its escape, else 0.
    pub cnt: nat,
    /// Whether that escape is a `\u` escape.
    pub u_mode: bool,
    /// How many hex digits of the `\u` escape have been read.
    pub u_cnt: nat,
}

/// Whether `c` is a hex digit.
pub open spec fn is_hex_char(c: char) -> bool {
    ('0' <= c && c <= '9') || ('a' <= c && c <= 'f') || ('A' <= c && c <= 'F')
}

/// The characters that may follow a backslash, but for `u`.
pub open spec fn is_simple_escape(c: char) -> bool {
    c == '"' || c == '\\' || c == '/' || c == 'b' || c == 'f' || c == 'n' || c == 'r' || c == 't'
}

impl EscapeState {
    /// No escape is open.
    pub open spec fn start() -> EscapeState {
        EscapeState { cnt: 0, u_mode: false, u_cnt: 0 }
    }

    /// What holds of every escape state that the scanner reaches.
    pub open spec fn wf(self) -> bool {
        &&& self.cnt <= 1
        &&& self.u_cnt <= 3
        &&& (self.cnt == 0 ==> !self.u_mode)
        &&& (!self.u_mode ==> self.u_cnt == 0)
    }

    /// A character that follows an open backslash: `Some(true)` where it ends the
    /// escape, `Some(false)` where the escape goes on, `None` where it is illegal.
    pub open spec fn escape_char(self, c: char) -> Option<bool> {
        if self.cnt == 0 {
            Some(false)
        } else if !self.u_mode {
            if c == 'u' {
                Some(false)
            } else if is_simple_escape(c) {
                Some(true)
            } else {
                None
            }
        } else if is_hex_char(c) {
            Some(self.u_cnt >= 3)
        } else {
            None
        }
    }

    /// The counter after `escape_char` has seen `c`.
    pub open spec fn after_escape_char(self, c: char) -> EscapeState {
        if self.cnt == 0 {
            self
        } else if !self.u_mode {
            if c == 'u' {
                EscapeState { u_mode: true, ..self }
            } else {
                self
            }
        } else if is_hex_char(c) && self.u_cnt < 3 {
            EscapeState { u_cnt: self.u_cnt + 1, ..self }
        } else {
            self
        }
    }

    /// One character inside a string: the category it has, and the counter after
    /// it; `None` where the character is an illegal escape.
    pub open spec fn step(self, c: char) -> Option<(EscapeState, CharType)> {
        if self.cnt == 0 {
            if c == '\\' {
                Some((EscapeState { cnt: 1, ..self }, CharType::Escape))
            } else if c == '"' {
                Some((self, CharType::Quotation))
            } else {
                Some((self, CharType::Special))
            }
        } else {
            match self.escape_char(c) {
                None => None,
                Some(true) => Some((EscapeState::start(), CharType::Normal)),
                Some(false) => Some((self.after_escape_char(c), CharType::Special)),
            }
        }
    }
}

/// Counts the escape that is open inside a string.
#[derive(Debug)]
pub struct EscapeCnt {
    cnt: usize,
    u_mode: bool,
    u_cnt: usize,
}

impl View for EscapeCnt {
    type V = EscapeState;

    closed spec fn view(&self) -> EscapeState {
        EscapeState { cnt: self.cnt as nat, u_mode: self.u_mode, u_cnt: self.u_cnt as nat }
    }
}

impl Default for EscapeCnt {
    fn default() -> (r: EscapeCnt)
        ensures
            r@ == EscapeState::start(),
    {
        EscapeCnt::new()
    }
}

impl EscapeCnt {
    /// A counter with no escape open.
    pub fn new() -> (r: EscapeCnt)
        ensures
            r@ == EscapeState::start(),
    {
        EscapeCnt { cnt: 0, u_mode: false, u_cnt: 0 }
    }

    /// Whether `c` is a hex digit.
    pub fn valid_hex_char(c: &char) -> (b: bool)
        ensures
            b == is_hex_char(*c),
    {
        let c = *c;
        ('0' <= c && c <= '9') || ('a' <= c && c <= 'f') || ('A' <= c && c <= 'F')
    }

    /// Reads a character that follows an open backslash.
    pub fn valid_esc_char(&mut self, c: &char) -> (r: Option<bool>)
        ensures
            r == old(self)@.escape_char(*c),
            r is Some ==> final(self)@ == old(self)@.after_escape_char(*c),
            r is None ==> final(self)@ == old(self)@,
    {
        let c = *c;
        if self.cnt == 0 {
            return Some(false);
        }
        if !self.u_mode && c != 'u' {
            if c == '"' || c == '\\' || c == '/' || c == 'b' || c == 'f' || c == 'n' || c == 'r'
                || c == 't' {
                Some(true)
            } else {
                None
            }
        } else if !self.u_mode {
            self.u_mode = true;
            Some(false)
        } else if Self::valid_hex_char(&c) {
            if self.u_cnt < 3 {
                self.u_cnt += 1;
                Some(false)
            } else {
                Some(true)
            }
        } else {
            None
        }
    }

    /// Reads one character inside a string.
    pub fn input(&mut self, c: char) -> (r: Result<CharType, ParserError>)
        ensures
            match old(self)@.step(c) {
                Some((next, t)) => r == Ok::<CharType, ParserError>(t) && final(self)@ == next,
                None => r == Err::<CharType, ParserError>(ParserError::IllegalEscape)
                    && final(self)@ == old(self)@,
            },
            old(self)@.wf() ==> final(self)@.wf(),
    {
        if self.cnt == 0 {
            if c == '\\' {
                self.cnt = 1;
                Ok(CharType::Escape)
            } else if c == '"' {
                Ok(CharType::Quotation)
            } else {
                Ok(CharType::Special)
            }
        } else {
            match self.valid_esc_char(&c) {
                None => Err(ParserError::IllegalEscape),
                Some(true) => {
                    self.cnt = 0;
                    self.u_cnt = 0;
                    self.u_mode = false;
                    Ok(CharType::Normal)
                },
                Some(false) => Ok(CharType::Special),
            }
        }
    }

    /// 1 while an escape is open, else 0.
    pub fn cnt(&self) -> (n: usize)
        ensures
            n == self@.cnt,
    {
        self.cnt
    }
}

/// Whether the scanner stands inside a string, and if so with which escape open.
pub enum StrState {
    InStr(EscapeState),
    NotInStr,
}

/// The string state of the scanner.
#[derive(Debug)]
pub enum State {
    InStr(EscapeCnt),
    NotInStr,
}

impl View for State {
    type V = StrState;

    open spec fn view(&self) -> StrState {
        match self {
            State::InStr(e) => StrState::InStr(e@),
            State::NotInStr => StrState::NotInStr,
        }
    }
}

impl Default for State {
    fn default() -> (r: State)
        ensures
            r@ == StrState::NotInStr,
    {
        State::NotInStr
    }
}

/// Which kinds of value may be written out in full where the prefix ends inside
/// one. Brackets and braces are always closed.
#[derive(Debug, Clone, Copy)]
pub struct ParseSettings {
    pub allow_null: bool,
    pub allow_bool: bool,
    pub allow_number: bool,
    pub allow_string: bool,
    pub allow_infinity: bool,
    pub allow_ninfinity: bool,
    pub allow_nan: bool,
}

impl Default for ParseSettings {
    fn default() -> (r: ParseSettings)
        ensures
            r == ParseSettings::none(),
    {
        ParseSettings {
            allow_null: false,
            allow_bool: false,
            allow_number: false,
            allow_string: false,
            allow_infinity: false,
            allow_ninfinity: false,
            allow_nan: false,
        }
    }
}

impl ParseSettings {
    /// No kind of value is allowed.
    pub open spec fn none() -> ParseSettings {
        ParseSettings {
            allow_null: false,
            allow_bool: false,
            allow_number: false,
            allow_string: false,
            allow_infinity: false,
            allow_ninfinity: false,
            allow_nan: false,
        }
    }

    /// Every kind of value is allowed.
    pub open spec fn all() -> ParseSettings {
        ParseSettings {
            allow_null: true,
            allow_bool: true,
            allow_number: true,
            allow_string: true,
            allow_infinity: true,
            allow_ninfinity: true,
            allow_nan: true,
        }
    }

    /// Settings that permit every kind of value.
    pub fn allow_all() -> (r: ParseSettings)
        ensures
            r == ParseSettings::all(),
    {
        ParseSettings {
            allow_null: true,
            allow_bool: true,
            allow_number: true,
            allow_string: true,
            allow_infinity: true,
            allow_ninfinity: true,
            allow_nan: true,
        }
    }
}

/// The stack of open containers as the contracts speak of it.
pub open spec fn stack_view(v: Seq<(usize, CharType)>) -> Seq<(int, CharType)> {
    Seq::new(v.len(), |i: int| (v[i].0 as int, v[i].1))
}

/// An offset as the contracts speak of it.
pub open spec fn offset_view(o: Option<usize>) -> Option<int> {
    match o {
        Some(i) => Some(i as int),
        None => None,
    }
}

/// One line of a stack trace: the index of an open container, the character
/// that opened it and its offset.
pub open spec fn stack_line(idx: nat, entry: (int, CharType)) -> Seq<char> {
    "idx: "@ + decimal_text(idx) + ", item "@ + entry.1.text() + " at "@ + decimal_text(
        entry.0 as nat,
    ) + " of str\n"@
}

/// Appends one line of a stack trace.
fn push_stack_line(out: &mut String, idx: usize, c_idx: usize, item: CharType)
    ensures
        final(out)@ == old(out)@ + stack_line(idx as nat, (c_idx as int, item)),
{
    push_text(out, "idx: ");
    push_decimal(out, idx);
    push_text(out, ", item ");
    let name = item.type_string();
    push_text(out, name.as_str());
    push_text(out, " at ");
    push_decimal(out, c_idx);
    push_text(out, " of str\n");
    assert(out@ =~= old(out)@ + stack_line(idx as nat, (c_idx as int, item)));
}

/// Appends the string state as text.
fn push_state(out: &mut String, state: &State)
    ensures
        final(out)@ == old(out)@ + state_text(state@),
{
    match state {
        State::NotInStr => {
            push_text(out, "NotInStr");
        },
        State::InStr(e) => {
            let mut t = String::from_str("InStr(EscapeCnt { cnt: ");
            push_decimal(&mut t, e.cnt);
            push_text(&mut t, ", u_mode: ");
            push_text(
                &mut t,
                if e.u_mode {
                    "true"
                } else {
                    "false"
                },
            );
            push_text(&mut t, ", u_cnt: ");
            push_decimal(&mut t, e.u_cnt);
            push_text(&mut t, " })");
            assert(t@ =~= state_text(state@));
            push_text(out, t.as_str());
        },
    }
}

/// Appends the line on the last comma.
fn push_last_sep(out: &mut String, last_sep: Option<usize>, src: &str)
    ensures
        final(out)@ == old(out)@ + last_sep_text(offset_view(last_sep), src.spec_bytes()),
{
    match last_sep {
        None => {
            push_text(out, "None, None\n");
        },
        Some(i) => {
            let mut t = String::from_str("Some(");
            push_decimal(&mut t, i);
            push_text(&mut t, "), ");
            if src.is_char_boundary(i) {
                let rest = str_tail(src, i);
                proof {
                    encode_utf8_decode_utf8(rest@);
                }
                push_text(&mut t, rest);
            }
            push_text(&mut t, "\n");
            assert(t@ =~= last_sep_text(offset_view(last_sep), src.spec_bytes()));
            push_text(out, t.as_str());
        },
    }
}

/// Appends the section on a failed scan.
fn push_run(out: &mut String, run: &RunState<ParserError>)
    ensures
        final(out)@ == old(out)@ + run_text(*run),
{
    if let RunState::Error(e) = run {
        let mut t = add_title("Parse State");
        let reason = e.reason();
        push_text(&mut t, reason.as_str());
        push_text(&mut t, "\n");
        push_text(out, t.as_str());
    } else {
        assert(out@ + Seq::<char>::empty() =~= out@);
    }
}

/// The first `k` lines of a stack trace.
pub open spec fn stack_lines(stack: Seq<(int, CharType)>, k: int) -> Seq<char>
    decreases k,
{
    if k <= 0 || k > stack.len() {
        Seq::empty()
    } else {
        stack_lines(stack, k - 1) + stack_line((k - 1) as nat, stack[k - 1])
    }
}

/// The trace of the stack: a title, and a line for each open container.
pub open spec fn stack_trace(stack: Seq<(int, CharType)>) -> Seq<char> {
    title_text("Stack Tracer"@) + stack_lines(stack, stack.len() as int)
}

/// The string state as text.
pub open spec fn state_text(s: StrState) -> Seq<char> {
    match s {
        StrState::NotInStr => "NotInStr"@,
        StrState::InStr(e) => "InStr(EscapeCnt { cnt: "@ + decimal_text(e.cnt) + ", u_mode: "@ + (
        if e.u_mode {
            "true"@
        } else {
            "false"@
        }) + ", u_cnt: "@ + decimal_text(e.u_cnt) + " })"@,
    }
}

/// The line on the last comma: its offset, and the text from it on.
pub open spec fn last_sep_text(last_comma: Option<int>, src: Seq<u8>) -> Seq<char> {
    match last_comma {
        None => "None, None\n"@,
        Some(i) => "Some("@ + decimal_text(i as nat) + "), "@ + (if is_char_boundary(src, i) {
            decode_utf8(src.subrange(i, src.len() as int))
        } else {
            Seq::empty()
        }) + "\n"@,
    }
}

/// The section on a failed scan; nothing for one that has not failed.
pub open spec fn run_text(run: RunState<ParserError>) -> Seq<char> {
    match run {
        RunState::Error(e) => title_text("Parse State"@) + e.reason_text() + "\n"@,
        _ => Seq::empty(),
    }
}

/// The trace of a scan: the stack, the string state, the last comma, and
/// the failure where there is one.
pub open spec fn parse_trace(sc: Scan, src: Seq<u8>) -> Seq<char> {
    title_text("Parse Tracer"@) + stack_trace(sc.stack) + title_text("State"@) + state_text(
        sc.state,
    ) + "\n"@ + title_text("Last Sep"@) + last_sep_text(sc.last_comma, src) + run_text(sc.run)
}

/// Scans a prefix and completes it.
#[derive(Debug)]
pub struct Parser<'a> {
    stack: Vec<(usize, CharType)>,
    state: State,
    src_str: &'a str,
    last_sep: Option<usize>,
    last_colon: Option<usize>,
    last_rbracket: Option<usize>,
    is_parsed: RunState<ParserError>,
    settings: ParseSettings,
}

impl<'a> View for Parser<'a> {
    type V = Scan;

    closed spec fn view(&self) -> Scan {
        Scan {
            stack: stack_view(self.stack@),
            state: self.state@,
            last_comma: offset_view(self.last_sep),
            last_colon: offset_view(self.last_colon),
            last_rbracket: offset_view(self.last_rbracket),
            run: self.is_parsed,
        }
    }
}

impl<'a> Default for Parser<'a> {
    /// A parser for the empty text, with no kind of value allowed.
    fn default() -> (p: Parser<'a>)
        ensures
            p@ == Scan::fresh(),
            p.src().len() == 0,
            p.settings() == ParseSettings::none(),
    {
        proof {
            reveal_strlit("");
            assert("".spec_bytes() =~= Seq::<u8>::empty());
        }
        Parser::new("", ParseSettings::default())
    }
}

impl<'a> Parser<'a> {
    /// The bytes of the text that the parser works on.
    pub closed spec fn src(&self) -> Seq<u8> {
        self.src_str.spec_bytes()
    }

    /// The settings that the parser works with.
    pub closed spec fn settings(&self) -> ParseSettings {
        self.settings
    }

    /// The parser has scanned its text.
    pub open spec fn scanned(&self) -> bool {
        self@ == scan(self.src())
    }

    /// A parser for `in_str` that has not scanned it yet.
    pub fn new(in_str: &'a str, settings: ParseSettings) -> (p: Parser<'a>)
        ensures
            p@ == Scan::fresh(),
            p.src() == in_str.spec_bytes(),
            p.settings() == settings,
    {
        let p = Parser {
            stack: Vec::new(),
            state: State::NotInStr,
            src_str: in_str,
            last_sep: None,
            last_colon: None,
            last_rbracket: None,
            is_parsed: RunState::Fresh,
            settings,
        };
        assert(stack_view(p.stack@) =~= Seq::empty());
        p
    }

    /// Reads one character: its category in the present string state.
    pub fn state_machine_input(&mut self, c: char) -> (r: Result<CharType, ParserError>)
        ensures
            match old(self)@.read(c) {
                Some((state, t)) => r == Ok::<CharType, ParserError>(t) && final(self)@ == (Scan {
                    state: state,
                    ..old(self)@
                }),
                None => r == Err::<CharType, ParserError>(ParserError::IllegalEscape)
                    && final(self)@ == old(self)@,
            },
            final(self).src() == old(self).src(),
            final(self).settings() == old(self).settings(),
    {
        match &mut self.state {
            State::NotInStr => {
                if c == '"' {
                    self.state = State::InStr(EscapeCnt::new());
                }
                Ok(CharType::simple_from_char(c))
            },
            State::InStr(cnt) => {
                let res = cnt.input(c);
                if let Ok(CharType::Quotation) = res {
                    self.state = State::NotInStr;
                }
                res
            },
        }
    }
    /// How many containers are open.
    pub fn stack_len(&self) -> (n: usize)
        ensures
            n == self@.stack.len(),
    {
        self.stack.len()
    }

    /// The open container at `idx`, counted from the outermost: its offset
    /// and its kind.
    pub fn stack_item(&self, idx: usize) -> (r: (usize, CharType))
        requires
            idx < self@.stack.len(),
        ensures
            r.0 == self@.stack[idx as int].0,
            r.1 == self@.stack[idx as int].1,
    {
        self.stack[idx]
    }

    /// The offset of the last comma outside strings.
    pub fn last_sep(&self) -> (r: Option<usize>)
        ensures
            offset_view(r) == self@.last_comma,
    {
        self.last_sep
    }

    /// The offset of the last colon outside strings.
    pub fn last_colon(&self) -> (r: Option<usize>)
        ensures
            offset_view(r) == self@.last_colon,
    {
        self.last_colon
    }

    /// The offset of the last closer outside strings.
    pub fn last_rbracket(&self) -> (r: Option<usize>)
        ensures
            offset_view(r) == self@.last_rbracket,
    {
        self.last_rbracket
    }

    /// Whether the scan has run, and how it ended.
    pub fn is_parsed(&self) -> (r: &RunState<ParserError>)
        ensures
            *r == self@.run,
    {
        &self.is_parsed
    }

    /// Whether the scan stands inside a string.
    pub fn in_string(&self) -> (b: bool)
        ensures
            b == (self@.state is InStr),
    {
        match self.state {
            State::InStr(_) => true,
            State::NotInStr => false,
        }
    }

    /// The open containers, one on a line, under a title.
    pub fn stack_tracer(&self) -> (s: String)
        ensures
            s@ == stack_trace(self@.stack),
    {
        let mut s = add_title("Stack Tracer");
        let n = self.stack.len();
        let mut idx: usize = 0;
        while idx < n
            invariant
                idx <= n,
                n == self.stack.len(),
                s@ == title_text("Stack Tracer"@) + stack_lines(self@.stack, idx as int),
            decreases n - idx,
        {
            let (c_idx, item) = self.stack[idx];
            push_stack_line(&mut s, idx, c_idx, item);
            idx += 1;
            assert(s@ =~= title_text("Stack Tracer"@) + stack_lines(self@.stack, idx as int));
        }
        s
    }

    /// What the scan has found, section by section.
    pub fn parse_tracer(&self) -> (s: String)
        ensures
            s@ == parse_trace(self@, self.src()),
    {
        let mut s = add_title("Parse Tracer");
        let stack = self.stack_tracer();
        push_text(&mut s, stack.as_str());
        let title = add_title("State");
        push_text(&mut s, title.as_str());
        push_state(&mut s, &self.state);
        push_text(&mut s, "\n");
        let title = add_title("Last Sep");
        push_text(&mut s, title.as_str());
        push_last_sep(&mut s, self.last_sep, self.src_str);
        push_run(&mut s, &self.is_parsed);
        s
    }

    /// Scans the text: one pass over its bytes.
    pub fn parse(&mut self)
        requires
            old(self)@ == Scan::fresh(),
        ensures
            final(self).scanned(),
            final(self).src() == old(self).src(),
            final(self).settings() == old(self).settings(),
    {
        self.is_parsed = RunState::Success;
        let src: &'a str = self.src_str;
        let bytes = src.as_bytes();
        let n = bytes.len();
        let mut idx: usize = 0;
        assert(self@ == scan_upto(bytes@, 0));
        while idx < n
            invariant
                idx <= n,
                n == bytes@.len(),
                bytes@ == self.src(),
                self.src() == old(self).src(),
                self.settings() == old(self).settings(),
                self@ == scan_upto(bytes@, idx as int),
                !(self@.run is Error),
            decreases n - idx,
        {
            let c = bytes[idx] as char;
            let ghost before = self@;
            match self.state_machine_input(c) {
                Err(e) => {
                    self.is_parsed = RunState::Error(e);
                    proof {
                        assert(self@ == before.step(idx as int, bytes@[idx as int]));
                        lemma_scan_error_stays(bytes@, idx + 1, n as int);
                    }
                    return ;
                },
                Ok(char_type) => {
                    if char_type.is_left_available() {
                        self.stack.push((idx, char_type));
                        assert(self@.stack =~= before.stack.push((idx as int, char_type)));
                    } else if char_type.is_right_available() {
                        self.last_rbracket = Some(idx);
                        let depth = self.stack.len();
                        let matched = match char_type.partial_pair_rev() {
                            Some(want) => depth > 0 && self.stack[depth - 1].1 == want,
                            None => false,
                        };
                        if matched {
                            self.stack.pop();
                            assert(self@.stack =~= before.stack.drop_last());
                        } else {
                            self.is_parsed = RunState::Error(ParserError::StructuralMismatch);
                            proof {
                                assert(self@.stack =~= before.stack);
                                assert(self@ == before.step(idx as int, bytes@[idx as int]));
                                lemma_scan_error_stays(bytes@, idx + 1, n as int);
                            }
                            return ;
                        }
                    } else if char_type == CharType::Comma {
                        self.last_sep = Some(idx);
                    } else if char_type == CharType::Colon {
                        self.last_colon = Some(idx);
                    }
                },
            }
            assert(self@ == before.step(idx as int, bytes@[idx as int]));
            idx += 1;
        }
    }
    /// Drops the open containers that start at offset `idx` or behind it.
    pub fn stack_recover(&mut self, idx: usize)
        ensures
            final(self)@ == (Scan { stack: recovered(old(self)@.stack, idx as int), ..old(self)@ }),
            final(self).src() == old(self).src(),
            final(self).settings() == old(self).settings(),
    {
        while self.stack.len() > 0 && self.stack[self.stack.len() - 1].0 >= idx
            invariant
                self.src() == old(self).src(),
                self.settings() == old(self).settings(),
                self@ == (Scan { stack: self@.stack, ..old(self)@ }),
                recovered(self@.stack, idx as int) == recovered(old(self)@.stack, idx as int),
            decreases self.stack.len(),
        {
            let ghost before = self@.stack;
            self.stack.pop();
            assert(self@.stack =~= before.drop_last());
        }
    }

    /// The innermost open container that starts before offset `idx`.
    pub fn opener_before(&self, idx: usize) -> (r: Option<(usize, CharType)>)
        ensures
            match opener_before(self@.stack, idx as int) {
                Some(o) => r is Some && r.unwrap().0 == o.0 && r.unwrap().1 == o.1,
                None => r is None,
            },
    {
        let mut k = self.stack.len();
        assert(self@.stack.take(k as int) =~= self@.stack);
        while k > 0
            invariant
                k <= self.stack.len(),
                opener_before(self@.stack, idx as int) == opener_before(
                    self@.stack.take(k as int),
                    idx as int,
                ),
            decreases k,
        {
            k -= 1;
            assert(self@.stack.take(k + 1).drop_last() =~= self@.stack.take(k as int));
            let top = self.stack[k];
            if top.0 < idx {
                return Some(top);
            }
        }
        None
    }

    /// The offset to cut back to: just behind the innermost container that
    /// starts before the colon at `colon_idx`; without a colon, the offset of
    /// the innermost container.
    pub fn get_recover_idx(&self, colon_idx: Option<usize>) -> (r: Result<usize, ()>)
        requires
            colon_idx is None ==> self@.stack.len() > 0,
        ensures
            match colon_idx {
                Some(c) => match opener_before(self@.stack, c as int) {
                    Some(o) => r == Ok::<usize, ()>((o.0 + 1) as usize) && o.0 < c,
                    None => r is Err,
                },
                None => r is Ok && r.unwrap() == self@.stack.last().0,
            },
    {
        if let Some(colon_idx) = colon_idx {
            proof {
                lemma_opener_before(self@.stack, colon_idx as int);
            }
            match self.opener_before(colon_idx) {
                Some(o) => Ok(o.0 + 1),
                None => Err(()),
            }
        } else {
            Ok(self.stack[self.stack.len() - 1].0)
        }
    }

    /// Whether the container that holds the comma at `sep_idx` is an object;
    /// without a comma, whether the innermost container is one.
    pub fn get_is_amend(&self, sep_idx: Option<usize>) -> (r: Option<bool>)
        ensures
            match sep_idx {
                Some(s) => match opener_before(self@.stack, s as int) {
                    Some(o) => r == Some(o.1 == CharType::LCB),
                    None => r is None,
                },
                None => if self@.stack.len() > 0 {
                    r == Some(self@.stack.last().1 == CharType::LCB)
                } else {
                    r is None
                },
            },
    {
        if let Some(sep_idx) = sep_idx {
            match self.opener_before(sep_idx) {
                Some(o) => Some(o.1 == CharType::LCB),
                None => None,
            }
        } else if self.stack.len() > 0 {
            Some(self.stack[self.stack.len() - 1].1 == CharType::LCB)
        } else {
            None
        }
    }

    /// Reads the value that starts at offset `idx`, behind white space.
    pub fn cut_and_amend(&mut self, idx: usize, allow_string: bool) -> (r: Result<String, bool>)
        requires
            is_char_boundary(old(self).src(), idx as int),
        ensures
            text_result_is(
                r,
                value_text(
                    old(self).src().subrange(idx as int, old(self).src().len() as int),
                    allow_string,
                    old(self).settings(),
                ),
            ),
            final(self)@ == old(self)@,
            final(self).src() == old(self).src(),
            final(self).settings() == old(self).settings(),
    {
        let src: &'a str = self.src_str;
        let (s, _) = sp(str_tail(src, idx));
        proof {
            lemma_skip_space_twice(src.spec_bytes().subrange(idx as int, src.spec_bytes().len() as int));
        }
        let st = self.settings;
        if let Ok(v) = parse_and_check(parse_bool(s), st.allow_bool) {
            return pick(v);
        }
        if let Ok(v) = parse_and_check(parse_string(s), allow_string && st.allow_string) {
            return pick(v);
        }
        if let Ok(v) = parse_and_check(parse_num(s), st.allow_number) {
            return pick(v);
        }
        if let Ok(v) = parse_and_check(parse_nan(s), st.allow_nan) {
            return pick(v);
        }
        if let Ok(v) = parse_and_check(parse_null(s), st.allow_null) {
            return pick(v);
        }
        if let Ok(v) = parse_and_check(parse_infinity(s), st.allow_infinity) {
            return pick(v);
        }
        if let Ok(v) = parse_and_check(parse_ninfinity(s), st.allow_ninfinity) {
            return pick(v);
        }
        Err(false)
    }

    /// Cuts the text back to `recover_idx`.
    fn recover_into(&mut self, out: &mut String, recover_idx: usize)
        requires
            is_char_boundary(old(self).src(), recover_idx as int),
            old(out)@.len() == 0,
        ensures
            encode_utf8(final(out)@) == old(self).src().subrange(0, recover_idx as int),
            final(self)@ == (Scan {
                stack: recovered(old(self)@.stack, recover_idx as int),
                ..old(self)@
            }),
            final(self).src() == old(self).src(),
            final(self).settings() == old(self).settings(),
    {
        let src: &'a str = self.src_str;
        self.stack_recover(recover_idx);
        assert(encode_utf8(out@) =~= Seq::<u8>::empty());
        push_text(out, str_head(src, recover_idx));
        assert(Seq::<u8>::empty() + src.spec_bytes().subrange(0, recover_idx as int)
            =~= src.spec_bytes().subrange(0, recover_idx as int));
    }

    /// Completes the scanned text: cuts off what cannot stand, completes the
    /// value at the end where it may, and closes the containers left open.
    pub fn amend(&mut self) -> (r: Result<String, ParserError>)
        requires
            old(self).scanned(),
        ensures
            text_result_is(r, amend_spec(old(self).src(), old(self)@, old(self).settings())),
            final(self)@ == (Scan {
                stack: amend_stack(old(self).src(), old(self)@, old(self).settings()),
                ..old(self)@
            }),
            final(self).src() == old(self).src(),
            final(self).settings() == old(self).settings(),
    {
        let src: &'a str = self.src_str;
        let n = src.as_bytes().len();
        let ghost bytes = src.spec_bytes();
        let ghost sc = self@;
        let ghost st = self.settings;
        proof {
            lemma_scan_wf(bytes, n as int);
            encode_utf8_valid_utf8(src@);
            is_char_boundary_start_end_of_seq(bytes);
        }
        if let RunState::Error(e) = self.is_parsed {
            return Err(e);
        }
        if self.stack.len() == 0 {
            assert(bytes.subrange(0, n as int) =~= bytes);
            match self.cut_and_amend(0, true) {
                Ok(res) => {
                    return Ok(res);
                },
                Err(_) => {
                    if self.last_rbracket.is_some() {
                        return Ok(String::from_str(src));
                    } else {
                        return Err(ParserError::Unamendable);
                    }
                },
            }
        }
        let valid_idx: usize;
        let key_only: bool;
        let recover_idx: usize;
        let top = self.stack[self.stack.len() - 1];
        assert(sc.stack.last().0 == top.0 && sc.stack.last().1 == top.1);
        match (self.last_colon, self.last_sep) {
            (Some(last_colon), Some(last_sep)) => {
                if last_colon > last_sep {
                    valid_idx = last_colon;
                    key_only = false;
                } else {
                    valid_idx = last_sep;
                    key_only = match self.get_is_amend(Some(last_sep)) {
                        Some(b) => b,
                        None => false,
                    };
                }
                recover_idx = last_sep;
                proof {
                    lemma_ascii_boundary(bytes, last_sep as int);
                }
            },
            (Some(last_colon), None) => {
                valid_idx = last_colon;
                key_only = false;
                proof {
                    lemma_opener_before(sc.stack, last_colon as int);
                }
                recover_idx = match self.get_recover_idx(Some(last_colon)) {
                    Ok(i) => i,
                    Err(_) => {
                        return Err(ParserError::Unamendable);
                    },
                };
                proof {
                    lemma_ascii_boundary(bytes, recover_idx - 1);
                }
            },
            (None, Some(last_sep)) => {
                valid_idx = last_sep;
                key_only = match self.get_is_amend(Some(last_sep)) {
                    Some(b) => b,
                    None => false,
                };
                recover_idx = last_sep;
                proof {
                    lemma_ascii_boundary(bytes, last_sep as int);
                }
            },
            (None, None) => {
                valid_idx = top.0;
                key_only = top.1 == CharType::LCB;
                recover_idx = top.0;
                proof {
                    lemma_ascii_boundary(bytes, top.0 as int);
                }
            },
        }
        let ghost p = plan(sc).unwrap();
        assert(p == (Plan {
            valid_idx: valid_idx as int,
            recover_idx: recover_idx as int,
            key_only: key_only,
        }));
        assert(valid_idx < n && bytes[valid_idx as int] < 0x80);
        proof {
            lemma_ascii_boundary(bytes, valid_idx as int);
        }
        let last_rbracket = match self.last_rbracket {
            Some(b) => b,
            None => valid_idx,
        };
        let mut cur_string = String::new();
        if valid_idx == n - 1 {
            self.recover_into(&mut cur_string, recover_idx);
        } else if last_rbracket <= valid_idx {
            if !key_only {
                match self.cut_and_amend(valid_idx + 1, true) {
                    Ok(s) => {
                        assert(encode_utf8(cur_string@) =~= Seq::<u8>::empty());
                        push_text(&mut cur_string, str_head(src, valid_idx + 1));
                        push_text(&mut cur_string, s.as_str());
                        assert(encode_utf8(cur_string@) =~= body(bytes, sc, st, p).text);
                    },
                    Err(_) => {
                        self.recover_into(&mut cur_string, recover_idx);
                    },
                }
            } else {
                self.recover_into(&mut cur_string, recover_idx);
            }
        } else {
            proof {
                lemma_ascii_boundary(bytes, last_rbracket as int);
            }
            assert(encode_utf8(cur_string@) =~= Seq::<u8>::empty());
            push_text(&mut cur_string, str_head(src, last_rbracket + 1));
            assert(encode_utf8(cur_string@) =~= body(bytes, sc, st, p).text);
        }
        let ghost b = body(bytes, sc, st, p);
        assert(encode_utf8(cur_string@) == b.text);
        assert(self@.stack == b.stack);
        let mut k = self.stack.len();
        while k > 0
            invariant
                k <= self.stack.len(),
                self@.stack == b.stack,
                self@ == (Scan { stack: b.stack, ..sc }),
                self.src() == bytes,
                self.settings() == st,
                b.text + closers(b.stack) == encode_utf8(cur_string@) + closers_upto(
                    b.stack,
                    k as int,
                ),
            decreases k,
        {
            k -= 1;
            let closer = CharType::option_type_string(self.stack[k].1.partial_pair());
            let ghost before = encode_utf8(cur_string@);
            push_text(&mut cur_string, closer.as_str());
            assert(closers_upto(b.stack, k + 1) == closer_of(b.stack[k as int].1) + closers_upto(
                b.stack,
                k as int,
            ));
            assert(before + closers_upto(b.stack, k + 1) =~= (before + closer_of(
                b.stack[k as int].1,
            )) + closers_upto(b.stack, k as int));
        }
        assert(encode_utf8(cur_string@) =~= b.text + closers(b.stack));
        if cur_string.as_str().as_bytes().len() == 0 {
            Err(ParserError::Unamendable)
        } else {
            Ok(cur_string)
        }
    }

    /// Completes `in_str` with the settings that write out no unfinished value.
    pub fn parser(in_str: &'a str) -> (r: Result<String, ParserError>)
        ensures
            text_result_is(r, complete_spec(in_str.spec_bytes(), ParseSettings::none())),
    {
        complete(in_str, ParseSettings::default())
    }
}

/// What the result of a function that returns a text says.
pub open spec fn text_result_is<E>(r: Result<String, E>, want: Result<Seq<u8>, E>) -> bool {
    match want {
        Ok(t) => r matches Ok(s) && encode_utf8(s@) == t,
        Err(e) => r matches Err(x) && x == e,
    }
}

/// An opener that is found before an offset starts before it.
pub proof fn lemma_opener_before(stack: Seq<(int, CharType)>, idx: int)
    ensures
        match opener_before(stack, idx) {
            Some(o) => o.0 < idx && stack.contains(o),
            None => true,
        },
    decreases stack.len(),
{
    if stack.len() > 0 {
        if stack.last().0 < idx {
            assert(stack[stack.len() - 1] == stack.last());
        } else {
            lemma_opener_before(stack.drop_last(), idx);
            if let Some(o) = opener_before(stack.drop_last(), idx) {
                let k = choose|k: int| 0 <= k < stack.drop_last().len() && stack.drop_last()[k] == o;
                assert(stack[k] == o);
            }
        }
    }
}

/// Decides on what a value parser found: its text where the value is
/// complete or may be completed, no text where it may not.
pub fn parse_and_check(res: Result<VParserRes, ()>, allow_incomplete: bool) -> (r: Result<
    (bool, String),
    (),
>)
    ensures
        match res {
            Ok(v) => r is Ok && r.unwrap().0 == (allow_incomplete || v@.is_complete) && (r.unwrap().0
                ==> encode_utf8(r.unwrap().1@) == v@.text) && (!r.unwrap().0 ==> r.unwrap().1@.len()
                == 0),
            Err(_) => r is Err,
        },
{
    match res {
        Ok(parse_res) => {
            if allow_incomplete || parse_res.is_complete() {
                Ok((true, parse_res.amend_value().clone()))
            } else {
                Ok((false, String::new()))
            }
        },
        Err(_) => Err(()),
    }
}

/// The text of a value that was accepted; `Err(true)` for one that was not.
fn pick(v: (bool, String)) -> (r: Result<String, bool>)
    ensures
        v.0 ==> r == Ok::<String, bool>(v.1),
        !v.0 ==> r == Err::<String, bool>(true),
{
    if v.0 {
        Ok(v.1)
    } else {
        Err(true)
    }
}

/// Completes the prefix `prefix` of a JSON text to a JSON text.
pub fn complete(prefix: &str, settings: ParseSettings) -> (r: Result<String, ParserError>)
    ensures
        text_result_is(r, complete_spec(prefix.spec_bytes(), settings)),
{
    if prefix.as_bytes().len() == 0 {
        return Err(ParserError::EmptyInput);
    }
    let mut parser = Parser::new(prefix, settings);
    parser.parse();
    parser.amend()
}

} // verus!
