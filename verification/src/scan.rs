use crate::parser::{classify, CharType, EscapeState, ParserError, StrState};
use crate::utils::RunState;
use vstd::prelude::*;

verus! {

/// What a scan knows of a text: the brackets and braces that are still open,
/// each with the byte offset it stands at, and where the last comma, colon and
/// closer outside any string were seen.
pub struct Scan {
    /// Open containers, the innermost last.
    pub stack: Seq<(int, CharType)>,
    pub state: StrState,
    pub last_comma: Option<int>,
    pub last_colon: Option<int>,
    pub last_rbracket: Option<int>,
    pub run: RunState<ParserError>,
}

impl Scan {
    /// Before the scan.
    pub open spec fn fresh() -> Scan {
        Scan {
            stack: Seq::empty(),
            state: StrState::NotInStr,
            last_comma: None,
            last_colon: None,
            last_rbracket: None,
            run: RunState::Fresh,
        }
    }

    /// After a scan of no bytes.
    pub open spec fn start() -> Scan {
        Scan { run: RunState::Success, ..Scan::fresh() }
    }

    /// The category of `c` in this state, and the string state after it;
    /// `None` where `c` is an illegal escape.
    pub open spec fn read(self, c: char) -> Option<(StrState, CharType)> {
        match self.state {
            StrState::NotInStr => {
                let t = classify(c);
                if t == CharType::Quotation {
                    Some((StrState::InStr(EscapeState::start()), t))
                } else {
                    Some((StrState::NotInStr, t))
                }
            },
            StrState::InStr(e) => match e.step(c) {
                None => None,
                Some((next, t)) => if t == CharType::Quotation {
                    Some((StrState::NotInStr, t))
                } else {
                    Some((StrState::InStr(next), t))
                },
            },
        }
    }

    /// What a character of category `t` at offset `idx` does to the stack and
    /// to the recorded offsets.
    pub open spec fn record(self, idx: int, t: CharType) -> Scan {
        if t.is_opener() {
            Scan { stack: self.stack.push((idx, t)), ..self }
        } else if t.is_closer() {
            if self.stack.len() > 0 && Some(self.stack.last().1) == t.pair_rev() {
                Scan { stack: self.stack.drop_last(), last_rbracket: Some(idx), ..self }
            } else {
                Scan {
                    last_rbracket: Some(idx),
                    run: RunState::Error(ParserError::StructuralMismatch),
                    ..self
                }
            }
        } else if t == CharType::Comma {
            Scan { last_comma: Some(idx), ..self }
        } else if t == CharType::Colon {
            Scan { last_colon: Some(idx), ..self }
        } else {
            self
        }
    }

    /// The scan after the byte `b` at offset `idx`. A scan that has failed
    /// reads no further.
    pub open spec fn step(self, idx: int, b: u8) -> Scan {
        if self.run is Error {
            self
        } else {
            match self.read(b as char) {
                None => Scan { run: RunState::Error(ParserError::IllegalEscape), ..self },
                Some((state, t)) => Scan { state: state, ..self }.record(idx, t),
            }
        }
    }
}

/// The scan of the first `n` bytes of `bytes`.
pub open spec fn scan_upto(bytes: Seq<u8>, n: int) -> Scan
    decreases n,
{
    if n <= 0 {
        Scan::start()
    } else {
        scan_upto(bytes, n - 1).step(n - 1, bytes[n - 1])
    }
}

/// The scan of the whole text.
pub open spec fn scan(bytes: Seq<u8>) -> Scan {
    scan_upto(bytes, bytes.len() as int)
}

/// Once a scan has failed, more bytes change nothing.
pub proof fn lemma_scan_error_stays(bytes: Seq<u8>, k: int, m: int)
    requires
        0 <= k <= m,
        scan_upto(bytes, k).run is Error,
    ensures
        scan_upto(bytes, m) == scan_upto(bytes, k),
    decreases m - k,
{
    if k < m {
        lemma_scan_error_stays(bytes, k, m - 1);
    }
}

/// What holds of every scan of the first `n` bytes of a text: each recorded
/// offset lies in those bytes and holds the character it was recorded for,
/// and the open containers stand in the order of their offsets.
pub open spec fn scan_wf(bytes: Seq<u8>, n: int, sc: Scan) -> bool {
    &&& !(sc.run is Fresh)
    &&& forall|k: int|
        0 <= k < sc.stack.len() ==> 0 <= (#[trigger] sc.stack[k]).0 < n && sc.stack[k].1.is_opener()
            && classify(bytes[sc.stack[k].0] as char) == sc.stack[k].1
    &&& forall|j: int, k: int|
        0 <= j < k < sc.stack.len() ==> (#[trigger] sc.stack[j]).0 < (#[trigger] sc.stack[k]).0
    &&& (sc.last_comma matches Some(i) ==> 0 <= i < n && bytes[i] as char == ',')
    &&& (sc.last_colon matches Some(i) ==> 0 <= i < n && bytes[i] as char == ':')
    &&& (sc.last_rbracket matches Some(i) ==> 0 <= i < n && classify(
        bytes[i] as char,
    ).is_closer())
    &&& (sc.state matches StrState::InStr(e) ==> e.wf())
}

/// `scan_wf` holds of every scan.
pub proof fn lemma_scan_wf(bytes: Seq<u8>, n: int)
    requires
        0 <= n <= bytes.len(),
    ensures
        scan_wf(bytes, n, scan_upto(bytes, n)),
    decreases n,
{
    if n > 0 {
        lemma_scan_wf(bytes, n - 1);
        let prev = scan_upto(bytes, n - 1);
        let next = scan_upto(bytes, n);
        assert(next == prev.step(n - 1, bytes[n - 1]));
        if !(prev.run is Error) {
            match prev.read(bytes[n - 1] as char) {
                None => {},
                Some((state, t)) => {
                    let mid = Scan { state: state, ..prev };
                    assert(next == mid.record(n - 1, t));
                    if let StrState::InStr(e) = prev.state {
                        assert(!t.is_opener() && !t.is_closer() && t != CharType::Comma && t
                            != CharType::Colon);
                        assert(next == mid);
                    }
                },
            }
        }
    }
}

} // verus!
