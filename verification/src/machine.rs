//! The scanner as a state machine over the characters of a text.
//!
//! Positions are counted in characters here. `encoding` turns them into the
//! byte offsets that the scanner stores.

use crate::encoding::byte_range;
use crate::token::{classify, Token};
use vstd::prelude::*;

verus! {

/// Where the scanner stands relative to the tags.
#[derive(Clone, Copy, Debug)]
pub enum ParseState {
    /// After a `<` that did not end a run of text, up to the next `>`.
    InsideOpenBracket,
    /// After a `<` that ended a run of text, up to the next `>`.
    InsideCloseBracket,
    /// At the start, and after the `>` that follows a run's closing `<`.
    OutsideBracket,
    /// After the `>` of any other tag: text is collected here.
    Value,
}

/// What the scanner knows after some prefix of the text.
pub struct Scan {
    pub state: ParseState,
    /// The index of the first character of the run in progress, if there is one.
    pub start: Option<int>,
    /// The index just past the last character taken into a run.
    pub end: int,
    /// How many characters the run in progress has been given, whitespace
    /// after its first character included.
    pub count: nat,
    /// The runs completed so far, oldest first, each from its first
    /// character to just past its last.
    pub found: Seq<(int, int)>,
}

/// The scanner before the first character.
pub open spec fn initial() -> Scan {
    Scan { state: ParseState::OutsideBracket, start: None, end: 0, count: 0, found: Seq::empty() }
}

/// A `>` is accepted only where a tag is open.
pub open spec fn faults(state: ParseState, c: char) -> bool {
    classify(c) == Token::RightCroc && !(state is InsideOpenBracket) && !(state
        is InsideCloseBracket)
}

/// The run in progress is completed and filed.
pub open spec fn extracted(s: Scan) -> Scan {
    match s.start {
        Some(first) => Scan { start: None, found: s.found.push((first, s.end)), ..s },
        None => s,
    }
}

/// The scanner after it has read `c`, the character with index `at`.
pub open spec fn advance(s: Scan, at: int, c: char) -> Scan {
    match classify(c) {
        Token::LeftCroc => match s.state {
            ParseState::OutsideBracket => Scan { state: ParseState::InsideOpenBracket, ..s },
            ParseState::Value => if s.count == 0 {
                Scan { state: ParseState::InsideOpenBracket, ..s }
            } else {
                Scan { state: ParseState::InsideCloseBracket, count: 0, ..extracted(s) }
            },
            _ => s,
        },
        Token::RightCroc => match s.state {
            ParseState::InsideOpenBracket => Scan { state: ParseState::Value, ..s },
            ParseState::InsideCloseBracket => Scan { state: ParseState::OutsideBracket, ..s },
            _ => s,
        },
        Token::Char => match s.state {
            ParseState::Value => Scan {
                start: if s.start is Some {
                    s.start
                } else {
                    Some(at)
                },
                end: at + 1,
                count: s.count + 1,
                ..s
            },
            _ => s,
        },
        Token::WhiteSpace => match s.state {
            ParseState::Value => if s.start is Some {
                Scan { count: s.count + 1, ..s }
            } else {
                s
            },
            _ => s,
        },
        _ => s,
    }
}

/// The scanner after the first `n` characters of `text`.
pub open spec fn scan(text: Seq<char>, n: int) -> Scan
    decreases n,
{
    if n <= 0 {
        initial()
    } else {
        advance(scan(text, n - 1), n - 1, text[n - 1])
    }
}

/// No `>` of `text` comes where the scanner cannot accept it.
pub open spec fn well_nested(text: Seq<char>) -> bool {
    forall|i: int| 0 <= i < text.len() ==> !faults(#[trigger] scan(text, i).state, text[i])
}

/// The values of `text` as spans of character indices, in the order in
/// which they stand in the text. A run that the end of the text cuts off
/// is no value.
pub open spec fn value_spans(text: Seq<char>) -> Seq<(int, int)> {
    scan(text, text.len() as int).found
}

/// The values of `text` as byte ranges into its encoding.
pub open spec fn value_ranges(text: Seq<char>) -> Seq<(int, int)> {
    value_spans(text).map_values(|span: (int, int)| byte_range(text, span))
}

/// The values of `text` as texts.
pub open spec fn value_texts(text: Seq<char>) -> Seq<Seq<char>> {
    value_spans(text).map_values(|span: (int, int)| text.subrange(span.0, span.1))
}

/// What holds of the scanner after `n` characters, whatever they were: a
/// run is in progress exactly while its count is not zero, and only where
/// text is collected; every run, completed or not, is not empty and lies in
/// what has been read; the runs stand in the order of the text, apart from
/// each other.
pub open spec fn consistent(s: Scan, n: int) -> bool {
    &&& 0 <= s.end <= n
    &&& s.count <= n
    &&& s.count == 0 <==> s.start is None
    &&& s.start matches Some(first) ==> 0 <= first < s.end && s.state is Value
    &&& forall|k: int|
        0 <= k < s.found.len() ==> 0 <= (#[trigger] s.found[k]).0 < s.found[k].1 < n
    &&& forall|j: int, k: int|
        0 <= j < k < s.found.len() ==> (#[trigger] s.found[j]).1 < (#[trigger] s.found[k]).0
    &&& s.start matches Some(first) ==> forall|k: int|
        0 <= k < s.found.len() ==> (#[trigger] s.found[k]).1 < first
}

pub proof fn lemma_scan_consistent(text: Seq<char>, n: int)
    requires
        0 <= n <= text.len(),
    ensures
        consistent(scan(text, n), n),
    decreases n,
{
    if n > 0 {
        lemma_scan_consistent(text, n - 1);
    }
}

} // verus!
