//! The scanner: one pass over the text, one range per value.

use crate::encoding::{
    byte_offset, byte_range, lemma_byte_offset_end, lemma_byte_offset_increases,
    lemma_byte_offset_lower, lemma_byte_offset_step, lemma_byte_offset_unique,
    lemma_char_width_bounds, utf8_width,
};
use crate::laws::lemma_values_keep_characters;
use crate::machine::{faults, lemma_scan_consistent, scan, value_texts, well_nested, ParseState};
use crate::token::Token;
use crate::values::{is_slice_of, lemma_span_is_slice, ValuePos, Values};
use vstd::pervasive::unreached;
use vstd::prelude::*;
use vstd::utf8::*;

verus! {

/// The main entry point. Give it the contents of an XML file as a `&str`.
#[derive(Debug)]
pub struct XmlStringParser<'a> {
    original: &'a str,
    state: ParseState,
    values: Values<'a>,
    charcount: usize,
    start_pos: Option<usize>,
    end_pos: usize,
    bytepos: usize,
}

impl<'a> XmlStringParser<'a> {
    /// The text that is scanned.
    pub closed spec fn text(&self) -> Seq<char> {
        self.original@
    }

    /// How many characters of the text have been read: the index of the
    /// character at whose byte offset the scanner stands.
    pub closed spec fn consumed(&self) -> int {
        choose|n: int| 0 <= n <= self.text().len() && byte_offset(self.text(), n) == self.bytepos
    }

    /// The state that the scanner is in.
    pub closed spec fn mode(&self) -> ParseState {
        self.state
    }

    /// The count of the run in progress.
    pub closed spec fn char_count(&self) -> nat {
        self.charcount as nat
    }

    /// The byte offset at which the run in progress starts, if there is one.
    pub closed spec fn run_start(&self) -> Option<int> {
        match self.start_pos {
            Some(start) => Some(start as int),
            None => None,
        }
    }

    /// The byte offset just past the last character taken into a run.
    pub closed spec fn run_end(&self) -> int {
        self.end_pos as int
    }

    /// The byte offset of the next character.
    pub closed spec fn position(&self) -> int {
        self.bytepos as int
    }

    /// The values filed so far.
    pub closed spec fn store(&self) -> Values<'a> {
        self.values
    }

    /// The scanner holds what the state machine holds after the characters
    /// read so far, with byte offsets in place of its indices.
    pub open spec fn wf(&self) -> bool {
        let text = self.text();
        let n = self.consumed();
        let s = scan(text, n);
        &&& 0 <= n <= text.len()
        &&& encode_utf8(text).len() <= usize::MAX
        &&& self.position() == byte_offset(text, n)
        &&& self.mode() == s.state
        &&& self.char_count() == s.count
        &&& self.run_end() == byte_offset(text, s.end)
        &&& match self.run_start() {
            Some(start) => s.start is Some && start == byte_offset(text, s.start->0),
            None => s.start is None,
        }
        &&& self.store().wf()
        &&& self.store().text() == text
        &&& self.store().cursor() == 0
        &&& self.store().ranges() == s.found.map_values(|span: (int, int)| byte_range(text, span))
    }

    /// A scanner over `input` that has read nothing yet.
    pub fn new(input: &'a str) -> (parser: Self)
        ensures
            parser.wf(),
            parser.text() == input@,
            parser.consumed() == 0,
    {
        // A slice is never longer than `usize::MAX`, so no offset into the
        // text overflows.
        let bytes = input.as_bytes();
        let parser = XmlStringParser {
            original: input,
            state: ParseState::OutsideBracket,
            values: Values::new(input),
            charcount: 0,
            start_pos: None,
            end_pos: 0,
            bytepos: 0,
        };
        proof {
            assert(bytes.len() == bytes@.len());
            lemma_byte_offset_lower(input@, 0);
            lemma_byte_offset_unique(input@, 0, parser.consumed());
            assert(parser.values.ranges() =~= scan(input@, 0).found.map_values(
                |span: (int, int)| byte_range(input@, span),
            ));
        }
        parser
    }

    /// Parses the document and returns its values, in document order.
    ///
    /// A `>` where no tag is open is not accepted: `try_parse` takes any text.
    pub fn parse(self) -> (values: Values<'a>)
        requires
            self.wf(),
            self.consumed() == 0,
            well_nested(self.text()),
        ensures
            values.is_scan_of(self.text()),
    {
        let text = self.original;
        let mut parser = self;
        for ch in input: text.chars()
            invariant
                input.seq() == text@,
                parser.wf(),
                parser.text() == text@,
                parser.consumed() == input.index(),
                well_nested(text@),
        {
            parser.step(ch);
        }
        proof {
            lemma_values_keep_characters(text@);
            assert(parser.values@ =~= value_texts(text@));
        }
        parser.values
    }

    /// Parses the document if the scanner accepts every `>` of it, and
    /// returns `None` as soon as it meets one that it does not accept.
    pub fn try_parse(self) -> (values: Option<Values<'a>>)
        requires
            self.wf(),
            self.consumed() == 0,
        ensures
            values is Some <==> well_nested(self.text()),
            values matches Some(found) ==> found.is_scan_of(self.text()),
    {
        let text = self.original;
        let mut parser = self;
        for ch in input: text.chars()
            invariant
                input.seq() == text@,
                parser.wf(),
                parser.text() == text@,
                parser.consumed() == input.index(),
                text@ == self.text(),
                forall|i: int|
                    0 <= i < input.index() ==> !faults(#[trigger] scan(text@, i).state, text@[i]),
        {
            if parser.rejects(ch) {
                assert(faults(scan(text@, parser.consumed()).state, text@[parser.consumed()]));
                return None;
            }
            parser.step(ch);
        }
        proof {
            lemma_values_keep_characters(text@);
            assert(parser.values@ =~= value_texts(text@));
        }
        Some(parser.values)
    }

    /// Whether `ch`, as the next character, is a `>` where no tag is open.
    pub(crate) fn rejects(&self, ch: char) -> (fault: bool)
        requires
            self.wf(),
        ensures
            fault == faults(scan(self.text(), self.consumed()).state, ch),
    {
        match Token::from(ch) {
            Token::RightCroc => match self.state {
                ParseState::InsideOpenBracket => false,
                ParseState::InsideCloseBracket => false,
                _ => true,
            },
            _ => false,
        }
    }

    /// Files the run in progress as a value and leaves no run in progress.
    /// Nothing else changes.
    pub(crate) fn extract(&mut self)
        requires
            old(self).store().wf(),
            old(self).run_start() matches Some(start) && is_slice_of(
                (start, old(self).run_end()),
                old(self).store().text(),
            ),
        ensures
            final(self).store().wf(),
            final(self).store().text() == old(self).store().text(),
            final(self).store().cursor() == old(self).store().cursor(),
            final(self).store().ranges() == old(self).store().ranges().push(
                (old(self).run_start()->0, old(self).run_end()),
            ),
            final(self).run_start() is None,
            final(self).text() == old(self).text(),
            final(self).consumed() == old(self).consumed(),
            final(self).mode() == old(self).mode(),
            final(self).char_count() == old(self).char_count(),
            final(self).run_end() == old(self).run_end(),
            final(self).position() == old(self).position(),
    {
        let start = self.start_pos.expect("No start pos set.");
        let end = self.end_pos;

        let pos = ValuePos::new(start, end);
        self.values.add(pos);
        // Reset start position
        self.start_pos = None
    }

    /// Reads `ch`, the next character of the text. A `>` where no tag is
    /// open must not be handed in.
    pub(crate) fn step(&mut self, ch: char)
        requires
            old(self).wf(),
            old(self).consumed() < old(self).text().len(),
            ch == old(self).text()[old(self).consumed()],
            !faults(scan(old(self).text(), old(self).consumed()).state, ch),
        ensures
            final(self).wf(),
            final(self).text() == old(self).text(),
            final(self).consumed() == old(self).consumed() + 1,
    {
        let ghost text = self.text();
        let ghost n = self.consumed();
        let ghost before = scan(text, n);
        let ghost after = scan(text, n + 1);
        proof {
            lemma_scan_consistent(text, n);
            lemma_scan_consistent(text, n + 1);
            lemma_byte_offset_step(text, n);
            lemma_byte_offset_increases(text, n + 1, text.len() as int);
            lemma_byte_offset_increases(text, 0, n);
            lemma_byte_offset_lower(text, n);
            lemma_byte_offset_end(text);
            lemma_char_width_bounds(ch);
            if before.start is Some {
                lemma_span_is_slice(text, before.start->0, before.end);
            }
        }
        match Token::from(ch) {
            Token::LeftCroc => match self.state {
                ParseState::OutsideBracket => self.state = ParseState::InsideOpenBracket,
                ParseState::Value => {
                    // if there are no characters, we're in a nested scope
                    if self.charcount == 0 {
                        self.state = ParseState::InsideOpenBracket;
                    } else {
                        self.state = ParseState::InsideCloseBracket;
                        // Extract the text
                        self.extract();
                        self.charcount = 0;
                    }
                },
                _ => (),
            },
            Token::RightCroc => match self.state {
                ParseState::InsideOpenBracket => self.state = ParseState::Value,
                ParseState::InsideCloseBracket => self.state = ParseState::OutsideBracket,
                _ => unreached(),
            },
            Token::Char => match self.state {
                ParseState::Value => {
                    match self.start_pos {
                        Some(_) => (),
                        None => {
                            self.start_pos = Some(self.bytepos);
                        },
                    }
                    self.end_pos = self.bytepos + utf8_width(ch);
                    self.charcount += 1;
                },
                _ => (),
            },
            Token::WhiteSpace => match self.state {
                ParseState::Value => {
                    // if we already have one character
                    if let Some(_) = self.start_pos {
                        self.charcount += 1;
                    }
                },
                _ => (),
            },
            _ => (),
        }

        self.bytepos += utf8_width(ch);
        proof {
            lemma_byte_offset_unique(text, n + 1, self.consumed());
            assert(self.values.ranges() =~= after.found.map_values(
                |span: (int, int)| byte_range(text, span),
            ));
        }
    }
}

} // verus!
