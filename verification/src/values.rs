//! The values that a scan has found, handed out one by one.

use crate::encoding::{
    byte_range, lemma_byte_offset_end, lemma_byte_offset_increases,
    lemma_byte_offset_is_boundary, lemma_byte_offset_lower,
};
use crate::machine::{value_ranges, value_texts};
use vstd::prelude::*;
use vstd::string::StringSliceAdditionalSpecFns;
use vstd::utf8::*;

verus! {

/// A byte range of the scanned text: `start` inclusive, `end` exclusive.
#[derive(Debug)]
pub(crate) struct ValuePos {
    pub(crate) start: usize,
    pub(crate) end: usize,
}

impl ValuePos {
    pub(crate) fn new(start: usize, end: usize) -> (pos: Self)
        ensures
            pos@ == (start as int, end as int),
    {
        ValuePos { start, end }
    }
}

impl View for ValuePos {
    type V = (int, int);

    closed spec fn view(&self) -> (int, int) {
        (self.start as int, self.end as int)
    }
}

/// A byte range that can be cut out of `text`: not empty, inside the
/// encoding, and with both ends between two characters.
pub open spec fn is_slice_of(range: (int, int), text: Seq<char>) -> bool {
    &&& 0 <= range.0 < range.1 <= encode_utf8(text).len()
    &&& is_char_boundary(encode_utf8(text), range.0)
    &&& is_char_boundary(encode_utf8(text), range.1)
}

/// The characters that the bytes of `range` in the encoding of `text` spell.
pub open spec fn slice_of(text: Seq<char>, range: (int, int)) -> Seq<char> {
    decode_utf8(encode_utf8(text).subrange(range.0, range.1))
}

/// The values of a scanned document, in the order in which they stand in
/// it. Each call of `next` hands out the following one as a sub-slice of the
/// scanned text, so nothing is copied. The view is what is still to come.
#[derive(Debug)]
pub struct Values<'o> {
    original: &'o str,
    positions: Vec<ValuePos>,
    next: usize,
    len: usize,
}

impl<'o> View for Values<'o> {
    type V = Seq<Seq<char>>;

    open spec fn view(&self) -> Seq<Seq<char>> {
        Seq::new(
            (self.ranges().len() - self.cursor()) as nat,
            |i: int| slice_of(self.text(), self.ranges()[self.cursor() + i]),
        )
    }
}

impl<'o> Values<'o> {
    /// The text that the values are slices of.
    pub closed spec fn text(&self) -> Seq<char> {
        self.original@
    }

    /// The byte ranges of all the values, those handed out included.
    pub closed spec fn ranges(&self) -> Seq<(int, int)> {
        self.positions@.map_values(|pos: ValuePos| pos@)
    }

    /// How many values have been handed out.
    pub closed spec fn cursor(&self) -> int {
        self.next as int
    }

    /// Every range can be cut out of the text, and the cursor is not past the end.
    pub closed spec fn wf(&self) -> bool {
        &&& self.len == self.positions@.len()
        &&& self.next <= self.len
        &&& forall|i: int|
            0 <= i < self.ranges().len() ==> is_slice_of(#[trigger] self.ranges()[i], self.text())
    }

    /// The cursor lies within the ranges, so the view holds exactly the
    /// values behind it.
    pub proof fn lemma_cursor_in_range(&self)
        requires
            self.wf(),
        ensures
            0 <= self.cursor() <= self.ranges().len(),
            self@.len() == self.ranges().len() - self.cursor(),
    {
    }

    /// These are the values of `text`, and none has been handed out.
    pub open spec fn is_scan_of(&self, text: Seq<char>) -> bool {
        &&& self.wf()
        &&& self.text() == text
        &&& self.cursor() == 0
        &&& self.ranges() == value_ranges(text)
        &&& self@ == value_texts(text)
    }

    pub(crate) fn new(orig: &'o str) -> (values: Self)
        ensures
            values.wf(),
            values.text() == orig@,
            values.ranges() == Seq::<(int, int)>::empty(),
            values.cursor() == 0,
    {
        let values = Values { original: orig, positions: vec![], next: 0, len: 0 };
        assert(values.ranges() =~= Seq::<(int, int)>::empty());
        values
    }

    pub(crate) fn add(&mut self, pos: ValuePos)
        requires
            old(self).wf(),
            is_slice_of(pos@, old(self).text()),
        ensures
            final(self).wf(),
            final(self).text() == old(self).text(),
            final(self).ranges() == old(self).ranges().push(pos@),
            final(self).cursor() == old(self).cursor(),
    {
        self.positions.push(pos);
        assert(self.positions.len() == self.len + 1);
        self.len += 1;
        assert(self.ranges() =~= old(self).ranges().push(pos@));
    }

    /// Hands out the next value, or `None` once all have been handed out.
    /// The slice holds, byte for byte, what the text holds at the value's range.
    pub fn next(&mut self) -> (value: Option<&'o str>)
        requires
            old(self).wf(),
        ensures
            final(self).wf(),
            final(self).text() == old(self).text(),
            final(self).ranges() == old(self).ranges(),
            0 <= old(self).cursor() <= final(self).cursor() <= final(self).ranges().len(),
            match value {
                Some(slice) => {
                    let range = old(self).ranges()[old(self).cursor()];
                    &&& old(self).cursor() < old(self).ranges().len()
                    &&& final(self).cursor() == old(self).cursor() + 1
                    &&& slice.spec_bytes() == encode_utf8(old(self).text()).subrange(
                        range.0,
                        range.1,
                    )
                    &&& slice@ == old(self)@[0]
                    &&& final(self)@ == old(self)@.drop_first()
                },
                None => {
                    &&& old(self).cursor() == old(self).ranges().len()
                    &&& *final(self) == *old(self)
                },
            },
    {
        if self.next < self.len {
            let pos = &self.positions[self.next];
            let ghost bytes = encode_utf8(self.text());
            let ghost range = self.ranges()[self.cursor()];
            proof {
                encode_utf8_valid_utf8(self.text());
                assert(is_slice_of(range, self.text()));
                lemma_boundary_of_prefix(bytes, range.0, range.1);
            }
            let (head, _) = self.original.split_at(pos.end);
            let (_, res) = head.split_at(pos.start);
            proof {
                assert(res.spec_bytes() =~= bytes.subrange(range.0, range.1));
                encode_utf8_decode_utf8(res@);
                assert(self@[0] == slice_of(self.text(), range));
            }
            self.next += 1;
            assert(self@ =~= old(self)@.drop_first());
            Some(res)
        } else {
            None
        }
    }
}

/// A boundary of the whole is a boundary of every prefix that reaches it.
pub proof fn lemma_boundary_of_prefix(bytes: Seq<u8>, at: int, end: int)
    requires
        valid_utf8(bytes),
        0 <= at <= end <= bytes.len(),
        is_char_boundary(bytes, at),
        is_char_boundary(bytes, end),
    ensures
        valid_utf8(bytes.subrange(0, end)),
        is_char_boundary(bytes.subrange(0, end), at),
{
    let head = bytes.subrange(0, end);
    valid_utf8_split(bytes, end);
    if at == end {
        is_char_boundary_start_end_of_seq(head);
    } else {
        is_char_boundary_iff_not_is_continuation_byte(bytes, at);
        is_char_boundary_iff_not_is_continuation_byte(head, at);
    }
}

/// The byte range of a span of characters that is not empty can be cut
/// out of the text.
pub proof fn lemma_span_is_slice(text: Seq<char>, from: int, to: int)
    requires
        0 <= from < to <= text.len(),
    ensures
        is_slice_of(byte_range(text, (from, to)), text),
{
    lemma_byte_offset_increases(text, 0, from);
    lemma_byte_offset_increases(text, from, to);
    lemma_byte_offset_increases(text, to, text.len() as int);
    lemma_byte_offset_lower(text, from);
    lemma_byte_offset_end(text);
    lemma_byte_offset_is_boundary(text, from);
    lemma_byte_offset_is_boundary(text, to);
}

} // verus!
