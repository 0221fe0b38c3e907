//! Byte offsets of characters in UTF-8 text.
//!
//! A text is a sequence of characters; what is stored and sliced is its
//! UTF-8 encoding. This module relates an index into the one to an offset
//! into the other.

use vstd::prelude::*;
use vstd::utf8::*;

verus! {

/// The number of bytes that `c` takes in UTF-8.
pub open spec fn char_width(c: char) -> int {
    encode_scalar(c as u32).len() as int
}

/// The number of bytes that `c` takes in UTF-8, from its code point.
pub fn utf8_width(c: char) -> (n: usize)
    ensures
        n == char_width(c),
{
    let code = c as u32;
    if code < 0x80 {
        1
    } else if code < 0x800 {
        2
    } else if code < 0x10000 {
        3
    } else {
        4
    }
}

/// The byte offset at which the character with index `n` starts in the
/// encoding of `text`; for `n == text.len()`, the length of the encoding.
pub open spec fn byte_offset(text: Seq<char>, n: int) -> int {
    encode_utf8(text.take(n)).len() as int
}

/// The byte range that the characters `span.0 .. span.1` of `text` occupy.
pub open spec fn byte_range(text: Seq<char>, span: (int, int)) -> (int, int) {
    (byte_offset(text, span.0), byte_offset(text, span.1))
}

/// Every character takes between one and four bytes.
pub proof fn lemma_char_width_bounds(c: char)
    ensures
        1 <= char_width(c) <= 4,
{
}

/// Encoding goes through concatenation.
pub proof fn lemma_encode_concat(a: Seq<char>, b: Seq<char>)
    ensures
        encode_utf8(a + b) == encode_utf8(a) + encode_utf8(b),
    decreases a.len(),
{
    if a.len() == 0 {
        assert(a + b =~= b);
        assert(encode_utf8(a) + encode_utf8(b) =~= encode_utf8(b));
    } else {
        lemma_encode_concat(a.drop_first(), b);
        assert((a + b).drop_first() =~= a.drop_first() + b);
        assert(encode_utf8(a + b) =~= encode_utf8(a) + encode_utf8(b));
    }
}

/// One character further, the offset grows by that character's width.
pub proof fn lemma_byte_offset_step(text: Seq<char>, n: int)
    requires
        0 <= n < text.len(),
    ensures
        byte_offset(text, n + 1) == byte_offset(text, n) + char_width(text[n]),
{
    let one = seq![text[n]];
    assert(text.take(n + 1) =~= text.take(n) + one);
    lemma_encode_concat(text.take(n), one);
    assert(one.drop_first() =~= Seq::<char>::empty());
    assert(encode_utf8(one) =~= encode_scalar(text[n] as u32)) by {
        reveal_with_fuel(encode_utf8, 2);
    }
}

/// Offsets start at zero, and no character takes less than a byte.
pub proof fn lemma_byte_offset_lower(text: Seq<char>, n: int)
    requires
        0 <= n <= text.len(),
    ensures
        byte_offset(text, 0) == 0,
        n <= byte_offset(text, n),
    decreases n,
{
    assert(text.take(0) =~= Seq::<char>::empty());
    if n > 0 {
        lemma_byte_offset_lower(text, n - 1);
        lemma_byte_offset_step(text, n - 1);
    }
}

/// Offsets grow with the index, strictly.
pub proof fn lemma_byte_offset_increases(text: Seq<char>, i: int, j: int)
    requires
        0 <= i <= j <= text.len(),
    ensures
        byte_offset(text, i) + (j - i) <= byte_offset(text, j),
    decreases j - i,
{
    if i < j {
        lemma_byte_offset_increases(text, i, j - 1);
        lemma_byte_offset_step(text, j - 1);
    }
}

/// Two indices with the same offset are the same index.
pub proof fn lemma_byte_offset_unique(text: Seq<char>, i: int, j: int)
    requires
        0 <= i <= text.len(),
        0 <= j <= text.len(),
        byte_offset(text, i) == byte_offset(text, j),
    ensures
        i == j,
{
    if i < j {
        lemma_byte_offset_increases(text, i, j);
    } else if j < i {
        lemma_byte_offset_increases(text, j, i);
    }
}

/// The offset of the end of the text is the length of its encoding.
pub proof fn lemma_byte_offset_end(text: Seq<char>)
    ensures
        byte_offset(text, text.len() as int) == encode_utf8(text).len(),
{
    assert(text.take(text.len() as int) =~= text);
}

/// The bytes between the offsets of two indices encode the characters
/// between the indices, and decode to them.
pub proof fn lemma_byte_range_encodes(text: Seq<char>, i: int, j: int)
    requires
        0 <= i <= j <= text.len(),
    ensures
        0 <= byte_offset(text, i) <= byte_offset(text, j) <= encode_utf8(text).len(),
        encode_utf8(text).subrange(byte_offset(text, i), byte_offset(text, j)) == encode_utf8(
            text.subrange(i, j),
        ),
        decode_utf8(encode_utf8(text).subrange(byte_offset(text, i), byte_offset(text, j)))
            == text.subrange(i, j),
{
    let head = text.take(i);
    let mid = text.subrange(i, j);
    let tail = text.skip(j);
    assert(text.take(j) =~= head + mid);
    assert(text =~= text.take(j) + tail);
    lemma_encode_concat(head, mid);
    lemma_encode_concat(text.take(j), tail);
    assert(encode_utf8(text).subrange(byte_offset(text, i), byte_offset(text, j)) =~= encode_utf8(
        mid,
    ));
    encode_utf8_decode_utf8(mid);
}

/// The encoding of no character is cut at the offset of an index.
pub proof fn lemma_byte_offset_is_boundary(text: Seq<char>, n: int)
    requires
        0 <= n <= text.len(),
    ensures
        is_char_boundary(encode_utf8(text), byte_offset(text, n)),
    decreases n,
{
    let bytes = encode_utf8(text);
    encode_utf8_valid_utf8(text);
    if n > 0 {
        let rest = text.drop_first();
        encode_utf8_first_scalar(text);
        assert(pop_first_scalar(bytes) =~= encode_utf8(rest));
        lemma_byte_offset_is_boundary(rest, n - 1);
        assert(text.take(n) =~= seq![text[0]] + rest.take(n - 1));
        assert(text.take(n).drop_first() =~= rest.take(n - 1));
        lemma_byte_offset_increases(text, 0, n);
        lemma_byte_offset_increases(text, n, text.len() as int);
        lemma_byte_offset_lower(text, n);
        lemma_byte_offset_end(text);
    } else {
        lemma_byte_offset_lower(text, n);
    }
}

} // verus!
