//! What the values of a text are, said without running the scanner: where
//! a value starts and ends, which gaps between tags give one, and how many
//! there are.

use crate::encoding::lemma_byte_range_encodes;
use crate::machine::{
    faults, lemma_scan_consistent, scan, value_ranges, value_spans, value_texts, well_nested,
};
use crate::token::{classify, is_control, is_whitespace};
use crate::values::{is_slice_of, lemma_span_is_slice, slice_of, Values};
use vstd::prelude::*;

verus! {

/// None of the characters `from .. to` is a `<` or a `>`.
pub open spec fn no_bracket(text: Seq<char>, from: int, to: int) -> bool {
    forall|k: int|
        from <= k < to ==> !(classify(#[trigger] text[k]) is LeftCroc) && !(classify(text[k])
            is RightCroc)
}

/// None of the characters `from .. to` is taken into a value: each is a
/// whitespace, a control character, `=`, `/`, `"` or a bracket.
pub open spec fn no_text(text: Seq<char>, from: int, to: int) -> bool {
    forall|k: int| from <= k < to ==> !(classify(#[trigger] text[k]) is Char)
}

/// Over characters that are no brackets, the scanner stays in its state and
/// completes no run. Outside `Value` it changes nothing at all; in `Value`
/// a run that is in progress stays in progress with the same start, and
/// without a character of text nothing changes but the count.
pub proof fn lemma_no_bracket(text: Seq<char>, from: int, to: int)
    requires
        0 <= from <= to <= text.len(),
        no_bracket(text, from, to),
    ensures
        scan(text, to).state == scan(text, from).state,
        scan(text, to).found == scan(text, from).found,
        !(scan(text, from).state is Value) ==> scan(text, to) == scan(text, from),
        scan(text, from).start is Some ==> scan(text, to).start == scan(text, from).start,
        no_text(text, from, to) ==> scan(text, to).start == scan(text, from).start && scan(
            text,
            to,
        ).end == scan(text, from).end,
        scan(text, to).start is Some ==> scan(text, from).start is Some || !no_text(
            text,
            from,
            to,
        ),
        scan(text, from).state is Value && !no_text(text, from, to) ==> scan(text, to).start
            is Some,
    decreases to - from,
{
    if from < to {
        lemma_no_bracket(text, from, to - 1);
        let c = text[to - 1];
        assert(!(classify(c) is LeftCroc) && !(classify(c) is RightCroc));
        if no_text(text, from, to) {
            assert(!(classify(c) is Char));
            assert(no_text(text, from, to - 1));
        }
        if scan(text, to).start is Some && scan(text, from).start is None {
            if no_text(text, from, to - 1) {
                assert(classify(text[to - 1]) is Char);
            }
        }
        if scan(text, from).state is Value && !no_text(text, from, to) {
            if no_text(text, from, to - 1) {
                assert(classify(c) is Char);
            }
        }
    }
}

/// Where text is collected and no run is in progress, characters that are
/// no brackets, with text from `first` to `last` and none around it, leave
/// a run in progress that starts at `first` and ends behind `last`.
pub proof fn lemma_run_in_progress(text: Seq<char>, from: int, first: int, last: int, to: int)
    requires
        0 <= from <= first <= last < to <= text.len(),
        scan(text, from).state is Value,
        scan(text, from).start is None,
        no_bracket(text, from, to),
        classify(text[first]) is Char,
        classify(text[last]) is Char,
        no_text(text, from, first),
        no_text(text, last + 1, to),
    ensures
        scan(text, to).state is Value,
        scan(text, to).start == Some(first),
        scan(text, to).end == last + 1,
        scan(text, to).found == scan(text, from).found,
{
    assert(no_bracket(text, from, first));
    assert(no_bracket(text, first + 1, last));
    assert(no_bracket(text, last + 1, to));
    lemma_no_bracket(text, from, first);
    assert(scan(text, first + 1).start == Some(first));
    if first < last {
        lemma_no_bracket(text, first + 1, last);
    }
    assert(scan(text, last + 1).start == Some(first));
    assert(scan(text, last + 1).end == last + 1);
    lemma_no_bracket(text, last + 1, to);
}

/// The text between the `>` of a tag that ended no run and the next `<`
/// gives exactly one value where it holds a character of text: from the
/// first such character to the last, so that whitespace before and behind
/// is cut off and whitespace in between is kept.
pub proof fn lemma_gap_with_text(text: Seq<char>, open: int, first: int, last: int, close: int)
    requires
        0 <= open < first <= last < close < text.len(),
        classify(text[open]) is RightCroc,
        classify(text[close]) is LeftCroc,
        scan(text, open).state is InsideOpenBracket,
        no_bracket(text, open + 1, close),
        classify(text[first]) is Char,
        classify(text[last]) is Char,
        no_text(text, open + 1, first),
        no_text(text, last + 1, close),
    ensures
        scan(text, close + 1).found == scan(text, open).found.push((first, last + 1)),
        scan(text, close + 1).state is InsideCloseBracket,
{
    lemma_scan_consistent(text, open);
    assert(scan(text, open + 1).state is Value);
    lemma_run_in_progress(text, open + 1, first, last, close);
    lemma_scan_consistent(text, close);
}

/// The text between the `>` of a tag and the next `<` gives no value where
/// it holds no character of text: a gap of whitespace and line breaks, or
/// an empty one, is passed over.
pub proof fn lemma_gap_without_text(text: Seq<char>, open: int, close: int)
    requires
        0 <= open < close < text.len(),
        classify(text[open]) is RightCroc,
        classify(text[close]) is LeftCroc,
        !faults(scan(text, open).state, text[open]),
        no_bracket(text, open + 1, close),
        no_text(text, open + 1, close),
    ensures
        scan(text, close + 1).found == scan(text, open).found,
        scan(text, close + 1).state is InsideOpenBracket,
{
    lemma_scan_consistent(text, open);
    lemma_no_bracket(text, open + 1, close);
    lemma_scan_consistent(text, close);
}

/// The text between the `>` of the tag that ended a run and the next `<`
/// gives no value, whatever it holds.
pub proof fn lemma_gap_after_value(text: Seq<char>, open: int, close: int)
    requires
        0 <= open < close < text.len(),
        classify(text[open]) is RightCroc,
        classify(text[close]) is LeftCroc,
        scan(text, open).state is InsideCloseBracket,
        no_bracket(text, open + 1, close),
    ensures
        scan(text, close + 1).found == scan(text, open).found,
        scan(text, close + 1).state is InsideOpenBracket,
{
    lemma_scan_consistent(text, open);
    lemma_no_bracket(text, open + 1, close);
}

/// The `<` at `from` opens a tag that no `>` closes before `at`.
pub open spec fn opens_tag(text: Seq<char>, from: int, at: int) -> bool {
    &&& 0 <= from < at
    &&& classify(text[from]) is LeftCroc
    &&& forall|k: int| from < k < at ==> !(classify(#[trigger] text[k]) is RightCroc)
}

/// A tag is open before the character `at`: a `<` stands before it, and no
/// `>` between the two.
pub open spec fn tag_open_before(text: Seq<char>, at: int) -> bool {
    exists|from: int| opens_tag(text, from, at)
}

/// The scanner is inside a tag exactly where a tag is open.
pub proof fn lemma_inside_tag(text: Seq<char>, n: int)
    requires
        0 <= n <= text.len(),
    ensures
        scan(text, n).state is InsideOpenBracket || scan(text, n).state is InsideCloseBracket
            <==> tag_open_before(text, n),
    decreases n,
{
    if n > 0 {
        let m = n - 1;
        lemma_inside_tag(text, m);
        let c = text[m];
        if classify(c) is LeftCroc {
            assert(opens_tag(text, m, n));
        } else if classify(c) is RightCroc {
            assert forall|from: int| !opens_tag(text, from, n) by {
                if opens_tag(text, from, n) && from < m {
                    assert(!(classify(text[m]) is RightCroc));
                }
            }
        } else {
            if tag_open_before(text, m) {
                let from = choose|from: int| opens_tag(text, from, m);
                assert(opens_tag(text, from, n));
            }
            if tag_open_before(text, n) {
                let from = choose|from: int| opens_tag(text, from, n);
                assert(opens_tag(text, from, m));
            }
        }
    } else {
        assert forall|from: int| !opens_tag(text, from, n) by {}
    }
}

/// A text is accepted exactly if each `>` of it closes a tag: a `<`
/// stands before it, and no other `>` between the two.
pub proof fn lemma_well_nested(text: Seq<char>)
    ensures
        well_nested(text) <==> forall|i: int|
            0 <= i < text.len() && classify(#[trigger] text[i]) is RightCroc ==> tag_open_before(
                text,
                i,
            ),
{
    assert forall|i: int| 0 <= i < text.len() implies (faults(
        #[trigger] scan(text, i).state,
        text[i],
    ) <==> classify(text[i]) is RightCroc && !tag_open_before(text, i)) by {
        lemma_inside_tag(text, i);
    }
    if well_nested(text) {
        assert forall|i: int|
            0 <= i < text.len() && classify(#[trigger] text[i]) is RightCroc implies tag_open_before(
            text,
            i,
        ) by {
            assert(!faults(scan(text, i).state, text[i]));
        }
    }
}

/// The span `span` is what is left of the gap between the `>` at `open`
/// and the `<` at `close` when the characters that are no text are cut off
/// at both ends.
pub open spec fn is_trimmed_gap(text: Seq<char>, span: (int, int), open: int, close: int) -> bool {
    &&& 0 <= open < span.0 < span.1 <= close < text.len()
    &&& classify(text[open]) is RightCroc
    &&& classify(text[close]) is LeftCroc
    &&& no_bracket(text, open + 1, close)
    &&& classify(text[span.0]) is Char
    &&& classify(text[span.1 - 1]) is Char
    &&& no_text(text, open + 1, span.0)
    &&& no_text(text, span.1, close)
}

/// After `n` characters text is collected since the `>` at `open`, and a
/// run in progress starts at the first character of text behind it and
/// ends at the last one so far.
spec fn collecting_since(text: Seq<char>, n: int, open: int) -> bool {
    let s = scan(text, n);
    &&& 0 <= open < n
    &&& classify(text[open]) is RightCroc
    &&& no_bracket(text, open + 1, n)
    &&& match s.start {
        None => no_text(text, open + 1, n),
        Some(first) => {
            &&& open < first < s.end <= n
            &&& classify(text[first]) is Char
            &&& classify(text[s.end - 1]) is Char
            &&& no_text(text, open + 1, first)
            &&& no_text(text, s.end, n)
        },
    }
}

proof fn lemma_collecting(text: Seq<char>, n: int) -> (open: int)
    requires
        well_nested(text),
        0 <= n <= text.len(),
        scan(text, n).state is Value,
    ensures
        collecting_since(text, n, open),
    decreases n,
{
    let before = scan(text, n - 1);
    lemma_scan_consistent(text, n - 1);
    assert(!faults(before.state, text[n - 1]));
    if before.state is Value {
        let open = lemma_collecting(text, n - 1);
        assert(collecting_since(text, n, open));
        open
    } else {
        n - 1
    }
}

proof fn lemma_found_is_trimmed_gap(text: Seq<char>, n: int, k: int) -> (ends: (int, int))
    requires
        well_nested(text),
        0 <= n <= text.len(),
        0 <= k < scan(text, n).found.len(),
    ensures
        is_trimmed_gap(text, scan(text, n).found[k], ends.0, ends.1),
    decreases n,
{
    let before = scan(text, n - 1);
    lemma_scan_consistent(text, n - 1);
    if k < before.found.len() {
        lemma_found_is_trimmed_gap(text, n - 1, k)
    } else {
        let open = lemma_collecting(text, n - 1);
        (open, n - 1)
    }
}

/// Every value is a gap between a `>` and the next `<`, cut down to its
/// first and last character of text: it holds no bracket, and whitespace
/// only inside.
pub proof fn lemma_value_is_trimmed_gap(text: Seq<char>, k: int)
    requires
        well_nested(text),
        0 <= k < value_spans(text).len(),
    ensures
        exists|open: int, close: int| is_trimmed_gap(text, value_spans(text)[k], open, close),
{
    let ends = lemma_found_is_trimmed_gap(text, text.len() as int, k);
    assert(is_trimmed_gap(text, value_spans(text)[k], ends.0, ends.1));
}

/// No value is empty, none holds a bracket, and none starts or ends with
/// whitespace or a control character.
pub proof fn lemma_value_is_trimmed(text: Seq<char>, k: int)
    requires
        well_nested(text),
        0 <= k < value_texts(text).len(),
    ensures
        value_texts(text)[k].len() > 0,
        !is_blank(value_texts(text)[k].first()),
        !is_blank(value_texts(text)[k].last()),
        forall|i: int|
            0 <= i < value_texts(text)[k].len() ==> (#[trigger] value_texts(text)[k][i]) != '<'
                && value_texts(text)[k][i] != '>',
{
    let span = value_spans(text)[k];
    let ends = lemma_found_is_trimmed_gap(text, text.len() as int, k);
    let value = value_texts(text)[k];
    assert(value == text.subrange(span.0, span.1));
    assert(value.first() == text[span.0]);
    assert(value.last() == text[span.1 - 1]);
    assert forall|i: int| 0 <= i < value.len() implies (#[trigger] value[i]) != '<' && value[i]
        != '>' by {
        assert(value[i] == text[span.0 + i]);
    }
}

/// The values stand in the order of the text and apart from each other.
pub proof fn lemma_values_in_order(text: Seq<char>, j: int, k: int)
    requires
        0 <= j < k < value_spans(text).len(),
    ensures
        0 <= value_spans(text)[j].0 < value_spans(text)[j].1 < value_spans(text)[k].0
            < value_spans(text)[k].1 < text.len(),
{
    lemma_scan_consistent(text, text.len() as int);
}

/// Whitespace of any kind: within a line, a line break, or another
/// control character.
pub open spec fn is_blank(c: char) -> bool {
    is_whitespace(c) || is_control(c)
}

/// The gap between the `>` at `open` and the `<` at `close` is a run of
/// text: no bracket stands in it, and not all of it is blank.
pub open spec fn is_text_run(text: Seq<char>, open: int, close: int) -> bool {
    &&& 0 <= open < close < text.len()
    &&& classify(text[open]) is RightCroc
    &&& classify(text[close]) is LeftCroc
    &&& no_bracket(text, open + 1, close)
    &&& exists|k: int| open < k < close && !is_blank(#[trigger] text[k])
}

/// A run of text ends at the `<` at `close`.
pub open spec fn ends_text_run(text: Seq<char>, close: int) -> bool {
    exists|open: int| is_text_run(text, open, close)
}

/// How many runs of text end with a `<` among the first `n` characters.
pub open spec fn text_runs(text: Seq<char>, n: int) -> nat
    decreases n,
{
    if n <= 0 {
        0
    } else if ends_text_run(text, n - 1) {
        text_runs(text, n - 1) + 1
    } else {
        text_runs(text, n - 1)
    }
}

/// Every run of text stands behind a tag that ended no value, and holds a
/// character that is taken into a value. A run behind the tag that closes
/// another run, or one made of `=`, `/` and `"` alone, is not of this kind.
pub open spec fn runs_are_collected(text: Seq<char>) -> bool {
    forall|open: int, close: int| #[trigger]
        is_text_run(text, open, close) ==> scan(text, open).state is InsideOpenBracket
            && !no_text(text, open + 1, close)
}

proof fn lemma_found_counts_runs(text: Seq<char>, n: int)
    requires
        well_nested(text),
        runs_are_collected(text),
        0 <= n <= text.len(),
    ensures
        scan(text, n).found.len() == text_runs(text, n),
    decreases n,
{
    if n > 0 {
        let close = n - 1;
        let before = scan(text, close);
        lemma_found_counts_runs(text, close);
        lemma_scan_consistent(text, close);
        if classify(text[close]) is LeftCroc {
            if before.state is Value && before.start is Some {
                let open = lemma_collecting(text, close);
                let first = before.start->0;
                assert(!is_blank(text[first]));
                assert(is_text_run(text, open, close));
            } else if ends_text_run(text, close) {
                let open = choose|open: int| is_text_run(text, open, close);
                lemma_scan_consistent(text, open);
                assert(scan(text, open + 1).state is Value);
                lemma_no_bracket(text, open + 1, close);
            }
        } else {
            assert(!ends_text_run(text, close));
        }
    }
}

/// In a text whose runs of text all stand where the scanner collects, and
/// hold something to collect, there are as many values as there are gaps
/// between a `>` and the next `<` that are not empty and not all blank.
pub proof fn lemma_one_value_per_text_run(text: Seq<char>)
    requires
        well_nested(text),
        runs_are_collected(text),
    ensures
        value_spans(text).len() == text_runs(text, text.len() as int),
{
    lemma_found_counts_runs(text, text.len() as int);
}

/// No value cuts a character in two: the byte range of each starts and
/// ends between two characters, and the bytes in it spell the characters
/// of the value, as they stand in the text.
pub proof fn lemma_values_keep_characters(text: Seq<char>)
    ensures
        value_ranges(text).len() == value_spans(text).len(),
        value_texts(text).len() == value_spans(text).len(),
        forall|k: int|
            0 <= k < value_spans(text).len() ==> is_slice_of(
                #[trigger] value_ranges(text)[k],
                text,
            ) && slice_of(text, value_ranges(text)[k]) == value_texts(text)[k],
{
    lemma_scan_consistent(text, text.len() as int);
    assert forall|k: int| 0 <= k < value_spans(text).len() implies is_slice_of(
        #[trigger] value_ranges(text)[k],
        text,
    ) && slice_of(text, value_ranges(text)[k]) == value_texts(text)[k] by {
        let span = value_spans(text)[k];
        lemma_span_is_slice(text, span.0, span.1);
        lemma_byte_range_encodes(text, span.0, span.1);
    }
}

/// Two scans of one text give the same values in the same order.
pub proof fn lemma_scan_repeatable(text: Seq<char>, first: Values, second: Values)
    requires
        first.is_scan_of(text),
        second.is_scan_of(text),
    ensures
        first@ == second@,
        first.ranges() == second.ranges(),
{
}

} // verus!
