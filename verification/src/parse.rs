//! From raw text to segments.

use crate::pattern::{captures, find, pattern_captures, pattern_find, Capture};
use crate::segment::{
    close_brackets, literal, open_brackets, open_transclusion, segment_literal, Hyperstring,
    HyperstringSegment, SegmentView,
};
use crate::text::{
    at_boundary, byte_len, is_boundary, is_span, lemma_span_empty, lemma_span_join,
    lemma_span_whole, same_text, slice, span,
};
use vstd::prelude::*;
use vstd::string::*;
use vstd::utf8::*;

verus! {

/// The pattern of a reference: `[[name]]` or `![[name]]`, the name being
/// the shortest run of characters that a `]]` follows.
pub const REFERENCE_PATTERN: &'static str = "((\\[\\[|!\\[\\[)(.+?)\\]\\])";

/// The number of the group of [`REFERENCE_PATTERN`] that holds the name.
pub const NAME_GROUP: usize = 3;

/// The matches of the reference pattern in `text`, as the search reports
/// them.
pub open spec fn reference_captures(text: Seq<char>) -> Seq<Capture> {
    match pattern_captures(REFERENCE_PATTERN@, text, NAME_GROUP) {
        Some(found) => found,
        None => Seq::empty(),
    }
}

/// Whether `capture` marks a reference of `text` that starts at or after
/// `cursor`: brackets, a name and closing brackets, each a range of whole
/// characters.
pub open spec fn fits(text: Seq<char>, cursor: int, capture: Capture) -> bool {
    &&& capture.group matches Some((name_start, name_end))
    &&& cursor <= capture.start
    &&& is_span(text, capture.start as int, name_start as int)
    &&& is_span(text, name_start as int, name_end as int)
    &&& is_span(text, name_end as int, capture.end as int)
    &&& (span(text, capture.start as int, name_start as int) == open_brackets() || span(
        text,
        capture.start as int,
        name_start as int,
    ) == open_transclusion())
    &&& span(text, name_end as int, capture.end as int) == close_brackets()
}

/// The segment that a fitting capture stands for.
pub open spec fn reference_segment(text: Seq<char>, capture: Capture) -> SegmentView {
    let (name_start, name_end) = capture.group.unwrap();
    let name = span(text, name_start as int, name_end as int);
    if span(text, capture.start as int, name_start as int) == open_transclusion() {
        SegmentView::Transclusion(name)
    } else {
        SegmentView::Link(name)
    }
}

/// The literal text at `from..to` as segments: one `Text`, or none where
/// the range is empty.
pub open spec fn text_between(text: Seq<char>, from: int, to: int) -> Seq<SegmentView> {
    if from < to {
        seq![SegmentView::Text(span(text, from, to))]
    } else {
        Seq::empty()
    }
}

/// The segments produced by `captures`, taken left to right, and the offset
/// up to which they cover `text`. A capture that does not fit behind the
/// ones before it is passed over.
pub open spec fn scan(text: Seq<char>, captures: Seq<Capture>) -> (Seq<SegmentView>, int)
    decreases captures.len(),
{
    if captures.len() == 0 {
        (Seq::empty(), 0)
    } else {
        let (done, cursor) = scan(text, captures.drop_last());
        let capture = captures.last();
        if fits(text, cursor, capture) {
            (
                done + text_between(text, cursor, capture.start as int) + seq![
                    reference_segment(text, capture),
                ],
                capture.end as int,
            )
        } else {
            (done, cursor)
        }
    }
}

/// The segments of `text`, given the references that `captures` mark: the
/// references in order, the text between them, and the text that is left
/// after the last one.
pub open spec fn segments_of(text: Seq<char>, captures: Seq<Capture>) -> Seq<SegmentView> {
    let (done, cursor) = scan(text, captures);
    done + text_between(text, cursor, encode_utf8(text).len() as int)
}

/// The literal form of two bodies in a row is that of the first followed by
/// that of the second.
pub proof fn lemma_literal_concat(first: Seq<SegmentView>, second: Seq<SegmentView>)
    ensures
        literal(first + second) == literal(first) + literal(second),
    decreases second.len(),
{
    if second.len() == 0 {
        assert(first + second == first);
    } else {
        lemma_literal_concat(first, second.drop_last());
        assert((first + second).drop_last() == first + second.drop_last());
    }
}

/// The literal form of a body of one segment is that of the segment.
pub proof fn lemma_literal_single(segment: SegmentView)
    ensures
        literal(seq![segment]) == segment_literal(segment),
{
    let body = seq![segment];
    assert(body.drop_last() == Seq::<SegmentView>::empty());
    assert(literal(body.drop_last()) == Seq::<char>::empty());
    assert(body.last() == segment);
}

/// The literal form of the text between two offsets is that text.
proof fn lemma_literal_text_between(text: Seq<char>, from: int, to: int)
    requires
        is_span(text, from, to),
    ensures
        literal(text_between(text, from, to)) == span(text, from, to),
{
    if from < to {
        lemma_literal_single(SegmentView::Text(span(text, from, to)));
    } else {
        lemma_span_empty(text, from);
    }
}

/// Whatever the captures, the scan stops at a character boundary and the
/// literal form of what it produced is the text up to there.
pub proof fn lemma_scan_covers(text: Seq<char>, captures: Seq<Capture>)
    ensures
        is_boundary(text, scan(text, captures).1),
        literal(scan(text, captures).0) == span(text, 0, scan(text, captures).1),
    decreases captures.len(),
{
    lemma_span_whole(text);
    if captures.len() == 0 {
        lemma_span_empty(text, 0);
    } else {
        let (done, cursor) = scan(text, captures.drop_last());
        let capture = captures.last();
        lemma_scan_covers(text, captures.drop_last());
        if fits(text, cursor, capture) {
            let (name_start, name_end) = capture.group.unwrap();
            let start = capture.start as int;
            let end = capture.end as int;
            let between = text_between(text, cursor, start);
            let reference = seq![reference_segment(text, capture)];
            lemma_literal_text_between(text, cursor, start);
            lemma_literal_concat(done, between);
            lemma_literal_concat(done + between, reference);
            lemma_literal_single(reference_segment(text, capture));
            lemma_span_join(text, start, name_start as int, name_end as int);
            lemma_span_join(text, start, name_end as int, end);
            assert(literal(reference) == span(text, start, end));
            lemma_span_join(text, 0, cursor, start);
            lemma_span_join(text, 0, start, end);
        }
    }
}

/// The literal form of the segments of a text is the text, whatever the
/// captures they were cut by.
pub proof fn lemma_segments_round_trip(text: Seq<char>, captures: Seq<Capture>)
    ensures
        literal(segments_of(text, captures)) == text,
{
    let (done, cursor) = scan(text, captures);
    let len = encode_utf8(text).len() as int;
    lemma_scan_covers(text, captures);
    lemma_span_whole(text);
    lemma_literal_text_between(text, cursor, len);
    lemma_literal_concat(done, text_between(text, cursor, len));
    lemma_span_join(text, 0, cursor, len);
}

/// Whether `capture` marks a reference of `text` at or after `cursor`.
fn capture_fits(text: &str, cursor: usize, capture: &Capture) -> (yes: bool)
    ensures
        yes == fits(text@, cursor as int, *capture),
{
    match capture.group {
        None => false,
        Some((name_start, name_end)) => {
            if cursor <= capture.start && capture.start <= name_start && name_start <= name_end
                && name_end <= capture.end && at_boundary(text, capture.start) && at_boundary(
                text,
                name_start,
            ) && at_boundary(text, name_end) && at_boundary(text, capture.end) {
                let opening = slice(text, capture.start, name_start);
                let closing = slice(text, name_end, capture.end);
                proof {
                    reveal_strlit("[[");
                    reveal_strlit("![[");
                    reveal_strlit("]]");
                    assert("[["@ == open_brackets());
                    assert("![["@ == open_transclusion());
                    assert("]]"@ == close_brackets());
                }
                (same_text(opening, "[[") || same_text(opening, "![[")) && same_text(
                    closing,
                    "]]",
                )
            } else {
                false
            }
        },
    }
}

impl Hyperstring {
    /// Cuts `text` into segments at the references that `captures` mark.
    /// Captures are taken in order; one that does not mark a reference
    /// behind those already taken is passed over, so the segments cover the
    /// text whatever the captures are.
    pub fn from_captures(text: &str, captures: &Vec<Capture>) -> (body: Hyperstring)
        ensures
            body@ == segments_of(text@, captures@),
            literal(body@) == text@,
    {
        let mut body = Hyperstring(Vec::new());
        let mut cursor: usize = 0;
        let mut i: usize = 0;
        proof {
            lemma_span_whole(text@);
            assert(captures@.take(0) == Seq::<Capture>::empty());
            assert(body@ == Seq::<SegmentView>::empty());
        }
        while i < captures.len()
            invariant
                i <= captures.len(),
                (body@, cursor as int) == scan(text@, captures@.take(i as int)),
                is_boundary(text@, cursor as int),
            decreases captures.len() - i,
        {
            let capture = captures[i];
            proof {
                assert(captures@.take(i + 1).drop_last() == captures@.take(i as int));
                assert(captures@.take(i + 1).last() == capture);
            }
            if capture_fits(text, cursor, &capture) {
                let (name_start, name_end) = capture.group.unwrap();
                let ghost before = body@;
                if cursor < capture.start {
                    let between = slice(text, cursor, capture.start);
                    body.0.push(HyperstringSegment::Text(between.to_string()));
                }
                assert(body@ == before + text_between(text@, cursor as int, capture.start as int));
                let ghost with_text = body@;
                let opening = slice(text, capture.start, name_start);
                let name = slice(text, name_start, name_end);
                proof {
                    reveal_strlit("![[");
                    assert("![["@ == open_transclusion());
                }
                if same_text(opening, "![[") {
                    body.0.push(HyperstringSegment::Transclusion(name.to_string()));
                } else {
                    body.0.push(HyperstringSegment::Link(name.to_string()));
                }
                assert(body@ == with_text + seq![reference_segment(text@, capture)]);
                cursor = capture.end;
            }
            i = i + 1;
        }
        proof {
            assert(captures@.take(i as int) == captures@);
            lemma_segments_round_trip(text@, captures@);
        }
        let ghost before = body@;
        let len = byte_len(text);
        if cursor < len {
            proof {
                lemma_span_whole(text@);
            }
            let rest = slice(text, cursor, len);
            body.0.push(HyperstringSegment::Text(rest.to_string()));
        }
        assert(body@ == before + text_between(text@, cursor as int, len as int));
        body
    }
}

/// Parses the body of a note into segments: every reference the pattern
/// search reports, the text between them, and the text after the last.
pub fn parse_hyperstring(input: &str) -> (body: Hyperstring)
    ensures
        body@ == segments_of(input@, reference_captures(input@)),
        literal(body@) == input@,
{
    let found = match captures(REFERENCE_PATTERN, input, NAME_GROUP) {
        Some(found) => found,
        None => Vec::new(),
    };
    Hyperstring::from_captures(input, &found)
}

/// The pattern of a leading attribute block: blank lines, one or more
/// lines that start with a key free of whitespace and colons followed by
/// `::`, and the blank lines after them.
pub const ATTRIBUTE_BLOCK_PATTERN: &'static str = "^\\n*([^\\s:]+::.*\\n)+\\n*";

/// The offset at which the attribute block at the very start of `text`
/// ends, where the search reports one.
pub open spec fn attribute_block_end(text: Seq<char>) -> Option<int> {
    match pattern_find(ATTRIBUTE_BLOCK_PATTERN@, text) {
        Some(Some((start, end))) => if start == 0 && is_boundary(text, end as int) {
            Some(end as int)
        } else {
            None
        },
        _ => None,
    }
}

/// `text` without its leading attribute block.
pub open spec fn without_attribute_block(text: Seq<char>) -> Seq<char> {
    match attribute_block_end(text) {
        Some(end) => span(text, end, encode_utf8(text).len() as int),
        None => text,
    }
}

/// Removes the attribute block at the very start of a note, with the blank
/// lines around it. A text without such a block comes back unchanged; in
/// either case what comes back is the end of the input.
pub fn strip_dataview_block(input: &str) -> (rest: String)
    ensures
        rest@ == without_attribute_block(input@),
        rest@.is_suffix_of(input@),
{
    match find(ATTRIBUTE_BLOCK_PATTERN, input) {
        Some(Some((start, end))) => {
            if start == 0 && at_boundary(input, end) {
                let len = byte_len(input);
                proof {
                    lemma_span_whole(input@);
                    lemma_span_join(input@, 0, end as int, len as int);
                }
                slice(input, end, len).to_string()
            } else {
                input.to_string()
            }
        },
        _ => input.to_string(),
    }
}

} // verus!
