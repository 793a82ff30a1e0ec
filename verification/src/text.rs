//! Parts of a text addressed by byte offsets into its UTF-8 encoding.

use vstd::prelude::*;
use vstd::string::*;
use vstd::utf8::*;

verus! {

/// Whether `at` is a byte offset at which a character of `text` begins, or
/// the offset just past its last character.
pub open spec fn is_boundary(text: Seq<char>, at: int) -> bool {
    0 <= at <= encode_utf8(text).len() && is_char_boundary(encode_utf8(text), at)
}

/// Whether `from..to` is a range of whole characters of `text`.
pub open spec fn is_span(text: Seq<char>, from: int, to: int) -> bool {
    from <= to && is_boundary(text, from) && is_boundary(text, to)
}

/// The characters of `text` that are encoded at the byte offsets `from..to`.
pub open spec fn span(text: Seq<char>, from: int, to: int) -> Seq<char> {
    decode_utf8(encode_utf8(text).subrange(from, to))
}

/// In valid UTF-8 a position is a character boundary exactly if it is an end
/// of the sequence or holds a byte that does not continue a character.
proof fn lemma_boundary_by_byte(bytes: Seq<u8>, at: int)
    requires
        valid_utf8(bytes),
        0 <= at <= bytes.len(),
    ensures
        is_char_boundary(bytes, at) <==> (at == 0 || at == bytes.len() || !is_continuation_byte(
            bytes[at],
        )),
{
    is_char_boundary_start_end_of_seq(bytes);
    if at < bytes.len() {
        is_char_boundary_iff_not_is_continuation_byte(bytes, at);
    }
}

/// A range of whole characters is itself valid UTF-8, and the boundaries of
/// the text that lie in it are boundaries of the range.
proof fn lemma_boundary_in_range(bytes: Seq<u8>, from: int, to: int, at: int)
    requires
        valid_utf8(bytes),
        0 <= from <= at <= to <= bytes.len(),
        is_char_boundary(bytes, from),
        is_char_boundary(bytes, to),
        is_char_boundary(bytes, at),
    ensures
        valid_utf8(bytes.subrange(from, to)),
        is_char_boundary(bytes.subrange(from, to), at - from),
{
    let head = bytes.subrange(0, to);
    valid_utf8_split(bytes, to);
    lemma_boundary_by_byte(bytes, from);
    lemma_boundary_by_byte(head, from);
    valid_utf8_split(head, from);
    assert(head.subrange(from, head.len() as int) == bytes.subrange(from, to));
    let part = bytes.subrange(from, to);
    lemma_boundary_by_byte(bytes, at);
    lemma_boundary_by_byte(part, at - from);
}

/// The whole text is the span between offset zero and its encoded length.
pub proof fn lemma_span_whole(text: Seq<char>)
    ensures
        is_boundary(text, 0),
        is_boundary(text, encode_utf8(text).len() as int),
        span(text, 0, encode_utf8(text).len() as int) == text,
{
    let bytes = encode_utf8(text);
    encode_utf8_valid_utf8(text);
    is_char_boundary_start_end_of_seq(bytes);
    assert(bytes.subrange(0, bytes.len() as int) == bytes);
    encode_utf8_decode_utf8(text);
}

/// An empty span holds no characters.
pub proof fn lemma_span_empty(text: Seq<char>, at: int)
    requires
        0 <= at <= encode_utf8(text).len(),
    ensures
        span(text, at, at) == Seq::<char>::empty(),
{
    assert(encode_utf8(text).subrange(at, at) == Seq::<u8>::empty());
    assert(valid_utf8(Seq::<u8>::empty()));
}

/// Adjacent spans join: the characters at `from..to` are those at
/// `from..mid` followed by those at `mid..to`.
pub proof fn lemma_span_join(text: Seq<char>, from: int, mid: int, to: int)
    requires
        is_span(text, from, mid),
        is_span(text, mid, to),
    ensures
        span(text, from, to) == span(text, from, mid) + span(text, mid, to),
{
    let bytes = encode_utf8(text);
    encode_utf8_valid_utf8(text);
    lemma_boundary_in_range(bytes, from, to, mid);
    let part = bytes.subrange(from, to);
    decode_utf8_split(part, mid - from);
    assert(part.subrange(0, mid - from) == bytes.subrange(from, mid));
    assert(part.subrange(mid - from, part.len() as int) == bytes.subrange(mid, to));
}

/// The length of `text` in bytes.
pub fn byte_len(text: &str) -> (n: usize)
    ensures
        n == encode_utf8(text@).len(),
{
    text.as_bytes().len()
}

/// Whether `at` is an offset at which `text` may be cut.
pub fn at_boundary(text: &str, at: usize) -> (yes: bool)
    ensures
        yes == is_boundary(text@, at as int),
{
    proof {
        encode_utf8_valid_utf8(text@);
    }
    at <= text.as_bytes().len() && text.is_char_boundary(at)
}

/// The part of `text` at the byte offsets `from..to`.
pub fn slice<'a>(text: &'a str, from: usize, to: usize) -> (part: &'a str)
    requires
        is_span(text@, from as int, to as int),
    ensures
        part@ == span(text@, from as int, to as int),
{
    let ghost bytes = encode_utf8(text@);
    proof {
        encode_utf8_valid_utf8(text@);
        lemma_boundary_in_range(bytes, 0, to as int, from as int);
        is_char_boundary_start_end_of_seq(bytes);
    }
    let (head, _) = text.split_at(to);
    proof {
        assert(head.spec_bytes() == bytes.subrange(0, to as int));
    }
    let (_, part) = head.split_at(from);
    proof {
        assert(part.spec_bytes() == bytes.subrange(from as int, to as int));
        encode_utf8_decode_utf8(part@);
    }
    part
}

/// Whether two texts hold the same characters.
pub fn same_text(a: &str, b: &str) -> (same: bool)
    ensures
        same == (a@ == b@),
{
    let left = a.as_bytes();
    let right = b.as_bytes();
    proof {
        encode_utf8_decode_utf8(a@);
        encode_utf8_decode_utf8(b@);
    }
    if left.len() != right.len() {
        return false;
    }
    let mut i: usize = 0;
    while i < left.len()
        invariant
            i <= left.len(),
            left.len() == right.len(),
            left@ == encode_utf8(a@),
            right@ == encode_utf8(b@),
            forall|k: int| 0 <= k < i ==> left@[k] == right@[k],
        decreases left.len() - i,
    {
        if left[i] != right[i] {
            return false;
        }
        i = i + 1;
    }
    proof {
        assert(left@ =~= right@);
        encode_utf8_decode_utf8(a@);
        encode_utf8_decode_utf8(b@);
    }
    true
}

} // verus!
