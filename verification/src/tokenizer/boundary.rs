//! Where a text may be cut: the positions between two characters.
//!
//! The scanner walks over bytes and hands out lexemes as string slices, so
//! it has to know that the places where it cuts do not fall inside a
//! character of several bytes.

use vstd::prelude::*;
use vstd::utf8::*;

verus! {

/// An ASCII byte is a character by itself: the text may be cut before it and
/// after it.
pub proof fn lemma_cut_around_ascii(src: Seq<u8>, at: int)
    requires
        valid_utf8(src),
        0 <= at < src.len(),
        src[at] <= 0x7f,
    ensures
        is_char_boundary(src, at),
        is_char_boundary(src, at + 1),
{
    is_char_boundary_iff_not_is_continuation_byte(src, at);
    if at + 1 == src.len() {
        is_char_boundary_start_end_of_seq(src);
    } else {
        valid_utf8_split(src, at);
        let tail = src.subrange(at, src.len() as int);
        assert(tail[0] == src[at]);
        assert(valid_first_scalar(tail));
        let rest = pop_first_scalar(tail);
        assert(rest =~= src.subrange(at + 1, src.len() as int));
        assert(valid_utf8(rest));
        assert(rest[0] == src[at + 1]);
        assert(valid_first_scalar(rest));
        is_char_boundary_iff_not_is_continuation_byte(src, at + 1);
    }
}

/// The text may be cut before an ASCII byte and at its end.
pub proof fn lemma_cut_before_ascii_or_at_end(src: Seq<u8>, at: int)
    requires
        valid_utf8(src),
        0 <= at <= src.len(),
        at < src.len() ==> src[at] <= 0x7f,
    ensures
        is_char_boundary(src, at),
{
    if at == src.len() {
        is_char_boundary_start_end_of_seq(src);
    } else {
        is_char_boundary_iff_not_is_continuation_byte(src, at);
    }
}

/// A place where a text may be cut is also one where any of its prefixes
/// that reaches as far may be cut, provided the prefix ends between two
/// characters itself.
pub proof fn lemma_cut_in_prefix(src: Seq<u8>, at: int, end: int)
    requires
        valid_utf8(src),
        0 <= at <= end <= src.len(),
        is_char_boundary(src, at),
        is_char_boundary(src, end),
    ensures
        valid_utf8(src.subrange(0, end)),
        is_char_boundary(src.subrange(0, end), at),
{
    valid_utf8_split(src, end);
    let head = src.subrange(0, end);
    if at == end {
        is_char_boundary_start_end_of_seq(head);
    } else {
        is_char_boundary_iff_not_is_continuation_byte(src, at);
        assert(head[at] == src[at]);
        is_char_boundary_iff_not_is_continuation_byte(head, at);
    }
}

} // verus!
