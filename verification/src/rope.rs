//! The rope that stores the text. Verus sees it through `rope_bytes`, the
//! bytes it holds, and `rope_breaks`, where it finds the breaks between
//! grapheme clusters; what each function of the rope does is stated here
//! over the two and believed, not proved.

use crate::text::{
    byte_of_line, is_char_boundary, joined, line_count, line_of_byte, line_text,
    with_piece, without_range,
};
use crop::Rope;
use vstd::prelude::*;
use vstd::utf8::encode_utf8;

verus! {

/// `crop::Rope`, a text in a balanced tree. Verus sees nothing inside it.
#[verifier::external_type_specification]
#[verifier::external_body]
pub struct ExRope(crop::Rope);

/// The bytes that a rope holds, in order.
pub uninterp spec fn rope_bytes(r: Rope) -> Seq<u8>;

/// The offsets strictly inside its text at which a rope finds that one
/// grapheme cluster ends and the next begins. They belong to the rope and
/// not to its bytes: a rope keeps its text in pieces, and where two pieces
/// meet its answer can differ from the answer of a rope that holds the same
/// bytes in other pieces.
pub uninterp spec fn rope_breaks(r: Rope) -> Set<int>;

/// `Rope::new`: the rope that it makes holds nothing.
#[verifier::external_body]
pub(crate) fn rope_new() -> (r: Rope)
    ensures
        rope_bytes(r) == Seq::<u8>::empty(),
{
    Rope::new()
}

/// `Rope::from` on a string slice: the rope holds the bytes of the string.
#[verifier::external_body]
pub(crate) fn rope_from_str(s: &str) -> (r: Rope)
    ensures
        rope_bytes(r) == encode_utf8(s@),
{
    Rope::from(s)
}

/// `Rope::clone`: the copy shares the tree of the rope, so it holds the same
/// bytes in the same pieces.
#[verifier::external_body]
pub(crate) fn rope_clone(r: &Rope) -> (c: Rope)
    ensures
        rope_bytes(c) == rope_bytes(*r),
        rope_breaks(c) == rope_breaks(*r),
{
    r.clone()
}

/// `Rope::chunks`, gathered into one string: the string's bytes are the
/// rope's.
#[verifier::external_body]
pub(crate) fn rope_to_string(r: &Rope) -> (s: String)
    ensures
        encode_utf8(s@) == rope_bytes(*r),
{
    r.chunks().collect::<String>()
}

/// `Rope::byte_len`: the number of bytes in the rope.
#[verifier::external_body]
pub(crate) fn rope_byte_len(r: &Rope) -> (n: usize)
    ensures
        n == rope_bytes(*r).len(),
{
    r.byte_len()
}

/// `Rope::byte`, which panics on an index at or past the end: the byte at
/// the index.
#[verifier::external_body]
pub(crate) fn rope_byte(r: &Rope, index: usize) -> (b: u8)
    requires
        index < rope_bytes(*r).len(),
    ensures
        b == rope_bytes(*r)[index as int],
{
    r.byte(index)
}

/// `Rope::is_char_boundary`, which panics on an offset past the end: whether
/// the offset is a code point boundary. A rope holds valid UTF-8, so the
/// answer at 0 is yes.
#[verifier::external_body]
pub(crate) fn rope_is_char_boundary(r: &Rope, offset: usize) -> (b: bool)
    requires
        offset <= rope_bytes(*r).len(),
    ensures
        b == is_char_boundary(rope_bytes(*r), offset as int),
        offset == 0 ==> b,
{
    r.is_char_boundary(offset)
}

/// `Rope::is_grapheme_boundary`, which panics on an offset past the end. It
/// answers yes at both ends of the text and no off a code point boundary;
/// what it answers elsewhere is what `rope_breaks` stands for.
#[verifier::external_body]
pub(crate) fn rope_is_grapheme_boundary(r: &Rope, offset: usize) -> (b: bool)
    requires
        offset <= rope_bytes(*r).len(),
    ensures
        b == (is_char_boundary(rope_bytes(*r), offset as int) && (offset == 0 || offset
            == rope_bytes(*r).len() || rope_breaks(*r).contains(offset as int))),
        offset == 0 ==> b,
{
    r.is_grapheme_boundary(offset)
}

/// `Rope::insert`, which panics on an offset that is past the end or off a
/// code point boundary: the text is put in at the offset.
#[verifier::external_body]
pub(crate) fn rope_insert(r: &mut Rope, offset: usize, text: &str)
    requires
        is_char_boundary(rope_bytes(*old(r)), offset as int),
    ensures
        rope_bytes(*final(r)) == with_piece(rope_bytes(*old(r)), offset as int, encode_utf8(text@)),
{
    r.insert(offset, text)
}

/// `Rope::delete`, which panics on a range that is reversed, ends past the
/// end or has an end off a code point boundary: the bytes of the range are
/// taken out.
#[verifier::external_body]
pub(crate) fn rope_delete(r: &mut Rope, start: usize, end: usize)
    requires
        start <= end,
        is_char_boundary(rope_bytes(*old(r)), start as int),
        is_char_boundary(rope_bytes(*old(r)), end as int),
    ensures
        rope_bytes(*final(r)) == without_range(rope_bytes(*old(r)), start as int, end as int),
{
    r.delete(start..end)
}

/// `Rope::line_len`: the number of lines, where a last line feed opens no
/// further line.
#[verifier::external_body]
pub(crate) fn rope_line_len(r: &Rope) -> (n: usize)
    ensures
        n == line_count(rope_bytes(*r)),
{
    r.line_len()
}

/// `Rope::line_of_byte`, called on code point boundaries only: the number of
/// line feeds before the offset.
#[verifier::external_body]
pub(crate) fn rope_line_of_byte(r: &Rope, offset: usize) -> (line: usize)
    requires
        is_char_boundary(rope_bytes(*r), offset as int),
    ensures
        line == line_of_byte(rope_bytes(*r), offset as int),
{
    r.line_of_byte(offset)
}

/// `Rope::byte_of_line`, which panics on a line past `line_len`: the offset
/// at which the line starts. A line starts at 0, after a line feed or at the
/// end, so never inside a code point.
#[verifier::external_body]
pub(crate) fn rope_byte_of_line(r: &Rope, line: usize) -> (offset: usize)
    requires
        line <= line_count(rope_bytes(*r)),
    ensures
        offset == byte_of_line(rope_bytes(*r), line as int),
        is_char_boundary(rope_bytes(*r), offset as int),
{
    r.byte_of_line(line)
}

/// `Rope::lines`, counted: it yields as many lines as `line_len` says.
#[verifier::external_body]
pub(crate) fn rope_count_lines(r: &Rope) -> (n: usize)
    ensures
        n == line_count(rope_bytes(*r)),
{
    r.lines().count()
}

/// `Rope::lines`, each line copied into a string: the lines in order, each
/// without what ends it.
#[verifier::external_body]
pub(crate) fn rope_lines(r: &Rope) -> (lines: Vec<String>)
    ensures
        lines@.len() == line_count(rope_bytes(*r)),
        forall|i: int|
            0 <= i < lines@.len() ==> encode_utf8(#[trigger] lines@[i]@) == line_text(
                rope_bytes(*r),
                i,
            ),
{
    r.lines().map(|line| line.to_string()).collect()
}

/// The bytes of each string, in the order of the strings.
pub open spec fn bytes_of_each(strings: Seq<String>) -> Seq<Seq<u8>> {
    Seq::new(strings.len(), |i: int| encode_utf8(strings[i]@))
}

/// `Rope::byte_slice` and `RopeSlice::graphemes`, each cluster copied into a
/// string. The slice panics on a range that is reversed, ends past the end
/// or has an end off a code point boundary. No cluster is empty, and one
/// after the other they are the bytes of the range. Where one cluster ends
/// and the next begins is not stated: it can depend on how the rope keeps
/// the text in pieces.
#[verifier::external_body]
pub(crate) fn rope_graphemes(r: &Rope, start: usize, end: usize) -> (clusters: Vec<String>)
    requires
        start <= end,
        is_char_boundary(rope_bytes(*r), start as int),
        is_char_boundary(rope_bytes(*r), end as int),
    ensures
        joined(bytes_of_each(clusters@)) == rope_bytes(*r).subrange(start as int, end as int),
        forall|i: int| 0 <= i < clusters@.len() ==> encode_utf8(#[trigger] clusters@[i]@).len() > 0,
{
    r.byte_slice(start..end).graphemes().map(|g| g.into_owned()).collect()
}

} // verus!
