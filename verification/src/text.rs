//! The mathematical model of a text: a sequence of UTF-8 bytes, with its
//! code point boundaries and its lines, and the set of places where one
//! grapheme cluster ends and the next begins.
//!
//! Every contract of the buffer engine is stated over these functions.

use vstd::prelude::*;

verus! {

/// The line feed byte, the only byte that ends a line.
pub open spec fn is_line_feed(b: u8) -> bool {
    b == 0x0A
}

/// Whether `b` continues a code point that an earlier byte began.
pub open spec fn is_continuation(b: u8) -> bool {
    0x80 <= b < 0xC0
}

/// Whether `offset` is a code point boundary of `bytes`: the end of the
/// text, or the place of a byte that begins a code point. In a text that is
/// valid UTF-8 the first byte begins one, so that 0 is a boundary too.
pub open spec fn is_char_boundary(bytes: Seq<u8>, offset: int) -> bool {
    0 <= offset <= bytes.len() && (offset == bytes.len() || !is_continuation(bytes[offset]))
}

/// The text with the bytes of `[start, end)` taken out.
pub open spec fn without_range(bytes: Seq<u8>, start: int, end: int) -> Seq<u8> {
    bytes.subrange(0, start) + bytes.subrange(end, bytes.len() as int)
}

/// The text with `piece` put in at `offset`.
pub open spec fn with_piece(bytes: Seq<u8>, offset: int, piece: Seq<u8>) -> Seq<u8> {
    bytes.subrange(0, offset) + piece + bytes.subrange(offset, bytes.len() as int)
}

/// The number of line feeds in `bytes`.
pub open spec fn count_line_feeds(bytes: Seq<u8>) -> nat
    decreases bytes.len(),
{
    if bytes.len() == 0 {
        0
    } else {
        count_line_feeds(bytes.drop_last()) + if is_line_feed(bytes.last()) {
            1nat
        } else {
            0nat
        }
    }
}

/// The number of lines of the text. A last line feed closes the last line
/// and opens no empty one after it; the empty text has no line.
pub open spec fn line_count(bytes: Seq<u8>) -> nat {
    if bytes.len() == 0 {
        0
    } else if is_line_feed(bytes.last()) {
        count_line_feeds(bytes)
    } else {
        count_line_feeds(bytes) + 1
    }
}

/// The line in which `offset` lies: the number of line feeds before it.
pub open spec fn line_of_byte(bytes: Seq<u8>, offset: int) -> nat {
    count_line_feeds(bytes.subrange(0, offset))
}

/// The offset at which line `line` starts: 0 for the first line, the byte
/// after the `line`-th line feed for a later one, and the end of the text
/// where it has fewer line feeds than that.
pub open spec fn byte_of_line(bytes: Seq<u8>, line: int) -> int
    decreases bytes.len(),
{
    if line <= 0 || bytes.len() == 0 {
        0
    } else if line <= count_line_feeds(bytes.drop_last()) {
        byte_of_line(bytes.drop_last(), line)
    } else {
        bytes.len() as int
    }
}

/// The text of line `line`, without the line feed, or the carriage return
/// and line feed, that ends it.
pub open spec fn line_text(bytes: Seq<u8>, line: int) -> Seq<u8> {
    let raw = bytes.subrange(byte_of_line(bytes, line), byte_of_line(bytes, line + 1));
    if raw.len() >= 2 && is_line_feed(raw[raw.len() - 1]) && raw[raw.len() - 2] == 0x0D {
        raw.subrange(0, raw.len() - 2)
    } else if raw.len() >= 1 && is_line_feed(raw[raw.len() - 1]) {
        raw.subrange(0, raw.len() - 1)
    } else {
        raw
    }
}

/// Where the text of line `line` ends: before the line feed, or the carriage
/// return and line feed, that ends the line, and at the end of the text for
/// a last line that nothing ends.
pub open spec fn line_text_end(bytes: Seq<u8>, line: int) -> int {
    byte_of_line(bytes, line) + line_text(bytes, line).len()
}

/// Whether `offset` lies between two grapheme clusters of the text `bytes`
/// whose breaks are `breaks`: it is a code point boundary, and one of the
/// two ends of the text or one of the breaks. The breaks are the places
/// strictly inside the text where one cluster ends and the next begins.
pub open spec fn is_grapheme_boundary(bytes: Seq<u8>, breaks: Set<int>, offset: int) -> bool {
    is_char_boundary(bytes, offset) && (offset == 0 || offset == bytes.len() || breaks.contains(
        offset,
    ))
}

/// The number of grapheme boundaries of the text after `from`, up to and
/// including `to`.
pub open spec fn boundaries_between(bytes: Seq<u8>, breaks: Set<int>, from: int, to: int) -> nat
    decreases to - from,
{
    if to <= from {
        0
    } else if is_grapheme_boundary(bytes, breaks, to) {
        boundaries_between(bytes, breaks, from, to - 1) + 1
    } else {
        boundaries_between(bytes, breaks, from, to - 1)
    }
}

/// The number of grapheme clusters between the start of the line that holds
/// `offset` and `offset` itself: the grapheme boundaries of the text after
/// the start of the line, up to and including `offset`.
pub open spec fn grapheme_column(bytes: Seq<u8>, breaks: Set<int>, offset: int) -> nat {
    boundaries_between(
        bytes,
        breaks,
        byte_of_line(bytes, line_of_byte(bytes, offset) as int),
        offset,
    )
}

/// The pieces put one after the other.
pub open spec fn joined(pieces: Seq<Seq<u8>>) -> Seq<u8>
    decreases pieces.len(),
{
    if pieces.len() == 0 {
        Seq::empty()
    } else {
        joined(pieces.drop_last()) + pieces.last()
    }
}

/// A line starts inside the text.
pub proof fn lemma_byte_of_line_in_range(bytes: Seq<u8>, line: int)
    ensures
        0 <= byte_of_line(bytes, line) <= bytes.len(),
    decreases bytes.len(),
{
    if line > 0 && bytes.len() > 0 && line <= count_line_feeds(bytes.drop_last()) {
        lemma_byte_of_line_in_range(bytes.drop_last(), line);
    }
}

/// A later line does not start before an earlier one.
pub proof fn lemma_byte_of_line_monotonic(bytes: Seq<u8>, a: int, b: int)
    requires
        a <= b,
    ensures
        byte_of_line(bytes, a) <= byte_of_line(bytes, b),
    decreases bytes.len(),
{
    lemma_byte_of_line_in_range(bytes, a);
    lemma_byte_of_line_in_range(bytes, b);
    if a > 0 && bytes.len() > 0 && b <= count_line_feeds(bytes.drop_last()) {
        lemma_byte_of_line_monotonic(bytes.drop_last(), a, b);
    }
}

/// A prefix holds no more line feeds than the whole.
pub proof fn lemma_line_of_byte_bounded(bytes: Seq<u8>, offset: int)
    requires
        0 <= offset <= bytes.len(),
    ensures
        line_of_byte(bytes, offset) <= count_line_feeds(bytes),
    decreases bytes.len() - offset,
{
    if offset == bytes.len() {
        assert(bytes.subrange(0, offset) =~= bytes);
    } else {
        lemma_line_of_byte_bounded(bytes, offset + 1);
        assert(bytes.subrange(0, offset + 1).drop_last() =~= bytes.subrange(0, offset));
    }
}

/// No offset lies on a line past the last line feed, and the line count is
/// at least the number of the line that an offset lies on.
pub proof fn lemma_line_of_byte_is_line(bytes: Seq<u8>, offset: int)
    requires
        0 <= offset <= bytes.len(),
    ensures
        line_of_byte(bytes, offset) <= line_count(bytes),
{
    lemma_line_of_byte_bounded(bytes, offset);
    if bytes.len() == 0 {
        assert(bytes.subrange(0, offset) =~= bytes);
    }
}

/// The line that holds an offset starts at or before the offset.
pub proof fn lemma_line_starts_before(bytes: Seq<u8>, offset: int)
    requires
        0 <= offset <= bytes.len(),
    ensures
        0 <= byte_of_line(bytes, line_of_byte(bytes, offset) as int) <= offset,
    decreases bytes.len(),
{
    let line = line_of_byte(bytes, offset) as int;
    lemma_byte_of_line_in_range(bytes, line);
    if line > 0 && bytes.len() > 0 {
        let init = bytes.drop_last();
        if offset < bytes.len() {
            assert(bytes.subrange(0, offset) =~= init.subrange(0, offset));
            lemma_line_of_byte_bounded(init, offset);
            lemma_line_starts_before(init, offset);
        } else {
            assert(bytes.subrange(0, offset) =~= bytes);
            if line <= count_line_feeds(init) {
                assert(init.subrange(0, offset - 1) =~= init);
                lemma_line_starts_before(init, offset - 1);
            }
        }
    }
}


/// A line past the last line feed starts at the end of the text.
pub proof fn lemma_byte_of_line_past(bytes: Seq<u8>, line: int)
    requires
        line > count_line_feeds(bytes),
    ensures
        byte_of_line(bytes, line) == bytes.len(),
{
    if bytes.len() > 0 {
        assert(count_line_feeds(bytes.drop_last()) <= count_line_feeds(bytes));
    }
}

/// A later offset lies on no earlier line.
pub proof fn lemma_line_of_byte_monotonic(bytes: Seq<u8>, a: int, b: int)
    requires
        0 <= a <= b <= bytes.len(),
    ensures
        line_of_byte(bytes, a) <= line_of_byte(bytes, b),
    decreases b - a,
{
    if a < b {
        lemma_line_of_byte_monotonic(bytes, a, b - 1);
        assert(bytes.subrange(0, b).drop_last() =~= bytes.subrange(0, b - 1));
    }
}

/// The start of a line lies on that line, and a line after the first starts
/// right after a line feed.
pub proof fn lemma_line_of_line_start(bytes: Seq<u8>, line: int)
    requires
        0 <= line <= count_line_feeds(bytes),
    ensures
        line_of_byte(bytes, byte_of_line(bytes, line)) == line,
        line >= 1 ==> byte_of_line(bytes, line) >= 1 && is_line_feed(
            bytes[byte_of_line(bytes, line) - 1],
        ),
    decreases bytes.len(),
{
    if line <= 0 || bytes.len() == 0 {
        assert(bytes.subrange(0, 0) =~= Seq::<u8>::empty());
    } else {
        let init = bytes.drop_last();
        if line <= count_line_feeds(init) {
            lemma_line_of_line_start(init, line);
            let p = byte_of_line(init, line);
            lemma_byte_of_line_in_range(init, line);
            assert(bytes.subrange(0, p) =~= init.subrange(0, p));
            assert(bytes[p - 1] == init[p - 1]);
        } else {
            assert(bytes.subrange(0, bytes.len() as int) =~= bytes);
        }
    }
}

/// The text of a line lies between the start of the line and the start of
/// the next, and ends on a code point boundary where the next line starts
/// on one.
pub proof fn lemma_line_text_end(bytes: Seq<u8>, line: int)
    ensures
        0 <= byte_of_line(bytes, line) <= line_text_end(bytes, line) <= byte_of_line(
            bytes,
            line + 1,
        ) <= bytes.len(),
        is_char_boundary(bytes, byte_of_line(bytes, line + 1)) ==> is_char_boundary(
            bytes,
            line_text_end(bytes, line),
        ),
{
    lemma_byte_of_line_monotonic(bytes, line, line + 1);
    lemma_byte_of_line_in_range(bytes, line);
    lemma_byte_of_line_in_range(bytes, line + 1);
    let from = byte_of_line(bytes, line);
    let to = byte_of_line(bytes, line + 1);
    let raw = bytes.subrange(from, to);
    if raw.len() >= 1 {
        assert(raw[raw.len() - 1] == bytes[to - 1]);
    }
    if raw.len() >= 2 {
        assert(raw[raw.len() - 2] == bytes[to - 2]);
    }
}

/// Every offset from the start of a line to the end of its text lies on
/// that line.
pub proof fn lemma_line_of_byte_on_line(bytes: Seq<u8>, line: int, offset: int)
    requires
        0 <= line < line_count(bytes),
        byte_of_line(bytes, line) <= offset <= line_text_end(bytes, line),
    ensures
        0 <= offset <= bytes.len(),
        line_of_byte(bytes, offset) == line,
{
    let count = count_line_feeds(bytes) as int;
    lemma_byte_of_line_in_range(bytes, line);
    lemma_byte_of_line_in_range(bytes, line + 1);
    lemma_byte_of_line_monotonic(bytes, line, line + 1);
    lemma_line_of_line_start(bytes, line);
    let from = byte_of_line(bytes, line);
    let to = byte_of_line(bytes, line + 1);
    let raw = bytes.subrange(from, to);
    assert(line_text(bytes, line).len() <= raw.len());
    lemma_line_of_byte_monotonic(bytes, from, offset);
    if line < count {
        lemma_line_of_line_start(bytes, line + 1);
        assert(raw[raw.len() - 1] == bytes[to - 1]);
        assert(offset <= to - 1);
        lemma_line_of_byte_monotonic(bytes, offset, to - 1);
        assert(bytes.subrange(0, to).drop_last() =~= bytes.subrange(0, to - 1));
    } else {
        lemma_line_of_byte_bounded(bytes, offset);
    }
}

} // verus!
