//! The two operations that move the cursors over the text and leave the
//! text alone: sideways by grapheme clusters, and up and down by lines.

use crate::buffer::TextBuffer;
use crate::cursor_map::{cursor_entries, cursors_insert, cursors_new, has_key};
use crate::edit::cursors_fit;
use crate::cursor_map::{lemma_rank_of, rank_of};
use crate::pane::{bare_cursors_at, lemma_bare_cursors_at, Pane, PaneId, Selection};
use crate::rope::{
    rope_breaks, rope_byte, rope_byte_len, rope_byte_of_line, rope_bytes, rope_is_grapheme_boundary,
    rope_line_len, rope_line_of_byte,
};
use crate::text::{
    boundaries_between, byte_of_line, grapheme_column, is_char_boundary, is_grapheme_boundary,
    is_line_feed, lemma_byte_of_line_in_range, lemma_byte_of_line_past,
    lemma_line_of_byte_is_line, lemma_line_of_byte_on_line, lemma_line_starts_before,
    lemma_line_text_end, line_count, line_of_byte, line_text_end,
};
use crop::Rope;
use vstd::prelude::*;

verus! {

/// The nearest grapheme boundary at or before `offset`; 0 where there is no
/// other.
pub open spec fn boundary_at_or_before(bytes: Seq<u8>, breaks: Set<int>, offset: int) -> int
    decreases offset,
{
    if offset <= 0 {
        0
    } else if is_grapheme_boundary(bytes, breaks, offset) {
        offset
    } else {
        boundary_at_or_before(bytes, breaks, offset - 1)
    }
}

/// The nearest grapheme boundary at or after `offset`; the end of the text
/// where there is no other.
pub open spec fn boundary_at_or_after(bytes: Seq<u8>, breaks: Set<int>, offset: int) -> int
    decreases bytes.len() - offset,
{
    if offset >= bytes.len() {
        bytes.len() as int
    } else if is_grapheme_boundary(bytes, breaks, offset) {
        offset
    } else {
        boundary_at_or_after(bytes, breaks, offset + 1)
    }
}

/// One grapheme cluster to the left of `offset`, and no further than the
/// start of the text.
pub open spec fn step_left(bytes: Seq<u8>, breaks: Set<int>, offset: int) -> int {
    boundary_at_or_before(bytes, breaks, offset - 1)
}

/// One grapheme cluster to the right of `offset`, and no further than the
/// end of the text.
pub open spec fn step_right(bytes: Seq<u8>, breaks: Set<int>, offset: int) -> int {
    boundary_at_or_after(bytes, breaks, offset + 1)
}

/// Where a cursor at `offset` stands after `count` steps: to the right for a
/// positive count, to the left for a negative one.
pub open spec fn horizontal_target(bytes: Seq<u8>, breaks: Set<int>, offset: int, count: int) -> int
    decreases
            if count < 0 {
                -count
            } else {
                count
            },
{
    if count == 0 {
        offset
    } else if count > 0 {
        horizontal_target(bytes, breaks, step_right(bytes, breaks, offset), count - 1)
    } else {
        horizontal_target(bytes, breaks, step_left(bytes, breaks, offset), count + 1)
    }
}

/// The remembered column after the cursors moved sideways by `count`: the
/// old column plus the count, held inside what a `usize` can take.
pub open spec fn shifted_column(column: usize, count: int) -> usize {
    if column + count < 0 {
        0
    } else if column + count > usize::MAX {
        usize::MAX
    } else {
        (column + count) as usize
    }
}

/// The line on which a cursor at `offset` stands after moving down by
/// `count` lines: no line before the first, none past the line count.
pub open spec fn target_line(bytes: Seq<u8>, offset: int, count: int) -> int {
    let line = line_of_byte(bytes, offset) + count;
    if line < 0 {
        0
    } else if line > line_count(bytes) {
        line_count(bytes) as int
    } else {
        line
    }
}

/// Where a walk of at most `steps` grapheme clusters from `offset` stops on
/// a line whose text ends at `end`: at `end` at the latest.
pub open spec fn column_walk(
    bytes: Seq<u8>,
    breaks: Set<int>,
    offset: int,
    end: int,
    steps: nat,
) -> int
    decreases steps,
{
    if steps == 0 || offset >= end {
        offset
    } else if step_right(bytes, breaks, offset) >= end {
        end
    } else {
        column_walk(bytes, breaks, step_right(bytes, breaks, offset), end, (steps - 1) as nat)
    }
}

/// Where a cursor at `offset` stands after moving down by `count` lines and
/// then `column` grapheme clusters into the line: at the end of the line's
/// text where the line is shorter than that.
pub open spec fn vertical_target(
    bytes: Seq<u8>,
    breaks: Set<int>,
    offset: int,
    count: int,
    column: nat,
) -> int {
    let line = target_line(bytes, offset, count);
    column_walk(bytes, breaks, byte_of_line(bytes, line), line_text_end(bytes, line), column)
}

/// Where `steps` steps to the right of `offset` lead.
pub open spec fn steps_right(bytes: Seq<u8>, breaks: Set<int>, offset: int, steps: nat) -> int
    decreases steps,
{
    if steps == 0 {
        offset
    } else {
        steps_right(bytes, breaks, step_right(bytes, breaks, offset), (steps - 1) as nat)
    }
}

/// Whether `column` steps from the start of line `line` stay inside the
/// text of the line: the line is at least `column` grapheme clusters long,
/// or it is a last line that nothing ends, where steps stop at the end.
pub open spec fn line_reaches(bytes: Seq<u8>, breaks: Set<int>, line: int, column: nat) -> bool {
    steps_right(bytes, breaks, byte_of_line(bytes, line), column) <= line_text_end(bytes, line)
}

/// The offsets to which a move takes the cursors, in the order of the
/// cursors.
pub open spec fn moved(starts: Seq<int>, target: spec_fn(int) -> int) -> Seq<usize> {
    Seq::new(starts.len(), |i: int| target(starts[i]) as usize)
}

/// The boundary at or before an offset of the text is a grapheme boundary
/// of the text at or before it, given that the text starts with one.
pub proof fn lemma_boundary_at_or_before(bytes: Seq<u8>, breaks: Set<int>, offset: int)
    requires
        offset <= bytes.len(),
        is_char_boundary(bytes, 0),
    ensures
        0 <= boundary_at_or_before(bytes, breaks, offset),
        offset >= 0 ==> boundary_at_or_before(bytes, breaks, offset) <= offset,
        is_grapheme_boundary(bytes, breaks, boundary_at_or_before(bytes, breaks, offset)),
    decreases offset,
{
    if offset > 0 && !is_grapheme_boundary(bytes, breaks, offset) {
        lemma_boundary_at_or_before(bytes, breaks, offset - 1);
    }
}

/// The boundary at or after an offset of the text is a grapheme boundary of
/// the text at or after it.
pub proof fn lemma_boundary_at_or_after(bytes: Seq<u8>, breaks: Set<int>, offset: int)
    requires
        0 <= offset,
    ensures
        boundary_at_or_after(bytes, breaks, offset) <= bytes.len(),
        offset <= bytes.len() ==> offset <= boundary_at_or_after(bytes, breaks, offset),
        is_grapheme_boundary(bytes, breaks, boundary_at_or_after(bytes, breaks, offset)),
    decreases bytes.len() - offset,
{
    if offset < bytes.len() && !is_grapheme_boundary(bytes, breaks, offset) {
        lemma_boundary_at_or_after(bytes, breaks, offset + 1);
    }
}

/// Moving left from the start of the text stays at the start, and moving
/// right from the end of the text stays at the end, however many steps are
/// asked for.
pub proof fn lemma_horizontal_clamps(bytes: Seq<u8>, breaks: Set<int>, count: int)
    ensures
        count <= 0 ==> horizontal_target(bytes, breaks, 0, count) == 0,
        count >= 0 ==> horizontal_target(bytes, breaks, bytes.len() as int, count) == bytes.len(),
    decreases
            if count < 0 {
                -count
            } else {
                count
            },
{
    if count < 0 {
        lemma_horizontal_clamps(bytes, breaks, count + 1);
    } else if count > 0 {
        lemma_horizontal_clamps(bytes, breaks, count - 1);
    }
}

/// A sideways move never leaves the text, and after at least one step the
/// cursor stands on a grapheme boundary.
pub proof fn lemma_horizontal_in_range(bytes: Seq<u8>, breaks: Set<int>, offset: int, count: int)
    requires
        0 <= offset <= bytes.len(),
        is_char_boundary(bytes, 0),
    ensures
        0 <= horizontal_target(bytes, breaks, offset, count) <= bytes.len(),
        count != 0 ==> is_grapheme_boundary(
            bytes,
            breaks,
            horizontal_target(bytes, breaks, offset, count),
        ),
    decreases
            if count < 0 {
                -count
            } else {
                count
            },
{
    if count > 0 {
        lemma_boundary_at_or_after(bytes, breaks, offset + 1);
        lemma_horizontal_in_range(bytes, breaks, step_right(bytes, breaks, offset), count - 1);
    } else if count < 0 {
        lemma_boundary_at_or_before(bytes, breaks, offset - 1);
        lemma_horizontal_in_range(bytes, breaks, step_left(bytes, breaks, offset), count + 1);
    }
}


/// A sideways move by a count other than 0 ends on a grapheme boundary of
/// a text that begins with a whole code point.
pub proof fn lemma_horizontal_on_boundary(
    bytes: Seq<u8>,
    breaks: Set<int>,
    offset: int,
    count: int,
)
    requires
        0 <= offset <= bytes.len(),
        count != 0,
        is_char_boundary(bytes, 0),
    ensures
        is_grapheme_boundary(bytes, breaks, horizontal_target(bytes, breaks, offset, count)),
    decreases
            if count < 0 {
                -count
            } else {
                count
            },
{
    if count > 0 {
        let next = step_right(bytes, breaks, offset);
        lemma_boundary_at_or_after(bytes, breaks, offset + 1);
        if count > 1 {
            lemma_horizontal_on_boundary(bytes, breaks, next, count - 1);
        } else {
            assert(horizontal_target(bytes, breaks, next, 0) == next);
        }
    } else {
        let next = step_left(bytes, breaks, offset);
        lemma_boundary_at_or_before(bytes, breaks, offset - 1);
        if count < -1 {
            lemma_horizontal_on_boundary(bytes, breaks, next, count + 1);
        } else {
            assert(horizontal_target(bytes, breaks, next, 0) == next);
        }
    }
}

/// The grapheme boundary at or before `offset`.
pub(crate) fn seek_back(contents: &Rope, offset: usize) -> (found: usize)
    requires
        offset <= rope_bytes(*contents).len(),
    ensures
        found == boundary_at_or_before(
            rope_bytes(*contents),
            rope_breaks(*contents),
            offset as int,
        ),
        found <= offset,
        is_grapheme_boundary(rope_bytes(*contents), rope_breaks(*contents), found as int),
{
    let mut start = offset;
    while !rope_is_grapheme_boundary(contents, start)
        invariant
            start <= offset <= rope_bytes(*contents).len(),
            boundary_at_or_before(
                rope_bytes(*contents),
                rope_breaks(*contents),
                start as int,
            ) == boundary_at_or_before(rope_bytes(*contents), rope_breaks(*contents), offset as int),
        decreases start,
    {
        start -= 1;
    }
    start
}

/// The grapheme boundary at or after `offset`.
fn seek_forward(contents: &Rope, byte_len: usize, offset: usize) -> (found: usize)
    requires
        byte_len == rope_bytes(*contents).len(),
        offset <= byte_len,
    ensures
        found == boundary_at_or_after(rope_bytes(*contents), rope_breaks(*contents), offset as int),
        offset <= found <= rope_bytes(*contents).len(),
        is_grapheme_boundary(rope_bytes(*contents), rope_breaks(*contents), found as int),
{
    let mut start = offset;
    while !rope_is_grapheme_boundary(contents, start)
        invariant
            offset <= start <= byte_len == rope_bytes(*contents).len(),
            boundary_at_or_after(
                rope_bytes(*contents),
                rope_breaks(*contents),
                start as int,
            ) == boundary_at_or_after(rope_bytes(*contents), rope_breaks(*contents), offset as int),
        decreases rope_bytes(*contents).len() - start,
    {
        start += 1;
    }
    start
}

/// Where a cursor at `start` stands after `offset` steps sideways.
fn walk_sideways(contents: &Rope, start: usize, offset: i64) -> (end: usize)
    requires
        start <= rope_bytes(*contents).len(),
    ensures
        end == horizontal_target(
            rope_bytes(*contents),
            rope_breaks(*contents),
            start as int,
            offset as int,
        ),
        end <= rope_bytes(*contents).len(),
        offset != 0 ==> is_grapheme_boundary(
            rope_bytes(*contents),
            rope_breaks(*contents),
            end as int,
        ),
        offset == 0 ==> end == start,
{
    let byte_len = rope_byte_len(contents);
    let ghost bytes = rope_bytes(*contents);
    let ghost breaks = rope_breaks(*contents);
    let mut position = start;
    let mut left: i64 = offset;
    while left != 0
        invariant
            position <= byte_len == bytes.len(),
            bytes == rope_bytes(*contents),
            breaks == rope_breaks(*contents),
            offset >= 0 ==> 0 <= left <= offset,
            offset <= 0 ==> offset <= left <= 0,
            horizontal_target(bytes, breaks, position as int, left as int) == horizontal_target(
                bytes,
                breaks,
                start as int,
                offset as int,
            ),
            left != offset ==> is_grapheme_boundary(bytes, breaks, position as int),
            left == offset ==> position == start,
        decreases
                if left < 0 {
                    -left
                } else {
                    left as int
                },
    {
        if left > 0 {
            if position == byte_len {
                proof {
                    lemma_horizontal_clamps(bytes, breaks, left as int);
                    if left == offset {
                        lemma_horizontal_clamps(bytes, breaks, (left - 1) as int);
                        lemma_boundary_at_or_after(bytes, breaks, position + 1);
                    }
                }
                position = seek_forward(contents, byte_len, position);
                left = 0;
            } else {
                position = seek_forward(contents, byte_len, position + 1);
                left -= 1;
            }
        } else {
            if position == 0 {
                proof {
                    lemma_horizontal_clamps(bytes, breaks, left as int);
                }
                position = seek_back(contents, position);
                left = 0;
            } else {
                position = seek_back(contents, position - 1);
                left += 1;
            }
        }
    }
    position
}

/// The remembered column after a sideways move by `offset`.
fn shift_column(column: usize, offset: i64) -> (shifted: usize)
    ensures
        shifted == shifted_column(column, offset as int),
{
    let sum: i128 = column as i128 + offset as i128;
    if sum < 0 {
        0
    } else if sum > usize::MAX as i128 {
        usize::MAX
    } else {
        sum as usize
    }
}


/// The map of bare cursors at `targets`.
fn collect_cursors(targets: &Vec<usize>) -> (cursors: im::OrdMap<usize, Selection>)
    ensures
        cursor_entries(cursors) == bare_cursors_at(targets@),
{
    let mut cursors = cursors_new();
    let mut i: usize = 0;
    proof {
        assert(targets@.take(0) =~= Seq::<usize>::empty());
    }
    while i < targets.len()
        invariant
            i <= targets.len(),
            cursor_entries(cursors) == bare_cursors_at(targets@.take(i as int)),
        decreases targets.len() - i,
    {
        let start = targets[i];
        cursors_insert(&mut cursors, start, Selection { start, offset: 0 });
        proof {
            assert(targets@.take(i + 1).drop_last() =~= targets@.take(i as int));
        }
        i += 1;
    }
    proof {
        assert(targets@.take(i as int) =~= targets@);
    }
    cursors
}

/// What a move makes of a pane whose cursors go to `targets`, the main one
/// to `main_target`, under the column `column`.
pub(crate) fn moved_pane(
    pane: &Pane,
    targets: &Vec<usize>,
    main_target: usize,
    column: usize,
) -> (p: Pane)
    ensures
        p.entries() == bare_cursors_at(targets@),
        p.main_cursor_start == main_target,
        p.grapheme_col_offset == column,
        p.same_frame(*pane),
{
    Pane {
        cursors: collect_cursors(targets),
        main_cursor_start: main_target,
        grapheme_col_offset: column,
        buffer_id: pane.buffer_id,
        id: pane.id,
        y_offset_bits: pane.y_offset_bits,
        mode: pane.mode,
    }
}

/// A pane of bare cursors at code point boundaries of the text, one of them
/// the main cursor, is one that every operation takes.
pub(crate) proof fn lemma_moved_pane_fits(p: Pane, targets: Seq<usize>, rank: int, bytes: Seq<u8>)
    requires
        p.entries() == bare_cursors_at(targets),
        0 <= rank < targets.len(),
        p.main_cursor_start == targets[rank],
        forall|i: int| 0 <= i < targets.len() ==> is_char_boundary(bytes, #[trigger] targets[i] as int),
    ensures
        p.wf(),
        cursors_fit(p.entries(), bytes),
{
    lemma_bare_cursors_at(targets);
    assert(targets.contains(targets[rank]));
    assert forall|i: int| 0 <= i < p.entries().len() implies is_char_boundary(
        bytes,
        (#[trigger] p.entries()[i]).0 as int,
    ) by {
        let k = p.entries()[i].0;
        assert(has_key(p.entries(), k));
        assert(targets.contains(k));
    }
}

/// Whether every cursor stands on a grapheme boundary of the text.
pub open spec fn cursors_on_boundaries(
    entries: Seq<(usize, Selection)>,
    bytes: Seq<u8>,
    breaks: Set<int>,
) -> bool {
    forall|i: int|
        0 <= i < entries.len() ==> is_grapheme_boundary(
            bytes,
            breaks,
            (#[trigger] entries[i]).0 as int,
        )
}

/// A pane of bare cursors at grapheme boundaries of the text has every
/// cursor on a grapheme boundary.
pub(crate) proof fn lemma_moved_pane_on_boundaries(
    p: Pane,
    targets: Seq<usize>,
    bytes: Seq<u8>,
    breaks: Set<int>,
)
    requires
        p.entries() == bare_cursors_at(targets),
        forall|i: int|
            0 <= i < targets.len() ==> is_grapheme_boundary(
                bytes,
                breaks,
                #[trigger] targets[i] as int,
            ),
    ensures
        cursors_on_boundaries(p.entries(), bytes, breaks),
{
    lemma_bare_cursors_at(targets);
    assert forall|i: int| 0 <= i < p.entries().len() implies is_grapheme_boundary(
        bytes,
        breaks,
        (#[trigger] p.entries()[i]).0 as int,
    ) by {
        let k = p.entries()[i].0;
        assert(has_key(p.entries(), k));
        assert(targets.contains(k));
    }
}

/// The main cursor of a pane stands at the rank of its start, and no other
/// cursor starts there.
pub proof fn lemma_main_rank(p: Pane)
    requires
        p.wf(),
    ensures
        0 <= rank_of(p.entries(), p.main_cursor_start) < p.entries().len(),
        p.starts()[rank_of(p.entries(), p.main_cursor_start)] == p.main_cursor_start,
        forall|i: int|
            0 <= i < p.entries().len() && #[trigger] p.starts()[i] == p.main_cursor_start ==> i
                == rank_of(p.entries(), p.main_cursor_start),
{
    let entries = p.entries();
    let r = rank_of(entries, p.main_cursor_start);
    lemma_rank_of(entries, p.main_cursor_start);
    let w = choose|w: int| 0 <= w < entries.len() && #[trigger] entries[w].0 == p.main_cursor_start;
    if w > r {
        assert(entries[r].0 < entries[w].0);
    }
    assert forall|i: int|
        0 <= i < entries.len() && #[trigger] p.starts()[i] == p.main_cursor_start implies i
        == r by {
        if i < r {
            assert(entries[i].0 < entries[r].0);
        }
        if i > r {
            assert(entries[r].0 < entries[i].0);
        }
    }
}

impl TextBuffer {
    /// Whether `buffer` and `pane` are what a sideways move by `count`
    /// makes of this buffer and `before`: the text is as it was, every
    /// cursor stands bare where the move took it, the main cursor is still
    /// the main cursor, and the column has moved by `count`.
    pub open spec fn moved_sideways(
        self,
        count: int,
        before: Pane,
        buffer: TextBuffer,
        pane: Pane,
    ) -> bool {
        &&& buffer.bytes() == self.bytes()
        &&& buffer.breaks() == self.breaks()
        &&& buffer.file == self.file
        &&& pane.entries() == bare_cursors_at(
            moved(
                before.starts(),
                |p: int| horizontal_target(self.bytes(), self.breaks(), p, count),
            ),
        )
        &&& pane.main_cursor_start == horizontal_target(
            self.bytes(),
            self.breaks(),
            before.main_cursor_start as int,
            count,
        )
        &&& pane.grapheme_col_offset == shifted_column(before.grapheme_col_offset, count)
        &&& pane.same_frame(before)
    }

    /// Moves every cursor of the active pane sideways by `offset` grapheme
    /// clusters, to the right for a positive count, and collapses every
    /// selection. The remembered column moves by `offset` too. After a move
    /// by a count other than 0 every cursor stands on a grapheme boundary.
    pub fn move_horizontal(&self, offset: i64, panes: Vec<Pane>, active: Vec<PaneId>) -> (out: (
        TextBuffer,
        Vec<Pane>,
    ))
        requires
            self.takes(panes@, active@),
        ensures
            out.1@.len() == 1,
            self.moved_sideways(offset as int, panes@[0], out.0, out.1@[0]),
            out.0.takes(out.1@, active@),
            offset != 0 ==> cursors_on_boundaries(
                out.1@[0].entries(),
                out.0.bytes(),
                out.0.breaks(),
            ),
    {
        let pane = &panes[0];
        let selections = pane.cursors_iter();
        let ghost bytes = self.bytes();
        let ghost breaks = self.breaks();
        let ghost starts = pane.starts();
        let ghost goal = moved(starts, |p: int| horizontal_target(bytes, breaks, p, offset as int));
        let ghost rank = rank_of(pane.entries(), pane.main_cursor_start);
        proof {
            lemma_main_rank(*pane);
        }
        let mut targets: Vec<usize> = Vec::new();
        let mut main_cursor_start = usize::MAX;
        let mut i: usize = 0;
        while i < selections.len()
            invariant
                i <= selections.len(),
                selections@.len() == starts.len() == goal.len(),
                bytes == rope_bytes(self.contents),
                breaks == rope_breaks(self.contents),
                forall|k: int|
                    0 <= k < starts.len() ==> (#[trigger] selections@[k]).start == starts[k],
                forall|k: int|
                    0 <= k < starts.len() ==> is_char_boundary(bytes, #[trigger] starts[k]),
                forall|k: int|
                    0 <= k < starts.len() ==> #[trigger] goal[k] == horizontal_target(
                        bytes,
                        breaks,
                        starts[k],
                        offset as int,
                    ) as usize,
                forall|k: int|
                    0 <= k < starts.len() && #[trigger] starts[k] == pane.main_cursor_start ==> k
                        == rank,
                targets@ == goal.take(i as int),
                forall|k: int| 0 <= k < i ==> is_char_boundary(bytes, #[trigger] goal[k] as int),
                offset != 0 ==> forall|k: int|
                    0 <= k < i ==> is_grapheme_boundary(bytes, breaks, #[trigger] goal[k] as int),
                0 <= rank < starts.len(),
                starts[rank] == pane.main_cursor_start,
                i > rank ==> main_cursor_start == goal[rank] && main_cursor_start
                    == horizontal_target(bytes, breaks, starts[rank], offset as int),
            decreases selections.len() - i,
        {
            let s = selections[i];
            proof {
                assert(is_char_boundary(bytes, starts[i as int]));
            }
            let start = walk_sideways(&self.contents, s.start, offset);
            if s.start == pane.main_cursor_start {
                main_cursor_start = start;
            }
            targets.push(start);
            proof {
                assert(goal[i as int] == start);
                assert(targets@ =~= goal.take(i + 1));
                if i != rank {
                    assert(starts[i as int] != pane.main_cursor_start);
                }
            }
            i += 1;
        }
        proof {
            assert(goal.take(i as int) =~= goal);
        }
        let grapheme_col_offset = shift_column(pane.grapheme_col_offset, offset);
        let buf = self.clone();
        let pane = moved_pane(pane, &targets, main_cursor_start, grapheme_col_offset);
        proof {
            lemma_moved_pane_fits(pane, goal, rank, bytes);
            if offset != 0 {
                lemma_moved_pane_on_boundaries(pane, goal, bytes, breaks);
            }
        }
        let mut out_panes = Vec::new();
        out_panes.push(pane);
        (buf, out_panes)
    }
}


/// Where a walk of at most `column` grapheme clusters from `line_start`
/// stops, on a line whose text ends at `text_end`.
fn walk_column(
    contents: &Rope,
    byte_len: usize,
    line_start: usize,
    text_end: usize,
    column: usize,
) -> (end: usize)
    requires
        byte_len == rope_bytes(*contents).len(),
        line_start <= text_end <= byte_len,
        is_char_boundary(rope_bytes(*contents), line_start as int),
        is_char_boundary(rope_bytes(*contents), text_end as int),
    ensures
        end == column_walk(
            rope_bytes(*contents),
            rope_breaks(*contents),
            line_start as int,
            text_end as int,
            column as nat,
        ),
        line_start <= end <= text_end,
        is_char_boundary(rope_bytes(*contents), end as int),
{
    let ghost bytes = rope_bytes(*contents);
    let ghost breaks = rope_breaks(*contents);
    let mut start = line_start;
    let mut done: usize = 0;
    while done < column
        invariant
            done <= column,
            line_start <= start <= text_end <= byte_len == bytes.len(),
            bytes == rope_bytes(*contents),
            breaks == rope_breaks(*contents),
            is_char_boundary(bytes, start as int),
            is_char_boundary(bytes, text_end as int),
            column_walk(bytes, breaks, start as int, text_end as int, (column - done) as nat)
                == column_walk(bytes, breaks, line_start as int, text_end as int, column as nat),
        decreases column - done,
    {
        if start >= text_end {
            return start;
        }
        let next = seek_forward(contents, byte_len, start + 1);
        if next >= text_end {
            return text_end;
        }
        start = next;
        done += 1;
    }
    start
}

/// Where the text of the line from `line_start` to `next_start` ends: before
/// the line feed, or the carriage return and line feed, that ends it.
fn text_end_of(contents: &Rope, line_start: usize, next_start: usize) -> (end: usize)
    requires
        line_start <= next_start <= rope_bytes(*contents).len(),
    ensures
        line_start <= end <= next_start,
        ({
            let raw = rope_bytes(*contents).subrange(line_start as int, next_start as int);
            end - line_start == (if raw.len() >= 2 && is_line_feed(raw[raw.len() - 1])
                && raw[raw.len() - 2] == 0x0D {
                raw.len() - 2
            } else if raw.len() >= 1 && is_line_feed(raw[raw.len() - 1]) {
                raw.len() - 1
            } else {
                raw.len() as int
            })
        }),
{
    let ghost raw = rope_bytes(*contents).subrange(line_start as int, next_start as int);
    if next_start > line_start && rope_byte(contents, next_start - 1) == 0x0A {
        proof {
            assert(raw[raw.len() - 1] == rope_bytes(*contents)[next_start - 1]);
        }
        if next_start - 1 > line_start && rope_byte(contents, next_start - 2) == 0x0D {
            proof {
                assert(raw[raw.len() - 2] == rope_bytes(*contents)[next_start - 2]);
            }
            next_start - 2
        } else {
            proof {
                if raw.len() >= 2 {
                    assert(raw[raw.len() - 2] == rope_bytes(*contents)[next_start - 2]);
                }
            }
            next_start - 1
        }
    } else {
        proof {
            if raw.len() >= 1 {
                assert(raw[raw.len() - 1] == rope_bytes(*contents)[next_start - 1]);
            }
        }
        next_start
    }
}

/// The line `offset` lines below `line`, held between the first line and
/// the line count.
fn clamp_line(line: usize, offset: i64, line_len: usize) -> (target: usize)
    ensures
        line + offset < 0 ==> target == 0,
        line + offset > line_len ==> target == line_len,
        0 <= line + offset <= line_len ==> target == line + offset,
{
    let sum: i128 = line as i128 + offset as i128;
    if sum < 0 {
        0
    } else if sum > line_len as i128 {
        line_len
    } else {
        sum as usize
    }
}

/// Where a cursor at `start` stands after moving down by `offset` lines
/// under the column `column`.
fn walk_lines(contents: &Rope, start: usize, offset: i64, column: usize) -> (end: usize)
    requires
        is_char_boundary(rope_bytes(*contents), start as int),
    ensures
        end == vertical_target(
            rope_bytes(*contents),
            rope_breaks(*contents),
            start as int,
            offset as int,
            column as nat,
        ),
        is_char_boundary(rope_bytes(*contents), end as int),
{
    let ghost bytes = rope_bytes(*contents);
    let ghost breaks = rope_breaks(*contents);
    let byte_len = rope_byte_len(contents);
    let line_len = rope_line_len(contents);
    let line = rope_line_of_byte(contents, start);
    let other_line = clamp_line(line, offset, line_len);
    let other_line_start = rope_byte_of_line(contents, other_line);
    let next_line_start = if other_line == line_len {
        proof {
            lemma_byte_of_line_past(bytes, other_line + 1);
        }
        byte_len
    } else {
        rope_byte_of_line(contents, other_line + 1)
    };
    proof {
        lemma_line_text_end(bytes, other_line as int);
    }
    let text_end = text_end_of(contents, other_line_start, next_line_start);
    walk_column(contents, byte_len, other_line_start, text_end, column)
}

impl TextBuffer {
    /// Whether `buffer` and `pane` are what a move down by `count` lines
    /// makes of this buffer and `before`: the text is as it was, every
    /// cursor stands bare where the move took it, the main cursor is still
    /// the main cursor, and the column is as it was.
    pub open spec fn moved_by_lines(
        self,
        count: int,
        before: Pane,
        buffer: TextBuffer,
        pane: Pane,
    ) -> bool {
        &&& buffer.bytes() == self.bytes()
        &&& buffer.breaks() == self.breaks()
        &&& buffer.file == self.file
        &&& pane.entries() == bare_cursors_at(
            moved(
                before.starts(),
                |p: int|
                    vertical_target(
                        self.bytes(),
                        self.breaks(),
                        p,
                        count,
                        before.grapheme_col_offset as nat,
                    ),
            ),
        )
        &&& pane.main_cursor_start == vertical_target(
            self.bytes(),
            self.breaks(),
            before.main_cursor_start as int,
            count,
            before.grapheme_col_offset as nat,
        )
        &&& pane.grapheme_col_offset == before.grapheme_col_offset
        &&& pane.same_frame(before)
    }

    /// Moves every cursor of the active pane down by `offset` lines, up for
    /// a negative count, and collapses every selection. Each cursor goes as
    /// many grapheme clusters into its new line as the remembered column
    /// says, or as far as the line reaches; the column itself stays.
    pub fn move_vertical(&self, offset: i64, panes: Vec<Pane>, active: Vec<PaneId>) -> (out: (
        TextBuffer,
        Vec<Pane>,
    ))
        requires
            self.takes(panes@, active@),
        ensures
            out.1@.len() == 1,
            self.moved_by_lines(offset as int, panes@[0], out.0, out.1@[0]),
            out.0.takes(out.1@, active@),
    {
        let pane = &panes[0];
        let selections = pane.cursors_iter();
        let column = pane.grapheme_col_offset;
        let ghost bytes = self.bytes();
        let ghost breaks = self.breaks();
        let ghost starts = pane.starts();
        let ghost goal = moved(
            starts,
            |p: int| vertical_target(bytes, breaks, p, offset as int, column as nat),
        );
        let ghost rank = rank_of(pane.entries(), pane.main_cursor_start);
        proof {
            lemma_main_rank(*pane);
        }
        let mut targets: Vec<usize> = Vec::new();
        let mut main_cursor_start = usize::MAX;
        let mut i: usize = 0;
        while i < selections.len()
            invariant
                i <= selections.len(),
                selections@.len() == starts.len() == goal.len(),
                bytes == rope_bytes(self.contents),
                breaks == rope_breaks(self.contents),
                forall|k: int|
                    0 <= k < starts.len() ==> (#[trigger] selections@[k]).start == starts[k],
                forall|k: int|
                    0 <= k < starts.len() ==> is_char_boundary(bytes, #[trigger] starts[k]),
                forall|k: int|
                    0 <= k < starts.len() ==> #[trigger] goal[k] == vertical_target(
                        bytes,
                        breaks,
                        starts[k],
                        offset as int,
                        column as nat,
                    ) as usize,
                forall|k: int|
                    0 <= k < starts.len() && #[trigger] starts[k] == pane.main_cursor_start ==> k
                        == rank,
                targets@ == goal.take(i as int),
                forall|k: int| 0 <= k < i ==> is_char_boundary(bytes, #[trigger] goal[k] as int),
                0 <= rank < starts.len(),
                starts[rank] == pane.main_cursor_start,
                i > rank ==> main_cursor_start == goal[rank] && main_cursor_start
                    == vertical_target(bytes, breaks, starts[rank], offset as int, column as nat),
            decreases selections.len() - i,
        {
            let s = selections[i];
            proof {
                assert(is_char_boundary(bytes, starts[i as int]));
            }
            let start = walk_lines(&self.contents, s.start, offset, column);
            if s.start == pane.main_cursor_start {
                main_cursor_start = start;
            }
            targets.push(start);
            proof {
                assert(goal[i as int] == start);
                assert(targets@ =~= goal.take(i + 1));
                if i != rank {
                    assert(starts[i as int] != pane.main_cursor_start);
                }
            }
            i += 1;
        }
        proof {
            assert(goal.take(i as int) =~= goal);
        }
        let buf = self.clone();
        let pane = moved_pane(pane, &targets, main_cursor_start, column);
        proof {
            lemma_moved_pane_fits(pane, goal, rank, bytes);
        }
        let mut out_panes = Vec::new();
        out_panes.push(pane);
        (buf, out_panes)
    }
}


/// Steps to the right never lead back, nor out of the text.
pub proof fn lemma_steps_right(bytes: Seq<u8>, breaks: Set<int>, offset: int, steps: nat)
    requires
        0 <= offset <= bytes.len(),
    ensures
        offset <= steps_right(bytes, breaks, offset, steps) <= bytes.len(),
    decreases steps,
{
    if steps > 0 {
        lemma_boundary_at_or_after(bytes, breaks, offset + 1);
        lemma_steps_right(bytes, breaks, step_right(bytes, breaks, offset), (steps - 1) as nat);
    }
}

/// A walk along a line stays between the start of the walk and the end of
/// the line's text. It takes every step where the steps do not lead past
/// that end, and stops at that end where they do.
pub proof fn lemma_column_walk(bytes: Seq<u8>, breaks: Set<int>, offset: int, end: int, steps: nat)
    requires
        0 <= offset <= end <= bytes.len(),
    ensures
        offset <= column_walk(bytes, breaks, offset, end, steps) <= end,
        steps_right(bytes, breaks, offset, steps) <= end ==> column_walk(
            bytes,
            breaks,
            offset,
            end,
            steps,
        )
            == steps_right(bytes, breaks, offset, steps),
        steps_right(bytes, breaks, offset, steps) > end ==> column_walk(
            bytes,
            breaks,
            offset,
            end,
            steps,
        ) == end,
    decreases steps,
{
    if steps > 0 {
        let next = step_right(bytes, breaks, offset);
        lemma_boundary_at_or_after(bytes, breaks, offset + 1);
        lemma_steps_right(bytes, breaks, next, (steps - 1) as nat);
        if offset < end && next < end {
            lemma_column_walk(bytes, breaks, next, end, (steps - 1) as nat);
        }
    }
}

/// A move up or down puts the cursor on the line it moves to, between the
/// start of that line and the end of its text, and so inside the text.
/// Where the line is shorter than the column, the cursor stands at the end
/// of the line's text: before the line break, or at the end of the text
/// for a last line without one.
pub proof fn lemma_vertical_on_line(
    bytes: Seq<u8>,
    breaks: Set<int>,
    start: int,
    count: int,
    column: nat,
)
    ensures
        ({
            let line = target_line(bytes, start, count);
            let target = vertical_target(bytes, breaks, start, count, column);
            &&& byte_of_line(bytes, line) <= target <= line_text_end(bytes, line) <= bytes.len()
            &&& 0 <= target
            &&& line < line_count(bytes) ==> line_of_byte(bytes, target) == line
            &&& line_reaches(bytes, breaks, line, column) ==> target == steps_right(
                bytes,
                breaks,
                byte_of_line(bytes, line),
                column,
            )
            &&& !line_reaches(bytes, breaks, line, column) ==> target == line_text_end(bytes, line)
        }),
{
    let line = target_line(bytes, start, count);
    lemma_line_text_end(bytes, line);
    lemma_byte_of_line_in_range(bytes, line);
    lemma_column_walk(bytes, breaks, byte_of_line(bytes, line), line_text_end(bytes, line), column);
    if line < line_count(bytes) {
        lemma_line_of_byte_on_line(
            bytes,
            line,
            vertical_target(bytes, breaks, start, count, column),
        );
    }
}

/// The grapheme boundaries between two offsets are those up to an offset
/// between them and those after it.
pub proof fn lemma_boundaries_split(bytes: Seq<u8>, breaks: Set<int>, from: int, mid: int, to: int)
    requires
        from <= mid <= to,
    ensures
        boundaries_between(bytes, breaks, from, to) == boundaries_between(bytes, breaks, from, mid)
            + boundaries_between(bytes, breaks, mid, to),
    decreases to - mid,
{
    if mid < to {
        lemma_boundaries_split(bytes, breaks, from, mid, to - 1);
    }
}

/// The first grapheme boundary at or after an offset comes no later than
/// any grapheme boundary at or after the offset, and it is the only one
/// from the offset up to itself.
pub proof fn lemma_first_boundary(bytes: Seq<u8>, breaks: Set<int>, offset: int, to: int)
    requires
        0 <= offset <= to <= bytes.len(),
        is_grapheme_boundary(bytes, breaks, to),
    ensures
        offset <= boundary_at_or_after(bytes, breaks, offset) <= to,
        boundaries_between(
            bytes,
            breaks,
            offset - 1,
            boundary_at_or_after(bytes, breaks, offset),
        ) == 1,
    decreases to - offset,
{
    if offset < bytes.len() && !is_grapheme_boundary(bytes, breaks, offset) {
        let found = boundary_at_or_after(bytes, breaks, offset);
        lemma_first_boundary(bytes, breaks, offset + 1, to);
        lemma_boundaries_split(bytes, breaks, offset - 1, offset, found);
        assert(boundaries_between(bytes, breaks, offset - 1, offset - 1) == 0);
    } else {
        assert(boundaries_between(bytes, breaks, offset - 1, offset - 1) == 0);
    }
}

/// A walk from an offset by as many steps as there are grapheme boundaries
/// on the way to a grapheme boundary ends at that boundary.
pub proof fn lemma_column_steps(bytes: Seq<u8>, breaks: Set<int>, from: int, to: int)
    requires
        0 <= from <= to <= bytes.len(),
        is_grapheme_boundary(bytes, breaks, to),
    ensures
        steps_right(bytes, breaks, from, boundaries_between(bytes, breaks, from, to)) == to,
    decreases to - from,
{
    if from < to {
        let next = step_right(bytes, breaks, from);
        lemma_first_boundary(bytes, breaks, from + 1, to);
        lemma_boundaries_split(bytes, breaks, from, next, to);
        lemma_column_steps(bytes, breaks, next, to);
    }
}

/// Moving by some lines and then back by as many returns a cursor to where
/// it stood, whenever the cursor stood on a grapheme boundary, the column
/// is the column of that place, the line it moves to is a line of the
/// text, and the line it stood on is at least as many grapheme clusters
/// long as the column says. The line it moves to may be shorter: the
/// column is kept while the cursor is clamped.
pub proof fn lemma_vertical_round_trip(bytes: Seq<u8>, breaks: Set<int>, start: int, count: int)
    requires
        0 <= start <= bytes.len(),
        is_grapheme_boundary(bytes, breaks, start),
        0 <= line_of_byte(bytes, start) + count < line_count(bytes),
        line_reaches(
            bytes,
            breaks,
            line_of_byte(bytes, start) as int,
            grapheme_column(bytes, breaks, start),
        ),
    ensures
        vertical_target(
            bytes,
            breaks,
            vertical_target(bytes, breaks, start, count, grapheme_column(bytes, breaks, start)),
            -count,
            grapheme_column(bytes, breaks, start),
        ) == start,
{
    let home = line_of_byte(bytes, start) as int;
    let column = grapheme_column(bytes, breaks, start);
    lemma_line_of_byte_is_line(bytes, start);
    lemma_line_starts_before(bytes, start);
    lemma_byte_of_line_in_range(bytes, home);
    lemma_column_steps(bytes, breaks, byte_of_line(bytes, home), start);
    lemma_vertical_on_line(bytes, breaks, start, count, column);
    let away = vertical_target(bytes, breaks, start, count, column);
    assert(target_line(bytes, away, -count) == home);
    lemma_vertical_on_line(bytes, breaks, away, -count, column);
}

} // verus!
