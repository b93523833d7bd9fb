//! Deleting backwards: every cursor of a pane takes out the grapheme cluster
//! that stands before it.

use crate::buffer::{reset_grapheme_col_offset, TextBuffer};
use crate::cursor_map::rank_of;
use crate::motion::{
    boundary_at_or_before, lemma_main_rank, lemma_moved_pane_fits, moved_pane, seek_back,
};
use crate::pane::{bare_cursors_at, Pane, PaneId, Selection};
use crate::rope::{rope_breaks, rope_bytes, rope_clone, rope_delete};
use crate::text::{grapheme_column, is_char_boundary, without_range};
use crop::Rope;
use vstd::prelude::*;

verus! {

/// Where the grapheme cluster before a cursor at `cursor` begins, in the
/// text as it is before anything is taken out. A cursor at the start of the
/// text has none before it.
pub open spec fn deletion_start(bytes: Seq<u8>, breaks: Set<int>, cursor: int) -> int {
    boundary_at_or_before(bytes, breaks, cursor - 1)
}

/// The text once the cursors from rank `from` on have had their turn. The
/// cursors take their turns from the last to the first, so that a deletion
/// never moves a cursor that is still to come.
pub open spec fn text_after_turns(
    bytes: Seq<u8>,
    breaks: Set<int>,
    starts: Seq<int>,
    from: int,
) -> Seq<u8>
    decreases starts.len() - from,
{
    if from >= starts.len() || from < 0 {
        bytes
    } else {
        let now = text_after_turns(bytes, breaks, starts, from + 1);
        without_range(now, deletion_start(bytes, breaks, starts[from]), starts[from])
    }
}

/// The number of bytes that the cursor of rank `i` takes out.
pub open spec fn removed_at(bytes: Seq<u8>, breaks: Set<int>, starts: Seq<int>, i: int) -> int {
    starts[i] - deletion_start(bytes, breaks, starts[i])
}

/// The number of bytes that the cursors of the ranks from `from` up to, not
/// including, `to` take out together.
pub open spec fn removed_between(
    bytes: Seq<u8>,
    breaks: Set<int>,
    starts: Seq<int>,
    from: int,
    to: int,
) -> int
    decreases to - from,
{
    if from >= to {
        0
    } else {
        removed_at(bytes, breaks, starts, from) + removed_between(
            bytes,
            breaks,
            starts,
            from + 1,
            to,
        )
    }
}

/// Where the cursor of rank `i` stands in the end: left of where it stood
/// by what it and the cursors before it took out.
pub open spec fn start_after_backdelete(
    bytes: Seq<u8>,
    breaks: Set<int>,
    starts: Seq<int>,
    i: int,
) -> int {
    starts[i] - removed_between(bytes, breaks, starts, 0, i + 1)
}

/// Where the cursors stand in the end, in the order of the cursors.
pub open spec fn starts_after_backdelete(
    bytes: Seq<u8>,
    breaks: Set<int>,
    starts: Seq<int>,
) -> Seq<usize> {
    Seq::new(starts.len(), |i: int| start_after_backdelete(bytes, breaks, starts, i) as usize)
}

/// Whether no cursor takes out a cluster that reaches back past the cursor
/// before it.
pub open spec fn cursors_apart(bytes: Seq<u8>, breaks: Set<int>, starts: Seq<int>) -> bool {
    forall|i: int|
        1 <= i < starts.len() ==> starts[i - 1] <= #[trigger] deletion_start(bytes, breaks,
            starts[i],
        )
}

/// What the cursors up to a rank take out is what those before it take out
/// and what it takes out itself.
pub proof fn lemma_removed_between_last(
    bytes: Seq<u8>,
    breaks: Set<int>,
    starts: Seq<int>,
    from: int,
    to: int,
)
    requires
        from <= to,
    ensures
        removed_between(
            bytes,
            breaks,
            starts,
            from,
            to + 1,
        ) == removed_between(bytes, breaks, starts, from, to)
            + removed_at(bytes, breaks, starts, to),
    decreases to - from,
{
    if from < to {
        lemma_removed_between_last(bytes, breaks, starts, from + 1, to);
    } else {
        assert(removed_between(bytes, breaks, starts, to + 1, to + 1) == 0);
    }
}

/// A code point boundary at or after a deleted range is one of the new
/// text, moved left by the length of the range.
pub proof fn lemma_boundary_after_deletion(bytes: Seq<u8>, start: int, end: int, mark: int)
    requires
        0 <= start <= end <= mark,
        is_char_boundary(bytes, mark),
    ensures
        is_char_boundary(without_range(bytes, start, end), mark - (end - start)),
        without_range(bytes, start, end).len() == bytes.len() - (end - start),
        without_range(bytes, start, end).subrange(0, start) == bytes.subrange(0, start),
{
    let new = without_range(bytes, start, end);
    if mark < bytes.len() {
        assert(new[mark - (end - start)] == bytes[mark]);
    }
    assert(new.subrange(0, start) =~= bytes.subrange(0, start));
}


/// Where the cluster start of the cursor of rank `j` lies in the text as it
/// is once the cursors from rank `i` on have had their turn.
pub open spec fn mark_at(
    bytes: Seq<u8>,
    breaks: Set<int>,
    starts: Seq<int>,
    i: int,
    j: int,
) -> int {
    starts[j] - removed_at(bytes, breaks, starts, j) - removed_between(bytes, breaks, starts, i, j)
}

/// What holds once the cursors from rank `i` on have had their turn: the
/// text up to `low`, where the last deletion began, is as it was; the
/// cursors still to come stand at or before `low`; and every cursor that had
/// its turn has left a code point boundary at or after `low`.
pub open spec fn turns_done(
    bytes: Seq<u8>,
    breaks: Set<int>,
    starts: Seq<int>,
    i: int,
    low: int,
) -> bool {
    let now = text_after_turns(bytes, breaks, starts, i);
    &&& 0 <= i <= starts.len()
    &&& 0 <= low <= now.len()
    &&& low <= bytes.len()
    &&& now.subrange(0, low) == bytes.subrange(0, low)
    &&& is_char_boundary(now, low)
    &&& (i >= 1 ==> starts[i - 1] <= low)
    &&& forall|j: int|
        i <= j < starts.len() ==> low <= #[trigger] mark_at(
            bytes,
            breaks,
            starts,
            i,
            j,
        ) <= now.len()
            && is_char_boundary(now, mark_at(bytes, breaks, starts, i, j))
    &&& forall|j: int|
        i <= j < starts.len() && 1 <= j ==> starts[j - 1] <= #[trigger] deletion_start(
            bytes,
            breaks,
            starts[j],
        )
}

/// Whether the offsets go up, lie inside the text and are code point
/// boundaries of it.
pub open spec fn starts_fit(bytes: Seq<u8>, starts: Seq<int>) -> bool {
    &&& forall|i: int, j: int| 0 <= i < j < starts.len() ==> starts[i] < starts[j]
    &&& forall|i: int| 0 <= i < starts.len() ==> is_char_boundary(bytes, #[trigger] starts[i])
}

/// Before a turn: the cursor whose turn it is stands on a code point
/// boundary of the text as it is now.
proof fn lemma_before_turn(bytes: Seq<u8>, breaks: Set<int>, starts: Seq<int>, i: int, low: int)
    requires
        starts_fit(bytes, starts),
        turns_done(bytes, breaks, starts, i, low),
        i >= 1,
    ensures
        is_char_boundary(text_after_turns(bytes, breaks, starts, i), starts[i - 1]),
{
    let now = text_after_turns(bytes, breaks, starts, i);
    let c = starts[i - 1];
    assert(is_char_boundary(bytes, c));
    if c < low {
        assert(now.subrange(0, low)[c] == bytes.subrange(0, low)[c]);
    }
}

/// One turn: the cursor of rank `i - 1` takes out the cluster before it,
/// which begins at `d`, at or after the cursor before it.
proof fn lemma_turn(bytes: Seq<u8>, breaks: Set<int>, starts: Seq<int>, i: int, low: int, d: int)
    requires
        starts_fit(bytes, starts),
        turns_done(bytes, breaks, starts, i, low),
        i >= 1,
        d == deletion_start(bytes, breaks, starts[i - 1]),
        0 <= d <= starts[i - 1],
        is_char_boundary(bytes, d),
        i >= 2 ==> starts[i - 2] <= d,
    ensures
        turns_done(bytes, breaks, starts, i - 1, d),
        text_after_turns(bytes, breaks, starts, i - 1) == without_range(
            text_after_turns(bytes, breaks, starts, i),
            d,
            starts[i - 1],
        ),
        removed_at(bytes, breaks, starts, i - 1) == starts[i - 1] - d,
        is_char_boundary(text_after_turns(bytes, breaks, starts, i), d),
{
    let now = text_after_turns(bytes, breaks, starts, i);
    let c = starts[i - 1];
    let new = text_after_turns(bytes, breaks, starts, i - 1);
    lemma_before_turn(bytes, breaks, starts, i, low);
    assert(new == without_range(now, d, c));
    assert(is_char_boundary(now, d)) by {
        if d < low {
            assert(now.subrange(0, low)[d] == bytes.subrange(0, low)[d]);
        }
    }
    lemma_boundary_after_deletion(now, d, c, c);
    assert(new.subrange(0, d) =~= bytes.subrange(0, d)) by {
        assert(now.subrange(0, d) =~= now.subrange(0, low).subrange(0, d));
        assert(bytes.subrange(0, d) =~= bytes.subrange(0, low).subrange(0, d));
    }
    assert forall|j: int| i - 1 <= j < starts.len() implies d <= #[trigger] mark_at(
        bytes,
        breaks,
        starts,
        i - 1,
        j,
    ) <= new.len() && is_char_boundary(new, mark_at(bytes, breaks, starts, i - 1, j)) by {
        if j == i - 1 {
            assert(removed_between(bytes, breaks, starts, i - 1, i - 1) == 0);
        } else {
            let old_mark = mark_at(bytes, breaks, starts, i, j);
            assert(low <= old_mark);
            lemma_boundary_after_deletion(now, d, c, old_mark);
            assert(removed_between(bytes, breaks, starts, i - 1, j) == removed_at(
                bytes,
                breaks,
                starts,
                i - 1,
            ) + removed_between(bytes, breaks, starts, i, j));
        }
    }
    assert forall|j: int| i - 1 <= j < starts.len() && 1 <= j implies starts[j - 1]
        <= #[trigger] deletion_start(bytes, breaks, starts[j]) by {
        if j >= i {
            assert(starts[j - 1] <= deletion_start(bytes, breaks,
                starts[j],
            ));
        }
    }
}


/// The offsets at which the selections start, in the order of the
/// selections.
pub open spec fn selection_starts(selections: Seq<Selection>) -> Seq<int> {
    Seq::new(selections.len(), |i: int| selections[i].start as int)
}

/// The first pass of a backwards deletion: from the last cursor to the
/// first, each takes out the cluster before it. It gives the new text and,
/// in the order of the turns, how many bytes each cursor took out; or
/// nothing, where a cluster reaches back past the cursor before.
fn delete_before_cursors(contents: &Rope, selections: &Vec<Selection>) -> (out: Option<
    (Rope, Vec<usize>),
>)
    requires
        starts_fit(rope_bytes(*contents), selection_starts(selections@)),
    ensures
        out is Some <==> cursors_apart(
            rope_bytes(*contents),
            rope_breaks(*contents),
            selection_starts(selections@),
        ),
        out matches Some(done) ==> {
            let bytes = rope_bytes(*contents);
            let breaks = rope_breaks(*contents);
            let starts = selection_starts(selections@);
            &&& rope_bytes(done.0) == text_after_turns(bytes, breaks, starts, 0)
            &&& done.1@.len() == starts.len()
            &&& forall|k: int|
                0 <= k < starts.len() ==> #[trigger] done.1@[k] == removed_at(
                    bytes,
                    breaks,
                    starts,
                    starts.len() - 1 - k,
                )
            &&& forall|j: int|
                0 <= j < starts.len() ==> 0 <= #[trigger] start_after_backdelete(
                    bytes,
                    breaks,
                    starts,
                    j,
                )
                    && is_char_boundary(
                    rope_bytes(done.0),
                    start_after_backdelete(bytes, breaks, starts, j),
                )
        },
{
    let ghost bytes = rope_bytes(*contents);
    let ghost breaks = rope_breaks(*contents);
    let ghost starts = selection_starts(selections@);
    let ghost mut low: int = bytes.len() as int;
    let mut text = rope_clone(contents);
    let mut deleted_bytes: Vec<usize> = Vec::new();
    let mut i: usize = selections.len();
    proof {
        assert(bytes.subrange(0, low) =~= bytes);
        if i >= 1 {
            assert(is_char_boundary(bytes, starts[i - 1]));
        }
    }
    while i > 0
        invariant
            i <= selections.len() == starts.len(),
            starts == selection_starts(selections@),
            bytes == rope_bytes(*contents),
            breaks == rope_breaks(*contents),
            starts_fit(bytes, starts),
            rope_bytes(text) == text_after_turns(bytes, breaks, starts, i as int),
            turns_done(bytes, breaks, starts, i as int, low),
            deleted_bytes@.len() == starts.len() - i,
            forall|k: int|
                0 <= k < deleted_bytes@.len() ==> #[trigger] deleted_bytes@[k] == removed_at(
                    bytes,
                    breaks,
                    starts,
                    starts.len() - 1 - k,
                ),
        decreases i,
    {
        let cursor = selections[i - 1];
        let ghost now = rope_bytes(text);
        proof {
            lemma_before_turn(bytes, breaks, starts, i as int, low);
            assert(starts[i - 1] == cursor.start);
        }
        let before = if cursor.start >= 1 {
            cursor.start - 1
        } else {
            0
        };
        let start = seek_back(contents, before);
        let end = cursor.start;
        if i >= 2 && start < selections[i - 2].start {
            proof {
                assert(starts[i - 2] == selections@[i - 2].start);
                let j = i - 1;
                assert(starts[j - 1] > deletion_start(bytes, breaks, starts[j]));
                assert(!cursors_apart(bytes, breaks, starts));
            }
            return None;
        }
        proof {
            if i >= 2 {
                assert(starts[i - 2] == selections@[i - 2].start);
            }
            lemma_turn(bytes, breaks, starts, i as int, low, start as int);
            low = start as int;
        }
        rope_delete(&mut text, start, end);
        deleted_bytes.push(end - start);
        i -= 1;
    }
    proof {
        assert forall|j: int| 0 <= j < starts.len() implies 0 <= #[trigger] start_after_backdelete(
            bytes,
            breaks,
            starts,
            j,
        ) && is_char_boundary(rope_bytes(text), start_after_backdelete(bytes, breaks, starts, j)) by {
            lemma_removed_between_last(bytes, breaks, starts, 0, j);
            assert(mark_at(bytes, breaks, starts, 0, j) == start_after_backdelete(
                bytes,
                breaks,
                starts,
                j,
            ));
        }
    }
    Some((text, deleted_bytes))
}


impl TextBuffer {
    /// Whether `buffer` and `pane` are what deleting backwards from every
    /// cursor of `before` makes of this buffer and `before`: the clusters
    /// are gone, every cursor stands bare where its cluster began, the main
    /// cursor is still the main cursor, and the column is that of the main
    /// cursor's new place.
    pub open spec fn backdeleted(self, before: Pane, buffer: TextBuffer, pane: Pane) -> bool {
        let starts = before.starts();
        let text = text_after_turns(self.bytes(), self.breaks(), starts, 0);
        &&& buffer.bytes() == text
        &&& buffer.file == self.file
        &&& pane.entries() == bare_cursors_at(
            starts_after_backdelete(self.bytes(), self.breaks(), starts),
        )
        &&& pane.main_cursor_start == start_after_backdelete(
            self.bytes(),
            self.breaks(),
            starts,
            rank_of(before.entries(), before.main_cursor_start),
        )
        &&& pane.grapheme_col_offset == grapheme_column(
            text,
            buffer.breaks(),
            pane.main_cursor_start as int,
        )
        &&& pane.same_frame(before)
    }

    /// Deletes the grapheme cluster before every cursor of the active pane,
    /// from the last cursor to the first, and moves every cursor left by
    /// what it and the cursors before it took out. Cursors that meet become
    /// one. The clusters are those of the text as it is before anything is
    /// taken out. Where a cluster reaches back past the cursor before,
    /// nothing is done and `None` is the answer.
    pub fn try_backdelete_cursor(&self, panes: Vec<Pane>, active: Vec<PaneId>) -> (out: Option<
        (TextBuffer, Vec<Pane>),
    >)
        requires
            self.takes(panes@, active@),
        ensures
            out is Some <==> cursors_apart(self.bytes(), self.breaks(), panes@[0].starts()),
            out matches Some(done) ==> done.1@.len() == 1 && self.backdeleted(
                panes@[0],
                done.0,
                done.1@[0],
            ) && done.0.takes(done.1@, active@),
    {
        let pane = &panes[0];
        let selections = pane.cursors_iter();
        let ghost bytes = self.bytes();
        let ghost breaks = self.breaks();
        let ghost starts = pane.starts();
        let ghost rank = rank_of(pane.entries(), pane.main_cursor_start);
        proof {
            lemma_main_rank(*pane);
            assert(starts =~= selection_starts(selections@));
            assert forall|k: int| 0 <= k < starts.len() implies is_char_boundary(
                bytes,
                #[trigger] starts[k],
            ) by {
                assert(is_char_boundary(bytes, pane.entries()[k].0 as int));
            }
        }
        let (contents, deleted_bytes) = match delete_before_cursors(&self.contents, &selections) {
            Some(done) => done,
            None => {
                return None;
            },
        };
        let ghost text = rope_bytes(contents);
        let ghost goal = starts_after_backdelete(bytes, breaks, starts);
        let count = selections.len();
        let mut targets: Vec<usize> = Vec::new();
        let mut main_cursor_start = usize::MAX;
        let mut total: usize = 0;
        let mut i: usize = 0;
        while i < count
            invariant
                i <= count == selections.len() == starts.len() == deleted_bytes.len(),
                goal == starts_after_backdelete(bytes, breaks, starts),
                forall|k: int|
                    0 <= k < starts.len() ==> (#[trigger] selections@[k]).start == starts[k],
                forall|k: int|
                    0 <= k < starts.len() ==> #[trigger] deleted_bytes@[k] == removed_at(
                        bytes,
                        breaks,
                        starts,
                        starts.len() - 1 - k,
                    ),
                forall|j: int|
                    0 <= j < starts.len() ==> 0 <= #[trigger] start_after_backdelete(
                        bytes,
                        breaks,
                        starts,
                        j,
                    ),
                forall|k: int|
                    0 <= k < starts.len() && #[trigger] starts[k] == pane.main_cursor_start ==> k
                        == rank,
                total == removed_between(bytes, breaks, starts, 0, i as int),
                targets@ == goal.take(i as int),
                forall|k: int|
                    0 <= k < i ==> #[trigger] goal[k] == start_after_backdelete(
                        bytes,
                        breaks,
                        starts,
                        k,
                    ),
                0 <= rank < starts.len(),
                starts[rank] == pane.main_cursor_start,
                i > rank ==> main_cursor_start == goal[rank] && main_cursor_start
                    == start_after_backdelete(bytes, breaks, starts, rank),
            decreases count - i,
        {
            let s = selections[i];
            proof {
                lemma_removed_between_last(bytes, breaks, starts, 0, i as int);
                assert(0 <= start_after_backdelete(bytes, breaks, starts, i as int));
                assert(deleted_bytes@[count - 1 - i] == removed_at(
                    bytes,
                    breaks,
                    starts,
                    i as int,
                ));
            }
            total = total + deleted_bytes[count - 1 - i];
            let start = s.start - total;
            if s.start == pane.main_cursor_start {
                main_cursor_start = start;
            }
            targets.push(start);
            proof {
                assert(goal[i as int] == start);
                assert(targets@ =~= goal.take(i + 1));
                if i != rank {
                    assert(starts[i as int] != pane.main_cursor_start);
                }
            }
            i += 1;
        }
        proof {
            assert(goal.take(i as int) =~= goal);
            assert forall|k: int| 0 <= k < goal.len() implies is_char_boundary(
                text,
                #[trigger] goal[k] as int,
            ) by {
                assert(is_char_boundary(text, start_after_backdelete(bytes, breaks, starts, k)));
            }
            assert(is_char_boundary(text, goal[rank] as int));
        }
        let grapheme_col_offset = reset_grapheme_col_offset(&contents, main_cursor_start);
        let buf = TextBuffer { file: self.clone().file, contents };
        let pane = moved_pane(pane, &targets, main_cursor_start, grapheme_col_offset);
        proof {
            lemma_moved_pane_fits(pane, goal, rank, text);
        }
        let mut out_panes = Vec::new();
        out_panes.push(pane);
        Some((buf, out_panes))
    }

    /// Deletes the grapheme cluster before every cursor of the active pane,
    /// from the last cursor to the first, and moves every cursor left by
    /// what it and the cursors before it took out. Cursors that meet become
    /// one. The clusters are those of the text as it is before anything is
    /// taken out.
    pub fn backdelete_cursor(&self, panes: Vec<Pane>, active: Vec<PaneId>) -> (out: (
        TextBuffer,
        Vec<Pane>,
    ))
        requires
            self.takes(panes@, active@),
            cursors_apart(self.bytes(), self.breaks(), panes@[0].starts()),
        ensures
            out.1@.len() == 1,
            self.backdeleted(panes@[0], out.0, out.1@[0]),
            out.0.takes(out.1@, active@),
    {
        self.try_backdelete_cursor(panes, active).unwrap()
    }
}

} // verus!
