//! Selections, and the pane that owns the cursors of one view of a buffer.

use crate::buffer::{reset_grapheme_col_offset, TextBuffer};
use crate::cursor_map::{
    bare_cursors, cursor_entries, cursors_clone, cursors_entries, cursors_insert, cursors_new,
    cursors_remove, cursors_values, entries_insert, entries_remove, entry_values, has_key,
    keyed_by_start, keys_ascend, lemma_entries_insert, lemma_entries_remove, lemma_rank_of,
    rank_above, rank_of,
};
use crate::edit::cursors_fit;
use crate::rope::{rope_byte_len, rope_is_char_boundary};
use crate::text::{grapheme_column, is_char_boundary};
use im::OrdMap;
use vstd::prelude::*;

verus! {

/// Identifies a buffer: its place in the list of open buffers.
pub type BufferId = usize;

/// Identifies a pane: its place in the list of panes.
pub type PaneId = usize;

/// A cursor and the extent of what it selects, both as byte offsets.
///
/// With `|` for the cursor and `\` for the other end of the selection:
/// `|abc\djk` is `start: 0, offset: 3`, `|\abcdjk` is `start: 0, offset: 0`
/// and `ab\cdj|k` is `start: 5, offset: -3`.
#[derive(Debug, Copy, Clone, PartialEq, Eq, Structural)]
pub struct Selection {
    /// Where the cursor stands: 0 is before the first byte.
    pub start: usize,
    /// The signed distance from the cursor to the other end.
    pub offset: i64,
}

impl Selection {
    /// Whether the other end of the selection is an offset at all.
    pub open spec fn wf(self) -> bool {
        0 <= self.start + self.offset <= usize::MAX
    }

    /// The other end of the selection.
    pub open spec fn end_offset(self) -> int {
        self.start + self.offset
    }

    /// The selection seen from its other end.
    pub fn reverse(&self) -> (r: Selection)
        requires
            self.wf(),
            self.offset > i64::MIN,
        ensures
            r.start == self.end_offset(),
            r.offset == -self.offset,
            r.end_offset() == self.start,
    {
        Selection { start: self.end(), offset: -self.offset }
    }

    /// The other end of the selection.
    pub fn end(&self) -> (e: usize)
        requires
            self.wf(),
        ensures
            e == self.end_offset(),
    {
        let sum: i128 = self.start as i128 + self.offset as i128;
        sum as usize
    }

    /// Whether the selection is a bare cursor.
    pub fn is_empty(&self) -> (b: bool)
        ensures
            b == (self.offset == 0),
    {
        self.offset == 0
    }
}

/// How a pane reads the keys it is given.
#[derive(Debug, Clone, Copy, PartialEq, Eq, Structural)]
pub enum Mode {
    Normal,
    Insert,
}

/// What a window shows: one pane.
#[derive(Debug, Clone, Copy, PartialEq, Eq, Structural)]
pub struct Layout {
    pub pane_id: PaneId,
}

/// The cursors of one view of a buffer.
#[derive(Debug)]
pub struct Pane {
    /// The selections, each under the offset at which it starts.
    pub cursors: OrdMap<usize, Selection>,
    /// The start of the main cursor, a key of `cursors`.
    pub main_cursor_start: usize,
    /// The number of grapheme clusters between the start of the main
    /// cursor's line and the main cursor, kept so that moving up and down
    /// holds the column.
    pub grapheme_col_offset: usize,
    /// The buffer that the pane shows.
    pub buffer_id: BufferId,
    /// The pane's own place in the list of panes.
    pub id: PaneId,
    /// How far the view is scrolled, as the bit pattern of a 32-bit float.
    /// The engine carries it and never reads it.
    pub y_offset_bits: u32,
    /// How the pane reads keys.
    pub mode: Mode,
}

impl Pane {
    /// The selections with their keys, from the lowest key to the highest.
    pub open spec fn entries(self) -> Seq<(usize, Selection)> {
        cursor_entries(self.cursors)
    }

    /// The offsets at which the cursors stand, in ascending order.
    pub open spec fn starts(self) -> Seq<int> {
        Seq::new(self.entries().len(), |i: int| self.entries()[i].0 as int)
    }

    /// The pane's invariant: every selection is kept under its own start,
    /// and the main cursor is one of them.
    pub open spec fn wf(self) -> bool {
        &&& keys_ascend(self.entries())
        &&& keyed_by_start(self.entries())
        &&& has_key(self.entries(), self.main_cursor_start)
    }

    /// Whether two panes differ in their cursors at most.
    pub open spec fn same_frame(self, other: Pane) -> bool {
        &&& self.buffer_id == other.buffer_id
        &&& self.id == other.id
        &&& self.y_offset_bits == other.y_offset_bits
        &&& self.mode == other.mode
    }

    /// A pane on `buffer_id` with one bare cursor before the first byte.
    pub fn new(buffer_id: BufferId, pane_id: PaneId) -> (p: Pane)
        ensures
            p.entries() == seq![(0usize, Selection { start: 0, offset: 0 })],
            p.main_cursor_start == 0,
            p.grapheme_col_offset == 0,
            p.buffer_id == buffer_id,
            p.id == pane_id,
            p.y_offset_bits == 0,
            p.mode == Mode::Normal,
            p.wf(),
    {
        let mut cursors = cursors_new();
        let start: usize = 0;
        cursors_insert(&mut cursors, start, Selection { start, offset: 0 });
        let p = Pane {
            cursors,
            main_cursor_start: 0,
            grapheme_col_offset: 0,
            buffer_id,
            id: pane_id,
            y_offset_bits: 0,
            mode: Mode::Normal,
        };
        proof {
            let first = (0usize, Selection { start: 0, offset: 0 });
            assert(p.entries() =~= seq![first]);
            assert(p.entries()[0].0 == 0);
        }
        p
    }

    /// The selections in ascending order of their keys.
    pub fn cursors_iter(&self) -> (selections: Vec<Selection>)
        ensures
            selections@ == entry_values(self.entries()),
            keys_ascend(self.entries()),
    {
        cursors_values(&self.cursors)
    }

    /// Whether the pane's invariant holds.
    pub fn is_wf(&self) -> (b: bool)
        ensures
            b == self.wf(),
    {
        let entries = cursors_entries(&self.cursors);
        let mut found = false;
        let mut i: usize = 0;
        while i < entries.len()
            invariant
                i <= entries.len(),
                entries@ == self.entries(),
                forall|k: int| 0 <= k < i ==> (#[trigger] entries@[k]).1.start == entries@[k].0,
                found == exists|k: int|
                    0 <= k < i && #[trigger] entries@[k].0 == self.main_cursor_start,
            decreases entries.len() - i,
        {
            if entries[i].1.start != entries[i].0 {
                return false;
            }
            if entries[i].0 == self.main_cursor_start {
                found = true;
            }
            i += 1;
        }
        found
    }

    /// Whether every cursor stands on a code point boundary of the text of
    /// `buffer`.
    pub fn fits(&self, buffer: &TextBuffer) -> (b: bool)
        ensures
            b == cursors_fit(self.entries(), buffer.bytes()),
    {
        let entries = cursors_entries(&self.cursors);
        let byte_len = rope_byte_len(&buffer.contents);
        let mut i: usize = 0;
        while i < entries.len()
            invariant
                i <= entries.len(),
                entries@ == self.entries(),
                byte_len == buffer.bytes().len(),
                forall|k: int|
                    0 <= k < i ==> is_char_boundary(
                        buffer.bytes(),
                        (#[trigger] entries@[k]).0 as int,
                    ),
            decreases entries.len() - i,
        {
            if entries[i].0 > byte_len || !rope_is_char_boundary(&buffer.contents, entries[i].0) {
                return false;
            }
            i += 1;
        }
        true
    }

    /// The pane with its main cursor put at `new_start`, bare, in place of
    /// where it stood, and the column of the new place in `buffer`.
    pub fn set_main_cursor(&self, new_start: usize, buffer: &TextBuffer) -> (p: Pane)
        requires
            is_char_boundary(buffer.bytes(), new_start as int),
        ensures
            p.entries() == entries_insert(
                entries_remove(self.entries(), self.main_cursor_start),
                new_start,
                Selection { start: new_start, offset: 0 },
            ),
            p.main_cursor_start == new_start,
            p.grapheme_col_offset == grapheme_column(
                buffer.bytes(),
                buffer.breaks(),
                new_start as int,
            ),
            p.same_frame(*self),
            keys_ascend(self.entries()) && keyed_by_start(self.entries()) ==> p.wf(),
            keys_ascend(self.entries()) && cursors_fit(self.entries(), buffer.bytes())
                ==> cursors_fit(p.entries(), buffer.bytes()),
    {
        let mut cursors = cursors_clone(&self.cursors);
        cursors_remove(&mut cursors, self.main_cursor_start);
        cursors_insert(&mut cursors, new_start, Selection { start: new_start, offset: 0 });
        let p = Pane {
            cursors,
            main_cursor_start: new_start,
            grapheme_col_offset: reset_grapheme_col_offset(&buffer.contents, new_start),
            buffer_id: self.buffer_id,
            id: self.id,
            y_offset_bits: self.y_offset_bits,
            mode: self.mode,
        };
        proof {
            let old = self.entries();
            let cut = entries_remove(old, self.main_cursor_start);
            let cursor = Selection { start: new_start, offset: 0 };
            if keys_ascend(old) {
                lemma_entries_remove(old, self.main_cursor_start);
                lemma_entries_insert(cut, new_start, cursor);
                if keyed_by_start(old) {
                    assert(keyed_by_start(cut)) by {
                        assert forall|i: int| 0 <= i < cut.len() implies (#[trigger] cut[i]).1.start
                            == cut[i].0 by {
                            let w = choose|w: int| 0 <= w < old.len() && old[w] == cut[i];
                            assert(old[w].1.start == old[w].0);
                        }
                    }
                    lemma_insert_keeps_keyed(cut, new_start, cursor);
                }
                if cursors_fit(old, buffer.bytes()) {
                    assert forall|i: int| 0 <= i < p.entries().len() implies is_char_boundary(
                        buffer.bytes(),
                        (#[trigger] p.entries()[i]).0 as int,
                    ) by {
                        let e = p.entries()[i];
                        if e.0 != new_start {
                            assert(cut.contains(e));
                            let w = choose|w: int| 0 <= w < cut.len() && cut[w] == e;
                            assert(old.contains(cut[w]));
                            let v = choose|v: int| 0 <= v < old.len() && old[v] == cut[w];
                            assert(is_char_boundary(buffer.bytes(), old[v].0 as int));
                        }
                    }
                }
            }
        }
        p
    }

    /// The pane with one more bare cursor, at `start`. The main cursor stays.
    /// A selection that started there gives way to the bare cursor.
    pub fn add_cursor(&self, start: usize) -> (p: Pane)
        ensures
            p.entries() == entries_insert(self.entries(), start, Selection { start, offset: 0 }),
            p.main_cursor_start == self.main_cursor_start,
            p.grapheme_col_offset == self.grapheme_col_offset,
            p.same_frame(*self),
            self.wf() ==> p.wf(),
    {
        let mut cursors = cursors_clone(&self.cursors);
        cursors_insert(&mut cursors, start, Selection { start, offset: 0 });
        let p = Pane {
            cursors,
            main_cursor_start: self.main_cursor_start,
            grapheme_col_offset: self.grapheme_col_offset,
            buffer_id: self.buffer_id,
            id: self.id,
            y_offset_bits: self.y_offset_bits,
            mode: self.mode,
        };
        proof {
            if self.wf() {
                lemma_insert_keeps_keyed(self.entries(), start, Selection { start, offset: 0 });
            }
        }
        p
    }
}

impl Clone for Pane {
    fn clone(&self) -> (p: Pane)
        ensures
            p.entries() == self.entries(),
            p.main_cursor_start == self.main_cursor_start,
            p.grapheme_col_offset == self.grapheme_col_offset,
            p.same_frame(*self),
    {
        Pane {
            cursors: cursors_clone(&self.cursors),
            main_cursor_start: self.main_cursor_start,
            grapheme_col_offset: self.grapheme_col_offset,
            buffer_id: self.buffer_id,
            id: self.id,
            y_offset_bits: self.y_offset_bits,
            mode: self.mode,
        }
    }
}

/// A map whose selections stand under their starts stays one when a key is
/// given a selection that starts at it.
pub proof fn lemma_insert_keeps_keyed(
    entries: Seq<(usize, Selection)>,
    key: usize,
    value: Selection,
)
    requires
        keys_ascend(entries),
        keyed_by_start(entries),
        value.start == key,
    ensures
        keys_ascend(entries_insert(entries, key, value)),
        keyed_by_start(entries_insert(entries, key, value)),
        forall|k: usize|
            #![trigger has_key(entries_insert(entries, key, value), k)]
            #![trigger has_key(entries, k)]
            has_key(entries_insert(entries, key, value), k) <==> (k == key || has_key(entries, k)),
{
    lemma_entries_insert(entries, key, value);
    let out = entries_insert(entries, key, value);
    assert forall|i: int| 0 <= i < out.len() implies (#[trigger] out[i]).1.start == out[i].0 by {
        let e = out[i];
        if e.0 != key {
            assert(entries.contains(e));
            let w = choose|w: int| 0 <= w < entries.len() && entries[w] == e;
            assert(entries[w].1.start == entries[w].0);
        }
    }
}

/// The map of bare cursors that stand at the given offsets. Offsets that
/// occur more than once give one cursor.
pub open spec fn bare_cursors_at(targets: Seq<usize>) -> Seq<(usize, Selection)>
    decreases targets.len(),
{
    if targets.len() == 0 {
        Seq::empty()
    } else {
        entries_insert(
            bare_cursors_at(targets.drop_last()),
            targets.last(),
            Selection { start: targets.last(), offset: 0 },
        )
    }
}

/// The map of bare cursors at some offsets is a map, holds bare cursors
/// only, and has a cursor at an offset exactly if the offset is among them.
pub proof fn lemma_bare_cursors_at(targets: Seq<usize>)
    ensures
        keys_ascend(bare_cursors_at(targets)),
        bare_cursors(bare_cursors_at(targets)),
        keyed_by_start(bare_cursors_at(targets)),
        forall|k: usize|
            #![trigger has_key(bare_cursors_at(targets), k)]
            #![trigger targets.contains(k)]
            has_key(bare_cursors_at(targets), k) <==> targets.contains(k),
    decreases targets.len(),
{
    let out = bare_cursors_at(targets);
    if targets.len() > 0 {
        let init = targets.drop_last();
        let key = targets.last();
        let inner = bare_cursors_at(init);
        lemma_bare_cursors_at(init);
        lemma_insert_keeps_keyed(inner, key, Selection { start: key, offset: 0 });
        lemma_entries_insert(inner, key, Selection { start: key, offset: 0 });
        assert forall|i: int| 0 <= i < out.len() implies (#[trigger] out[i]).1 == (Selection {
            start: out[i].0,
            offset: 0,
        }) by {
            let e = out[i];
            if e.0 != key {
                let w = choose|w: int| 0 <= w < inner.len() && inner[w] == e;
                assert(inner[w].1 == (Selection { start: inner[w].0, offset: 0 }));
            }
        }
        assert forall|k: usize|
            #![trigger has_key(out, k)]
            #![trigger targets.contains(k)]
            has_key(out, k) <==> targets.contains(k) by {
            if targets.contains(k) {
                let w = choose|w: int| 0 <= w < targets.len() && targets[w] == k;
                if w < init.len() {
                    assert(init[w] == k);
                    assert(init.contains(k));
                }
            }
            if init.contains(k) {
                let w = choose|w: int| 0 <= w < init.len() && init[w] == k;
                assert(targets[w] == k);
            }
            assert(targets[targets.len() - 1] == key);
            assert(has_key(inner, k) <==> init.contains(k));
        }
    } else {
        assert forall|k: usize|
            #![trigger has_key(out, k)]
            #![trigger targets.contains(k)]
            has_key(out, k) <==> targets.contains(k) by {}
    }
}

/// Adding a cursor where one stands already leaves the number of cursors as
/// it was, and adding the same cursor twice is adding it once.
pub proof fn lemma_add_cursor_idempotent(entries: Seq<(usize, Selection)>, start: usize)
    requires
        keys_ascend(entries),
    ensures
        has_key(entries, start) ==> entries_insert(
            entries,
            start,
            Selection { start, offset: 0 },
        ).len() == entries.len(),
        !has_key(entries, start) ==> entries_insert(
            entries,
            start,
            Selection { start, offset: 0 },
        ).len() == entries.len() + 1,
        entries_insert(
            entries_insert(entries, start, Selection { start, offset: 0 }),
            start,
            Selection { start, offset: 0 },
        ) == entries_insert(entries, start, Selection { start, offset: 0 }),
{
    let cursor = Selection { start, offset: 0 };
    let once = entries_insert(entries, start, cursor);
    lemma_rank_of(entries, start);
    lemma_entries_insert(entries, start, cursor);
    lemma_rank_of(once, start);
    let r = rank_of(entries, start);
    if has_key(entries, start) {
        let w = choose|w: int| 0 <= w < entries.len() && #[trigger] entries[w].0 == start;
        assert(w >= r);
        if w > r {
            assert(entries[r].0 < entries[w].0);
        }
    } else if r < entries.len() {
        assert(entries[r].0 != start);
    }
    assert(once[r] == (start, cursor));
    let r2 = rank_of(once, start);
    if r2 < r {
        assert(once[r2] == entries[r2]);
    }
    if r2 > r {
        assert(once[r].0 < start);
    }
    assert(r2 == r);
    assert(rank_above(once, start) == r + 1);
    let twice = entries_insert(once, start, cursor);
    assert(twice =~= once);
}

} // verus!
