//! The two operations that change the text: typing at every cursor and
//! deleting backwards from every cursor.

use crate::buffer::{reset_grapheme_col_offset, FileInfo, TextBuffer};
use crate::cursor_map::{
    cursor_entries, cursors_insert, cursors_new, entries_insert, has_key, keyed_by_start,
    keys_ascend, lemma_rank_of, rank_of,
};
use crate::pane::{Pane, PaneId, Selection};
use crate::rope::{rope_byte_len, rope_bytes, rope_clone, rope_insert};
use crate::text::{grapheme_column, is_char_boundary, with_piece};
use vstd::prelude::*;
use vstd::utf8::encode_utf8;

verus! {

/// Whether every cursor stands on a code point boundary of the text.
pub open spec fn cursors_fit(entries: Seq<(usize, Selection)>, bytes: Seq<u8>) -> bool {
    forall|i: int|
        0 <= i < entries.len() ==> is_char_boundary(bytes, (#[trigger] entries[i]).0 as int)
}

/// The text with `piece` put in at each of the offsets `starts`, which go
/// up: the text up to the first offset, `piece`, the text between the first
/// and the second offset, `piece`, and so on to the end of the text.
pub open spec fn text_with_insertions(bytes: Seq<u8>, starts: Seq<int>, piece: Seq<u8>) -> Seq<u8>
    decreases starts.len(),
{
    if starts.len() == 0 {
        bytes
    } else {
        text_with_insertions(bytes.subrange(0, starts.last()), starts.drop_last(), piece) + piece
            + bytes.subrange(starts.last(), bytes.len() as int)
    }
}

/// Where the cursors stand after `width` bytes were typed at each of them:
/// the cursor of rank `i` has moved right by the `i + 1` pieces typed at or
/// before it, and every selection has collapsed.
pub open spec fn cursors_after_insert(starts: Seq<int>, width: int) -> Seq<(usize, Selection)> {
    Seq::new(
        starts.len(),
        |i: int|
            (
                (starts[i] + (i + 1) * width) as usize,
                Selection { start: (starts[i] + (i + 1) * width) as usize, offset: 0 },
            ),
    )
}

/// What is known of the file once the text was edited.
pub open spec fn touched(file: Option<FileInfo>) -> Option<FileInfo> {
    match file {
        Some(info) => Some(
            FileInfo { filename: info.filename, is_modified: true, file_time: info.file_time },
        ),
        None => None,
    }
}

/// Whether the offsets go strictly up and lie inside a text of `len` bytes.
pub open spec fn starts_ascend_within(starts: Seq<int>, len: int) -> bool {
    &&& forall|i: int, j: int| 0 <= i < j < starts.len() ==> starts[i] < starts[j]
    &&& forall|i: int| 0 <= i < starts.len() ==> 0 <= #[trigger] starts[i] <= len
}

/// Typing at offsets that all lie at or before `cut` leaves the text after
/// `cut` as it was.
proof fn lemma_insertions_split(bytes: Seq<u8>, starts: Seq<int>, piece: Seq<u8>, cut: int)
    requires
        starts_ascend_within(starts, cut),
        0 <= cut <= bytes.len(),
    ensures
        text_with_insertions(bytes, starts, piece) == text_with_insertions(
            bytes.subrange(0, cut),
            starts,
            piece,
        ) + bytes.subrange(cut, bytes.len() as int),
{
    if starts.len() == 0 {
        assert(bytes =~= bytes.subrange(0, cut) + bytes.subrange(cut, bytes.len() as int));
    } else {
        let last = starts.last();
        assert(bytes.subrange(0, cut).subrange(0, last) =~= bytes.subrange(0, last));
        assert(bytes.subrange(last, bytes.len() as int) =~= bytes.subrange(0, cut).subrange(
            last,
            cut,
        ) + bytes.subrange(cut, bytes.len() as int));
        let head = text_with_insertions(bytes.subrange(0, last), starts.drop_last(), piece);
        assert(head + piece + bytes.subrange(last, bytes.len() as int) =~= head + piece
            + bytes.subrange(0, cut).subrange(last, cut) + bytes.subrange(
            cut,
            bytes.len() as int,
        ));
    }
}

/// Typing grows the text by one piece for each cursor.
pub proof fn lemma_insertions_len(bytes: Seq<u8>, starts: Seq<int>, piece: Seq<u8>)
    requires
        starts_ascend_within(starts, bytes.len() as int),
    ensures
        text_with_insertions(bytes, starts, piece).len() == bytes.len() + starts.len()
            * piece.len(),
    decreases starts.len(),
{
    if starts.len() > 0 {
        let last = starts.last();
        let init = starts.drop_last();
        assert(starts_ascend_within(init, last)) by {
            assert forall|i: int| 0 <= i < init.len() implies 0 <= #[trigger] init[i] <= last by {
                assert(init[i] == starts[i]);
                assert(starts[i] < starts[starts.len() - 1]);
            }
            assert forall|i: int, j: int| 0 <= i < j < init.len() implies init[i] < init[j] by {
                assert(init[i] == starts[i] && init[j] == starts[j]);
            }
        }
        lemma_insertions_len(bytes.subrange(0, last), init, piece);
        assert((init.len() + 1) * piece.len() == init.len() * piece.len() + piece.len())
            by (nonlinear_arith);
    }
}

/// One turn of typing: with the cursors before rank `i` done, the piece for
/// the cursor of rank `i` goes in at its offset plus the `i` pieces typed
/// before it, and the cursor then stands at the end of its piece.
proof fn lemma_insertion_turn(bytes: Seq<u8>, starts: Seq<int>, piece: Seq<u8>, i: int)
    requires
        starts_ascend_within(starts, bytes.len() as int),
        0 <= i < starts.len(),
        is_char_boundary(bytes, starts[i]),
    ensures
        ({
            let now = text_with_insertions(bytes, starts.take(i), piece);
            let at = starts[i] + i * piece.len();
            let then = text_with_insertions(bytes, starts.take(i + 1), piece);
            &&& now.len() == bytes.len() + i * piece.len()
            &&& is_char_boundary(now, at)
            &&& with_piece(now, at, piece) == then
            &&& is_char_boundary(then, at + piece.len())
            &&& forall|p: int| 0 <= p < at && is_char_boundary(now, p) ==> is_char_boundary(then, p)
        }),
{
    let c = starts[i];
    let before = starts.take(i);
    let after = starts.take(i + 1);
    let now = text_with_insertions(bytes, before, piece);
    let at = c + i * piece.len();
    let then = text_with_insertions(bytes, after, piece);
    assert(starts_ascend_within(before, c)) by {
        assert forall|k: int| 0 <= k < before.len() implies 0 <= #[trigger] before[k] <= c by {
            assert(before[k] == starts[k]);
        }
    }
    lemma_insertions_split(bytes, before, piece, c);
    lemma_insertions_len(bytes.subrange(0, c), before, piece);
    let head = text_with_insertions(bytes.subrange(0, c), before, piece);
    let tail = bytes.subrange(c, bytes.len() as int);
    assert(now == head + tail);
    assert(head.len() == at);
    assert(after.drop_last() =~= before);
    assert(after.last() == c);
    assert(now.subrange(0, at) =~= head);
    assert(now.subrange(at, now.len() as int) =~= tail);
    assert(then == head + piece + tail);
    if c < bytes.len() {
        assert(now[at] == tail[0]);
        assert(then[at + piece.len()] == tail[0]);
    }
    assert forall|p: int| 0 <= p < at && is_char_boundary(now, p) implies is_char_boundary(
        then,
        p,
    ) by {
        assert(then[p] == now[p]);
    }
}

/// The cursors that typing has made so far stand left of where the next
/// piece goes in, and the next cursor joins them at the end.
proof fn lemma_cursor_turn(starts: Seq<int>, width: int, i: int, len: int)
    requires
        starts_ascend_within(starts, len),
        0 <= i < starts.len(),
        0 <= width,
        len + (i + 1) * width <= usize::MAX,
    ensures
        ({
            let sofar = cursors_after_insert(starts.take(i), width);
            let key = (starts[i] + (i + 1) * width) as usize;
            &&& key == starts[i] + i * width + width
            &&& (i + 1) * width == i * width + width
            &&& forall|k: int| 0 <= k < sofar.len() ==> (#[trigger] sofar[k]).0 < starts[i] + i * width
            &&& entries_insert(sofar, key, Selection { start: key, offset: 0 })
                == cursors_after_insert(starts.take(i + 1), width)
        }),
{
    let sofar = cursors_after_insert(starts.take(i), width);
    let key = (starts[i] + (i + 1) * width) as usize;
    assert((i + 1) * width == i * width + width) by (nonlinear_arith);
    assert(0 <= i * width) by (nonlinear_arith)
        requires
            0 <= i,
            0 <= width,
    ;
    assert forall|k: int| 0 <= k < sofar.len() implies (#[trigger] sofar[k]).0 < starts[i] + i
        * width by {
        assert(starts.take(i)[k] == starts[k]);
        assert(starts[k] < starts[i]);
        assert(0 <= (k + 1) * width <= i * width) by (nonlinear_arith)
            requires
                0 <= k + 1 <= i,
                0 <= width,
        ;
    }
    if sofar.len() > 0 {
        assert(sofar.last() == sofar[sofar.len() - 1]);
    }
    lemma_rank_of_above_all(sofar, key);
    assert(sofar.push((key, Selection { start: key, offset: 0 })) =~= cursors_after_insert(
        starts.take(i + 1),
        width,
    ));
}

impl TextBuffer {
    /// What every operation asks of what it is handed: one pane, named as
    /// the active one, whose invariant holds and whose cursors stand on code
    /// point boundaries of this text.
    pub open spec fn takes(self, panes: Seq<Pane>, active: Seq<PaneId>) -> bool {
        &&& panes.len() == 1
        &&& active.len() == 1
        &&& panes[0].id == active[0]
        &&& panes[0].wf()
        &&& cursors_fit(panes[0].entries(), self.bytes())
    }

    /// Whether `buffer` and `pane` are what typing `piece` at every cursor
    /// of `before` makes of this buffer and `before`: the piece stands at
    /// every cursor, every cursor has moved to the end of its piece, the
    /// main cursor is still the main cursor, the column is that of the main
    /// cursor's new place, and the file counts as edited.
    pub open spec fn typed_into(
        self,
        piece: Seq<u8>,
        before: Pane,
        buffer: TextBuffer,
        pane: Pane,
    ) -> bool {
        &&& buffer.bytes() == text_with_insertions(self.bytes(), before.starts(), piece)
        &&& buffer.file == touched(self.file)
        &&& pane.entries() == cursors_after_insert(before.starts(), piece.len() as int)
        &&& pane.main_cursor_start == before.main_cursor_start + (rank_of(
            before.entries(),
            before.main_cursor_start,
        ) + 1) * piece.len()
        &&& pane.grapheme_col_offset == grapheme_column(
            buffer.bytes(),
            buffer.breaks(),
            pane.main_cursor_start as int,
        )
        &&& pane.same_frame(before)
    }

    /// Types `text` at every cursor of the active pane. The text is to end
    /// on a grapheme boundary.
    pub fn insert(&self, text: &str, panes: Vec<Pane>, active: Vec<PaneId>) -> (out: (
        TextBuffer,
        Vec<Pane>,
    ))
        requires
            self.takes(panes@, active@),
        ensures
            out.1@.len() == 1,
            self.typed_into(encode_utf8(text@), panes@[0], out.0, out.1@[0]),
            out.0.takes(out.1@, active@),
    {
        let pane = &panes[0];
        let file = match &self.file {
            Some(fi) => Some(
                FileInfo {
                    filename: fi.filename.clone(),
                    is_modified: true,
                    file_time: fi.file_time,
                },
            ),
            None => None,
        };
        let ghost bytes = self.bytes();
        let ghost breaks = self.breaks();
        let ghost piece = encode_utf8(text@);
        let ghost entries = pane.entries();
        let ghost starts = pane.starts();
        let ghost main_rank = rank_of(entries, pane.main_cursor_start);
        proof {
            lemma_rank_of(entries, pane.main_cursor_start);
            let w = choose|w: int|
                0 <= w < entries.len() && #[trigger] entries[w].0 == pane.main_cursor_start;
            if w > main_rank {
                assert(entries[main_rank].0 < entries[w].0);
            }
            assert(entries[main_rank].0 == pane.main_cursor_start);
            assert(starts_ascend_within(starts, bytes.len() as int)) by {
                assert forall|i: int| 0 <= i < starts.len() implies 0 <= #[trigger] starts[i]
                    <= bytes.len() by {
                    assert(is_char_boundary(bytes, entries[i].0 as int));
                }
            }
            assert forall|k: int| 0 <= k < starts.len() implies is_char_boundary(
                bytes,
                #[trigger] starts[k],
            ) by {
                assert(is_char_boundary(bytes, entries[k].0 as int));
            }
        }
        let incr = text.as_bytes().len();
        let selections = pane.cursors_iter();
        let mut contents = rope_clone(&self.contents);
        let mut byte_len = rope_byte_len(&contents);
        let mut main_cursor_start = usize::MAX;
        let mut cursors = cursors_new();
        let mut i: usize = 0;
        proof {
            assert(starts.take(0) =~= Seq::<int>::empty());
            assert(cursor_entries(cursors) =~= cursors_after_insert(starts.take(0), incr as int));
        }
        while i < selections.len()
            invariant
                i <= selections.len(),
                selections@.len() == starts.len(),
                forall|k: int|
                    0 <= k < starts.len() ==> (#[trigger] selections@[k]).start == starts[k],
                starts_ascend_within(starts, bytes.len() as int),
                forall|k: int|
                    0 <= k < starts.len() ==> is_char_boundary(bytes, #[trigger] starts[k]),
                piece == encode_utf8(text@),
                incr == piece.len(),
                byte_len == rope_bytes(contents).len(),
                rope_bytes(contents) == text_with_insertions(bytes, starts.take(i as int), piece),
                cursor_entries(cursors) == cursors_after_insert(starts.take(i as int), incr as int),
                cursors_fit(cursor_entries(cursors), rope_bytes(contents)),
                keys_ascend(cursor_entries(cursors)),
                keyed_by_start(cursor_entries(cursors)),
                0 <= main_rank < starts.len(),
                starts[main_rank] == pane.main_cursor_start,
                i > main_rank ==> main_cursor_start == pane.main_cursor_start + (main_rank + 1)
                    * incr && cursor_entries(cursors)[main_rank].0 == main_cursor_start,
            decreases selections.len() - i,
        {
            let s = selections[i];
            let ghost old_text = rope_bytes(contents);
            let ghost old_cursors = cursor_entries(cursors);
            proof {
                lemma_insertion_turn(bytes, starts, piece, i as int);
                assert(incr * i == i * incr) by (nonlinear_arith);
                assert(0 <= i * incr) by (nonlinear_arith)
                    requires
                        0 <= i,
                        0 <= incr,
                ;
            }
            let adjusted_start = s.start + incr * i;
            rope_insert(&mut contents, adjusted_start, text);
            byte_len = rope_byte_len(&contents);
            proof {
                assert((i + 1) * incr == i * incr + incr) by (nonlinear_arith);
                lemma_cursor_turn(starts, incr as int, i as int, bytes.len() as int);
            }
            let start = adjusted_start + incr;
            cursors_insert(&mut cursors, start, Selection { start, offset: 0 });
            if s.start == pane.main_cursor_start {
                main_cursor_start = start;
            }
            proof {
                let new_text = rope_bytes(contents);
                let new_cursors = cursor_entries(cursors);
                assert(new_cursors =~= old_cursors.push((start, Selection { start, offset: 0 }))) by {
                    if old_cursors.len() > 0 {
                        assert(old_cursors.last() == old_cursors[old_cursors.len() - 1]);
                    }
                    lemma_rank_of_above_all(old_cursors, start);
                }
                assert forall|k: int| 0 <= k < new_cursors.len() implies is_char_boundary(
                    new_text,
                    (#[trigger] new_cursors[k]).0 as int,
                ) by {
                    if k < old_cursors.len() {
                        assert(new_cursors[k] == old_cursors[k]);
                        assert(is_char_boundary(old_text, old_cursors[k].0 as int));
                    }
                }
                if i < main_rank {
                    assert(starts[i as int] < starts[main_rank]);
                } else if i > main_rank {
                    assert(starts[main_rank] < starts[i as int]);
                    assert(new_cursors[main_rank] == old_cursors[main_rank]);
                } else {
                    assert(new_cursors[main_rank].0 == start);
                }
                assert(keys_ascend(new_cursors)) by {
                    assert forall|a: int, b: int| 0 <= a < b < new_cursors.len() implies new_cursors[a].0
                        < new_cursors[b].0 by {
                        assert(new_cursors[a] == old_cursors[a]);
                        if b < old_cursors.len() {
                            assert(new_cursors[b] == old_cursors[b]);
                        }
                    }
                }
            }
            i += 1;
        }
        proof {
            assert(starts.take(i as int) =~= starts);
            assert(cursor_entries(cursors)[main_rank].0 == main_cursor_start);
            assert(has_key(cursor_entries(cursors), main_cursor_start));
        }
        let grapheme_col_offset = reset_grapheme_col_offset(&contents, main_cursor_start);
        let buf = TextBuffer { file, contents };
        let pane = Pane {
            cursors,
            main_cursor_start,
            grapheme_col_offset,
            buffer_id: pane.buffer_id,
            id: pane.id,
            y_offset_bits: pane.y_offset_bits,
            mode: pane.mode,
        };
        let mut out_panes = Vec::new();
        out_panes.push(pane);
        (buf, out_panes)
    }
}

/// A key above every key of the map has all entries below it.
pub proof fn lemma_rank_of_above_all(entries: Seq<(usize, Selection)>, key: usize)
    requires
        entries.len() > 0 ==> entries.last().0 < key,
    ensures
        rank_of(entries, key) == entries.len(),
        entries_insert(entries, key, Selection { start: key, offset: 0 }) == entries.push(
            (key, Selection { start: key, offset: 0 }),
        ),
{
    assert(entries.subrange(0, entries.len() as int) =~= entries);
    assert(entries_insert(entries, key, Selection { start: key, offset: 0 }) =~= entries.push(
        (key, Selection { start: key, offset: 0 }),
    ));
}

} // verus!
