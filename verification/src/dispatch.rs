//! The single writer: it takes one intent at a time and says what the lists
//! of buffers and panes are after it.

use crate::buffer::{FileTime, TextBuffer};
use crate::cursor_map::{entries_insert, entries_remove};
use crate::edit::cursors_fit;
use crate::erase::cursors_apart;
use crate::pane::{BufferId, Pane, PaneId, Selection};
use crate::text::{grapheme_column, is_char_boundary};
use vstd::prelude::*;
use vstd::utf8::encode_utf8;

verus! {

/// What a user can ask of a buffer.
#[derive(Debug)]
pub enum BufferOp {
    /// Type the text at every cursor.
    Insert(String),
    /// Delete the grapheme cluster before every cursor.
    Delete,
    /// Write the buffer to its file.
    Save,
    /// Move every cursor sideways by so many grapheme clusters.
    MoveHorizontal(i64),
    /// Move every cursor down by so many lines.
    MoveVertical(i64),
    /// Put the main cursor at the offset.
    SetMainCursor(usize),
    /// Add a cursor at the offset.
    AddCursor(usize),
    /// Leave the editor. It changes no buffer.
    Exit,
}

impl BufferOp {
    /// Whether the intent is to leave the editor.
    pub fn is_exit(&self) -> (b: bool)
        ensures
            b == (*self is Exit),
    {
        match self {
            BufferOp::Exit => true,
            _ => false,
        }
    }
}

/// What the writer and the cursor's clock tell the renderer.
#[derive(Debug, Copy, Clone, PartialEq, Eq, Structural)]
pub enum CustomEvent {
    /// The buffer changed and is to be drawn again.
    BufferRequestedRedraw(BufferId),
    /// The cursor is to be shown, or hidden.
    CursorBlink(bool),
}

/// The list with `item` at `index`: in place of what stood there, or as a
/// new last element.
pub open spec fn stored<T>(list: Seq<T>, index: int, item: T) -> Seq<T> {
    if index == list.len() {
        list.push(item)
    } else {
        list.update(index, item)
    }
}

/// Puts `item` at `index`, which may be the length of the list.
pub fn store<T>(list: Vec<T>, index: usize, item: T) -> (out: Vec<T>)
    requires
        index <= list@.len(),
    ensures
        out@ == stored(list@, index as int, item),
{
    let mut list = list;
    if index == list.len() {
        list.push(item);
    } else {
        list.set(index, item);
    }
    list
}

/// Whether two panes hold the same cursors, column and frame.
pub open spec fn same_pane(a: Pane, b: Pane) -> bool {
    &&& a.entries() == b.entries()
    &&& a.main_cursor_start == b.main_cursor_start
    &&& a.grapheme_col_offset == b.grapheme_col_offset
    &&& a.same_frame(b)
}

/// The places in the list of the panes that show the buffer, in order.
pub open spec fn involved_indices(panes: Seq<Pane>, buf_id: BufferId) -> Seq<int>
    decreases panes.len(),
{
    if panes.len() == 0 {
        Seq::empty()
    } else if panes.last().buffer_id == buf_id {
        involved_indices(panes.drop_last(), buf_id).push(panes.len() - 1)
    } else {
        involved_indices(panes.drop_last(), buf_id)
    }
}

/// Copies of the panes that show the buffer, in the order of the list.
pub fn involved_panes(panes: &Vec<Pane>, buf_id: BufferId) -> (out: Vec<Pane>)
    ensures
        out@.len() == involved_indices(panes@, buf_id).len(),
        forall|k: int|
            0 <= k < out@.len() ==> 0 <= #[trigger] involved_indices(panes@, buf_id)[k]
                < panes@.len(),
        forall|k: int|
            0 <= k < out@.len() ==> same_pane(
                #[trigger] out@[k],
                panes@[involved_indices(panes@, buf_id)[k]],
            ),
{
    let mut out: Vec<Pane> = Vec::new();
    let mut i: usize = 0;
    proof {
        assert(panes@.take(0) =~= Seq::<Pane>::empty());
    }
    while i < panes.len()
        invariant
            i <= panes.len(),
            out@.len() == involved_indices(panes@.take(i as int), buf_id).len(),
            forall|k: int|
                0 <= k < out@.len() ==> 0 <= #[trigger] involved_indices(
                    panes@.take(i as int),
                    buf_id,
                )[k] < i,
            forall|k: int|
                0 <= k < out@.len() ==> same_pane(
                    #[trigger] out@[k],
                    panes@[involved_indices(panes@.take(i as int), buf_id)[k]],
                ),
        decreases panes.len() - i,
    {
        let ghost before = involved_indices(panes@.take(i as int), buf_id);
        let ghost old_out = out@;
        proof {
            assert(panes@.take(i + 1).drop_last() =~= panes@.take(i as int));
            assert(panes@.take(i + 1).last() == panes@[i as int]);
        }
        if panes[i].buffer_id == buf_id {
            out.push(panes[i].clone());
        }
        proof {
            let after = involved_indices(panes@.take(i + 1), buf_id);
            assert forall|k: int| 0 <= k < out@.len() implies 0 <= #[trigger] after[k] < i + 1 by {
                if k < old_out.len() {
                    assert(after[k] == before[k]);
                }
            }
            assert forall|k: int| 0 <= k < out@.len() implies same_pane(
                #[trigger] out@[k],
                panes@[after[k]],
            ) by {
                if k < old_out.len() {
                    assert(out@[k] == old_out[k]);
                    assert(after[k] == before[k]);
                }
            }
        }
        i += 1;
    }
    proof {
        assert(panes@.take(i as int) =~= panes@);
    }
    out
}

/// Whether each pane of `new_panes` can be stored under its own id when its
/// turn comes.
pub open spec fn storable(len: int, new_panes: Seq<Pane>) -> bool
    decreases new_panes.len(),
{
    if new_panes.len() == 0 {
        true
    } else {
        new_panes[0].id <= len && storable(
            if new_panes[0].id == len {
                len + 1
            } else {
                len
            },
            new_panes.drop_first(),
        )
    }
}

/// The list after each pane of `new_panes` was stored under its own id, one
/// after the other.
pub open spec fn stored_all(panes: Seq<Pane>, new_panes: Seq<Pane>) -> Seq<Pane>
    decreases new_panes.len(),
{
    if new_panes.len() == 0 {
        panes
    } else {
        stored_all(
            stored(panes, new_panes[0].id as int, new_panes[0]),
            new_panes.drop_first(),
        )
    }
}

/// Stores each pane of `new_panes` under its own id.
pub fn store_all(panes: Vec<Pane>, new_panes: Vec<Pane>) -> (out: Vec<Pane>)
    requires
        storable(panes@.len() as int, new_panes@),
    ensures
        out@ == stored_all(panes@, new_panes@),
{
    let ghost goal = stored_all(panes@, new_panes@);
    let mut panes = panes;
    let mut new_panes = new_panes;
    while new_panes.len() > 0
        invariant
            storable(panes@.len() as int, new_panes@),
            stored_all(panes@, new_panes@) == goal,
        decreases new_panes@.len(),
    {
        let ghost rest = new_panes@;
        let pane = new_panes.remove(0);
        proof {
            assert(pane == rest[0]);
            assert(new_panes@ =~= rest.drop_first());
        }
        panes = store(panes, pane.id, pane);
    }
    panes
}


/// A place is among the places of the panes that show a buffer exactly if
/// the pane at that place shows it, and the places go up.
pub proof fn lemma_involved_indices(panes: Seq<Pane>, buf_id: BufferId)
    ensures
        forall|k: int|
            #![trigger involved_indices(panes, buf_id).contains(k)]
            involved_indices(panes, buf_id).contains(k) <==> 0 <= k < panes.len()
                && panes[k].buffer_id == buf_id,
        forall|i: int, j: int|
            0 <= i < j < involved_indices(panes, buf_id).len() ==> involved_indices(
                panes,
                buf_id,
            )[i] < involved_indices(panes, buf_id)[j],
    decreases panes.len(),
{
    let all = involved_indices(panes, buf_id);
    if panes.len() > 0 {
        let init = panes.drop_last();
        let inner = involved_indices(init, buf_id);
        lemma_involved_indices(init, buf_id);
        assert forall|k: int| #![trigger all.contains(k)] all.contains(k) <==> 0 <= k < panes.len()
            && panes[k].buffer_id == buf_id by {
            if all.contains(k) {
                let w = choose|w: int| 0 <= w < all.len() && all[w] == k;
                if w < inner.len() {
                    assert(inner[w] == k);
                    assert(inner.contains(k));
                    assert(init[k] == panes[k]);
                }
            }
            if 0 <= k < panes.len() && panes[k].buffer_id == buf_id {
                if k < init.len() {
                    assert(init[k] == panes[k]);
                    assert(inner.contains(k));
                    let w = choose|w: int| 0 <= w < inner.len() && inner[w] == k;
                    assert(all[w] == k);
                } else {
                    assert(all[all.len() - 1] == k);
                }
            }
        }
        assert forall|i: int, j: int| 0 <= i < j < all.len() implies all[i] < all[j] by {
            if j == inner.len() {
                assert(inner.contains(inner[i]));
            }
        }
    }
}

/// Whether the pane at place `a` is the only one that shows its buffer, and
/// stands in the list under its own id.
pub open spec fn sole_pane(panes: Seq<Pane>, a: int) -> bool {
    &&& 0 <= a < panes.len()
    &&& panes[a].id == a
    &&& involved_indices(panes, panes[a].buffer_id).len() == 1
}

/// Where one pane shows a buffer, the places of the panes that show it are
/// that one place.
pub proof fn lemma_sole_pane(panes: Seq<Pane>, a: int)
    requires
        0 <= a < panes.len(),
        involved_indices(panes, panes[a].buffer_id).len() == 1,
    ensures
        involved_indices(panes, panes[a].buffer_id) == seq![a],
{
    let all = involved_indices(panes, panes[a].buffer_id);
    lemma_involved_indices(panes, panes[a].buffer_id);
    assert(all.contains(a));
    assert(all =~= seq![a]);
}


/// What is to be written to disk for a save.
#[derive(Debug)]
pub struct SaveRequest {
    /// The buffer that is saved.
    pub buffer_id: BufferId,
    /// The path of the buffer's file.
    pub filename: String,
    /// The text of the buffer.
    pub text: String,
}

/// What the writer hands back for one intent.
#[derive(Debug)]
pub struct Dispatch {
    /// The buffers after the intent.
    pub buffers: Vec<TextBuffer>,
    /// The panes after the intent.
    pub panes: Vec<Pane>,
    /// What is to be written to disk, if the intent was a save.
    pub save: Option<SaveRequest>,
    /// What the renderer is told.
    pub event: CustomEvent,
}

/// The lists as they were handed in, given back with an intent that was not
/// carried out.
#[derive(Debug)]
pub struct Rejected {
    pub buffers: Vec<TextBuffer>,
    pub panes: Vec<Pane>,
}

/// Whether an edit or a move can be carried out for the pane at place `a`:
/// the pane is the only one on its buffer, its invariant holds and its
/// cursors stand on code point boundaries of the buffer's text.
pub open spec fn edit_ready(buffers: Seq<TextBuffer>, panes: Seq<Pane>, a: int) -> bool {
    &&& sole_pane(panes, a)
    &&& panes[a].wf()
    &&& cursors_fit(panes[a].entries(), buffers[panes[a].buffer_id as int].bytes())
}

/// Whether the intent can be carried out: one pane is named, pane and buffer
/// exist, and what the intent itself needs holds.
pub open spec fn admits(
    buffers: Seq<TextBuffer>,
    panes: Seq<Pane>,
    op: BufferOp,
    active: Seq<PaneId>,
) -> bool {
    &&& active.len() == 1
    &&& active[0] < panes.len()
    &&& panes[active[0] as int].buffer_id < buffers.len()
    &&& {
        let a = active[0] as int;
        let pane = panes[a];
        let buffer = buffers[pane.buffer_id as int];
        match op {
            BufferOp::Insert(_) => edit_ready(buffers, panes, a),
            BufferOp::Delete => edit_ready(buffers, panes, a) && cursors_apart(
                buffer.bytes(),
                buffer.breaks(),
                pane.starts(),
            ),
            BufferOp::MoveHorizontal(_) => edit_ready(buffers, panes, a),
            BufferOp::MoveVertical(_) => edit_ready(buffers, panes, a),
            BufferOp::Save => buffer.file is Some,
            BufferOp::SetMainCursor(start) => pane.id <= panes.len() && is_char_boundary(
                buffer.bytes(),
                start as int,
            ),
            BufferOp::AddCursor(_) => pane.id <= panes.len(),
            BufferOp::Exit => true,
        }
    }
}

/// Whether `out` is what the intent makes of the lists.
pub open spec fn handled(
    buffers: Seq<TextBuffer>,
    panes: Seq<Pane>,
    op: BufferOp,
    active: Seq<PaneId>,
    out: Dispatch,
) -> bool {
    let a = active[0] as int;
    let pane = panes[a];
    let b = pane.buffer_id as int;
    let buffer = buffers[b];
    let edited = out.buffers@ == buffers.update(b, out.buffers@[b]) && out.panes@ == panes.update(
        a,
        out.panes@[a],
    ) && out.save is None;
    let cursor_set = out.buffers@ == buffers && out.save is None && out.panes@ == stored(
        panes,
        pane.id as int,
        out.panes@[pane.id as int],
    );
    &&& out.event == CustomEvent::BufferRequestedRedraw(pane.buffer_id)
    &&& match op {
        BufferOp::Insert(text) => edited && buffer.typed_into(
            encode_utf8(text@),
            pane,
            out.buffers@[b],
            out.panes@[a],
        ),
        BufferOp::Delete => edited && buffer.backdeleted(pane, out.buffers@[b], out.panes@[a]),
        BufferOp::MoveHorizontal(count) => edited && buffer.moved_sideways(
            count as int,
            pane,
            out.buffers@[b],
            out.panes@[a],
        ),
        BufferOp::MoveVertical(count) => edited && buffer.moved_by_lines(
            count as int,
            pane,
            out.buffers@[b],
            out.panes@[a],
        ),
        BufferOp::Save => out.buffers@ == buffers && out.panes@ == panes && out.save is Some
            && out.save->Some_0.buffer_id == pane.buffer_id && out.save->Some_0.filename@
            == buffer.file->Some_0.filename@ && encode_utf8(out.save->Some_0.text@)
            == buffer.bytes(),
        BufferOp::SetMainCursor(start) => cursor_set && {
            let moved = out.panes@[pane.id as int];
            &&& moved.entries() == entries_insert(
                entries_remove(pane.entries(), pane.main_cursor_start),
                start,
                Selection { start, offset: 0 },
            )
            &&& moved.main_cursor_start == start
            &&& moved.grapheme_col_offset == grapheme_column(
                buffer.bytes(),
                buffer.breaks(),
                start as int,
            )
            &&& moved.same_frame(pane)
        },
        BufferOp::AddCursor(start) => cursor_set && {
            let grown = out.panes@[pane.id as int];
            &&& grown.entries() == entries_insert(
                pane.entries(),
                start,
                Selection { start, offset: 0 },
            )
            &&& grown.main_cursor_start == pane.main_cursor_start
            &&& grown.grapheme_col_offset == pane.grapheme_col_offset
            &&& grown.same_frame(pane)
        },
        BufferOp::Exit => out.buffers@ == buffers && out.panes@ == panes && out.save is None,
    }
}

/// A copy of the pane at place `a`, as the one pane that an edit or a move
/// takes, if such an operation can be carried out for it.
fn lone_pane(buffers: &Vec<TextBuffer>, panes: &Vec<Pane>, a: usize) -> (out: Option<Vec<Pane>>)
    requires
        a < panes@.len(),
        panes@[a as int].buffer_id < buffers@.len(),
    ensures
        out is Some <==> edit_ready(buffers@, panes@, a as int),
        out matches Some(involved) ==> involved@.len() == 1 && same_pane(
            involved@[0],
            panes@[a as int],
        ),
{
    let buf_id = panes[a].buffer_id;
    let involved = involved_panes(panes, buf_id);
    if involved.len() != 1 || panes[a].id != a {
        return None;
    }
    proof {
        lemma_sole_pane(panes@, a as int);
    }
    if !involved[0].is_wf() || !involved[0].fits(&buffers[buf_id]) {
        return None;
    }
    Some(involved)
}

/// The lists with the buffer at `b` and the pane at `a` replaced.
fn put_back(
    buffers: Vec<TextBuffer>,
    panes: Vec<Pane>,
    a: usize,
    b: usize,
    made: (TextBuffer, Vec<Pane>),
) -> (out: Dispatch)
    requires
        a < panes@.len(),
        b == panes@[a as int].buffer_id < buffers@.len(),
        made.1@.len() == 1,
        made.1@[0].id == a,
    ensures
        out.buffers@ == buffers@.update(b as int, made.0),
        out.panes@ == panes@.update(a as int, made.1@[0]),
        out.save is None,
        out.event == CustomEvent::BufferRequestedRedraw(b),
{
    let (new_buffer, new_panes) = made;
    proof {
        assert(storable(panes@.len() as int, new_panes@)) by {
            assert(new_panes@.drop_first().len() == 0);
            assert(storable(panes@.len() as int, new_panes@.drop_first()));
        }
        assert(stored_all(panes@, new_panes@) == panes@.update(a as int, new_panes@[0])) by {
            assert(new_panes@.drop_first().len() == 0);
            let once = stored(panes@, new_panes@[0].id as int, new_panes@[0]);
            assert(stored_all(once, new_panes@.drop_first()) == once);
        }
    }
    let panes = store_all(panes, new_panes);
    let buffers = store(buffers, b, new_buffer);
    Dispatch { buffers, panes, save: None, event: CustomEvent::BufferRequestedRedraw(b) }
}


/// The list that names `pane_id` as the one active pane.
fn one_active(pane_id: PaneId) -> (active: Vec<PaneId>)
    ensures
        active@ == seq![pane_id],
{
    let mut active: Vec<PaneId> = Vec::new();
    active.push(pane_id);
    active
}

/// Carries out one intent on the lists of buffers and panes, if it can be
/// carried out, and else hands the lists back as they were. A save changes
/// nothing yet: it says what is to be written, and `save_done` takes the
/// outcome.
pub fn try_buffer_op(
    buffers: Vec<TextBuffer>,
    panes: Vec<Pane>,
    op: BufferOp,
    active_panes: Vec<PaneId>,
) -> (out: Result<Dispatch, Rejected>)
    ensures
        out is Ok <==> admits(buffers@, panes@, op, active_panes@),
        out matches Ok(done) ==> handled(buffers@, panes@, op, active_panes@, done),
        out matches Err(back) ==> back.buffers@ == buffers@ && back.panes@ == panes@,
{
    if active_panes.len() != 1 || active_panes[0] >= panes.len() {
        return Err(Rejected { buffers, panes });
    }
    let a = active_panes[0];
    let buf_id = panes[a].buffer_id;
    if buf_id >= buffers.len() {
        return Err(Rejected { buffers, panes });
    }
    let redraw = CustomEvent::BufferRequestedRedraw(buf_id);
    match op {
        BufferOp::Insert(text) => {
            let involved = match lone_pane(&buffers, &panes, a) {
                Some(involved) => involved,
                None => {
                    return Err(Rejected { buffers, panes });
                },
            };
            let made = buffers[buf_id].insert(text.as_str(), involved, one_active(a));
            Ok(put_back(buffers, panes, a, buf_id, made))
        },
        BufferOp::Delete => {
            let involved = match lone_pane(&buffers, &panes, a) {
                Some(involved) => involved,
                None => {
                    return Err(Rejected { buffers, panes });
                },
            };
            match buffers[buf_id].try_backdelete_cursor(involved, one_active(a)) {
                Some(made) => Ok(put_back(buffers, panes, a, buf_id, made)),
                None => Err(Rejected { buffers, panes }),
            }
        },
        BufferOp::MoveHorizontal(n) => {
            let involved = match lone_pane(&buffers, &panes, a) {
                Some(involved) => involved,
                None => {
                    return Err(Rejected { buffers, panes });
                },
            };
            let made = buffers[buf_id].move_horizontal(n, involved, one_active(a));
            Ok(put_back(buffers, panes, a, buf_id, made))
        },
        BufferOp::MoveVertical(n) => {
            let involved = match lone_pane(&buffers, &panes, a) {
                Some(involved) => involved,
                None => {
                    return Err(Rejected { buffers, panes });
                },
            };
            let made = buffers[buf_id].move_vertical(n, involved, one_active(a));
            Ok(put_back(buffers, panes, a, buf_id, made))
        },
        BufferOp::Save => {
            let filename = match &buffers[buf_id].file {
                Some(info) => info.filename.clone(),
                None => {
                    return Err(Rejected { buffers, panes });
                },
            };
            let text = buffers[buf_id].text();
            let save = Some(SaveRequest { buffer_id: buf_id, filename, text });
            Ok(Dispatch { buffers, panes, save, event: redraw })
        },
        BufferOp::SetMainCursor(start) => {
            let id = panes[a].id;
            if id > panes.len() || !buffers[buf_id].is_char_boundary(start) {
                return Err(Rejected { buffers, panes });
            }
            let moved = panes[a].set_main_cursor(start, &buffers[buf_id]);
            let panes = store(panes, id, moved);
            Ok(Dispatch { buffers, panes, save: None, event: redraw })
        },
        BufferOp::AddCursor(start) => {
            let id = panes[a].id;
            if id > panes.len() {
                return Err(Rejected { buffers, panes });
            }
            let grown = panes[a].add_cursor(start);
            let panes = store(panes, id, grown);
            Ok(Dispatch { buffers, panes, save: None, event: redraw })
        },
        BufferOp::Exit => Ok(Dispatch { buffers, panes, save: None, event: redraw }),
    }
}

/// Carries out one intent on the lists of buffers and panes. A save changes
/// nothing yet: it says what is to be written, and `save_done` takes the
/// outcome.
pub fn buffer_op_handler(
    buffers: Vec<TextBuffer>,
    panes: Vec<Pane>,
    op: BufferOp,
    active_panes: Vec<PaneId>,
) -> (out: Dispatch)
    requires
        admits(buffers@, panes@, op, active_panes@),
    ensures
        handled(buffers@, panes@, op, active_panes@, out),
{
    match try_buffer_op(buffers, panes, op, active_panes) {
        Ok(done) => done,
        Err(_) => vstd::pervasive::unreached(),
    }
}

/// The buffers after the text of the buffer at `buf_id` was written to
/// `filename` at `file_time`: that buffer is in step with the file, and the
/// others are as they were.
pub fn save_done(
    buffers: Vec<TextBuffer>,
    buf_id: BufferId,
    filename: &str,
    file_time: FileTime,
) -> (out: Vec<TextBuffer>)
    requires
        buf_id < buffers@.len(),
    ensures
        out@ == buffers@.update(buf_id as int, out@[buf_id as int]),
        out@[buf_id as int].bytes() == buffers@[buf_id as int].bytes(),
        out@[buf_id as int].breaks() == buffers@[buf_id as int].breaks(),
        out@[buf_id as int].file is Some,
        out@[buf_id as int].file->Some_0.filename@ == filename@,
        !out@[buf_id as int].file->Some_0.is_modified,
        out@[buf_id as int].file->Some_0.file_time == file_time,
{
    let saved = buffers[buf_id].write(filename, file_time);
    store(buffers, buf_id, saved)
}

} // verus!
