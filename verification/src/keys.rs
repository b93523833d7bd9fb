//! What a key means to a pane: the intents that it stands for, and the mode
//! in which the pane reads the next key.

use crate::dispatch::BufferOp;
use crate::pane::{Mode, Pane};
use vstd::prelude::*;

verus! {

/// The keys that have a name.
#[derive(Debug, Clone, Copy, PartialEq, Eq, Structural)]
pub enum NamedKey {
    Enter,
    ArrowLeft,
    ArrowRight,
    ArrowUp,
    ArrowDown,
    Space,
    Backspace,
    Escape,
    /// Any other named key.
    Other,
}

/// A key as the pane is told of it.
#[derive(Debug)]
pub enum Key {
    /// A key with a name.
    Named(NamedKey),
    /// A key that types the text it holds.
    Character(String),
}

/// Whether `ops` holds nothing.
pub open spec fn no_op(ops: Seq<BufferOp>) -> bool {
    ops.len() == 0
}

/// Whether `ops` holds one intent, to type `text`.
pub open spec fn only_insert(ops: Seq<BufferOp>, text: Seq<char>) -> bool {
    ops.len() == 1 && ops[0] is Insert && ops[0]->Insert_0@ == text
}

/// Whether `ops` holds one intent, to move sideways by `count`.
pub open spec fn only_horizontal(ops: Seq<BufferOp>, count: int) -> bool {
    ops.len() == 1 && ops[0] is MoveHorizontal && ops[0]->MoveHorizontal_0 == count
}

/// Whether `ops` holds one intent, to move down by `count`.
pub open spec fn only_vertical(ops: Seq<BufferOp>, count: int) -> bool {
    ops.len() == 1 && ops[0] is MoveVertical && ops[0]->MoveVertical_0 == count
}

/// Whether `ops` holds one intent, to delete backwards.
pub open spec fn only_delete(ops: Seq<BufferOp>) -> bool {
    ops.len() == 1 && ops[0] is Delete
}

/// Whether `ops` holds one intent, to leave.
pub open spec fn only_exit(ops: Seq<BufferOp>) -> bool {
    ops.len() == 1 && ops[0] is Exit
}

/// Whether a key can be read: a key that types holds at least one
/// character.
pub open spec fn readable(k: Key) -> bool {
    k matches Key::Character(text) ==> text@.len() > 0
}

/// What a key means in insert mode.
pub open spec fn insert_meaning(k: Key, super_pressed: bool, mode: Mode, ops: Seq<BufferOp>) -> bool {
    match k {
        Key::Named(NamedKey::Enter) => mode == Mode::Insert && only_insert(ops, "\n"@),
        Key::Named(NamedKey::ArrowLeft) => mode == Mode::Insert && only_horizontal(ops, -1),
        Key::Named(NamedKey::ArrowRight) => mode == Mode::Insert && only_horizontal(ops, 1),
        Key::Named(NamedKey::ArrowUp) => mode == Mode::Insert && only_vertical(ops, -1),
        Key::Named(NamedKey::ArrowDown) => mode == Mode::Insert && only_vertical(ops, 1),
        Key::Named(NamedKey::Space) => mode == Mode::Insert && only_insert(ops, " "@),
        Key::Named(NamedKey::Backspace) => mode == Mode::Insert && only_delete(ops),
        Key::Named(NamedKey::Escape) => mode == Mode::Normal && no_op(ops),
        Key::Named(NamedKey::Other) => mode == Mode::Insert && no_op(ops),
        Key::Character(text) => mode == Mode::Insert && if !super_pressed {
            only_insert(ops, text@)
        } else if text@[0] == 'w' {
            only_exit(ops)
        } else {
            no_op(ops)
        },
    }
}

/// What a key means in normal mode.
pub open spec fn normal_meaning(k: Key, super_pressed: bool, mode: Mode, ops: Seq<BufferOp>) -> bool {
    match k {
        Key::Named(NamedKey::ArrowLeft) => mode == Mode::Normal && only_horizontal(ops, -1),
        Key::Named(NamedKey::ArrowRight) => mode == Mode::Normal && only_horizontal(ops, 1),
        Key::Named(NamedKey::ArrowUp) => mode == Mode::Normal && only_vertical(ops, -1),
        Key::Named(NamedKey::ArrowDown) => mode == Mode::Normal && only_vertical(ops, 1),
        Key::Named(_) => mode == Mode::Normal && no_op(ops),
        Key::Character(text) => {
            let c = text@[0];
            if c == 'w' {
                mode == Mode::Normal && if super_pressed {
                    only_exit(ops)
                } else {
                    no_op(ops)
                }
            } else if c == 'h' {
                mode == Mode::Normal && only_horizontal(ops, -1)
            } else if c == 'l' {
                mode == Mode::Normal && only_horizontal(ops, 1)
            } else if c == 'k' {
                mode == Mode::Normal && only_vertical(ops, -1)
            } else if c == 'j' {
                mode == Mode::Normal && only_vertical(ops, 1)
            } else if c == 'i' {
                mode == Mode::Insert && no_op(ops)
            } else if c == 'q' {
                mode == Mode::Normal && only_exit(ops)
            } else {
                mode == Mode::Normal && no_op(ops)
            }
        },
    }
}

/// The list that holds `op` alone.
fn one_op(op: BufferOp) -> (ops: Vec<BufferOp>)
    ensures
        ops@ == seq![op],
{
    let mut ops: Vec<BufferOp> = Vec::new();
    ops.push(op);
    ops
}

impl Pane {
    /// The mode after `k` was pressed in insert mode, and what the key asks
    /// of the buffer. `super_pressed` says whether a super key is held.
    pub fn insert(&self, k: Key, super_pressed: bool) -> (out: (Mode, Vec<BufferOp>))
        requires
            super_pressed ==> readable(k),
        ensures
            insert_meaning(k, super_pressed, out.0, out.1@),
    {
        match k {
            Key::Named(n) => match n {
                NamedKey::Enter => (Mode::Insert, one_op(BufferOp::Insert("\n".to_owned()))),
                NamedKey::ArrowLeft => (Mode::Insert, one_op(BufferOp::MoveHorizontal(-1))),
                NamedKey::ArrowRight => (Mode::Insert, one_op(BufferOp::MoveHorizontal(1))),
                NamedKey::ArrowUp => (Mode::Insert, one_op(BufferOp::MoveVertical(-1))),
                NamedKey::ArrowDown => (Mode::Insert, one_op(BufferOp::MoveVertical(1))),
                NamedKey::Space => (Mode::Insert, one_op(BufferOp::Insert(" ".to_owned()))),
                NamedKey::Backspace => (Mode::Insert, one_op(BufferOp::Delete)),
                NamedKey::Escape => (Mode::Normal, Vec::new()),
                NamedKey::Other => (Mode::Insert, Vec::new()),
            },
            Key::Character(s) => {
                if !super_pressed {
                    (Mode::Insert, one_op(BufferOp::Insert(s)))
                } else {
                    let c = s.as_str().get_char(0);
                    if c == 'w' {
                        (Mode::Insert, one_op(BufferOp::Exit))
                    } else {
                        (Mode::Insert, Vec::new())
                    }
                }
            },
        }
    }

    /// The mode after `k` was pressed in normal mode, and what the key asks
    /// of the buffer. `super_pressed` says whether a super key is held.
    pub fn normal(&self, k: Key, super_pressed: bool) -> (out: (Mode, Vec<BufferOp>))
        requires
            readable(k),
        ensures
            normal_meaning(k, super_pressed, out.0, out.1@),
    {
        match k {
            Key::Named(n) => match n {
                NamedKey::ArrowLeft => (Mode::Normal, one_op(BufferOp::MoveHorizontal(-1))),
                NamedKey::ArrowRight => (Mode::Normal, one_op(BufferOp::MoveHorizontal(1))),
                NamedKey::ArrowUp => (Mode::Normal, one_op(BufferOp::MoveVertical(-1))),
                NamedKey::ArrowDown => (Mode::Normal, one_op(BufferOp::MoveVertical(1))),
                _ => (Mode::Normal, Vec::new()),
            },
            Key::Character(s) => {
                let c = s.as_str().get_char(0);
                if c == 'w' {
                    if super_pressed {
                        (Mode::Normal, one_op(BufferOp::Exit))
                    } else {
                        (Mode::Normal, Vec::new())
                    }
                } else if c == 'h' {
                    (Mode::Normal, one_op(BufferOp::MoveHorizontal(-1)))
                } else if c == 'l' {
                    (Mode::Normal, one_op(BufferOp::MoveHorizontal(1)))
                } else if c == 'k' {
                    (Mode::Normal, one_op(BufferOp::MoveVertical(-1)))
                } else if c == 'j' {
                    (Mode::Normal, one_op(BufferOp::MoveVertical(1)))
                } else if c == 'i' {
                    (Mode::Insert, Vec::new())
                } else if c == 'q' {
                    (Mode::Normal, one_op(BufferOp::Exit))
                } else {
                    (Mode::Normal, Vec::new())
                }
            },
        }
    }

    /// The pane after `key` was pressed, and what the key asks of the
    /// buffer: the pane reads the key in its mode and takes the mode that
    /// follows; its cursors stay.
    pub fn key(&self, key: Key, super_pressed: bool) -> (out: (Pane, Vec<BufferOp>))
        requires
            self.mode == Mode::Normal || super_pressed ==> readable(key),
        ensures
            self.mode == Mode::Normal ==> normal_meaning(key, super_pressed, out.0.mode, out.1@),
            self.mode == Mode::Insert ==> insert_meaning(key, super_pressed, out.0.mode, out.1@),
            out.0.entries() == self.entries(),
            out.0.main_cursor_start == self.main_cursor_start,
            out.0.grapheme_col_offset == self.grapheme_col_offset,
            out.0.buffer_id == self.buffer_id,
            out.0.id == self.id,
            out.0.y_offset_bits == self.y_offset_bits,
    {
        let (mode, ops) = match self.mode {
            Mode::Normal => self.normal(key, super_pressed),
            Mode::Insert => self.insert(key, super_pressed),
        };
        let mut pane = self.clone();
        pane.mode = mode;
        (pane, ops)
    }
}

} // verus!
