//! A persistent, multi-cursor text buffer engine.
//!
//! The text lives in a rope; every cursor is a byte offset into it. Edits
//! and moves are pure: they take a buffer and the panes that look at it and
//! give back new values of both.
//!
//! - `text`: the model of a text as bytes, lines and grapheme clusters.
//! - `rope`, `cursor_map`: the two outside containers and what is taken on
//!   trust of them.
//! - `pane`, `buffer`: cursors, panes and buffers.
//! - `edit`, `erase`, `motion`: typing, deleting backwards and moving.
//! - `dispatch`: the single writer's step from one intent to the next
//!   lists of buffers and panes.
//! - `keys`: what a key means to a pane.
//! - `filter_map`, `render`: an iterator adapter and a picture of a bitmap
//!   in text.

pub mod buffer;
pub mod cursor_map;
pub mod dispatch;
pub mod edit;
pub mod erase;
pub mod filter_map;
pub mod keys;
pub mod motion;
pub mod pane;
pub mod render;
pub mod rope;
pub mod text;
