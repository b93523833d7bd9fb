use chop::buffer::{FileTime, TextBuffer};
use chop::dispatch::{
    buffer_op_handler, involved_panes, save_done, store, store_all, try_buffer_op, BufferOp,
    CustomEvent,
};
use chop::filter_map::{filter_map_terminate, FMTOption, FilterMapTerminate};
use chop::keys::{Key, NamedKey};
use chop::pane::{Mode, Pane, Selection};
use chop::render::{calc_chunk_size, terminal_render};
use crop::Rope;

fn state(text: &str) -> (Vec<TextBuffer>, Vec<Pane>) {
    (vec![TextBuffer::new(None, Rope::from(text))], vec![Pane::new(0, 0)])
}

fn starts_of(pane: &Pane) -> Vec<usize> {
    pane.cursors_iter().iter().map(|s| s.start).collect()
}

#[test]
fn handler_runs_a_session() {
    let (buffers, panes) = state("ab\ncd");
    let out = buffer_op_handler(buffers, panes, BufferOp::AddCursor(3), vec![0]);
    assert_eq!(out.event, CustomEvent::BufferRequestedRedraw(0));
    assert!(out.save.is_none());
    assert_eq!(starts_of(&out.panes[0]), vec![0, 3]);
    let out = buffer_op_handler(out.buffers, out.panes, BufferOp::Insert("x".to_string()), vec![0]);
    assert_eq!(out.buffers[0].text(), "xab\nxcd");
    assert_eq!(starts_of(&out.panes[0]), vec![1, 5]);
    let out = buffer_op_handler(out.buffers, out.panes, BufferOp::MoveHorizontal(1), vec![0]);
    assert_eq!(starts_of(&out.panes[0]), vec![2, 6]);
    let out = buffer_op_handler(out.buffers, out.panes, BufferOp::Delete, vec![0]);
    assert_eq!(out.buffers[0].text(), "xb\nxd");
    assert_eq!(starts_of(&out.panes[0]), vec![1, 4]);
    assert_eq!(out.panes[0].main_cursor_start, 1);
    let out = buffer_op_handler(out.buffers, out.panes, BufferOp::MoveVertical(1), vec![0]);
    assert_eq!(starts_of(&out.panes[0]), vec![4, 5]);
    assert_eq!(out.panes[0].main_cursor_start, 4);
    let out = buffer_op_handler(out.buffers, out.panes, BufferOp::SetMainCursor(0), vec![0]);
    assert_eq!(starts_of(&out.panes[0]), vec![0, 5]);
    assert_eq!(out.panes[0].main_cursor_start, 0);
    assert_eq!(out.panes[0].grapheme_col_offset, 0);
    let out = buffer_op_handler(out.buffers, out.panes, BufferOp::Exit, vec![0]);
    assert_eq!(out.buffers[0].text(), "xb\nxd");
    assert_eq!(out.event, CustomEvent::BufferRequestedRedraw(0));
}

#[test]
fn handler_touches_only_the_buffer_of_the_active_pane() {
    let buffers = vec![
        TextBuffer::new(None, Rope::from("first")),
        TextBuffer::new(None, Rope::from("second")),
    ];
    let panes = vec![Pane::new(0, 0), Pane::new(1, 1)];
    let out = buffer_op_handler(buffers, panes, BufferOp::Insert("> ".to_string()), vec![1]);
    assert_eq!(out.event, CustomEvent::BufferRequestedRedraw(1));
    assert_eq!(out.buffers[0].text(), "first");
    assert_eq!(out.buffers[1].text(), "> second");
    assert_eq!(starts_of(&out.panes[0]), vec![0]);
    assert_eq!(starts_of(&out.panes[1]), vec![2]);
}

#[test]
fn save_asks_for_a_write_and_save_done_records_it() {
    let then = FileTime { secs: 1, nanos: 0 };
    let buffers = vec![TextBuffer::from_filename("a.txt", 2, "ab", then).unwrap()];
    let out = buffer_op_handler(buffers, vec![Pane::new(0, 0)], BufferOp::Insert("x".into()), vec![0]);
    assert!(out.buffers[0].file.clone().unwrap().is_modified);
    let out = buffer_op_handler(out.buffers, out.panes, BufferOp::Save, vec![0]);
    let request = out.save.unwrap();
    assert_eq!(request.buffer_id, 0);
    assert_eq!(request.filename, "a.txt");
    assert_eq!(request.text, "xab");
    assert!(out.buffers[0].file.clone().unwrap().is_modified);
    assert_eq!(out.event, CustomEvent::BufferRequestedRedraw(0));
    let now = FileTime { secs: 2, nanos: 5 };
    let buffers = save_done(out.buffers, 0, "a.txt", now);
    let info = buffers[0].file.clone().unwrap();
    assert!(!info.is_modified);
    assert_eq!(info.file_time, now);
    assert_eq!(buffers[0].text(), "xab");
}

#[test]
fn intents_that_break_the_protocol_are_handed_back() {
    let (buffers, panes) = state("aé");
    let back = try_buffer_op(buffers, panes, BufferOp::Delete, vec![]).unwrap_err();
    let back = try_buffer_op(back.buffers, back.panes, BufferOp::Delete, vec![0, 0]).unwrap_err();
    let back = try_buffer_op(back.buffers, back.panes, BufferOp::Delete, vec![4]).unwrap_err();
    let back = try_buffer_op(back.buffers, back.panes, BufferOp::Save, vec![0]).unwrap_err();
    let back =
        try_buffer_op(back.buffers, back.panes, BufferOp::SetMainCursor(2), vec![0]).unwrap_err();
    let back =
        try_buffer_op(back.buffers, back.panes, BufferOp::SetMainCursor(9), vec![0]).unwrap_err();
    assert_eq!(back.buffers[0].text(), "aé");
    assert_eq!(starts_of(&back.panes[0]), vec![0]);
    // A cursor inside a code point makes the pane unfit for an edit.
    let out = try_buffer_op(back.buffers, back.panes, BufferOp::AddCursor(2), vec![0]).unwrap();
    let back = try_buffer_op(out.buffers, out.panes, BufferOp::Insert("x".into()), vec![0])
        .unwrap_err();
    let back =
        try_buffer_op(back.buffers, back.panes, BufferOp::MoveHorizontal(1), vec![0]).unwrap_err();
    let back =
        try_buffer_op(back.buffers, back.panes, BufferOp::MoveVertical(1), vec![0]).unwrap_err();
    assert_eq!(starts_of(&back.panes[0]), vec![0, 2]);
    assert_eq!(back.buffers[0].text(), "aé");
}

#[test]
fn two_panes_on_one_buffer_are_not_edited() {
    let buffers = vec![TextBuffer::new(None, Rope::from("abc"))];
    let panes = vec![Pane::new(0, 0), Pane::new(0, 1)];
    let back = try_buffer_op(buffers, panes, BufferOp::Delete, vec![0]).unwrap_err();
    assert_eq!(back.panes.len(), 2);
    let out = try_buffer_op(back.buffers, back.panes, BufferOp::AddCursor(1), vec![1]).unwrap();
    assert_eq!(starts_of(&out.panes[0]), vec![0]);
    assert_eq!(starts_of(&out.panes[1]), vec![0, 1]);
}

#[test]
fn delete_inside_a_cluster_is_handed_back() {
    let buffers = vec![TextBuffer::new(None, Rope::from("a\r\nb"))];
    let panes = vec![Pane::new(0, 0).add_cursor(2).add_cursor(3)];
    let back = try_buffer_op(buffers, panes, BufferOp::Delete, vec![0]).unwrap_err();
    assert_eq!(back.buffers[0].text(), "a\r\nb");
    assert_eq!(starts_of(&back.panes[0]), vec![0, 2, 3]);
}

#[test]
fn store_replaces_or_appends() {
    let list = store(vec![1, 2, 3], 1, 9);
    assert_eq!(list, vec![1, 9, 3]);
    let list = store(list, 3, 7);
    assert_eq!(list, vec![1, 9, 3, 7]);
    let list = store(Vec::new(), 0, 5);
    assert_eq!(list, vec![5]);
}

#[test]
fn involved_panes_and_store_all() {
    let panes = vec![Pane::new(0, 0), Pane::new(1, 1), Pane::new(0, 2)];
    let on_zero = involved_panes(&panes, 0);
    assert_eq!(on_zero.iter().map(|p| p.id).collect::<Vec<_>>(), vec![0, 2]);
    assert!(involved_panes(&panes, 7).is_empty());
    let changed: Vec<Pane> = on_zero.iter().map(|p| p.add_cursor(5)).collect();
    let panes = store_all(panes, changed);
    assert_eq!(panes.len(), 3);
    assert_eq!(starts_of(&panes[0]), vec![0, 5]);
    assert_eq!(starts_of(&panes[1]), vec![0]);
    assert_eq!(starts_of(&panes[2]), vec![0, 5]);
    let panes = store_all(panes, vec![Pane::new(4, 3)]);
    assert_eq!(panes.len(), 4);
    assert_eq!(panes[3].buffer_id, 4);
}

#[test]
fn exit_is_told_apart() {
    assert!(BufferOp::Exit.is_exit());
    assert!(!BufferOp::Delete.is_exit());
    assert!(!BufferOp::Insert(String::new()).is_exit());
}

fn kinds(ops: &[BufferOp]) -> Vec<String> {
    ops.iter().map(|op| format!("{:?}", op)).collect()
}

#[test]
fn keys_in_insert_mode() {
    let pane = Pane::new(0, 0);
    let (mode, ops) = pane.insert(Key::Named(NamedKey::Enter), false);
    assert_eq!(mode, Mode::Insert);
    assert_eq!(kinds(&ops), vec!["Insert(\"\\n\")"]);
    let (_, ops) = pane.insert(Key::Named(NamedKey::Space), false);
    assert_eq!(kinds(&ops), vec!["Insert(\" \")"]);
    let (_, ops) = pane.insert(Key::Named(NamedKey::ArrowLeft), false);
    assert_eq!(kinds(&ops), vec!["MoveHorizontal(-1)"]);
    let (_, ops) = pane.insert(Key::Named(NamedKey::ArrowRight), false);
    assert_eq!(kinds(&ops), vec!["MoveHorizontal(1)"]);
    let (_, ops) = pane.insert(Key::Named(NamedKey::ArrowUp), false);
    assert_eq!(kinds(&ops), vec!["MoveVertical(-1)"]);
    let (_, ops) = pane.insert(Key::Named(NamedKey::ArrowDown), false);
    assert_eq!(kinds(&ops), vec!["MoveVertical(1)"]);
    let (_, ops) = pane.insert(Key::Named(NamedKey::Backspace), false);
    assert_eq!(kinds(&ops), vec!["Delete"]);
    let (mode, ops) = pane.insert(Key::Named(NamedKey::Escape), false);
    assert_eq!(mode, Mode::Normal);
    assert!(ops.is_empty());
    let (mode, ops) = pane.insert(Key::Named(NamedKey::Other), true);
    assert_eq!(mode, Mode::Insert);
    assert!(ops.is_empty());
    let (_, ops) = pane.insert(Key::Character("wé".to_string()), false);
    assert_eq!(kinds(&ops), vec!["Insert(\"wé\")"]);
    let (mode, ops) = pane.insert(Key::Character("w".to_string()), true);
    assert_eq!(mode, Mode::Insert);
    assert_eq!(kinds(&ops), vec!["Exit"]);
    let (_, ops) = pane.insert(Key::Character("x".to_string()), true);
    assert!(ops.is_empty());
}

#[test]
fn keys_in_normal_mode() {
    let pane = Pane::new(0, 0);
    let press = |text: &str, held: bool| pane.normal(Key::Character(text.to_string()), held);
    assert_eq!(kinds(&press("h", false).1), vec!["MoveHorizontal(-1)"]);
    assert_eq!(kinds(&press("l", false).1), vec!["MoveHorizontal(1)"]);
    assert_eq!(kinds(&press("k", false).1), vec!["MoveVertical(-1)"]);
    assert_eq!(kinds(&press("j", false).1), vec!["MoveVertical(1)"]);
    assert_eq!(kinds(&press("q", false).1), vec!["Exit"]);
    assert_eq!(kinds(&press("w", true).1), vec!["Exit"]);
    assert!(press("w", false).1.is_empty());
    assert!(press("z", false).1.is_empty());
    let (mode, ops) = press("i", false);
    assert_eq!(mode, Mode::Insert);
    assert!(ops.is_empty());
    assert_eq!(press("h", true).0, Mode::Normal);
    let (mode, ops) = pane.normal(Key::Named(NamedKey::ArrowDown), false);
    assert_eq!(mode, Mode::Normal);
    assert_eq!(kinds(&ops), vec!["MoveVertical(1)"]);
    let (_, ops) = pane.normal(Key::Named(NamedKey::ArrowUp), false);
    assert_eq!(kinds(&ops), vec!["MoveVertical(-1)"]);
    let (_, ops) = pane.normal(Key::Named(NamedKey::ArrowLeft), false);
    assert_eq!(kinds(&ops), vec!["MoveHorizontal(-1)"]);
    let (_, ops) = pane.normal(Key::Named(NamedKey::ArrowRight), false);
    assert_eq!(kinds(&ops), vec!["MoveHorizontal(1)"]);
    let (mode, ops) = pane.normal(Key::Named(NamedKey::Enter), false);
    assert_eq!(mode, Mode::Normal);
    assert!(ops.is_empty());
}

#[test]
fn key_follows_the_mode_of_the_pane() {
    let pane = Pane::new(2, 1).add_cursor(4);
    let (pane, ops) = pane.key(Key::Character("x".to_string()), false);
    assert_eq!(pane.mode, Mode::Normal);
    assert!(ops.is_empty());
    let (pane, ops) = pane.key(Key::Character("i".to_string()), false);
    assert_eq!(pane.mode, Mode::Insert);
    assert!(ops.is_empty());
    let (pane, ops) = pane.key(Key::Character("x".to_string()), false);
    assert_eq!(pane.mode, Mode::Insert);
    assert_eq!(kinds(&ops), vec!["Insert(\"x\")"]);
    let (pane, ops) = pane.key(Key::Named(NamedKey::Escape), false);
    assert_eq!(pane.mode, Mode::Normal);
    assert!(ops.is_empty());
    assert_eq!(starts_of(&pane), vec![0, 4]);
    assert_eq!(pane.buffer_id, 2);
    assert_eq!(pane.id, 1);
}

fn halve_until_seven(n: u32) -> FMTOption<u32> {
    if n == 7 {
        FMTOption::Terminate
    } else if n % 2 == 0 {
        FMTOption::Yield(n / 2)
    } else {
        FMTOption::Skip
    }
}

#[test]
fn adapter_filters_maps_and_terminates() {
    let items = vec![1u32, 4, 3, 5, 10, 7, 8, 12];
    let mut adapter = filter_map_terminate(items.into_iter(), halve_until_seven);
    assert_eq!(adapter.next(), Some(2));
    assert!(!adapter.terminated);
    assert_eq!(adapter.next(), Some(5));
    assert_eq!(adapter.next(), None);
    assert!(adapter.terminated);
    assert_eq!(adapter.next(), None);
    assert_eq!(adapter.iter.next(), Some(8));
}

#[test]
fn adapter_runs_to_the_end_without_terminating() {
    let mut adapter = FilterMapTerminate::new(vec![1u32, 3, 6].into_iter(), halve_until_seven);
    assert_eq!(adapter.next(), Some(3));
    assert_eq!(adapter.next(), None);
    assert!(!adapter.terminated);
    assert_eq!(adapter.next(), None);
    let mut empty = filter_map_terminate(Vec::<u32>::new().into_iter(), halve_until_seven);
    assert_eq!(empty.next(), None);
    assert!(!empty.terminated);
}

#[test]
fn chunk_size_is_half_of_what_the_prefix_leaves() {
    assert_eq!(calc_chunk_size(None, 176), 66);
    assert_eq!(calc_chunk_size(Some(80), 176), 18);
    assert_eq!(calc_chunk_size(Some(43), 176), 0);
    assert_eq!(calc_chunk_size(Some(44), 0), 0);
    assert_eq!(calc_chunk_size(Some(45), 0), 1);
}

fn bitmap(width: usize, height: usize, alpha: &[u8]) -> Vec<u8> {
    let mut buffer = vec![0u8; width * height * 4];
    for (i, a) in alpha.iter().enumerate() {
        buffer[i * 4] = 200;
        buffer[i * 4 + 3] = *a;
    }
    buffer
}

#[test]
fn terminal_render_draws_strips_from_the_top_line_down() {
    // Three columns, two lines; line 1 is the top line.
    let buffer = bitmap(3, 2, &[0, 51, 52, 104, 156, 255]);
    let rows = terminal_render(3, 2, &buffer, 2);
    assert_eq!(rows, vec!["||OO", "    ", "WW", "::"]);
    let whole = terminal_render(3, 2, &buffer, 3);
    assert_eq!(whole, vec!["||OOWW", "    ::", "", ""]);
    let wide = terminal_render(3, 2, &buffer, 5);
    assert_eq!(wide, vec!["||OOWW", "    ::"]);
}

#[test]
fn terminal_render_of_nothing() {
    assert!(terminal_render(4, 0, &[], 2).is_empty());
    assert_eq!(terminal_render(0, 2, &[], 2), vec!["", ""]);
}

#[test]
fn palette_steps_every_fifty_two_values() {
    let buffer = bitmap(6, 1, &[51, 103, 155, 207, 208, 0]);
    let rows = terminal_render(6, 1, &buffer, 6);
    assert_eq!(rows, vec!["  ::||OOWW  ", ""]);
}
