use chop::buffer::{reset_grapheme_col_offset, FileInfo, FileTime, TextBuffer};
use chop::pane::{Layout, Mode, Pane, Selection};
use crop::Rope;

fn bare(start: usize) -> Selection {
    Selection { start, offset: 0 }
}

fn pane_with(text: &str, starts: &[usize], main: usize) -> (TextBuffer, Vec<Pane>) {
    let contents = Rope::from(text);
    let grapheme_col_offset = reset_grapheme_col_offset(&contents, main);
    let pane = Pane {
        cursors: starts.iter().map(|s| (*s, bare(*s))).collect(),
        buffer_id: 0,
        main_cursor_start: main,
        grapheme_col_offset,
        id: 0,
        y_offset_bits: 0,
        mode: Mode::Normal,
    };
    (TextBuffer::new(None, contents), vec![pane])
}

fn starts_of(pane: &Pane) -> Vec<usize> {
    pane.cursors_iter().iter().map(|s| s.start).collect()
}

#[test]
fn insert_moves_main_cursor_and_column() {
    let (buffer, panes) = pane_with("ab\ncd", &[1, 4], 4);
    let (buffer, panes) = buffer.insert("xyz", panes, vec![0]);
    assert_eq!(buffer.text(), "axyzb\ncxyzd");
    assert_eq!(starts_of(&panes[0]), vec![4, 10]);
    assert_eq!(panes[0].main_cursor_start, 10);
    assert_eq!(panes[0].grapheme_col_offset, 4);
    for s in panes[0].cursors_iter() {
        assert!(s.is_empty());
    }
}

#[test]
fn insert_at_both_ends() {
    let (buffer, panes) = pane_with("mid", &[0, 3], 0);
    let (buffer, panes) = buffer.insert("é", panes, vec![0]);
    assert_eq!(buffer.text(), "émidé");
    assert_eq!(starts_of(&panes[0]), vec![2, 7]);
    assert_eq!(panes[0].main_cursor_start, 2);
    assert_eq!(buffer.byte_len(), 7);
}

#[test]
fn insert_marks_file_modified() {
    let now = FileTime { secs: 7, nanos: 9 };
    let buffer = TextBuffer::from_filename("notes.txt", 3, "abc", now).unwrap();
    let info = buffer.file.clone().unwrap();
    assert_eq!(info.filename, "notes.txt");
    assert!(!info.is_modified);
    assert_eq!(info.file_time, now);
    let (buffer, _) = buffer.insert("x", vec![Pane::new(0, 0)], vec![0]);
    assert_eq!(buffer.text(), "xabc");
    let info = buffer.file.clone().unwrap();
    assert!(info.is_modified);
    assert_eq!(info.filename, "notes.txt");
    assert_eq!(info.file_time, now);
}

#[test]
fn insert_empty_text_keeps_everything() {
    let (buffer, panes) = pane_with("abc", &[1, 2], 2);
    let (buffer, panes) = buffer.insert("", panes, vec![0]);
    assert_eq!(buffer.text(), "abc");
    assert_eq!(starts_of(&panes[0]), vec![1, 2]);
    assert_eq!(panes[0].main_cursor_start, 2);
}

#[test]
fn backdelete_merges_adjacent_cursors() {
    let (buffer, panes) = pane_with("abcde", &[3, 4], 4);
    let (buffer, panes) = buffer.backdelete_cursor(panes, vec![0]);
    assert_eq!(buffer.text(), "abe");
    assert_eq!(starts_of(&panes[0]), vec![2]);
    assert_eq!(panes[0].main_cursor_start, 2);
    assert_eq!(panes[0].grapheme_col_offset, 2);
}

#[test]
fn backdelete_at_start_deletes_nothing() {
    let (buffer, panes) = pane_with("abc", &[0], 0);
    let (buffer, panes) = buffer.backdelete_cursor(panes, vec![0]);
    assert_eq!(buffer.text(), "abc");
    assert_eq!(starts_of(&panes[0]), vec![0]);
}

#[test]
fn backdelete_takes_whole_grapheme_cluster() {
    // "e" + combining acute accent is one cluster of three bytes, and so is
    // carriage return + line feed, of two.
    let (buffer, panes) = pane_with("ae\u{301}\r\nz", &[4, 6], 6);
    let (buffer, panes) = buffer.backdelete_cursor(panes, vec![0]);
    assert_eq!(buffer.text(), "az");
    assert_eq!(starts_of(&panes[0]), vec![1]);
    assert_eq!(panes[0].main_cursor_start, 1);
}

#[test]
fn backdelete_keeps_file_info() {
    let now = FileTime { secs: 1, nanos: 2 };
    let buffer = TextBuffer::from_filename("a.txt", 2, "ab", now).unwrap();
    let (_, panes) = pane_with("ab", &[2], 2);
    let (buffer, _) = buffer.backdelete_cursor(panes, vec![0]);
    assert_eq!(buffer.text(), "a");
    assert!(!buffer.file.clone().unwrap().is_modified);
}

#[test]
fn try_backdelete_refuses_cursor_inside_cluster() {
    // A cursor between carriage return and line feed stands inside the
    // cluster that the next cursor would take out.
    let (buffer, panes) = pane_with("a\r\nb", &[2, 3], 3);
    assert!(buffer.try_backdelete_cursor(panes, vec![0]).is_none());
    let (buffer, panes) = pane_with("a\r\nb", &[1, 3], 3);
    let (buffer, panes) = buffer.try_backdelete_cursor(panes, vec![0]).unwrap();
    assert_eq!(buffer.text(), "b");
    assert_eq!(starts_of(&panes[0]), vec![0]);
}

#[test]
fn move_horizontal_clamps_at_both_ends() {
    let (buffer, panes) = pane_with("abc", &[0, 3], 0);
    let (buffer, left) = buffer.move_horizontal(-5, panes, vec![0]);
    assert_eq!(starts_of(&left[0]), vec![0]);
    assert_eq!(left[0].main_cursor_start, 0);
    let (_, panes) = pane_with("abc", &[0, 3], 3);
    let (buffer, right) = buffer.move_horizontal(i64::MAX, panes, vec![0]);
    assert_eq!(starts_of(&right[0]), vec![3]);
    assert_eq!(right[0].main_cursor_start, 3);
    assert_eq!(buffer.text(), "abc");
    let (_, panes) = pane_with("abc", &[0, 3], 0);
    let (_, far_left) = buffer.move_horizontal(i64::MIN, panes, vec![0]);
    assert_eq!(starts_of(&far_left[0]), vec![0]);
}

#[test]
fn move_horizontal_steps_over_clusters() {
    let text = "ae\u{301}\r\nz";
    let (buffer, panes) = pane_with(text, &[1], 1);
    let (buffer, panes) = buffer.move_horizontal(1, panes, vec![0]);
    assert_eq!(starts_of(&panes[0]), vec![4]);
    let (buffer, panes) = buffer.move_horizontal(1, panes, vec![0]);
    assert_eq!(starts_of(&panes[0]), vec![6]);
    let (buffer, panes) = buffer.move_horizontal(-2, panes, vec![0]);
    assert_eq!(starts_of(&panes[0]), vec![1]);
    assert_eq!(buffer.text(), text);
}

#[test]
fn move_horizontal_by_zero_collapses_selections() {
    let contents = Rope::from("abcd");
    let pane = Pane {
        cursors: [(1usize, Selection { start: 1, offset: 2 })].into_iter().collect(),
        buffer_id: 0,
        main_cursor_start: 1,
        grapheme_col_offset: 1,
        id: 0,
        y_offset_bits: 0,
        mode: Mode::Insert,
    };
    let buffer = TextBuffer::new(None, contents);
    let (_, panes) = buffer.move_horizontal(0, vec![pane], vec![0]);
    assert_eq!(panes[0].cursors_iter(), vec![bare(1)]);
    assert_eq!(panes[0].grapheme_col_offset, 1);
    assert_eq!(panes[0].mode, Mode::Insert);
}

#[test]
fn move_horizontal_shifts_column_by_offset() {
    let (buffer, panes) = pane_with("abcdef", &[2], 2);
    let (buffer, panes) = buffer.move_horizontal(3, panes, vec![0]);
    assert_eq!(panes[0].grapheme_col_offset, 5);
    let (buffer, panes) = buffer.move_horizontal(-4, panes, vec![0]);
    assert_eq!(panes[0].grapheme_col_offset, 1);
    let (_, panes) = buffer.move_horizontal(-4, panes, vec![0]);
    assert_eq!(panes[0].grapheme_col_offset, 0);
    assert_eq!(starts_of(&panes[0]), vec![0]);
}

#[test]
fn move_vertical_down_then_up_returns() {
    let (buffer, panes) = pane_with("abcdef\nghijkl\nmn", &[3], 3);
    assert_eq!(panes[0].grapheme_col_offset, 3);
    let (buffer, panes) = buffer.move_vertical(1, panes, vec![0]);
    assert_eq!(starts_of(&panes[0]), vec![10]);
    assert_eq!(panes[0].main_cursor_start, 10);
    assert_eq!(panes[0].grapheme_col_offset, 3);
    let (_, panes) = buffer.move_vertical(-1, panes, vec![0]);
    assert_eq!(starts_of(&panes[0]), vec![3]);
    assert_eq!(panes[0].grapheme_col_offset, 3);
}

#[test]
fn move_vertical_clamps_to_short_line() {
    let (buffer, panes) = pane_with("abcdef\nghijkl\nmn", &[10], 10);
    let (buffer, panes) = buffer.move_vertical(1, panes, vec![0]);
    assert_eq!(starts_of(&panes[0]), vec![16]);
    assert_eq!(panes[0].main_cursor_start, buffer.byte_len());
    assert_eq!(panes[0].grapheme_col_offset, 3);
    let (_, panes) = buffer.move_vertical(-1, panes, vec![0]);
    assert_eq!(starts_of(&panes[0]), vec![10]);
}

#[test]
fn move_vertical_clamps_at_first_and_last_line() {
    let (buffer, panes) = pane_with("ab\ncd\nef\n", &[4], 4);
    let (buffer, up) = buffer.move_vertical(-9, panes, vec![0]);
    assert_eq!(starts_of(&up[0]), vec![1]);
    let (buffer, down) = buffer.move_vertical(i64::MAX, up, vec![0]);
    assert_eq!(starts_of(&down[0]), vec![9]);
    assert!(down[0].main_cursor_start <= buffer.byte_len());
    let (_, back) = buffer.move_vertical(i64::MIN, down, vec![0]);
    assert_eq!(starts_of(&back[0]), vec![1]);
}

#[test]
fn move_vertical_merges_cursors_that_meet() {
    let (buffer, panes) = pane_with("ab\ncd", &[0, 3], 3);
    let (_, panes) = buffer.move_vertical(-1, panes, vec![0]);
    assert_eq!(starts_of(&panes[0]), vec![0]);
    assert_eq!(panes[0].main_cursor_start, 0);
}

#[test]
fn add_cursor_is_idempotent() {
    let pane = Pane::new(0, 0).add_cursor(4);
    assert_eq!(pane.cursors.len(), 2);
    let again = pane.add_cursor(4);
    assert_eq!(again.cursors.len(), 2);
    assert_eq!(again.cursors_iter(), vec![bare(0), bare(4)]);
    assert_eq!(again.main_cursor_start, 0);
    let lower = again.add_cursor(2);
    assert_eq!(lower.cursors_iter(), vec![bare(0), bare(2), bare(4)]);
}

#[test]
fn add_cursor_replaces_selection_at_same_start() {
    let pane = Pane {
        cursors: [(3usize, Selection { start: 3, offset: -2 })].into_iter().collect(),
        buffer_id: 0,
        main_cursor_start: 3,
        grapheme_col_offset: 0,
        id: 0,
        y_offset_bits: 0,
        mode: Mode::Normal,
    };
    let pane = pane.add_cursor(3);
    assert_eq!(pane.cursors_iter(), vec![bare(3)]);
}

#[test]
fn set_main_cursor_moves_only_the_main_cursor() {
    let (buffer, panes) = pane_with("ab\ncdef", &[1, 5], 5);
    let pane = panes[0].set_main_cursor(6, &buffer);
    assert_eq!(starts_of(&pane), vec![1, 6]);
    assert_eq!(pane.main_cursor_start, 6);
    assert_eq!(pane.grapheme_col_offset, 3);
    let pane = pane.set_main_cursor(1, &buffer);
    assert_eq!(starts_of(&pane), vec![1]);
    assert_eq!(pane.grapheme_col_offset, 1);
}

#[test]
fn pane_new_has_one_cursor_at_zero() {
    let pane = Pane::new(3, 5);
    assert_eq!(pane.cursors_iter(), vec![bare(0)]);
    assert_eq!(pane.main_cursor_start, 0);
    assert_eq!(pane.grapheme_col_offset, 0);
    assert_eq!(pane.buffer_id, 3);
    assert_eq!(pane.id, 5);
    assert_eq!(pane.y_offset_bits, 0);
    assert_eq!(pane.mode, Mode::Normal);
    assert!(pane.is_wf());
}

#[test]
fn pane_invariant_and_fit_are_checked() {
    let (buffer, panes) = pane_with("aé", &[0, 1], 1);
    assert!(panes[0].is_wf());
    assert!(panes[0].fits(&buffer));
    let inside = panes[0].add_cursor(2);
    assert!(inside.is_wf());
    assert!(!inside.fits(&buffer));
    let outside = panes[0].add_cursor(9);
    assert!(!outside.fits(&buffer));
    let mut lost = panes[0].clone();
    lost.main_cursor_start = 2;
    assert!(!lost.is_wf());
    let mut miskeyed = panes[0].clone();
    miskeyed.cursors.insert(3, bare(0));
    assert!(!miskeyed.is_wf());
}

#[test]
fn selection_end_and_reverse() {
    let forward = Selection { start: 0, offset: 3 };
    assert_eq!(forward.end(), 3);
    assert!(!forward.is_empty());
    assert_eq!(forward.reverse(), Selection { start: 3, offset: -3 });
    let backward = Selection { start: 5, offset: -3 };
    assert_eq!(backward.end(), 2);
    assert_eq!(backward.reverse(), Selection { start: 2, offset: 3 });
    assert_eq!(backward.reverse().reverse(), backward);
    let cursor = bare(7);
    assert_eq!(cursor.end(), 7);
    assert!(cursor.is_empty());
    assert_eq!(cursor.reverse(), cursor);
}

#[test]
fn file_size_ceiling_is_three_gib() {
    let now = FileTime { secs: 0, nanos: 0 };
    let ceiling: u64 = 3 * 1024 * 1024 * 1024;
    assert!(TextBuffer::from_filename("big", ceiling, "x", now).is_err());
    assert!(TextBuffer::from_filename("big", u64::MAX, "x", now).is_err());
    let opened = TextBuffer::from_filename("ok", ceiling - 1, "x", now).unwrap();
    assert_eq!(opened.text(), "x");
}

#[test]
fn written_text_opens_as_the_same_text() {
    let (buffer, panes) = pane_with("líne one\r\nline twö\n", &[0], 0);
    let (buffer, _) = buffer.insert("→", panes, vec![0]);
    let now = FileTime { secs: 11, nanos: 12 };
    let saved = buffer.write("out.txt", now);
    let info = saved.file.clone().unwrap();
    assert_eq!(info.filename, "out.txt");
    assert!(!info.is_modified);
    assert_eq!(info.file_time, now);
    assert_eq!(saved.text(), buffer.text());
    let written = saved.text();
    let opened =
        TextBuffer::from_filename("out.txt", written.len() as u64, &written, now).unwrap();
    assert_eq!(opened.contents, buffer.contents);
    assert_eq!(opened.text(), "→líne one\r\nline twö\n");
}

#[test]
fn blank_and_default_buffers_are_empty() {
    let blank = TextBuffer::from_blank();
    assert!(blank.file.is_none());
    assert_eq!(blank.byte_len(), 0);
    assert_eq!(blank.num_lines(), 0);
    assert_eq!(blank.text(), "");
    let default = TextBuffer::default();
    assert!(default.file.is_none());
    assert_eq!(default.text(), "");
    let copy = TextBuffer::new(
        Some(FileInfo {
            filename: String::from("f"),
            is_modified: true,
            file_time: FileTime { secs: 1, nanos: 1 },
        }),
        Rope::from("abc"),
    )
    .clone();
    assert_eq!(copy.text(), "abc");
    assert!(copy.file.unwrap().is_modified);
}

#[test]
fn lines_are_counted_and_split() {
    let buffer = TextBuffer::new(None, Rope::from("a\r\nbc\n\nd"));
    assert_eq!(buffer.num_lines(), 4);
    assert_eq!(buffer.lines(), vec!["a", "bc", "", "d"]);
    assert_eq!(buffer.byte_len(), 8);
    let closed = TextBuffer::new(None, Rope::from("a\nb\n"));
    assert_eq!(closed.num_lines(), 2);
    assert_eq!(closed.lines(), vec!["a", "b"]);
}

#[test]
fn char_boundaries_are_told_apart() {
    let buffer = TextBuffer::new(None, Rope::from("aé"));
    assert!(buffer.is_char_boundary(0));
    assert!(buffer.is_char_boundary(1));
    assert!(!buffer.is_char_boundary(2));
    assert!(buffer.is_char_boundary(3));
    assert!(!buffer.is_char_boundary(4));
}

#[test]
fn nowrap_lines_yields_clusters_and_start() {
    let buffer = TextBuffer::new(None, Rope::from("ab\ne\u{301}z\r\nq"));
    let (clusters, start) = buffer.nowrap_lines(1, 2);
    assert_eq!(start, 3);
    assert_eq!(clusters, vec!["e\u{301}", "z", "\r\n"]);
    let (all, start) = buffer.nowrap_lines(0, 3);
    assert_eq!(start, 0);
    assert_eq!(all.len(), 7);
    let (none, start) = buffer.nowrap_lines(3, 3);
    assert_eq!(start, 10);
    assert!(none.is_empty());
}

#[test]
fn grapheme_column_counts_clusters_on_the_line() {
    let contents = Rope::from("ab\ne\u{301}z\r\nq");
    assert_eq!(reset_grapheme_col_offset(&contents, 0), 0);
    assert_eq!(reset_grapheme_col_offset(&contents, 2), 2);
    assert_eq!(reset_grapheme_col_offset(&contents, 3), 0);
    assert_eq!(reset_grapheme_col_offset(&contents, 6), 1);
    assert_eq!(reset_grapheme_col_offset(&contents, 7), 2);
    assert_eq!(reset_grapheme_col_offset(&contents, 10), 1);
}

#[test]
fn layout_names_a_pane() {
    let layout = Layout { pane_id: 3 };
    assert_eq!(layout, Layout { pane_id: 3 });
    assert_eq!(layout.pane_id, 3);
}

#[test]
fn move_vertical_reaches_the_end_of_a_last_line() {
    let (buffer, panes) = pane_with("ab\ncd", &[2], 2);
    assert_eq!(panes[0].grapheme_col_offset, 2);
    let (buffer, panes) = buffer.move_vertical(1, panes, vec![0]);
    assert_eq!(panes[0].cursors_iter(), vec![bare(5)]);
    assert_eq!(panes[0].main_cursor_start, 5);
    assert_eq!(panes[0].grapheme_col_offset, 2);
    let (_, panes) = buffer.move_vertical(-1, panes, vec![0]);
    assert_eq!(panes[0].cursors_iter(), vec![bare(2)]);
}

#[test]
fn move_vertical_stops_before_the_line_break() {
    // Line 0 is "a" and ends in carriage return and line feed; line 1 is
    // "bcdef" and ends in a line feed; line 2 is "g".
    let (buffer, panes) = pane_with("a\r\nbcdef\ng", &[7], 7);
    assert_eq!(panes[0].grapheme_col_offset, 4);
    let (buffer, up) = buffer.move_vertical(-1, panes, vec![0]);
    assert_eq!(starts_of(&up[0]), vec![1]);
    let (buffer, down) = buffer.move_vertical(1, up, vec![0]);
    assert_eq!(starts_of(&down[0]), vec![7]);
    let (buffer, last) = buffer.move_vertical(1, down, vec![0]);
    assert_eq!(starts_of(&last[0]), vec![10]);
    let (_, back) = buffer.move_vertical(-1, last, vec![0]);
    assert_eq!(starts_of(&back[0]), vec![7]);
}

#[test]
fn move_vertical_onto_an_empty_line() {
    let (buffer, panes) = pane_with("abc\n\nxyz", &[2], 2);
    let (buffer, panes) = buffer.move_vertical(1, panes, vec![0]);
    assert_eq!(starts_of(&panes[0]), vec![4]);
    let (_, panes) = buffer.move_vertical(1, panes, vec![0]);
    assert_eq!(starts_of(&panes[0]), vec![7]);
}

#[test]
fn grapheme_column_does_not_split_a_flag() {
    let text = "x\u{1F1F7}\u{1F1F8}";
    let whole = Rope::from(text);
    let mut typed = Rope::new();
    typed.insert(0, text);
    for contents in [&whole, &typed] {
        assert_eq!(reset_grapheme_col_offset(contents, 0), 0);
        assert_eq!(reset_grapheme_col_offset(contents, 1), 1);
        assert_eq!(reset_grapheme_col_offset(contents, 9), 2);
    }
}

#[test]
fn nowrap_lines_clusters_make_up_the_lines() {
    let text = "x\u{1F1F7}\u{1F1F8}\ne\u{301}z\nlast";
    let opened = TextBuffer::from_filename("flags.txt", 20, text, FileTime { secs: 0, nanos: 0 })
        .unwrap();
    let (typed, _) = TextBuffer::from_blank().insert(text, vec![Pane::new(0, 0)], vec![0]);
    for buffer in [&opened, &typed] {
        let (clusters, start) = buffer.nowrap_lines(0, 2);
        assert_eq!(start, 0);
        assert!(clusters.iter().all(|c| !c.is_empty()));
        assert_eq!(clusters.concat(), "x\u{1F1F7}\u{1F1F8}\ne\u{301}z\n");
        let (clusters, start) = buffer.nowrap_lines(1, 3);
        assert_eq!(start, 10);
        assert!(clusters.iter().all(|c| !c.is_empty()));
        assert_eq!(clusters.concat(), "e\u{301}z\nlast");
    }
}

#[test]
fn move_horizontal_steps_over_a_flag() {
    let (buffer, panes) = pane_with("x\u{1F1F7}\u{1F1F8}y", &[1], 1);
    let (buffer, panes) = buffer.move_horizontal(1, panes, vec![0]);
    assert_eq!(starts_of(&panes[0]), vec![9]);
    let (buffer, panes) = buffer.move_horizontal(1, panes, vec![0]);
    assert_eq!(starts_of(&panes[0]), vec![10]);
    let (_, panes) = buffer.move_horizontal(-2, panes, vec![0]);
    assert_eq!(starts_of(&panes[0]), vec![1]);
}

#[test]
fn backdelete_takes_the_clusters_of_the_text_as_it_was() {
    let (buffer, panes) = pane_with("ae\u{301}\u{1F1F7}\u{1F1F8}z", &[1, 4, 12, 13], 12);
    let (buffer, panes) = buffer.try_backdelete_cursor(panes, vec![0]).unwrap();
    assert_eq!(buffer.text(), "");
    assert_eq!(starts_of(&panes[0]), vec![0]);
    assert_eq!(panes[0].main_cursor_start, 0);
    assert_eq!(panes[0].grapheme_col_offset, 0);
}
