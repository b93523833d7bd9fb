use chop::buffer::{reset_grapheme_col_offset, FileTime, OpenError, TextBuffer};
use chop::pane::{Mode, Pane, Selection};
use crop::Rope;

fn create_buffer(s: &str, cursors: Vec<Selection>) -> (TextBuffer, Vec<Pane>) {
    let start = cursors[0].start;
    let contents = Rope::from(s);
    let grapheme_col_offset = reset_grapheme_col_offset(&contents, start);
    let panes = vec![Pane {
        cursors: cursors.into_iter().map(|s| (s.start, s)).collect(),
        buffer_id: 0,
        main_cursor_start: start,
        grapheme_col_offset,
        id: 0,
        y_offset_bits: 0,
        mode: Mode::Normal,
    }];
    let buffer = TextBuffer::new(None, contents);
    (buffer, panes)
}

const SIX_LINES: &str = "abcdef\njfkdsalfjads\nkadsjlfla\nalskdjflasd\nasdjkflsda\naghigh";

#[test]
fn test_text_buffer_insertion() {
    let (buffer, panes) = create_buffer(
        "abcdefghigh",
        vec![
            Selection { start: 1, offset: 1 },
            Selection { start: 5, offset: 1 },
            Selection { start: 8, offset: 1 },
        ],
    );
    let (buffer, panes) = buffer.insert("xz", panes, vec![0]);

    let yee = buffer.contents.chunks().collect::<String>();

    assert_eq!(yee, "axzbcdexzfghxzigh");
    let expected = [
        Selection { start: 3, offset: 0 },
        Selection { start: 9, offset: 0 },
        Selection { start: 14, offset: 0 },
    ];
    let cursors = panes[0].cursors_iter();
    assert_eq!(cursors.len(), 3);
    for (a, b) in cursors.iter().zip(&expected) {
        assert_eq!(a, b);
    }
}

#[test]
fn test_lines() {
    let (buffer, _panes) = create_buffer(
        SIX_LINES,
        vec![
            Selection { start: 1, offset: 1 },
            Selection { start: 5, offset: 1 },
            Selection { start: 8, offset: 1 },
        ],
    );
    let v = vec!["abcdef", "jfkdsalfjads", "kadsjlfla", "alskdjflasd", "asdjkflsda", "aghigh"];

    let lines = buffer.lines();
    assert_eq!(lines.len(), v.len());
    for (a, b) in lines.iter().zip(v) {
        assert_eq!(a, b);
    }
}

#[test]
fn test_delete() {
    let cursors = vec![
        Selection { start: 1, offset: 0 },
        Selection { start: 5, offset: 0 },
        Selection { start: 8, offset: 0 },
    ];
    let (buffer, panes) = create_buffer(SIX_LINES, cursors);
    let (buffer, panes) = buffer.backdelete_cursor(panes, vec![0]);

    let yee = buffer.contents.chunks().collect::<String>();

    assert_eq!(yee, "bcdf\nfkdsalfjads\nkadsjlfla\nalskdjflasd\nasdjkflsda\naghigh");
    let expected = [
        Selection { start: 0, offset: 0 },
        Selection { start: 3, offset: 0 },
        Selection { start: 5, offset: 0 },
    ];
    let cursors = panes[0].cursors_iter();
    assert_eq!(cursors.len(), 3);
    for (a, b) in cursors.iter().zip(&expected) {
        assert_eq!(a, b);
    }
}

#[test]
fn test_nowrap_lines() {
    let cursors = vec![Selection { start: 0, offset: 0 }];
    let (buffer, _panes) = create_buffer(SIX_LINES, cursors);
    let (a, _) = buffer.nowrap_lines(0, 1);

    let s = "abcdef\n";
    assert_eq!(a.len(), s.chars().count());
    for (a, b) in a.iter().zip(s.chars()) {
        let c: Vec<char> = a.chars().collect();
        assert!(c.len() == 1);
        assert_eq!(c[0], b);
    }
}

#[test]
fn test_nowrap_lines_snd() {
    let cursors = vec![Selection { start: 0, offset: 0 }];
    let (buffer, _panes) = create_buffer(SIX_LINES, cursors);
    let (a, start) = buffer.nowrap_lines(1, 3);

    let s = "jfkdsalfjads\nkadsjlfla\n";
    assert_eq!(start, 7);
    assert_eq!(a.len(), s.chars().count());
    for (a, b) in a.iter().zip(s.chars()) {
        let c: Vec<char> = a.chars().collect();
        assert!(c.len() == 1);
        assert_eq!(c[0], b);
    }
}

#[test]
fn test_nowrap_lines_end() {
    // no newline ending case
    let cursors = vec![Selection { start: 0, offset: 0 }];
    let (buffer, _panes) = create_buffer(SIX_LINES, cursors);
    let (a, _) = buffer.nowrap_lines(5, 6);

    let s = "aghigh";
    assert_eq!(a.len(), s.chars().count());
    for (a, b) in a.iter().zip(s.chars()) {
        let c: Vec<char> = a.chars().collect();
        assert!(c.len() == 1);
        assert_eq!(c[0], b);
    }

    // newline ending case
    let cursors = vec![Selection { start: 0, offset: 0 }];
    let s = "abcdef\njfkdsalfjads\nkadsjlfla\nalskdjflasd\nasdjkflsda\naghigh\n";
    let (buffer, _panes) = create_buffer(s, cursors);
    let (b, _) = buffer.nowrap_lines(5, 6);

    let s = "aghigh\n";
    assert_eq!(b.len(), s.chars().count());
    for (a, b) in b.iter().zip(s.chars()) {
        let c: Vec<char> = a.chars().collect();
        assert!(c.len() == 1);
        assert_eq!(c[0], b);
    }
}

#[test]
fn test_file_too_large() {
    let filename = "/Users/jason/src/benchmarks/fastest-grep/folded.txt";
    let three_gb: u64 = 3 * 1024 * 1024 * 1024;
    let now = FileTime { secs: 0, nanos: 0 };
    match TextBuffer::from_filename(filename, three_gb, "", now) {
        Ok(_) => assert!(false),
        Err(e) => {
            assert_eq!(e, OpenError::FileTooLarge);
            assert_eq!(e.message().as_str(), "File was larger than 3GB");
        }
    }
}
