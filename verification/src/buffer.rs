//! The text buffer and the pure operations that edit it and move the
//! cursors of a pane over it.

use crate::rope::{
    bytes_of_each, rope_breaks, rope_byte_len, rope_byte_of_line, rope_bytes, rope_clone,
    rope_count_lines,
    rope_from_str, rope_graphemes, rope_is_char_boundary, rope_is_grapheme_boundary,
    rope_line_of_byte, rope_lines, rope_new, rope_to_string,
};
use crate::text::{
    boundaries_between, byte_of_line, grapheme_column, is_char_boundary, joined,
    lemma_byte_of_line_monotonic, lemma_line_of_byte_is_line, lemma_line_starts_before, line_count,
    line_text,
};
use crop::Rope;
use vstd::prelude::*;
use vstd::utf8::encode_utf8;

verus! {

/// The size, in bytes, from which on a file is not opened: 3 GiB.
pub const FILE_SIZE_CEILING: u64 = 3221225472;

/// A point in time: seconds and nanoseconds since the Unix epoch.
#[derive(Debug, Copy, Clone, PartialEq, Eq, Structural)]
pub struct FileTime {
    pub secs: u64,
    pub nanos: u32,
}

/// The file that a buffer was read from or last written to.
#[derive(Debug)]
pub struct FileInfo {
    /// The path of the file.
    pub filename: String,
    /// Whether the buffer was edited since `file_time`.
    pub is_modified: bool,
    /// The last time at which file and buffer held the same text.
    pub file_time: FileTime,
}

impl Clone for FileInfo {
    fn clone(&self) -> (c: FileInfo)
        ensures
            c == *self,
    {
        FileInfo {
            filename: self.filename.clone(),
            is_modified: self.is_modified,
            file_time: self.file_time,
        }
    }
}

/// Why a file was not opened.
#[derive(Debug, Copy, Clone, PartialEq, Eq, Structural)]
pub enum OpenError {
    /// The file holds `FILE_SIZE_CEILING` bytes or more.
    FileTooLarge,
}

impl OpenError {
    /// What to tell the user.
    pub fn message(&self) -> (s: String)
        ensures
            s@ == "File was larger than 3GB"@,
    {
        "File was larger than 3GB".to_owned()
    }
}

/// A text and the file it belongs to, if any.
#[derive(Debug)]
pub struct TextBuffer {
    /// The file, or `None` for a scratch buffer.
    pub file: Option<FileInfo>,
    /// The text.
    pub contents: Rope,
}

impl Clone for TextBuffer {
    fn clone(&self) -> (c: TextBuffer)
        ensures
            c.bytes() == self.bytes(),
            c.breaks() == self.breaks(),
            c.file == self.file,
    {
        TextBuffer { file: clone_file(&self.file), contents: rope_clone(&self.contents) }
    }
}

impl Default for TextBuffer {
    fn default() -> (b: TextBuffer)
        ensures
            b.bytes() == Seq::<u8>::empty(),
            b.file is None,
    {
        proof {
            reveal_strlit("");
        }
        TextBuffer { file: None, contents: rope_from_str("") }
    }
}

/// A copy of what is known of a buffer's file.
fn clone_file(file: &Option<FileInfo>) -> (c: Option<FileInfo>)
    ensures
        c == *file,
{
    match file {
        Some(info) => Some(info.clone()),
        None => None,
    }
}

impl TextBuffer {
    /// The bytes of the text.
    pub open spec fn bytes(self) -> Seq<u8> {
        rope_bytes(self.contents)
    }

    /// The places strictly inside the text where the buffer finds that one
    /// grapheme cluster ends and the next begins.
    pub open spec fn breaks(self) -> Set<int> {
        rope_breaks(self.contents)
    }

    /// A buffer of the given parts.
    pub fn new(file: Option<FileInfo>, contents: Rope) -> (b: TextBuffer)
        ensures
            b.file == file,
            b.contents == contents,
    {
        TextBuffer { file, contents }
    }

    /// The buffer for a file that holds `size` bytes, the text `contents`,
    /// and was read at `file_time`. A file of `FILE_SIZE_CEILING` bytes or
    /// more is refused, whatever `contents` is; any smaller one is opened.
    pub fn from_filename(
        filename_str: &str,
        size: u64,
        contents: &str,
        file_time: FileTime,
    ) -> (opened: Result<TextBuffer, OpenError>)
        ensures
            size >= FILE_SIZE_CEILING ==> opened == Err::<TextBuffer, OpenError>(
                OpenError::FileTooLarge,
            ),
            size < FILE_SIZE_CEILING ==> opened is Ok && opened->Ok_0.bytes() == encode_utf8(
                contents@,
            ) && opened->Ok_0.file is Some && opened->Ok_0.file->Some_0.filename@
                == filename_str@ && !opened->Ok_0.file->Some_0.is_modified
                && opened->Ok_0.file->Some_0.file_time == file_time,
    {
        if size >= FILE_SIZE_CEILING {
            return Err(OpenError::FileTooLarge);
        }
        let info = FileInfo { filename: filename_str.to_owned(), is_modified: false, file_time };
        Ok(TextBuffer { file: Some(info), contents: rope_from_str(contents) })
    }

    /// An empty buffer that belongs to no file.
    pub fn from_blank() -> (b: TextBuffer)
        ensures
            b.bytes() == Seq::<u8>::empty(),
            b.file is None,
    {
        TextBuffer { file: None, contents: rope_new() }
    }

    /// The text as one string: what a save writes to the file.
    pub fn text(&self) -> (s: String)
        ensures
            encode_utf8(s@) == self.bytes(),
    {
        rope_to_string(&self.contents)
    }

    /// The buffer as it stands once its text was written to `filename` at
    /// `file_time`: the same text, in step with that file.
    pub fn write(&self, filename: &str, file_time: FileTime) -> (saved: TextBuffer)
        ensures
            saved.bytes() == self.bytes(),
            saved.breaks() == self.breaks(),
            saved.file is Some,
            saved.file->Some_0.filename@ == filename@,
            !saved.file->Some_0.is_modified,
            saved.file->Some_0.file_time == file_time,
    {
        let info = FileInfo { filename: filename.to_owned(), is_modified: false, file_time };
        TextBuffer { file: Some(info), contents: rope_clone(&self.contents) }
    }

    /// What was written for a save and is read again for an open gives the
    /// text of the buffer that was saved: a save writes a string whose bytes
    /// are the buffer's, and an open makes a buffer whose bytes are those of
    /// the string it reads.
    pub proof fn lemma_write_then_open(self, written: Seq<char>, opened: TextBuffer)
        requires
            encode_utf8(written) == self.bytes(),
            opened.bytes() == encode_utf8(written),
        ensures
            opened.bytes() == self.bytes(),
    {
    }

    /// The number of bytes of the text.
    pub fn byte_len(&self) -> (n: usize)
        ensures
            n == self.bytes().len(),
    {
        rope_byte_len(&self.contents)
    }

    /// Whether `offset` is a code point boundary of the text.
    pub fn is_char_boundary(&self, offset: usize) -> (b: bool)
        ensures
            b == is_char_boundary(self.bytes(), offset as int),
    {
        offset <= rope_byte_len(&self.contents) && rope_is_char_boundary(&self.contents, offset)
    }

    /// The number of lines of the text.
    pub fn num_lines(&self) -> (n: usize)
        ensures
            n == line_count(self.bytes()),
    {
        rope_count_lines(&self.contents)
    }

    /// The lines from `start` up to, not including, `end`, cut into grapheme
    /// clusters, with the line feeds that end the lines, and the offset at
    /// which the first of these lines starts. Lines count from 0. No cluster
    /// is empty, and one after the other they are these lines.
    pub fn nowrap_lines(&self, start: usize, end: usize) -> (shown: (Vec<String>, usize))
        requires
            start <= end <= line_count(self.bytes()),
        ensures
            shown.1 == byte_of_line(self.bytes(), start as int),
            joined(bytes_of_each(shown.0@)) == self.bytes().subrange(
                byte_of_line(self.bytes(), start as int),
                byte_of_line(self.bytes(), end as int),
            ),
            forall|i: int|
                0 <= i < shown.0@.len() ==> encode_utf8(#[trigger] shown.0@[i]@).len() > 0,
    {
        let byte_len = rope_byte_of_line(&self.contents, start);
        let byte_len2 = rope_byte_of_line(&self.contents, end);
        proof {
            lemma_byte_of_line_monotonic(self.bytes(), start as int, end as int);
        }
        let gs = rope_graphemes(&self.contents, byte_len, byte_len2);
        (gs, byte_len)
    }

    /// The lines of the text in order, each without what ends it.
    pub fn lines(&self) -> (lines: Vec<String>)
        ensures
            lines@.len() == line_count(self.bytes()),
            forall|i: int|
                0 <= i < lines@.len() ==> encode_utf8(#[trigger] lines@[i]@) == line_text(
                    self.bytes(),
                    i,
                ),
    {
        rope_lines(&self.contents)
    }
}

/// The number of grapheme clusters between the start of the line that holds
/// `start` and `start`, counted as the grapheme boundaries of the text on
/// the way from the one to the other.
pub fn reset_grapheme_col_offset(contents: &Rope, start: usize) -> (column: usize)
    requires
        is_char_boundary(rope_bytes(*contents), start as int),
    ensures
        column == grapheme_column(rope_bytes(*contents), rope_breaks(*contents), start as int),
{
    proof {
        lemma_line_of_byte_is_line(rope_bytes(*contents), start as int);
        lemma_line_starts_before(rope_bytes(*contents), start as int);
    }
    let line_start = rope_byte_of_line(contents, rope_line_of_byte(contents, start));
    let mut column: usize = 0;
    let mut at: usize = line_start;
    while at < start
        invariant
            line_start <= at <= start <= rope_bytes(*contents).len(),
            column == boundaries_between(
                rope_bytes(*contents),
                rope_breaks(*contents),
                line_start as int,
                at as int,
            ),
            column <= at - line_start,
        decreases start - at,
    {
        at += 1;
        if rope_is_grapheme_boundary(contents, at) {
            column += 1;
        }
    }
    column
}

} // verus!
