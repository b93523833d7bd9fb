//! A picture of an RGBA bitmap's alpha channel in text, for a log or a
//! terminal: one line of text for each line of pixels, two characters for
//! each pixel, in strips narrow enough for the terminal.

use vstd::prelude::*;
use vstd::string::StringExecFns;

verus! {

/// The number of columns that the prefix of a log line takes.
pub const LOG_PREFIX_SIZE: usize = 43;

/// The number of alpha values that share one character: 256 values over
/// five characters, rounded up.
pub const BYTE_VAL_DIVISOR: usize = 52;

/// The character that stands for the alpha values of rank `level`, from
/// clear to solid.
pub open spec fn palette(level: int) -> Seq<char> {
    if level == 0 {
        " "@
    } else if level == 1 {
        ":"@
    } else if level == 2 {
        "|"@
    } else if level == 3 {
        "O"@
    } else {
        "W"@
    }
}

/// The alpha value of the pixel in column `x` of line `y`.
pub open spec fn alpha_at(buffer: Seq<u8>, width: int, y: int, x: int) -> u8 {
    buffer[(y * width + x) * 4 + 3]
}

/// The text for the pixels of line `y` from column `from` up to, not
/// including, column `to`: for each pixel its character, twice.
pub open spec fn strip_text(buffer: Seq<u8>, width: int, y: int, from: int, to: int) -> Seq<char>
    decreases to - from,
{
    if to <= from {
        Seq::empty()
    } else {
        let mark = palette(alpha_at(buffer, width, y, to - 1) as int / BYTE_VAL_DIVISOR as int);
        strip_text(buffer, width, y, from, to - 1) + mark + mark
    }
}

/// The text of row `row` of the picture. The picture shows the bitmap in
/// strips of `chunk_size` columns, one strip below the other and each from
/// its top line of pixels, the line with the highest number, to its bottom
/// line; the columns that fill no whole strip come last.
pub open spec fn row_text(
    buffer: Seq<u8>,
    width: int,
    height: int,
    chunk_size: int,
    row: int,
) -> Seq<char> {
    let strip = row / height;
    let y = height - 1 - row % height;
    if strip < width / chunk_size {
        strip_text(buffer, width, y, strip * chunk_size, (strip + 1) * chunk_size)
    } else {
        strip_text(buffer, width, y, (width / chunk_size) * chunk_size, width)
    }
}

/// The number of pixels that fit side by side into a terminal of `cols`
/// columns, or of `default_val` columns where the width is not known, next
/// to the prefix of a log line.
pub fn calc_chunk_size(cols: Option<usize>, default_val: usize) -> (size: usize)
    requires
        match cols {
            Some(w) => w >= LOG_PREFIX_SIZE,
            None => default_val >= LOG_PREFIX_SIZE,
        },
    ensures
        size == (match cols {
            Some(w) => w,
            None => default_val,
        } - LOG_PREFIX_SIZE) / 2,
{
    let cols = match cols {
        Some(w) => w,
        None => default_val,
    };
    (cols - LOG_PREFIX_SIZE) / 2
}

/// The characters that stand for alpha value `a`.
fn mark_of(a: u8) -> (mark: &'static str)
    ensures
        mark@ == palette(a as int / BYTE_VAL_DIVISOR as int),
{
    let level = a as usize / BYTE_VAL_DIVISOR;
    if level == 0 {
        " "
    } else if level == 1 {
        ":"
    } else if level == 2 {
        "|"
    } else if level == 3 {
        "O"
    } else {
        "W"
    }
}

/// A pixel of a bitmap has its four bytes inside the bitmap.
proof fn lemma_pixel_inside(width: int, height: int, y: int, x: int)
    requires
        0 <= y < height,
        0 <= x < width,
    ensures
        0 <= (y * width + x) * 4 + 3 < width * height * 4,
        0 <= y * width <= y * width + x,
{
    assert(y * width + x < width * height) by (nonlinear_arith)
        requires
            0 <= y < height,
            0 <= x < width,
    ;
    assert(0 <= y * width) by (nonlinear_arith)
        requires
            0 <= y,
            0 <= width,
    ;
}

/// Row `done` of strip `z` is row `z * height + done` of the picture.
proof fn lemma_row_place(z: int, height: int, done: int)
    requires
        0 <= z,
        0 <= done < height,
    ensures
        (z * height + done) / height == z,
        (z * height + done) % height == done,
{
    vstd::arithmetic::div_mod::lemma_fundamental_div_mod_converse(
        z * height + done,
        height,
        z,
        done,
    );
}

/// The text for the pixels of line `y` from column `from` up to `to`.
fn strip(buffer: &[u8], width: usize, height: usize, y: usize, from: usize, to: usize) -> (text:
    String)
    requires
        y < height,
        from <= to <= width,
        buffer@.len() >= width * height * 4,
    ensures
        text@ == strip_text(buffer@, width as int, y as int, from as int, to as int),
{
    let byte_count = buffer.len();
    let mut text = String::new();
    let mut x = from;
    while x < to
        invariant
            from <= x <= to <= width,
            y < height,
            byte_count == buffer@.len() >= width * height * 4,
            text@ == strip_text(buffer@, width as int, y as int, from as int, x as int),
        decreases to - x,
    {
        proof {
            lemma_pixel_inside(width as int, height as int, y as int, x as int);
        }
        let a = buffer[(y * width + x) * 4 + 3];
        let mark = mark_of(a);
        text.append(mark);
        text.append(mark);
        x += 1;
    }
    text
}

/// The picture of the alpha channel of the bitmap `buffer`, `width` pixels
/// wide and `height` pixels high with four bytes to the pixel, in strips of
/// `chunk_size` columns: the rows of text from the first to the last.
pub fn terminal_render(width: usize, height: usize, buffer: &[u8], chunk_size: usize) -> (rows:
    Vec<String>)
    requires
        chunk_size > 0,
        buffer@.len() >= width * height * 4,
    ensures
        rows@.len() == (width / chunk_size + 1) * height,
        forall|r: int|
            0 <= r < rows@.len() ==> (#[trigger] rows@[r])@ == row_text(
                buffer@,
                width as int,
                height as int,
                chunk_size as int,
                r,
            ),
{
    let num_chunk = width / chunk_size;
    let mut rows: Vec<String> = Vec::new();
    let mut z: usize = 0;
    while z < num_chunk
        invariant
            z <= num_chunk,
            num_chunk == width / chunk_size,
            chunk_size > 0,
            buffer@.len() >= width * height * 4,
            rows@.len() == z * height,
            forall|r: int|
                0 <= r < rows@.len() ==> (#[trigger] rows@[r])@ == row_text(
                    buffer@,
                    width as int,
                    height as int,
                    chunk_size as int,
                    r,
                ),
        decreases num_chunk - z,
    {
        proof {
            assert(num_chunk * chunk_size <= width) by (nonlinear_arith)
                requires
                    num_chunk == width / chunk_size,
                    chunk_size > 0,
            ;
            assert((z + 1) * chunk_size <= num_chunk * chunk_size) by (nonlinear_arith)
                requires
                    chunk_size > 0,
                    z < num_chunk,
            ;
            assert(0 <= z * chunk_size <= (z + 1) * chunk_size) by (nonlinear_arith)
                requires
                    chunk_size > 0,
                    z >= 0,
            ;
        }
        let from = z * chunk_size;
        let to = (z + 1) * chunk_size;
        let mut done: usize = 0;
        while done < height
            invariant
                done <= height,
                z < num_chunk,
                num_chunk == width / chunk_size,
                chunk_size > 0,
                from <= to <= width,
                from == z * chunk_size,
                to == (z + 1) * chunk_size,
                buffer@.len() >= width * height * 4,
                rows@.len() == z * height + done,
                forall|r: int|
                    0 <= r < rows@.len() ==> (#[trigger] rows@[r])@ == row_text(
                        buffer@,
                        width as int,
                        height as int,
                        chunk_size as int,
                        r,
                    ),
            decreases height - done,
        {
            let y = height - 1 - done;
            let text = strip(buffer, width, height, y, from, to);
            proof {
                lemma_row_place(z as int, height as int, done as int);
            }
            rows.push(text);
            done += 1;
        }
        proof {
            assert((z + 1) * height == z * height + height) by (nonlinear_arith);
        }
        z += 1;
    }
    proof {
        assert(num_chunk * chunk_size <= width) by (nonlinear_arith)
            requires
                num_chunk == width / chunk_size,
                chunk_size > 0,
        ;
        assert((num_chunk + 1) * height == num_chunk * height + height) by (nonlinear_arith);
    }
    let from = num_chunk * chunk_size;
    let mut done: usize = 0;
    while done < height
        invariant
            done <= height,
            num_chunk == width / chunk_size,
            chunk_size > 0,
            from <= width,
            from == num_chunk * chunk_size,
            buffer@.len() >= width * height * 4,
            rows@.len() == num_chunk * height + done,
            forall|r: int|
                0 <= r < rows@.len() ==> (#[trigger] rows@[r])@ == row_text(
                    buffer@,
                    width as int,
                    height as int,
                    chunk_size as int,
                    r,
                ),
        decreases height - done,
    {
        let y = height - 1 - done;
        let text = strip(buffer, width, height, y, from, width);
        proof {
            lemma_row_place(num_chunk as int, height as int, done as int);
        }
        rows.push(text);
        done += 1;
    }
    rows
}

} // verus!
