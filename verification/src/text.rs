//! Images as text: one row per line, `*` for a set pixel and `-` for an
//! unset one.

use vstd::prelude::*;
use vstd::string::StringSliceAdditionalSpecFns;
use crate::image::{
    canvas_fits, lemma_index_bound, lemma_index_parts, lemma_repaint_unique, lemma_with_pixel,
    BinaryImage, Raster,
};
use crate::packing::round_up8;

verus! {

/// The glyph of a set pixel, `*`.
pub const SET_GLYPH: u8 = 42;

/// The glyph of an unset pixel, `-`.
pub const UNSET_GLYPH: u8 = 45;

/// The byte that ends a line.
pub const NEWLINE: u8 = 10;

/// The carriage return that may stand before the end of a line.
pub const RETURN: u8 = 13;

/// The characters that the bytes `bytes` stand for, each byte one character.
pub open spec fn glyphs(bytes: Seq<u8>) -> Seq<char> {
    Seq::new(bytes.len(), |i: int| bytes[i] as char)
}

impl Raster {
    /// The text of the raster: for each row the glyphs of its pixels and a
    /// newline.
    pub open spec fn text(self) -> Seq<u8> {
        let line = self.width as int + 1;
        Seq::new(
            (self.width + 1) * self.height,
            |i: int|
                if i % line == self.width {
                    NEWLINE
                } else if self.pixel(i % line, i / line) {
                    SET_GLYPH
                } else {
                    UNSET_GLYPH
                },
        )
    }
}

/// The position of the first newline at or behind `from`; the length of
/// the text where there is none.
pub open spec fn line_end(text: Seq<u8>, from: int) -> int
    decreases text.len() - from,
{
    if from < 0 || from >= text.len() {
        text.len() as int
    } else if text[from] == NEWLINE {
        from
    } else {
        line_end(text, from + 1)
    }
}

/// The end of what the line that starts at `from` holds: its end, or the
/// position of a carriage return directly before that.
pub open spec fn content_end(text: Seq<u8>, from: int) -> int {
    let end = line_end(text, from);
    if from < end && text[end - 1] == RETURN {
        end - 1
    } else {
        end
    }
}

/// Number of lines that start at or behind `from`, where `from` is the
/// start of a line. A newline at the very end of the text starts no line.
pub open spec fn row_count(text: Seq<u8>, from: int) -> nat
    decreases text.len() - from,
{
    let next = line_end(text, from) + 1;
    if from < 0 || from >= text.len() {
        0
    } else if next <= from || next > text.len() {
        1
    } else {
        1 + row_count(text, next)
    }
}

/// The position at which line `y` starts.
pub open spec fn row_start(text: Seq<u8>, y: int) -> int
    decreases y,
{
    if y <= 0 {
        0
    } else {
        line_end(text, row_start(text, y - 1)) + 1
    }
}

/// Number of glyphs in the first line.
pub open spec fn text_width(text: Seq<u8>) -> nat {
    content_end(text, 0) as nat
}

/// Whether the text shows a set pixel at `(x, y)`: line `y` holds the glyph
/// of a set pixel at position `x`.
pub open spec fn text_pixel(text: Seq<u8>, x: int, y: int) -> bool {
    let start = row_start(text, y);
    0 <= x && start + x < content_end(text, start) && text[start + x] == SET_GLYPH
}

/// The raster that a text shows. It is as wide as the first line is long
/// and has a row for each line; a line shorter than the first is filled up
/// with unset pixels, and what a line holds beyond the width is left out.
pub open spec fn parsed(text: Seq<u8>) -> Raster {
    Raster::blank(text_width(text), row_count(text, 0)).repaint(
        |x: int, y: int| text_pixel(text, x, y),
    )
}

/// A line ends at or behind its start and within the text.
pub proof fn lemma_line_end(text: Seq<u8>, from: int)
    requires
        0 <= from <= text.len(),
    ensures
        from <= line_end(text, from) <= text.len(),
        from <= content_end(text, from) <= line_end(text, from),
        line_end(text, from) < text.len() ==> text[line_end(text, from)] == NEWLINE,
    decreases text.len() - from,
{
    if from < text.len() && text[from] != NEWLINE {
        lemma_line_end(text, from + 1);
    }
}

/// Calls `String::from_utf8` on bytes that are all ASCII: the string has
/// one character per byte, the character with the byte's code.
#[verifier::external_body]
fn string_of_ascii(bytes: Vec<u8>) -> (text: String)
    requires
        forall|i: int| 0 <= i < bytes@.len() ==> bytes@[i] < 128,
    ensures
        text@ == glyphs(bytes@),
{
    match String::from_utf8(bytes) {
        Ok(text) => text,
        Err(_) => String::new(),
    }
}

/// The position at which the line that starts at `from` ends.
fn find_line_end(text: &[u8], from: usize) -> (end: usize)
    requires
        from <= text@.len(),
    ensures
        end == line_end(text@, from as int),
        from <= end <= text@.len(),
{
    let mut at = from;
    while at < text.len() && text[at] != NEWLINE
        invariant
            from <= at <= text@.len(),
            line_end(text@, from as int) == line_end(text@, at as int),
        decreases text@.len() - at,
    {
        at += 1;
    }
    at
}

/// The position at which the content of the line from `from` to `end`
/// ends.
fn find_content_end(text: &[u8], from: usize, end: usize) -> (stop: usize)
    requires
        from <= end <= text@.len(),
        end == line_end(text@, from as int),
    ensures
        stop == content_end(text@, from as int),
        from <= stop <= end,
{
    if from < end && text[end - 1] == RETURN {
        end - 1
    } else {
        end
    }
}

impl BinaryImage {
    /// The image as text: a line for each row, with `*` for a set pixel and
    /// `-` for an unset one.
    pub fn to_string(&self) -> (text: String)
        ensures
            text@ == glyphs(self@.text()),
    {
        self.validity();
        let width = self.width();
        let height = self.height();
        let ghost r = self@;
        let ghost whole = r.text();
        let mut bytes: Vec<u8> = Vec::new();
        let mut y: usize = 0;
        while y < height
            invariant
                y <= height,
                r == self@,
                r.wf(),
                width == r.width,
                height == r.height,
                whole == r.text(),
                bytes@.len() == y * (width + 1),
                bytes@.len() <= whole.len(),
                bytes@ == whole.take(bytes@.len() as int),
            decreases height - y,
        {
            let ghost row = bytes@.len() as int;
            let mut x: usize = 0;
            while x < width
                invariant
                    x <= width,
                    y < height,
                    r == self@,
                    r.wf(),
                    width == r.width,
                    height == r.height,
                    whole == r.text(),
                    row == y * (width + 1),
                    bytes@.len() == row + x,
                    bytes@.len() <= whole.len(),
                    bytes@ == whole.take(bytes@.len() as int),
                decreases width - x,
            {
                let glyph = if self.get_pixel(x, y) {
                    SET_GLYPH
                } else {
                    UNSET_GLYPH
                };
                proof {
                    lemma_index_bound((width + 1) as nat, r.height, x as int, y as int);
                    lemma_index_parts((width + 1) as nat, x as int, y as int);
                    assert(whole[row + x] == glyph);
                    assert(whole.take(row + x + 1) =~= whole.take(row + x).push(glyph));
                }
                bytes.push(glyph);
                x += 1;
            }
            proof {
                lemma_index_bound((width + 1) as nat, r.height, width as int, y as int);
                lemma_index_parts((width + 1) as nat, width as int, y as int);
                assert(whole[row + width] == NEWLINE);
                assert(whole.take(row + width + 1) =~= whole.take(row + width).push(NEWLINE));
                assert((y + 1) * (width + 1) == y * (width + 1) + (width + 1)) by (nonlinear_arith);
            }
            bytes.push(NEWLINE);
            y += 1;
        }
        proof {
            assert(height * (width + 1) == (width + 1) * height) by (nonlinear_arith);
            assert(whole.take(whole.len() as int) =~= whole);
        }
        string_of_ascii(bytes)
    }

    /// The image that a text shows, row by row: `*` stands for a set pixel,
    /// anything else for an unset one. The image is as wide as the first
    /// line is long. Lines end with a newline, before which a carriage
    /// return is left out; a shorter line is filled up with unset pixels,
    /// and what a line holds beyond the width of the image is left out.
    pub fn from_string(text: &str) -> (image: BinaryImage)
        requires
            round_up8((text_width(text.spec_bytes()) * row_count(text.spec_bytes(), 0)) as int)
                <= usize::MAX,
        ensures
            image@ == parsed(text.spec_bytes()),
            image@.wf(),
    {
        let bytes = text.as_bytes();
        let (width, height) = text_size(bytes);
        paint_text(bytes, width, height)
    }

    /// As [`BinaryImage::from_string`], for any text: `None` where the
    /// image that the text shows is too large to be stored.
    pub fn try_from_string(text: &str) -> (image: Option<BinaryImage>)
        ensures
            image.is_some() == (round_up8(
                (text_width(text.spec_bytes()) * row_count(text.spec_bytes(), 0)) as int,
            ) <= usize::MAX),
            image matches Some(shown) ==> shown@ == parsed(text.spec_bytes()) && shown@.wf(),
    {
        let bytes = text.as_bytes();
        let (width, height) = text_size(bytes);
        if canvas_fits(width, height) {
            Some(paint_text(bytes, width, height))
        } else {
            None
        }
    }
}

/// The width and the height of the image that a text shows.
fn text_size(bytes: &[u8]) -> (size: (usize, usize))
    ensures
        size.0 == text_width(bytes@),
        size.1 == row_count(bytes@, 0),
{
    let ghost t = bytes@;
    let n = bytes.len();
    let mut width: usize = 0;
    let mut height: usize = 0;
    let mut pos: usize = 0;
    let mut more = n > 0;
    proof {
        lemma_line_end(t, 0);
    }
    while more
        invariant
            t == bytes@,
            n == t.len(),
            pos <= n,
            more == (pos < n),
            height <= pos,
            height + row_count(t, pos as int) == row_count(t, 0),
            height > 0 ==> width == text_width(t),
            height == 0 ==> pos == 0 && width == 0,
        decreases n - pos,
    {
        let end = find_line_end(bytes, pos);
        if height == 0 {
            width = find_content_end(bytes, pos, end);
        }
        proof {
            lemma_line_end(t, pos as int);
            assert(row_count(t, pos as int) == 1 + row_count(t, end + 1));
            assert(row_count(t, n as int) == 0);
            assert(row_count(t, n + 1) == 0);
        }
        height += 1;
        if end < n {
            pos = end + 1;
            more = pos < n;
        } else {
            pos = n;
            more = false;
        }
    }
    proof {
        if height == 0 {
            assert(n == 0);
            assert(line_end(t, 0) == 0);
            assert(content_end(t, 0) == 0);
        }
    }
    (width, height)
}

/// The image of the given size that a text shows.
fn paint_text(bytes: &[u8], width: usize, height: usize) -> (image: BinaryImage)
    requires
        width == text_width(bytes@),
        height == row_count(bytes@, 0),
        round_up8(width * height) <= usize::MAX,
    ensures
        image@ == parsed(bytes@),
        image@.wf(),
{
    let ghost t = bytes@;
    let n = bytes.len();
    let mut image = BinaryImage::new_w_h(width, height);
    let ghost blank = Raster::blank(width as nat, height as nat);
    let mut y: usize = 0;
    let mut pos: usize = 0;
    proof {
        assert forall|px: int, py: int| blank.on_canvas(px, py) implies #[trigger] image@.pixel(
            px,
            py,
        ) == (py < 0 && text_pixel(t, px, py)) by {
            lemma_index_bound(blank.width, blank.height, px, py);
        }
    }
    while y < height
        invariant
            t == bytes@,
            n == t.len(),
            y <= height,
            pos <= n,
            y < height ==> pos == row_start(t, y as int),
            y + row_count(t, pos as int) == height,
            width == text_width(t),
            height == row_count(t, 0),
            blank == Raster::blank(width as nat, height as nat),
            image@.wf(),
            image@.same_size(blank),
            image@.plain(),
            forall|px: int, py: int|
                blank.on_canvas(px, py) ==> #[trigger] image@.pixel(px, py) == (py < y
                    && text_pixel(t, px, py)),
        decreases height - y,
    {
        let end = find_line_end(bytes, pos);
        let stop = find_content_end(bytes, pos, end);
        let mut x: usize = 0;
        while x < width && x < stop - pos
            invariant
                t == bytes@,
                n == t.len(),
                y < height,
                pos <= stop <= end <= n,
                x <= width,
                x <= stop - pos,
                pos == row_start(t, y as int),
                stop == content_end(t, pos as int),
                blank == Raster::blank(width as nat, height as nat),
                image@.wf(),
                image@.same_size(blank),
                image@.plain(),
                forall|px: int, py: int|
                    blank.on_canvas(px, py) ==> #[trigger] image@.pixel(px, py) == ((py < y || (py
                        == y && px < x)) && text_pixel(t, px, py)),
            decreases width - x,
        {
            if bytes[pos + x] == SET_GLYPH {
                proof {
                    lemma_with_pixel(image@, x as int, y as int, true);
                }
                image.set_pixel(x, y, true);
            }
            x += 1;
        }
        proof {
            lemma_line_end(t, pos as int);
            assert(row_count(t, pos as int) == 1 + row_count(t, end + 1));
            assert(row_start(t, y + 1) == end + 1);
            assert(row_count(t, n as int) == 0);
            assert(row_count(t, n + 1) == 0);
        }
        y += 1;
        if end < n {
            pos = end + 1;
        } else {
            pos = n;
        }
    }
    proof {
        let paint = |x: int, y: int| text_pixel(t, x, y);
        assert forall|px: int, py: int| blank.on_canvas(px, py) implies image@.pixel(px, py)
            == paint(px, py) by {}
        lemma_repaint_unique(blank, image@, paint);
    }
    image
}

} // verus!
