//! The binary image: a canvas of boolean pixels held in a bit vector.

use bit_vec::BitVec;
use vstd::arithmetic::div_mod::{lemma_fundamental_div_mod, lemma_fundamental_div_mod_converse};
use vstd::prelude::*;
use crate::packing::{byte_len, count_true, pack_bits, round_up8, unpack_bytes};
use crate::storage::{
    bit_seq, bits_clone, bits_from_bytes, bits_from_elem, bits_get, bits_set, bits_to_bytes,
};

verus! {

/// The mathematical model of a binary image: its dimensions and the stored
/// bits in row-major order.
///
/// The first `width * height` bits are the pixels. Any bits behind them are
/// fill bits that pad the storage to a whole number of bytes; no pixel
/// lookup reads them.
pub struct Raster {
    pub width: nat,
    pub height: nat,
    pub bits: Seq<bool>,
}

impl Raster {
    /// Number of pixels on the canvas.
    pub open spec fn cells(self) -> nat {
        self.width * self.height
    }

    /// The stored bits cover the canvas, reach at most to the end of its last
    /// byte, and that byte-aligned length is representable.
    pub open spec fn wf(self) -> bool {
        &&& self.cells() <= self.bits.len() <= round_up8(self.cells() as int)
        &&& round_up8(self.cells() as int) <= usize::MAX
    }

    /// Whether `(x, y)` lies on the canvas.
    pub open spec fn on_canvas(self, x: int, y: int) -> bool {
        0 <= x < self.width && 0 <= y < self.height
    }

    /// Position of pixel `(x, y)` among the stored bits.
    pub open spec fn index(self, x: int, y: int) -> int {
        y * self.width + x
    }

    /// The value of pixel `(x, y)`.
    pub open spec fn pixel(self, x: int, y: int) -> bool {
        self.bits[self.index(x, y)]
    }

    /// Whether `(x, y)` lies on the canvas and is set.
    pub open spec fn lit(self, x: int, y: int) -> bool {
        self.on_canvas(x, y) && self.pixel(x, y)
    }

    /// The all-unset canvas of the given dimensions, without fill bits.
    pub open spec fn blank(width: nat, height: nat) -> Raster {
        Raster { width, height, bits: Seq::new(width * height, |i: int| false) }
    }

    /// Same dimensions as `other`.
    pub open spec fn same_size(self, other: Raster) -> bool {
        self.width == other.width && self.height == other.height
    }

    /// Same dimensions and the same value at every pixel of the canvas.
    pub open spec fn same_pixels(self, other: Raster) -> bool {
        &&& self.same_size(other)
        &&& forall|x: int, y: int| self.on_canvas(x, y) ==> self.pixel(x, y) == other.pixel(x, y)
    }

    /// The raster with pixel `(x, y)` replaced by `value`.
    pub open spec fn with_pixel(self, x: int, y: int, value: bool) -> Raster {
        Raster { bits: self.bits.update(self.index(x, y), value), ..self }
    }

    /// The pixels of the canvas in row-major order, without the fill bits.
    pub open spec fn canvas(self) -> Seq<bool> {
        self.bits.subrange(0, self.cells() as int)
    }

    /// Number of set pixels on the canvas.
    pub open spec fn area(self) -> nat {
        count_true(self.canvas())
    }

    /// Every fill bit is unset.
    pub open spec fn tidy(self) -> bool {
        forall|i: int| self.cells() <= i < self.bits.len() ==> !self.bits[i]
    }

    /// The raster without fill bits: exactly one stored bit per pixel.
    pub open spec fn plain(self) -> bool {
        self.bits.len() == self.cells()
    }

    /// The raster whose pixel `(x, y)` is `paint(x, y)` all over the canvas;
    /// dimensions and fill bits are those of `self`.
    pub open spec fn repaint(self, paint: spec_fn(int, int) -> bool) -> Raster {
        Raster {
            width: self.width,
            height: self.height,
            bits: Seq::new(
                self.bits.len(),
                |i: int|
                    if i < self.cells() {
                        paint(i % (self.width as int), i / (self.width as int))
                    } else {
                        self.bits[i]
                    },
            ),
        }
    }

    /// Every pixel set in `self` is set in `other`.
    pub open spec fn covered_by(self, other: Raster) -> bool {
        &&& self.same_size(other)
        &&& forall|x: int, y: int| self.lit(x, y) ==> other.lit(x, y)
    }
}

/// A position among the first `width * height` bits belongs to exactly one
/// pixel of the canvas.
pub proof fn lemma_index_split(width: nat, height: nat, i: int)
    requires
        0 <= i < width * height,
    ensures
        width > 0,
        0 <= i % (width as int) < width,
        0 <= i / (width as int) < height,
        (i / (width as int)) * width + i % (width as int) == i,
{
    let w = width as int;
    if w == 0 {
        assert(width * height == 0) by (nonlinear_arith)
            requires
                width == 0,
        ;
    }
    lemma_fundamental_div_mod(i, w);
    let q = i / w;
    assert(w * q == q * w) by (nonlinear_arith);
    assert(q >= 0) by (nonlinear_arith)
        requires
            i >= 0,
            w > 0,
            q == i / w,
    ;
    if q >= height {
        assert(q * w >= height * w) by (nonlinear_arith)
            requires
                q >= height,
                w > 0,
        ;
        assert(height * w == width * height) by (nonlinear_arith)
            requires
                w == width,
        ;
    }
}

/// The pixel at a position computed from `(x, y)` is `(x, y)`.
pub proof fn lemma_index_parts(width: nat, x: int, y: int)
    requires
        0 <= x < width,
    ensures
        (y * width + x) % (width as int) == x,
        (y * width + x) / (width as int) == y,
{
    lemma_fundamental_div_mod_converse(y * width + x, width as int, y, x);
}

/// Replacing one pixel changes that pixel and no other, and keeps the
/// dimensions, the number of stored bits and the fill bits.
pub proof fn lemma_with_pixel(r: Raster, x: int, y: int, value: bool)
    requires
        r.on_canvas(x, y),
        r.cells() <= r.bits.len(),
    ensures
        r.with_pixel(x, y, value).same_size(r),
        r.with_pixel(x, y, value).bits.len() == r.bits.len(),
        r.wf() ==> r.with_pixel(x, y, value).wf(),
        forall|i: int|
            r.cells() <= i < r.bits.len() ==> r.with_pixel(x, y, value).bits[i] == r.bits[i],
        forall|px: int, py: int|
            r.on_canvas(px, py) ==> #[trigger] r.with_pixel(x, y, value).pixel(px, py) == if px == x
                && py == y {
                value
            } else {
                r.pixel(px, py)
            },
{
    lemma_index_bound(r.width, r.height, x, y);
    assert forall|px: int, py: int| r.on_canvas(px, py) implies #[trigger] r.with_pixel(
        x,
        y,
        value,
    ).pixel(px, py) == if px == x && py == y {
        value
    } else {
        r.pixel(px, py)
    } by {
        lemma_index_bound(r.width, r.height, px, py);
        if r.index(px, py) == r.index(x, y) {
            lemma_index_injective(r.width, px, py, x, y);
        }
    }
}

/// A repainted raster shows the paint at every pixel of the canvas.
pub proof fn lemma_repaint_pixel(r: Raster, paint: spec_fn(int, int) -> bool)
    requires
        r.cells() <= r.bits.len(),
    ensures
        r.repaint(paint).same_size(r),
        r.repaint(paint).bits.len() == r.bits.len(),
        r.wf() ==> r.repaint(paint).wf(),
        forall|x: int, y: int|
            r.on_canvas(x, y) ==> #[trigger] r.repaint(paint).pixel(x, y) == paint(x, y),
{
    assert forall|x: int, y: int| r.on_canvas(x, y) implies #[trigger] r.repaint(paint).pixel(
        x,
        y,
    ) == paint(x, y) by {
        lemma_index_bound(r.width, r.height, x, y);
        lemma_index_parts(r.width, x, y);
    }
}

/// A raster is determined by its dimensions, its pixels and its fill bits:
/// one that agrees with `r` on dimensions and fill and shows `paint` on the
/// canvas is `r.repaint(paint)`.
pub proof fn lemma_repaint_unique(r: Raster, painted: Raster, paint: spec_fn(int, int) -> bool)
    requires
        r.cells() <= r.bits.len(),
        painted.same_size(r),
        painted.bits.len() == r.bits.len(),
        forall|i: int| r.cells() <= i < r.bits.len() ==> painted.bits[i] == r.bits[i],
        forall|x: int, y: int| r.on_canvas(x, y) ==> painted.pixel(x, y) == paint(x, y),
    ensures
        painted == r.repaint(paint),
{
    let target = r.repaint(paint);
    assert forall|i: int| 0 <= i < r.bits.len() implies painted.bits[i] == target.bits[i] by {
        if i < r.cells() {
            lemma_index_split(r.width, r.height, i);
            let x = i % (r.width as int);
            let y = i / (r.width as int);
            assert(r.on_canvas(x, y));
            assert(painted.pixel(x, y) == paint(x, y));
        }
    }
    assert(painted.bits =~= target.bits);
}

/// A pixel on the canvas has its position among the first `width * height`
/// bits.
pub proof fn lemma_index_bound(width: nat, height: nat, x: int, y: int)
    requires
        0 <= x < width,
        0 <= y < height,
    ensures
        0 <= y * width + x < width * height,
        y * width >= 0,
{
    assert(y * width >= 0) by (nonlinear_arith)
        requires
            y >= 0,
            width >= 0,
    ;
    assert((y + 1) * width <= height * width) by (nonlinear_arith)
        requires
            y + 1 <= height,
            width >= 0,
    ;
    assert((y + 1) * width == y * width + width) by (nonlinear_arith);
    assert(height * width == width * height) by (nonlinear_arith);
}

/// Distinct pixels of the canvas have distinct positions.
pub proof fn lemma_index_injective(width: nat, x1: int, y1: int, x2: int, y2: int)
    requires
        0 <= x1 < width,
        0 <= x2 < width,
        y1 * width + x1 == y2 * width + x2,
    ensures
        x1 == x2,
        y1 == y2,
{
    if y1 < y2 {
        assert((y1 + 1) * width <= y2 * width) by (nonlinear_arith)
            requires
                y1 + 1 <= y2,
                width >= 0,
        ;
        assert((y1 + 1) * width == y1 * width + width) by (nonlinear_arith);
    } else if y2 < y1 {
        assert((y2 + 1) * width <= y1 * width) by (nonlinear_arith)
            requires
                y2 + 1 <= y1,
                width >= 0,
        ;
        assert((y2 + 1) * width == y2 * width + width) by (nonlinear_arith);
    }
}

/// Whether a row-major scan that stands at `(x, y)` has passed `(sx, sy)`.
pub open spec fn scanned(sx: int, sy: int, x: int, y: int) -> bool {
    sy < y || (sy == y && sx < x)
}

/// The coordinate `base + step - back`, when it lies in `0 .. limit`.
pub(crate) fn shifted(base: usize, step: usize, back: usize, limit: usize) -> (r: Option<usize>)
    requires
        base < limit,
    ensures
        r == if 0 <= base + step - back < limit {
            Some((base + step - back) as usize)
        } else {
            None::<usize>
        },
{
    if step >= back {
        if step - back < limit - base {
            Some(base + (step - back))
        } else {
            None
        }
    } else {
        if base >= back - step {
            Some(base - (back - step))
        } else {
            None
        }
    }
}

/// Whether a canvas of `width` by `height` pixels can be stored: whether the
/// number of its pixels, rounded up to whole bytes, fits in `usize`.
pub fn canvas_fits(width: usize, height: usize) -> (fits: bool)
    ensures
        fits == (round_up8(width * height) <= usize::MAX),
{
    match width.checked_mul(height) {
        Some(cells) => {
            let bytes = cells / 8 + if cells % 8 == 0 {
                0
            } else {
                1
            };
            bytes <= usize::MAX / 8
        },
        None => false,
    }
}

/// A binary image: `width * height` boolean pixels in row-major order.
pub struct BinaryImage {
    pixels: BitVec<u32>,
    width: usize,
    height: usize,
}

impl View for BinaryImage {
    type V = Raster;

    closed spec fn view(&self) -> Raster {
        Raster {
            width: self.width as nat,
            height: self.height as nat,
            bits: bit_seq(self.pixels),
        }
    }
}

impl BinaryImage {
    #[verifier::type_invariant]
    spec fn well_formed(&self) -> bool {
        self@.wf()
    }

    /// An all-unset canvas of `width` by `height` pixels.
    pub fn new_w_h(width: usize, height: usize) -> (image: BinaryImage)
        requires
            round_up8(width * height) <= usize::MAX,
        ensures
            image@ == Raster::blank(width as nat, height as nat),
            image@.wf(),
    {
        assert(width * height <= round_up8(width * height));
        let pixels = bits_from_elem(width * height, false);
        BinaryImage { pixels, width, height }
    }

    /// Width of the canvas in pixels.
    pub fn width(&self) -> (w: usize)
        ensures
            w == self@.width,
    {
        self.width
    }

    /// Height of the canvas in pixels.
    pub fn height(&self) -> (h: usize)
        ensures
            h == self@.height,
    {
        self.height
    }

    /// States that an image always satisfies the well-formedness of its model.
    pub fn validity(&self)
        ensures
            self@.wf(),
    {
        proof {
            use_type_invariant(self);
        }
    }

    /// The value of pixel `(x, y)`.
    pub fn get_pixel(&self, x: usize, y: usize) -> (value: bool)
        requires
            self@.on_canvas(x as int, y as int),
        ensures
            value == self@.pixel(x as int, y as int),
    {
        proof {
            use_type_invariant(self);
            lemma_index_bound(self@.width, self@.height, x as int, y as int);
        }
        let i = y * self.width + x;
        match bits_get(&self.pixels, i) {
            Some(value) => value,
            None => false,
        }
    }

    /// Sets pixel `(x, y)` to `value` and leaves every other bit as it was.
    pub fn set_pixel(&mut self, x: usize, y: usize, value: bool)
        requires
            old(self)@.on_canvas(x as int, y as int),
        ensures
            final(self)@ == old(self)@.with_pixel(x as int, y as int, value),
            final(self)@.wf(),
    {
        proof {
            use_type_invariant(&*self);
            lemma_index_bound(self@.width, self@.height, x as int, y as int);
        }
        let i = y * self.width + x;
        bits_set(&mut self.pixels, i, value);
    }

    /// Number of set pixels on the canvas.
    pub fn area(&self) -> (count: u64)
        ensures
            count == self@.area(),
    {
        proof {
            use_type_invariant(self);
            assert(self@.bits.subrange(0, 0) =~= Seq::<bool>::empty());
        }
        let cells = self.width * self.height;
        let mut count: usize = 0;
        let mut i: usize = 0;
        while i < cells
            invariant
                i <= cells,
                cells <= bit_seq(self.pixels).len(),
                count <= i,
                count == count_true(bit_seq(self.pixels).subrange(0, i as int)),
            decreases cells - i,
        {
            proof {
                let bits = bit_seq(self.pixels);
                assert(bits.subrange(0, i + 1).drop_last() =~= bits.subrange(0, i as int));
            }
            match bits_get(&self.pixels, i) {
                Some(true) => {
                    count += 1;
                },
                _ => {},
            }
            i += 1;
        }
        count as u64
    }

    /// The stored bits packed into bytes.
    pub(crate) fn to_packed(&self) -> (bytes: Vec<u8>)
        ensures
            bytes@ == pack_bits(self@.bits),
            bytes@.len() == byte_len(self@.cells() as int),
    {
        proof {
            use_type_invariant(self);
        }
        bits_to_bytes(&self.pixels)
    }

    /// The image of the given dimensions whose stored bits are those of
    /// `bytes`.
    pub(crate) fn from_packed(bytes: &Vec<u8>, width: usize, height: usize) -> (image: BinaryImage)
        requires
            bytes@.len() == byte_len(width * height),
            round_up8(width * height) <= usize::MAX,
        ensures
            image@ == (Raster {
                width: width as nat,
                height: height as nat,
                bits: unpack_bytes(bytes@),
            }),
            image@.wf(),
    {
        let pixels = bits_from_bytes(bytes);
        BinaryImage { pixels, width, height }
    }
}

impl Clone for BinaryImage {
    fn clone(&self) -> (copy: BinaryImage)
        ensures
            copy@ == self@,
    {
        proof {
            use_type_invariant(self);
        }
        BinaryImage { pixels: bits_clone(&self.pixels), width: self.width, height: self.height }
    }
}

} // verus!
