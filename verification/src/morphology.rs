//! Morphological operations: dilation by a square, a circular brush stroke
//! and the repair of diagonal touches.

use vstd::prelude::*;
use crate::packing::round_up8;
use crate::image::{
    lemma_index_bound, lemma_index_parts, lemma_index_split, lemma_repaint_pixel,
    lemma_repaint_unique, lemma_with_pixel, scanned, shifted, BinaryImage, Raster,
};

verus! {

/// Whether some set pixel of `r` reaches `(px, py)`, where `reach(sx, sy,
/// px, py)` says that a set pixel at `(sx, sy)` reaches `(px, py)`.
pub open spec fn spread(
    r: Raster,
    reach: spec_fn(int, int, int, int) -> bool,
    px: int,
    py: int,
) -> bool {
    exists|sx: int, sy: int| #[trigger] r.lit(sx, sy) && reach(sx, sy, px, py)
}

/// As [`spread`], restricted to the set pixels that a scan standing at
/// `(x, y)` has passed.
pub open spec fn spread_upto(
    r: Raster,
    reach: spec_fn(int, int, int, int) -> bool,
    px: int,
    py: int,
    x: int,
    y: int,
) -> bool {
    exists|sx: int, sy: int|
        #[trigger] r.lit(sx, sy) && scanned(sx, sy, x, y) && reach(sx, sy, px, py)
}

/// Before the scan starts, nothing has been reached.
proof fn lemma_spread_start(r: Raster, reach: spec_fn(int, int, int, int) -> bool, px: int, py: int)
    ensures
        !spread_upto(r, reach, px, py, 0, 0),
{
    assert forall|sx: int, sy: int| #[trigger] r.lit(sx, sy) implies !scanned(sx, sy, 0, 0) by {}
}

/// Passing `(x, y)` adds what `(x, y)` reaches, provided that it is set.
proof fn lemma_spread_step(
    r: Raster,
    reach: spec_fn(int, int, int, int) -> bool,
    px: int,
    py: int,
    x: int,
    y: int,
)
    requires
        r.on_canvas(x, y),
    ensures
        spread_upto(r, reach, px, py, x + 1, y) == (spread_upto(r, reach, px, py, x, y) || (
        r.pixel(x, y) && reach(x, y, px, py))),
{
    if spread_upto(r, reach, px, py, x + 1, y) {
        let (sx, sy) = choose|sx: int, sy: int|
            #[trigger] r.lit(sx, sy) && scanned(sx, sy, x + 1, y) && reach(sx, sy, px, py);
        if !(sx == x && sy == y) {
            assert(r.lit(sx, sy) && scanned(sx, sy, x, y) && reach(sx, sy, px, py));
        }
    }
    if spread_upto(r, reach, px, py, x, y) {
        let (sx, sy) = choose|sx: int, sy: int|
            #[trigger] r.lit(sx, sy) && scanned(sx, sy, x, y) && reach(sx, sy, px, py);
        assert(r.lit(sx, sy) && scanned(sx, sy, x + 1, y) && reach(sx, sy, px, py));
    }
    if r.pixel(x, y) && reach(x, y, px, py) {
        assert(r.lit(x, y) && scanned(x, y, x + 1, y) && reach(x, y, px, py));
    }
}

/// The end of a row is the start of the next one.
proof fn lemma_spread_row(
    r: Raster,
    reach: spec_fn(int, int, int, int) -> bool,
    px: int,
    py: int,
    y: int,
)
    ensures
        spread_upto(r, reach, px, py, r.width as int, y) == spread_upto(r, reach, px, py, 0, y + 1),
{
    if spread_upto(r, reach, px, py, r.width as int, y) {
        let (sx, sy) = choose|sx: int, sy: int|
            #[trigger] r.lit(sx, sy) && scanned(sx, sy, r.width as int, y) && reach(sx, sy, px, py);
        assert(r.lit(sx, sy) && scanned(sx, sy, 0, y + 1) && reach(sx, sy, px, py));
    }
    if spread_upto(r, reach, px, py, 0, y + 1) {
        let (sx, sy) = choose|sx: int, sy: int|
            #[trigger] r.lit(sx, sy) && scanned(sx, sy, 0, y + 1) && reach(sx, sy, px, py);
        assert(r.lit(sx, sy) && scanned(sx, sy, r.width as int, y) && reach(sx, sy, px, py));
    }
}

/// After the last row, the scan has passed every set pixel.
proof fn lemma_spread_end(r: Raster, reach: spec_fn(int, int, int, int) -> bool, px: int, py: int)
    ensures
        spread_upto(r, reach, px, py, 0, r.height as int) == spread(r, reach, px, py),
{
    if spread_upto(r, reach, px, py, 0, r.height as int) {
        let (sx, sy) = choose|sx: int, sy: int|
            #[trigger] r.lit(sx, sy) && scanned(sx, sy, 0, r.height as int) && reach(sx, sy, px, py);
        assert(r.lit(sx, sy) && reach(sx, sy, px, py));
    }
    if spread(r, reach, px, py) {
        let (sx, sy) = choose|sx: int, sy: int| #[trigger] r.lit(sx, sy) && reach(sx, sy, px, py);
        assert(r.lit(sx, sy) && scanned(sx, sy, 0, r.height as int) && reach(sx, sy, px, py));
    }
}

/// Whether `(px, py)` lies in the five by five square around `(sx, sy)`.
pub open spec fn in_square(sx: int, sy: int, px: int, py: int) -> bool {
    sx - 2 <= px <= sx + 2 && sy - 2 <= py <= sy + 2
}

impl Raster {
    /// Whether some set pixel lies within two steps of `(x, y)` in both
    /// directions.
    pub open spec fn dilated_pixel(self, x: int, y: int) -> bool {
        spread(self, |sx: int, sy: int, px: int, py: int| in_square(sx, sy, px, py), x, y)
    }

    /// The dilation of the raster by the five by five square, on a canvas of
    /// the same size without fill bits.
    pub open spec fn dilated(self) -> Raster {
        Raster::blank(self.width, self.height).repaint(|x: int, y: int| self.dilated_pixel(x, y))
    }
}

impl BinaryImage {
    /// Sets every pixel of the canvas in the five by five square around
    /// `(x, y)`.
    fn paint_square(&mut self, x: usize, y: usize)
        requires
            old(self)@.on_canvas(x as int, y as int),
        ensures
            final(self)@.same_size(old(self)@),
            final(self)@.bits.len() == old(self)@.bits.len(),
            forall|i: int|
                old(self)@.cells() <= i < old(self)@.bits.len() ==> final(self)@.bits[i] == old(
                    self,
                )@.bits[i],
            forall|px: int, py: int|
                old(self)@.on_canvas(px, py) ==> #[trigger] final(self)@.pixel(px, py) == (old(
                    self,
                )@.pixel(px, py) || in_square(x as int, y as int, px, py)),
    {
        self.validity();
        let width = self.width();
        let height = self.height();
        let mut i: usize = 0;
        while i < 5
            invariant
                i <= 5,
                x < width,
                y < height,
                width == old(self)@.width,
                height == old(self)@.height,
                self@.wf(),
                self@.same_size(old(self)@),
                self@.bits.len() == old(self)@.bits.len(),
                forall|k: int|
                    old(self)@.cells() <= k < old(self)@.bits.len() ==> self@.bits[k] == old(
                        self,
                    )@.bits[k],
                forall|px: int, py: int|
                    old(self)@.on_canvas(px, py) ==> #[trigger] self@.pixel(px, py) == (old(
                        self,
                    )@.pixel(px, py) || (x - 2 <= px < x - 2 + i && y - 2 <= py <= y + 2)),
            decreases 5 - i,
        {
            let mut j: usize = 0;
            while j < 5
                invariant
                    i < 5,
                    j <= 5,
                    x < width,
                    y < height,
                    width == old(self)@.width,
                    height == old(self)@.height,
                    self@.wf(),
                    self@.same_size(old(self)@),
                    self@.bits.len() == old(self)@.bits.len(),
                    forall|k: int|
                        old(self)@.cells() <= k < old(self)@.bits.len() ==> self@.bits[k] == old(
                            self,
                        )@.bits[k],
                    forall|px: int, py: int|
                        old(self)@.on_canvas(px, py) ==> #[trigger] self@.pixel(px, py) == (old(
                            self,
                        )@.pixel(px, py) || (x - 2 <= px < x - 2 + i && y - 2 <= py <= y + 2) || (px
                            == x - 2 + i && y - 2 <= py < y - 2 + j)),
                decreases 5 - j,
            {
                let nx = shifted(x, i, 2, width);
                let ny = shifted(y, j, 2, height);
                match (nx, ny) {
                    (Some(nx), Some(ny)) => {
                        proof {
                            lemma_with_pixel(self@, nx as int, ny as int, true);
                        }
                        self.set_pixel(nx, ny, true);
                    },
                    _ => {},
                }
                j += 1;
            }
            i += 1;
        }
    }

    /// Dilates the image by a five by five square: a pixel of the result is
    /// set when some set pixel of `self` lies within two steps of it in both
    /// directions. The canvas keeps its size.
    pub fn dilate(&self) -> (image: BinaryImage)
        ensures
            image@ == self@.dilated(),
            image@.wf(),
    {
        self.validity();
        let width = self.width();
        let height = self.height();
        let mut result = BinaryImage::new_w_h(width, height);
        let ghost reach = |sx: int, sy: int, px: int, py: int| in_square(sx, sy, px, py);
        let ghost blank = Raster::blank(self@.width, self@.height);
        proof {
            assert forall|px: int, py: int| blank.on_canvas(px, py) implies #[trigger] result@.pixel(
                px,
                py,
            ) == spread_upto(self@, reach, px, py, 0, 0) by {
                lemma_index_bound(blank.width, blank.height, px, py);
                lemma_spread_start(self@, reach, px, py);
            }
        }
        let mut y: usize = 0;
        while y < height
            invariant
                y <= height,
                width == self@.width,
                height == self@.height,
                self@.wf(),
                result@.wf(),
                result@.same_size(self@),
                result@.plain(),
                reach == (|sx: int, sy: int, px: int, py: int| in_square(sx, sy, px, py)),
                forall|px: int, py: int|
                    self@.on_canvas(px, py) ==> #[trigger] result@.pixel(px, py) == spread_upto(
                        self@,
                        reach,
                        px,
                        py,
                        0,
                        y as int,
                    ),
            decreases height - y,
        {
            let mut x: usize = 0;
            while x < width
                invariant
                    x <= width,
                    y < height,
                    width == self@.width,
                    height == self@.height,
                    self@.wf(),
                    result@.wf(),
                    result@.same_size(self@),
                    result@.plain(),
                    reach == (|sx: int, sy: int, px: int, py: int| in_square(sx, sy, px, py)),
                    forall|px: int, py: int|
                        self@.on_canvas(px, py) ==> #[trigger] result@.pixel(px, py) == spread_upto(
                            self@,
                            reach,
                            px,
                            py,
                            x as int,
                            y as int,
                        ),
                decreases width - x,
            {
                let ghost before = result@;
                if self.get_pixel(x, y) {
                    proof {
                        lemma_with_pixel(result@, x as int, y as int, true);
                    }
                    result.set_pixel(x, y, true);
                    result.paint_square(x, y);
                }
                proof {
                    assert forall|px: int, py: int| self@.on_canvas(px, py) implies #[trigger] result@.pixel(
                        px,
                        py,
                    ) == spread_upto(self@, reach, px, py, x + 1, y as int) by {
                        lemma_spread_step(self@, reach, px, py, x as int, y as int);
                        assert(before.pixel(px, py) == spread_upto(
                            self@,
                            reach,
                            px,
                            py,
                            x as int,
                            y as int,
                        ));
                        assert(reach(x as int, y as int, px, py) == in_square(
                            x as int,
                            y as int,
                            px,
                            py,
                        ));
                    }
                }
                x += 1;
            }
            proof {
                assert forall|px: int, py: int| self@.on_canvas(px, py) implies #[trigger] result@.pixel(
                    px,
                    py,
                ) == spread_upto(self@, reach, px, py, 0, y + 1) by {
                    lemma_spread_row(self@, reach, px, py, y as int);
                }
            }
            y += 1;
        }
        proof {
            let paint = |x: int, y: int| self@.dilated_pixel(x, y);
            assert forall|px: int, py: int| blank.on_canvas(px, py) implies result@.pixel(px, py)
                == paint(px, py) by {
                lemma_spread_end(self@, reach, px, py);
            }
            lemma_repaint_unique(blank, result@, paint);
        }
        result
    }
}

impl Raster {
    /// Whether `(x, y)` has all its eight neighbours on the canvas.
    pub open spec fn interior(self, x: int, y: int) -> bool {
        1 <= x < self.width - 1 && 1 <= y < self.height - 1
    }

    /// Whether the set interior pixel `(x, y)` touches a set pixel
    /// diagonally in the row `y + dy` while the two cells between them, the
    /// one beside `(x, y)` and the one in the row `y + dy` of its own
    /// column, are unset. `dy` is `-1` for the row above and `1` for the row
    /// below.
    pub open spec fn diagonal_gap(self, x: int, y: int, dy: int) -> bool {
        &&& self.interior(x, y)
        &&& self.pixel(x, y)
        &&& !self.pixel(x, y + dy)
        &&& (self.pixel(x - 1, y + dy) && !self.pixel(x - 1, y)) || (self.pixel(x + 1, y + dy)
            && !self.pixel(x + 1, y))
    }

    /// Whether the repair fills the cell `(x, y)`: the pixel below it has a
    /// diagonal gap upwards, or the pixel above it has one downwards.
    pub open spec fn gap_cell(self, x: int, y: int) -> bool {
        self.diagonal_gap(x, y + 1, -1) || self.diagonal_gap(x, y - 1, 1)
    }

    /// Pixel `(x, y)` after one pass of diagonal repair.
    pub open spec fn repaired_pixel(self, x: int, y: int) -> bool {
        self.pixel(x, y) || self.gap_cell(x, y)
    }

    /// The raster after one pass of diagonal repair. All gaps are found in
    /// `self`; the cells filled for one gap play no part in finding another.
    pub open spec fn repaired(self) -> Raster {
        self.repaint(|x: int, y: int| self.repaired_pixel(x, y))
    }
}

/// The repair never removes a set pixel.
pub proof fn law_repair_keeps_pixels(r: Raster)
    requires
        r.wf(),
    ensures
        r.covered_by(r.repaired()),
{
    lemma_repaint_pixel(r, |x: int, y: int| r.repaired_pixel(x, y));
}

/// Whether `idx` occurs in `list`.
pub open spec fn listed(list: Seq<usize>, idx: int) -> bool {
    exists|k: int| 0 <= k < list.len() && #[trigger] list[k] == idx
}

/// What occurs in a list after one more element was appended.
proof fn lemma_listed_push(list: Seq<usize>, v: usize, idx: int)
    ensures
        listed(list.push(v), idx) == (listed(list, idx) || idx == v),
{
    let longer = list.push(v);
    if listed(longer, idx) {
        let k = choose|k: int| 0 <= k < longer.len() && #[trigger] longer[k] == idx;
        if k < list.len() {
            assert(list[k] == idx);
        }
    }
    if listed(list, idx) {
        let k = choose|k: int| 0 <= k < list.len() && #[trigger] list[k] == idx;
        assert(longer[k] == idx);
    }
    if idx == v {
        assert(longer[list.len() as int] == idx);
    }
}

impl BinaryImage {
    /// Repairs diagonal touches. For every set pixel with all eight
    /// neighbours on the canvas: where a diagonal neighbour is set while the
    /// two cells between them are unset, the cell between them in the
    /// pixel's own column is set. All gaps are collected from `self` first
    /// and filled afterwards, in one pass.
    pub fn fix_diagonal_cc(&self) -> (image: BinaryImage)
        ensures
            image@ == self@.repaired(),
            image@.wf(),
            self@.covered_by(image@),
    {
        self.validity();
        let width = self.width();
        let height = self.height();
        let mut to_add: Vec<usize> = Vec::new();
        if height >= 3 && width >= 3 {
            let mut y: usize = 1;
            while y < height - 1
                invariant
                    1 <= y <= height - 1,
                    width >= 3,
                    height >= 3,
                    width == self@.width,
                    height == self@.height,
                    self@.wf(),
                    forall|k: int|
                        0 <= k < to_add@.len() ==> (#[trigger] to_add@[k]) < self@.cells()
                            && self@.gap_cell(
                            to_add@[k] as int % (width as int),
                            to_add@[k] as int / (width as int),
                        ),
                    forall|sx: int, sy: int, dy: int|
                        (dy == -1 || dy == 1) && scanned(sx, sy, 1, y as int)
                            && #[trigger] self@.diagonal_gap(sx, sy, dy) ==> listed(
                            to_add@,
                            self@.index(sx, sy + dy),
                        ),
                decreases height - y,
            {
                let mut x: usize = 1;
                while x < width - 1
                    invariant
                        1 <= x <= width - 1,
                        1 <= y < height - 1,
                        width >= 3,
                        height >= 3,
                        width == self@.width,
                        height == self@.height,
                        self@.wf(),
                        forall|k: int|
                            0 <= k < to_add@.len() ==> (#[trigger] to_add@[k]) < self@.cells()
                                && self@.gap_cell(
                                to_add@[k] as int % (width as int),
                                to_add@[k] as int / (width as int),
                            ),
                        forall|sx: int, sy: int, dy: int|
                            (dy == -1 || dy == 1) && scanned(sx, sy, x as int, y as int)
                                && #[trigger] self@.diagonal_gap(sx, sy, dy) ==> listed(
                                to_add@,
                                self@.index(sx, sy + dy),
                            ),
                    decreases width - x,
                {
                    proof {
                        lemma_index_bound(self@.width, self@.height, x as int, y - 1);
                        lemma_index_bound(self@.width, self@.height, x as int, y + 1);
                        lemma_index_parts(self@.width, x as int, y - 1);
                        lemma_index_parts(self@.width, x as int, y + 1);
                    }
                    let ghost start = to_add@;
                    if self.get_pixel(x, y) {
                        if self.get_pixel(x - 1, y - 1) && !self.get_pixel(x - 1, y)
                            && !self.get_pixel(x, y - 1) {
                            to_add.push((y - 1) * width + x);
                        }
                        if self.get_pixel(x + 1, y - 1) && !self.get_pixel(x + 1, y)
                            && !self.get_pixel(x, y - 1) {
                            to_add.push((y - 1) * width + x);
                        }
                        if self.get_pixel(x - 1, y + 1) && !self.get_pixel(x - 1, y)
                            && !self.get_pixel(x, y + 1) {
                            to_add.push((y + 1) * width + x);
                        }
                        if self.get_pixel(x + 1, y + 1) && !self.get_pixel(x + 1, y)
                            && !self.get_pixel(x, y + 1) {
                            to_add.push((y + 1) * width + x);
                        }
                    }
                    proof {
                        let r = self@;
                        let (px, py) = (x as int, y as int);
                        let first = start.len() as int;
                        let up_left = r.pixel(px, py) && r.pixel(px - 1, py - 1) && !r.pixel(
                            px - 1,
                            py,
                        ) && !r.pixel(px, py - 1);
                        let up_right = r.pixel(px, py) && r.pixel(px + 1, py - 1) && !r.pixel(
                            px + 1,
                            py,
                        ) && !r.pixel(px, py - 1);
                        let down_left = r.pixel(px, py) && r.pixel(px - 1, py + 1) && !r.pixel(
                            px - 1,
                            py,
                        ) && !r.pixel(px, py + 1);
                        let down_right = r.pixel(px, py) && r.pixel(px + 1, py + 1) && !r.pixel(
                            px + 1,
                            py,
                        ) && !r.pixel(px, py + 1);
                        let ups: int = (if up_left { 1int } else { 0int }) + (if up_right { 1int } else { 0int });
                        if up_left || up_right {
                            assert(to_add@[first] == r.index(px, py - 1));
                        }
                        if down_left || down_right {
                            assert(to_add@[first + ups] == r.index(px, py + 1));
                        }
                        lemma_grown_list(start, to_add@, r, px, py);
                    }
                    x += 1;
                }
                y += 1;
            }
        }
        let mut result = self.clone();
        let count = to_add.len();
        let mut k: usize = 0;
        while k < count
            invariant
                k <= count,
                count == to_add@.len(),
                width == self@.width,
                height == self@.height,
                self@.wf(),
                result@.wf(),
                result@.same_size(self@),
                result@.bits.len() == self@.bits.len(),
                forall|i: int| 0 <= i < to_add@.len() ==> (#[trigger] to_add@[i]) < self@.cells(),
                forall|i: int|
                    self@.cells() <= i < self@.bits.len() ==> result@.bits[i] == self@.bits[i],
                forall|px: int, py: int|
                    self@.on_canvas(px, py) ==> #[trigger] result@.pixel(px, py) == (self@.pixel(
                        px,
                        py,
                    ) || listed(to_add@.take(k as int), self@.index(px, py))),
            decreases count - k,
        {
            let index = to_add[k];
            proof {
                lemma_index_split(self@.width, self@.height, index as int);
            }
            let x = index % width;
            let y = index / width;
            proof {
                lemma_with_pixel(result@, x as int, y as int, true);
                assert(to_add@.take(k + 1) =~= to_add@.take(k as int).push(index));
                assert forall|px: int, py: int| self@.on_canvas(px, py) implies (listed(
                    to_add@.take(k + 1),
                    self@.index(px, py),
                ) == (listed(to_add@.take(k as int), self@.index(px, py)) || (px == x && py == y))) by {
                    lemma_listed_push(to_add@.take(k as int), index, self@.index(px, py));
                    lemma_index_parts(self@.width, px, py);
                }
            }
            result.set_pixel(x, y, true);
            k += 1;
        }
        proof {
            let paint = |x: int, y: int| self@.repaired_pixel(x, y);
            assert(to_add@.take(count as int) =~= to_add@);
            assert forall|px: int, py: int| self@.on_canvas(px, py) implies result@.pixel(px, py)
                == paint(px, py) by {
                lemma_index_parts(self@.width, px, py);
                lemma_index_bound(self@.width, self@.height, px, py);
                if listed(to_add@, self@.index(px, py)) {
                    let i = choose|i: int|
                        0 <= i < to_add@.len() && #[trigger] to_add@[i] == self@.index(px, py);
                    assert(self@.gap_cell(
                        to_add@[i] as int % (width as int),
                        to_add@[i] as int / (width as int),
                    ));
                }
                if self@.diagonal_gap(px, py + 1, -1) {
                    assert(scanned(px, py + 1, 1, height - 1));
                }
                if self@.diagonal_gap(px, py - 1, 1) {
                    assert(scanned(px, py - 1, 1, height - 1));
                }
            }
            lemma_repaint_unique(self@, result@, paint);
            law_repair_keeps_pixels(self@);
        }
        result
    }
}

/// The list of cells to fill stays right when the scan passes `(x, y)` and
/// appends, for each diagonal gap of `(x, y)`, the cell that fills it.
proof fn lemma_grown_list(start: Seq<usize>, grown: Seq<usize>, r: Raster, x: int, y: int)
    requires
        r.wf(),
        r.interior(x, y),
        forall|k: int|
            0 <= k < start.len() ==> (#[trigger] start[k]) < r.cells() && r.gap_cell(
                start[k] as int % (r.width as int),
                start[k] as int / (r.width as int),
            ),
        forall|sx: int, sy: int, dy: int|
            (dy == -1 || dy == 1) && scanned(sx, sy, x, y) && #[trigger] r.diagonal_gap(sx, sy, dy)
                ==> listed(start, r.index(sx, sy + dy)),
        start.len() <= grown.len(),
        forall|k: int| 0 <= k < start.len() ==> grown[k] == start[k],
        forall|k: int|
            start.len() <= k < grown.len() ==> (#[trigger] grown[k] == r.index(x, y - 1)
                && r.diagonal_gap(x, y, -1)) || (grown[k] == r.index(x, y + 1) && r.diagonal_gap(
                x,
                y,
                1,
            )),
        r.diagonal_gap(x, y, -1) ==> listed(grown, r.index(x, y - 1)),
        r.diagonal_gap(x, y, 1) ==> listed(grown, r.index(x, y + 1)),
    ensures
        forall|k: int|
            0 <= k < grown.len() ==> (#[trigger] grown[k]) < r.cells() && r.gap_cell(
                grown[k] as int % (r.width as int),
                grown[k] as int / (r.width as int),
            ),
        forall|sx: int, sy: int, dy: int|
            (dy == -1 || dy == 1) && scanned(sx, sy, x + 1, y) && #[trigger] r.diagonal_gap(
                sx,
                sy,
                dy,
            ) ==> listed(grown, r.index(sx, sy + dy)),
{
    lemma_index_bound(r.width, r.height, x, y - 1);
    lemma_index_bound(r.width, r.height, x, y + 1);
    lemma_index_parts(r.width, x, y - 1);
    lemma_index_parts(r.width, x, y + 1);
    assert forall|k: int| 0 <= k < grown.len() implies (#[trigger] grown[k]) < r.cells()
        && r.gap_cell(grown[k] as int % (r.width as int), grown[k] as int / (r.width as int)) by {
        if k < start.len() {
            assert(grown[k] == start[k]);
        }
    }
    assert forall|sx: int, sy: int, dy: int|
        (dy == -1 || dy == 1) && scanned(sx, sy, x + 1, y) && #[trigger] r.diagonal_gap(
            sx,
            sy,
            dy,
        ) implies listed(grown, r.index(sx, sy + dy)) by {
        if scanned(sx, sy, x, y) {
            let k = choose|k: int|
                0 <= k < start.len() && #[trigger] start[k] == r.index(sx, sy + dy);
            assert(grown[k] == r.index(sx, sy + dy));
        }
    }
}

/// Whether `q` is the square root of `n`, rounded down.
pub open spec fn is_floor_sqrt(n: int, q: int) -> bool {
    0 <= q && q * q <= n < (q + 1) * (q + 1)
}

/// The square root of `n`, rounded down.
pub open spec fn floor_sqrt(n: int) -> int {
    choose|q: int| is_floor_sqrt(n, q)
}

/// Whether the offset `(dx, dy)` from the centre is painted by a brush of
/// the given radius: both parts lie in `-radius .. radius`, and the rounded
/// down distance from the centre is below the radius.
pub open spec fn in_brush(dx: int, dy: int, radius: int) -> bool {
    &&& -radius <= dx < radius
    &&& -radius <= dy < radius
    &&& floor_sqrt(dx * dx + dy * dy) < radius
}

/// Every natural number has a rounded down square root.
pub proof fn lemma_floor_sqrt(n: int)
    requires
        0 <= n,
    ensures
        is_floor_sqrt(n, floor_sqrt(n)),
    decreases n,
{
    if n == 0 {
        assert(is_floor_sqrt(0, 0));
    } else {
        lemma_floor_sqrt(n - 1);
        let q = floor_sqrt(n - 1);
        if n < (q + 1) * (q + 1) {
            assert(is_floor_sqrt(n, q));
        } else {
            assert((q + 2) * (q + 2) > (q + 1) * (q + 1)) by (nonlinear_arith)
                requires
                    q >= 0,
            ;
            assert(is_floor_sqrt(n, q + 1));
        }
    }
}

/// The rounded down square root of `d` is below `radius` exactly when `d`
/// is below the square of `radius`.
pub proof fn lemma_brush_test(d: int, radius: int)
    requires
        0 <= d,
        0 <= radius,
    ensures
        (floor_sqrt(d) < radius) == (d < radius * radius),
{
    lemma_floor_sqrt(d);
    let q = floor_sqrt(d);
    if q < radius {
        assert((q + 1) * (q + 1) <= radius * radius) by (nonlinear_arith)
            requires
                0 <= q + 1 <= radius,
        ;
    } else {
        assert(q * q >= radius * radius) by (nonlinear_arith)
            requires
                0 <= radius <= q,
        ;
    }
}

impl Raster {
    /// Whether the brush of the given radius, put down at some set pixel,
    /// paints `(x, y)` of the grown canvas. The brush for the pixel `(sx,
    /// sy)` has its centre at `(sx + radius, sy + radius)`.
    pub open spec fn stroked_pixel(self, radius: int, x: int, y: int) -> bool {
        spread(
            self,
            |sx: int, sy: int, px: int, py: int| in_brush(px - sx - radius, py - sy - radius, radius),
            x,
            y,
        )
    }

    /// The raster stroked with a brush of diameter `s`: the canvas grows by
    /// `s` in both directions, and the brush of radius `s / 2` is put down
    /// at every set pixel.
    pub open spec fn stroked(self, s: nat) -> Raster {
        Raster::blank(self.width + s, self.height + s).repaint(
            |x: int, y: int| self.stroked_pixel(s as int / 2, x, y),
        )
    }
}

/// The distance between `a` and `b`.
fn distance(a: usize, b: usize) -> (d: u64)
    ensures
        d == if a >= b {
            a - b
        } else {
            b - a
        },
{
    if a >= b {
        (a - b) as u64
    } else {
        (b - a) as u64
    }
}

impl BinaryImage {
    /// Puts the brush of the given radius down for the pixel `(x, y)`: sets
    /// the pixels `(x + a, y + b)`, for `a` and `b` below twice the radius,
    /// whose offset from `(x + radius, y + radius)` the brush paints.
    fn paint_disk(&mut self, x: usize, y: usize, radius: usize)
        requires
            radius < 0x8000_0000,
            x + 2 * radius <= old(self)@.width,
            y + 2 * radius <= old(self)@.height,
        ensures
            final(self)@.same_size(old(self)@),
            final(self)@.bits.len() == old(self)@.bits.len(),
            forall|i: int|
                old(self)@.cells() <= i < old(self)@.bits.len() ==> final(self)@.bits[i] == old(
                    self,
                )@.bits[i],
            forall|px: int, py: int|
                old(self)@.on_canvas(px, py) ==> #[trigger] final(self)@.pixel(px, py) == (old(
                    self,
                )@.pixel(px, py) || in_brush(px - x - radius, py - y - radius, radius as int)),
    {
        self.validity();
        let width = self.width();
        let height = self.height();
        let reach = 2 * radius;
        assert(radius * radius <= 0x4000_0000_0000_0000) by (nonlinear_arith)
            requires
                radius < 0x8000_0000,
        ;
        let limit: u64 = (radius as u64) * (radius as u64);
        let mut b: usize = 0;
        while b < reach
            invariant
                b <= reach,
                reach == 2 * radius,
                radius < 0x8000_0000,
                limit == radius * radius,
                width == old(self)@.width,
                height == old(self)@.height,
                x + reach <= width,
                y + reach <= height,
                self@.wf(),
                self@.same_size(old(self)@),
                self@.bits.len() == old(self)@.bits.len(),
                forall|k: int|
                    old(self)@.cells() <= k < old(self)@.bits.len() ==> self@.bits[k] == old(
                        self,
                    )@.bits[k],
                forall|px: int, py: int|
                    old(self)@.on_canvas(px, py) ==> #[trigger] self@.pixel(px, py) == (old(
                        self,
                    )@.pixel(px, py) || (py - y < b && in_brush(
                        px - x - radius,
                        py - y - radius,
                        radius as int,
                    ))),
            decreases reach - b,
        {
            let db = distance(b, radius);
            let mut a: usize = 0;
            while a < reach
                invariant
                    a <= reach,
                    b < reach,
                    reach == 2 * radius,
                    radius < 0x8000_0000,
                    limit == radius * radius,
                    db == if b >= radius {
                        b - radius
                    } else {
                        radius - b
                    },
                    width == old(self)@.width,
                    height == old(self)@.height,
                    x + reach <= width,
                    y + reach <= height,
                    self@.wf(),
                    self@.same_size(old(self)@),
                    self@.bits.len() == old(self)@.bits.len(),
                    forall|k: int|
                        old(self)@.cells() <= k < old(self)@.bits.len() ==> self@.bits[k] == old(
                            self,
                        )@.bits[k],
                    forall|px: int, py: int|
                        old(self)@.on_canvas(px, py) ==> #[trigger] self@.pixel(px, py) == (old(
                            self,
                        )@.pixel(px, py) || ((py - y < b || (py - y == b && px - x < a))
                            && in_brush(px - x - radius, py - y - radius, radius as int))),
                decreases reach - a,
            {
                let da = distance(a, radius);
                proof {
                    let (dx, dy) = (a - radius, b - radius);
                    assert(da * da == dx * dx && da * da <= 0x4000_0000_0000_0000) by (nonlinear_arith)
                        requires
                            da == dx || da == -dx,
                            0 <= da <= 0x8000_0000,
                    ;
                    assert(db * db == dy * dy && db * db <= 0x4000_0000_0000_0000) by (nonlinear_arith)
                        requires
                            db == dy || db == -dy,
                            0 <= db <= 0x8000_0000,
                    ;
                    lemma_brush_test(dx * dx + dy * dy, radius as int);
                }
                if da * da + db * db < limit {
                    proof {
                        lemma_with_pixel(self@, x + a, y + b, true);
                    }
                    self.set_pixel(x + a, y + b, true);
                }
                a += 1;
            }
            b += 1;
        }
    }

    /// Strokes the image with a circular brush of diameter `s`. The canvas
    /// grows by `s` in both directions; for every set pixel `(x, y)` the
    /// brush of radius `s / 2` is put down with its centre at `(x + s / 2,
    /// y + s / 2)` on the grown canvas.
    pub fn stroke(&self, s: u32) -> (image: BinaryImage)
        requires
            self@.width + s <= usize::MAX,
            self@.height + s <= usize::MAX,
            round_up8((self@.width + s) * (self@.height + s)) <= usize::MAX,
        ensures
            image@ == self@.stroked(s as nat),
            image@.wf(),
    {
        self.validity();
        let width = self.width();
        let height = self.height();
        let radius = (s as usize) >> 1;
        assert(radius == s as int / 2 && radius < 0x8000_0000) by {
            let v = s as usize;
            assert(v >> 1 == v / 2) by (bit_vector);
        }
        let mut result = BinaryImage::new_w_h(width + s as usize, height + s as usize);
        let ghost reach = |sx: int, sy: int, px: int, py: int|
            in_brush(px - sx - radius, py - sy - radius, radius as int);
        let ghost blank = Raster::blank(self@.width + s as nat, self@.height + s as nat);
        proof {
            assert forall|px: int, py: int| blank.on_canvas(px, py) implies #[trigger] result@.pixel(
                px,
                py,
            ) == spread_upto(self@, reach, px, py, 0, 0) by {
                lemma_index_bound(blank.width, blank.height, px, py);
                lemma_spread_start(self@, reach, px, py);
            }
        }
        let mut y: usize = 0;
        while y < height
            invariant
                y <= height,
                width == self@.width,
                height == self@.height,
                radius < 0x8000_0000,
                2 * radius <= s,
                self@.wf(),
                result@.wf(),
                result@.same_size(blank),
                result@.plain(),
                blank == Raster::blank(self@.width + s as nat, self@.height + s as nat),
                reach == (|sx: int, sy: int, px: int, py: int|
                    in_brush(px - sx - radius, py - sy - radius, radius as int)),
                forall|px: int, py: int|
                    blank.on_canvas(px, py) ==> #[trigger] result@.pixel(px, py) == spread_upto(
                        self@,
                        reach,
                        px,
                        py,
                        0,
                        y as int,
                    ),
            decreases height - y,
        {
            let mut x: usize = 0;
            while x < width
                invariant
                    x <= width,
                    y < height,
                    width == self@.width,
                    height == self@.height,
                    radius < 0x8000_0000,
                    2 * radius <= s,
                    self@.wf(),
                    result@.wf(),
                    result@.same_size(blank),
                    result@.plain(),
                    blank == Raster::blank(self@.width + s as nat, self@.height + s as nat),
                    reach == (|sx: int, sy: int, px: int, py: int|
                        in_brush(px - sx - radius, py - sy - radius, radius as int)),
                    forall|px: int, py: int|
                        blank.on_canvas(px, py) ==> #[trigger] result@.pixel(px, py) == spread_upto(
                            self@,
                            reach,
                            px,
                            py,
                            x as int,
                            y as int,
                        ),
                decreases width - x,
            {
                let ghost before = result@;
                if self.get_pixel(x, y) {
                    result.paint_disk(x, y, radius);
                }
                proof {
                    assert forall|px: int, py: int| blank.on_canvas(px, py) implies #[trigger] result@.pixel(
                        px,
                        py,
                    ) == spread_upto(self@, reach, px, py, x + 1, y as int) by {
                        lemma_spread_step(self@, reach, px, py, x as int, y as int);
                        assert(before.pixel(px, py) == spread_upto(
                            self@,
                            reach,
                            px,
                            py,
                            x as int,
                            y as int,
                        ));
                        assert(reach(x as int, y as int, px, py) == in_brush(
                            px - x - radius,
                            py - y - radius,
                            radius as int,
                        ));
                    }
                }
                x += 1;
            }
            proof {
                assert forall|px: int, py: int| blank.on_canvas(px, py) implies #[trigger] result@.pixel(
                    px,
                    py,
                ) == spread_upto(self@, reach, px, py, 0, y + 1) by {
                    lemma_spread_row(self@, reach, px, py, y as int);
                }
            }
            y += 1;
        }
        proof {
            let paint = |x: int, y: int| self@.stroked_pixel(s as int / 2, x, y);
            assert forall|px: int, py: int| blank.on_canvas(px, py) implies result@.pixel(px, py)
                == paint(px, py) by {
                lemma_spread_end(self@, reach, px, py);
                assert(reach == (|sx: int, sy: int, px: int, py: int|
                    in_brush(px - sx - s as int / 2, py - sy - s as int / 2, s as int / 2)));
            }
            lemma_repaint_unique(blank, result@, paint);
        }
        result
    }
}

} // verus!
