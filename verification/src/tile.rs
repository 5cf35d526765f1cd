//! The partition of an image into rectangular tiles.
//!
//! An image of `width` by `height` pixels is cut along a regular grid of
//! `tile_w` by `tile_h` cells; the cells at the right and bottom edges are
//! clipped to the image. Every pixel then lies in exactly one tile, which is
//! what lets one task per tile write into a shared buffer without locking.

use vstd::arithmetic::div_mod::{
    lemma_div_pos_is_pos,
    lemma_fundamental_div_mod,
    lemma_fundamental_div_mod_converse,
    lemma_mod_bound,
};
use vstd::arithmetic::mul::{lemma_mul_inequality, lemma_mul_is_commutative};
use vstd::prelude::*;

verus! {

/// A rectangle of pixels: columns `x..x2` and rows `y..y2`.
#[derive(Clone, Copy, Debug, PartialEq, Eq, Structural)]
pub struct Tile {
    pub x: u32,
    pub y: u32,
    pub x2: u32,
    pub y2: u32,
}

impl Tile {
    /// Whether the pixel in column `px` and row `py` lies in this tile.
    pub open spec fn contains(self, px: int, py: int) -> bool {
        self.x <= px < self.x2 && self.y <= py < self.y2
    }

    /// The number of pixels in this tile.
    pub open spec fn area(self) -> int {
        (self.x2 - self.x) * (self.y2 - self.y)
    }

    /// The place of the pixel in column `px` and row `py` when the pixels
    /// of this tile are listed row by row, each row from its first column.
    pub open spec fn offset_of(self, px: int, py: int) -> int {
        (py - self.y) * (self.x2 - self.x) + (px - self.x)
    }

    /// The number of pixels in this tile.
    pub fn pixel_count(&self) -> (n: u64)
        requires
            self.x <= self.x2,
            self.y <= self.y2,
        ensures
            n == self.area(),
    {
        let w: u64 = (self.x2 - self.x) as u64;
        let h: u64 = (self.y2 - self.y) as u64;
        assert(w * h <= 0xffff_ffff * 0xffff_ffff) by (nonlinear_arith)
            requires
                0 <= w <= 0xffff_ffff,
                0 <= h <= 0xffff_ffff,
        ;
        w * h
    }
}

/// How many steps of length `step` it takes to cover `extent`.
pub open spec fn steps_to_cover(extent: int, step: int) -> int {
    (extent + step - 1) / step
}

/// Where step `i` of length `step` ends once it is clipped to `extent`.
pub open spec fn clipped_end(extent: int, step: int, i: int) -> int {
    if i * step + step < extent {
        i * step + step
    } else {
        extent
    }
}

/// An image size together with the size of the tiles it is cut into.
#[derive(Clone, Copy, Debug, PartialEq, Eq, Structural)]
pub struct TileGrid {
    pub width: u32,
    pub height: u32,
    pub tile_w: u32,
    pub tile_h: u32,
}

impl TileGrid {
    /// A grid is well formed when its tiles are not degenerate.
    pub open spec fn wf(self) -> bool {
        self.tile_w > 0 && self.tile_h > 0
    }

    /// The number of tile columns.
    pub open spec fn count_x(self) -> int {
        steps_to_cover(self.width as int, self.tile_w as int)
    }

    /// The number of tile rows.
    pub open spec fn count_y(self) -> int {
        steps_to_cover(self.height as int, self.tile_h as int)
    }

    /// The number of tiles.
    pub open spec fn count(self) -> int {
        self.count_x() * self.count_y()
    }

    /// Whether `t` is the tile in column `col` and row `row` of the grid.
    pub open spec fn is_tile(self, col: int, row: int, t: Tile) -> bool {
        &&& 0 <= col < self.count_x()
        &&& 0 <= row < self.count_y()
        &&& t.x == col * self.tile_w
        &&& t.y == row * self.tile_h
        &&& t.x2 == clipped_end(self.width as int, self.tile_w as int, col)
        &&& t.y2 == clipped_end(self.height as int, self.tile_h as int, row)
    }

    /// A grid over an image of `width` by `height` pixels with tiles of
    /// `tile_w` by `tile_h` pixels.
    pub fn new(width: u32, height: u32, tile_w: u32, tile_h: u32) -> (grid: Self)
        requires
            tile_w > 0,
            tile_h > 0,
        ensures
            grid.wf(),
            grid == (TileGrid { width, height, tile_w, tile_h }),
    {
        TileGrid { width, height, tile_w, tile_h }
    }

    /// The number of tile columns.
    pub fn tile_count_x(&self) -> (n: u32)
        requires
            self.wf(),
        ensures
            n == self.count_x(),
    {
        proof {
            lemma_steps_to_cover(self.width as int, self.tile_w as int);
        }
        ((self.width as u64 + self.tile_w as u64 - 1) / (self.tile_w as u64)) as u32
    }

    /// The number of tile rows.
    pub fn tile_count_y(&self) -> (n: u32)
        requires
            self.wf(),
        ensures
            n == self.count_y(),
    {
        proof {
            lemma_steps_to_cover(self.height as int, self.tile_h as int);
        }
        ((self.height as u64 + self.tile_h as u64 - 1) / (self.tile_h as u64)) as u32
    }

    /// The number of tiles.
    pub fn tile_count(&self) -> (n: u64)
        requires
            self.wf(),
        ensures
            n == self.count(),
    {
        let nx: u64 = self.tile_count_x() as u64;
        let ny: u64 = self.tile_count_y() as u64;
        assert(nx * ny <= 0xffff_ffff * 0xffff_ffff) by (nonlinear_arith)
            requires
                0 <= nx <= 0xffff_ffff,
                0 <= ny <= 0xffff_ffff,
        ;
        nx * ny
    }

    /// The tile in column `col` and row `row`.
    pub fn tile(&self, col: u32, row: u32) -> (t: Tile)
        requires
            self.wf(),
            col < self.count_x(),
            row < self.count_y(),
        ensures
            self.is_tile(col as int, row as int, t),
    {
        proof {
            lemma_step_starts_inside(self.width as int, self.tile_w as int, col as int);
            lemma_step_starts_inside(self.height as int, self.tile_h as int, row as int);
        }
        let x: u32 = col * self.tile_w;
        let y: u32 = row * self.tile_h;
        let x2: u32 = if self.width - x > self.tile_w {
            x + self.tile_w
        } else {
            self.width
        };
        let y2: u32 = if self.height - y > self.tile_h {
            y + self.tile_h
        } else {
            self.height
        };
        Tile { x, y, x2, y2 }
    }

    /// The tile with number `index`, counting row by row from the first
    /// column of the first row.
    pub fn tile_at(&self, index: u64) -> (t: Tile)
        requires
            self.wf(),
            index < self.count(),
        ensures
            self.is_tile(index as int % self.count_x(), index as int / self.count_x(), t),
    {
        let nx: u64 = self.tile_count_x() as u64;
        proof {
            lemma_steps_to_cover(self.height as int, self.tile_h as int);
            lemma_index_splits(index as int, self.count_x(), self.count_y());
        }
        let col: u32 = (index % nx) as u32;
        let row: u32 = (index / nx) as u32;
        self.tile(col, row)
    }
}

/// Listing the pixels of a tile row by row gives each pixel a place of its
/// own below the tile's area.
pub proof fn lemma_offsets_number_the_pixels(tile: Tile, xa: int, ya: int, xb: int, yb: int)
    requires
        tile.contains(xa, ya),
        tile.contains(xb, yb),
    ensures
        0 <= tile.offset_of(xa, ya) < tile.area(),
        tile.offset_of(xa, ya) == tile.offset_of(xb, yb) ==> xa == xb && ya == yb,
{
    let w = tile.x2 - tile.x;
    let h = tile.y2 - tile.y;
    assert(0 <= (ya - tile.y) * w + (xa - tile.x) < w * h) by (nonlinear_arith)
        requires
            0 <= xa - tile.x < w,
            0 <= ya - tile.y < h,
    ;
    assert((ya - tile.y) * w + (xa - tile.x) == (yb - tile.y) * w + (xb - tile.x) ==> ya == yb)
        by (nonlinear_arith)
        requires
            0 <= xa - tile.x < w,
            0 <= xb - tile.x < w,
    ;
}

/// The number of steps is the least number whose steps reach `extent`.
pub proof fn lemma_steps_to_cover(extent: int, step: int)
    requires
        0 <= extent,
        0 < step,
    ensures
        0 <= steps_to_cover(extent, step) <= extent,
        extent <= steps_to_cover(extent, step) * step,
        (steps_to_cover(extent, step) - 1) * step < extent || extent == 0,
        extent == 0 ==> steps_to_cover(extent, step) == 0,
{
    let a = extent + step - 1;
    let n = a / step;
    lemma_fundamental_div_mod(a, step);
    lemma_mod_bound(a, step);
    lemma_div_pos_is_pos(a, step);
    lemma_mul_is_commutative(step, n);
    assert((n - 1) * step == n * step - step) by (nonlinear_arith);
    if n > extent {
        lemma_mul_inequality(extent + 1, n, step);
        assert((extent + 1) * step >= extent + 1 + (step - 1)) by (nonlinear_arith)
            requires
                0 <= extent,
                1 <= step,
        ;
    }
}

/// A step that is counted starts inside the extent.
proof fn lemma_step_starts_inside(extent: int, step: int, i: int)
    requires
        0 <= extent,
        0 < step,
        0 <= i < steps_to_cover(extent, step),
    ensures
        0 <= i * step < extent,
        i * step < clipped_end(extent, step, i) <= extent,
        clipped_end(extent, step, i) - i * step <= step,
{
    lemma_steps_to_cover(extent, step);
    let n = steps_to_cover(extent, step);
    lemma_mul_inequality(i, n - 1, step);
    lemma_mul_inequality(0, i, step);
}

/// A number below `nx * ny` splits into a column below `nx` and a row below
/// `ny`.
proof fn lemma_index_splits(index: int, nx: int, ny: int)
    requires
        0 <= index < nx * ny,
        0 <= nx,
        0 <= ny,
    ensures
        0 < nx,
        0 <= index % nx < nx,
        0 <= index / nx < ny,
        index == (index / nx) * nx + index % nx,
{
    assert(nx != 0) by (nonlinear_arith)
        requires
            0 <= index < nx * ny,
    ;
    lemma_fundamental_div_mod(index, nx);
    lemma_mod_bound(index, nx);
    lemma_div_pos_is_pos(index, nx);
    lemma_mul_is_commutative(nx, index / nx);
    if index / nx >= ny {
        lemma_mul_inequality(ny, index / nx, nx);
        lemma_mul_is_commutative(nx, ny);
    }
}

/// Every tile of the grid is a non-empty rectangle inside the image, no
/// larger than the tile size.
pub proof fn lemma_tile_within_image(grid: TileGrid, col: int, row: int, t: Tile)
    requires
        grid.wf(),
        grid.is_tile(col, row, t),
    ensures
        t.x < t.x2 <= grid.width,
        t.y < t.y2 <= grid.height,
        t.x2 - t.x <= grid.tile_w,
        t.y2 - t.y <= grid.tile_h,
{
    lemma_step_starts_inside(grid.width as int, grid.tile_w as int, col);
    lemma_step_starts_inside(grid.height as int, grid.tile_h as int, row);
}

/// Every pixel of the image is covered: the tile in column `px / tile_w`
/// and row `py / tile_h` exists and contains the pixel.
pub proof fn lemma_pixel_is_covered(grid: TileGrid, px: int, py: int, t: Tile)
    requires
        grid.wf(),
        0 <= px < grid.width,
        0 <= py < grid.height,
    ensures
        0 <= px / (grid.tile_w as int) < grid.count_x(),
        0 <= py / (grid.tile_h as int) < grid.count_y(),
        grid.is_tile(px / (grid.tile_w as int), py / (grid.tile_h as int), t) ==> t.contains(
            px,
            py,
        ),
{
    lemma_position_in_step(grid.width as int, grid.tile_w as int, px);
    lemma_position_in_step(grid.height as int, grid.tile_h as int, py);
}

/// A position inside the extent lies in the clipped step `p / step`, and
/// that step is counted.
proof fn lemma_position_in_step(extent: int, step: int, p: int)
    requires
        0 < step,
        0 <= p < extent,
    ensures
        0 <= p / step < steps_to_cover(extent, step),
        (p / step) * step <= p < clipped_end(extent, step, p / step),
{
    lemma_steps_to_cover(extent, step);
    lemma_fundamental_div_mod(p, step);
    lemma_mod_bound(p, step);
    lemma_div_pos_is_pos(p, step);
    lemma_mul_is_commutative(step, p / step);
    let n = steps_to_cover(extent, step);
    if p / step >= n {
        lemma_mul_inequality(n, p / step, step);
    }
}

/// No pixel is covered twice: a tile that contains a pixel is the tile in
/// column `px / tile_w` and row `py / tile_h`.
pub proof fn lemma_pixel_has_one_tile(grid: TileGrid, col: int, row: int, t: Tile, px: int, py: int)
    requires
        grid.wf(),
        grid.is_tile(col, row, t),
        t.contains(px, py),
    ensures
        col == px / (grid.tile_w as int),
        row == py / (grid.tile_h as int),
{
    lemma_tile_within_image(grid, col, row, t);
    lemma_fundamental_div_mod_converse(px, grid.tile_w as int, col, px - col * grid.tile_w);
    lemma_fundamental_div_mod_converse(py, grid.tile_h as int, row, py - row * grid.tile_h);
}

/// Two different tiles of one grid share no pixel.
pub proof fn lemma_tiles_are_disjoint(
    grid: TileGrid,
    col_a: int,
    row_a: int,
    a: Tile,
    col_b: int,
    row_b: int,
    b: Tile,
    px: int,
    py: int,
)
    requires
        grid.wf(),
        grid.is_tile(col_a, row_a, a),
        grid.is_tile(col_b, row_b, b),
        (col_a, row_a) != (col_b, row_b),
    ensures
        !(a.contains(px, py) && b.contains(px, py)),
{
    if a.contains(px, py) && b.contains(px, py) {
        lemma_pixel_has_one_tile(grid, col_a, row_a, a, px, py);
        lemma_pixel_has_one_tile(grid, col_b, row_b, b, px, py);
    }
}

/// Numbering the tiles row by row reaches every tile exactly once: the tile
/// in column `col` and row `row` has number `row * count_x + col`, and no
/// other number below the tile count leads to it.
pub proof fn lemma_tile_numbering(grid: TileGrid, col: int, row: int)
    requires
        grid.wf(),
        0 <= col < grid.count_x(),
        0 <= row < grid.count_y(),
    ensures
        0 <= row * grid.count_x() + col < grid.count(),
        (row * grid.count_x() + col) % grid.count_x() == col,
        (row * grid.count_x() + col) / grid.count_x() == row,
{
    let nx = grid.count_x();
    let ny = grid.count_y();
    lemma_fundamental_div_mod_converse(row * nx + col, nx, row, col);
    lemma_mul_inequality(row, ny - 1, nx);
    lemma_mul_inequality(0, row, nx);
    assert((ny - 1) * nx == nx * ny - nx) by (nonlinear_arith);
}

} // verus!
