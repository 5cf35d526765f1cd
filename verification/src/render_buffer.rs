//! The framebuffer: one cell per pixel, kept row by row in one allocation.

use crate::tile::{
    lemma_offsets_number_the_pixels,
    lemma_tile_within_image,
    lemma_tiles_are_disjoint,
    Tile,
    TileGrid,
};
use vstd::prelude::*;

verus! {

/// What a [`RenderBuffer`] holds, as a mathematical value: the image size
/// and the cells, row after row.
pub struct Raster<T> {
    pub width: nat,
    pub height: nat,
    pub cells: Seq<T>,
}

/// The place of the cell for column `x` of row `y` in a buffer of the given
/// width.
pub open spec fn cell_index(width: int, x: int, y: int) -> int {
    y * width + x
}

impl<T> Raster<T> {
    /// There is exactly one cell per pixel.
    pub open spec fn wf(self) -> bool {
        self.cells.len() == self.width * self.height
    }

    /// The cell for column `x` of row `y`.
    pub open spec fn pixel(self, x: int, y: int) -> T {
        self.cells[cell_index(self.width as int, x, y)]
    }

    /// This raster with the cell for column `x` of row `y` replaced.
    pub open spec fn with_pixel(self, x: int, y: int, value: T) -> Self {
        Raster { cells: self.cells.update(cell_index(self.width as int, x, y), value), ..self }
    }

    /// Whether `after` is this raster with the pixels of `tile` stored in
    /// it. `colors` lists the tile's pixels row by row; a tile counts its
    /// rows from the bottom of the picture, so the pixel of tile row `y` is
    /// found in the flipped row. Every cell outside the tile is as before.
    pub open spec fn tile_stored(self, after: Self, tile: Tile, colors: Seq<T>) -> bool {
        &&& after.wf()
        &&& after.width == self.width
        &&& after.height == self.height
        &&& forall|x: int, y: int| #[trigger]
            tile.contains(x, y) ==> after.pixel(x, flipped(self.height as int, y))
                == colors[tile.offset_of(x, y)]
        &&& forall|x: int, row: int|
            0 <= x < self.width && 0 <= row < self.height && !tile.contains(
                x,
                flipped(self.height as int, row),
            ) ==> #[trigger] after.pixel(x, row) == self.pixel(x, row)
    }
}

/// A buffer of `w` by `h` cells, allocated once and addressed by column and
/// row.
pub struct RenderBuffer<T> {
    buffer: Vec<T>,
    w: u32,
    h: u32,
}

impl<T> View for RenderBuffer<T> {
    type V = Raster<T>;

    closed spec fn view(&self) -> Raster<T> {
        Raster { width: self.w as nat, height: self.h as nat, cells: self.buffer@ }
    }
}

impl<T: Copy> RenderBuffer<T> {
    /// A buffer of `w` by `h` cells, each holding `fill`; `None` when the
    /// number of cells is beyond what the machine can address.
    pub fn new(w: u32, h: u32, fill: T) -> (out: Option<Self>)
        ensures
            out is Some <==> w * h <= usize::MAX,
            out matches Some(buffer) ==> {
                &&& buffer@.width == w
                &&& buffer@.height == h
                &&& buffer@.wf()
                &&& forall|i: int| 0 <= i < w * h ==> buffer@.cells[i] == fill
            },
    {
        assert(w * h <= 0xffff_ffff * 0xffff_ffff) by (nonlinear_arith)
            requires
                0 <= w <= 0xffff_ffff,
                0 <= h <= 0xffff_ffff,
        ;
        let cells: u64 = (w as u64) * (h as u64);
        if cells > usize::MAX as u64 {
            return None;
        }
        let n: usize = cells as usize;
        let mut buffer: Vec<T> = Vec::new();
        let mut i: usize = 0;
        while i < n
            invariant
                i <= n,
                buffer@.len() == i,
                forall|j: int| 0 <= j < i ==> buffer@[j] == fill,
            decreases n - i,
        {
            buffer.push(fill);
            i += 1;
        }
        Some(RenderBuffer { buffer, w, h })
    }

    /// The number of columns.
    pub fn width(&self) -> (w: u32)
        ensures
            w == self@.width,
    {
        self.w
    }

    /// The number of rows.
    pub fn height(&self) -> (h: u32)
        ensures
            h == self@.height,
    {
        self.h
    }

    /// The value in column `x` of row `y`.
    pub fn get_pixel_color(&self, x: u32, y: u32) -> (color: T)
        requires
            self@.wf(),
            x < self@.width,
            y < self@.height,
        ensures
            color == self@.pixel(x as int, y as int),
    {
        proof {
            lemma_cell_index_in_range(self.w as int, self.h as int, x as int, y as int);
            assert(self.buffer@.len() == self.buffer.len() <= usize::MAX);
        }
        self.buffer[y as usize * self.w as usize + x as usize]
    }

    /// Stores `color` in column `x` of row `y` and leaves every other cell
    /// as it was.
    pub fn write_color(&mut self, x: u32, y: u32, color: T)
        requires
            old(self)@.wf(),
            x < old(self)@.width,
            y < old(self)@.height,
        ensures
            final(self)@ == old(self)@.with_pixel(x as int, y as int, color),
            final(self)@.wf(),
    {
        proof {
            lemma_cell_index_in_range(self.w as int, self.h as int, x as int, y as int);
            assert(self.buffer@.len() == self.buffer.len() <= usize::MAX);
        }
        let index: usize = y as usize * self.w as usize + x as usize;
        self.buffer.set(index, color);
    }

    /// Stores the pixels of a finished tile. `colors` lists them row by row;
    /// tiles count their rows from the bottom of the picture, so each row is
    /// flipped on the way in. Cells outside the tile stay as they were.
    pub fn write_tile(&mut self, tile: Tile, colors: &Vec<T>)
        requires
            old(self)@.wf(),
            tile.x <= tile.x2 <= old(self)@.width,
            tile.y <= tile.y2 <= old(self)@.height,
            colors@.len() == tile.area(),
        ensures
            old(self)@.tile_stored(final(self)@, tile, colors@),
    {
        let ghost before = self@;
        let mut k: usize = 0;
        let mut y: u32 = tile.y;
        while y < tile.y2
            invariant
                tile.x <= tile.x2 <= before.width,
                tile.y <= y <= tile.y2 <= before.height,
                colors@.len() == tile.area(),
                before.wf(),
                k == tile.offset_of(tile.x as int, y as int),
                partly_stored(before, self@, tile, colors@, tile.x as int, y as int),
            decreases tile.y2 - y,
        {
            let row: u32 = self.h - 1 - y;
            let mut x: u32 = tile.x;
            while x < tile.x2
                invariant
                    tile.x <= x <= tile.x2 <= before.width,
                    tile.y <= y < tile.y2 <= before.height,
                    colors@.len() == tile.area(),
                    before.wf(),
                    row == flipped(before.height as int, y as int),
                    k == tile.offset_of(x as int, y as int),
                    partly_stored(before, self@, tile, colors@, x as int, y as int),
                decreases tile.x2 - x,
            {
                proof {
                    lemma_offsets_number_the_pixels(tile, x as int, y as int, x as int, y as int);
                    assert(colors@.len() == colors.len() <= usize::MAX);
                    lemma_one_more_stored(before, self@, tile, colors@, x as int, y as int);
                }
                self.write_color(x, row, colors[k]);
                k += 1;
                x += 1;
            }
            proof {
                lemma_row_stored(before, self@, tile, colors@, y as int);
            }
            y += 1;
        }
    }

    /// The row of the buffer that holds row `y` of the scene, counted from
    /// the bottom: the buffer keeps the topmost row first.
    pub fn flipped_row(&self, y: u32) -> (row: u32)
        requires
            y < self@.height,
        ensures
            row == flipped(self@.height as int, y as int),
            row < self@.height,
    {
        self.h - 1 - y
    }
}

/// Whether the pixel in column `px` and row `py` of `tile` is stored before
/// the one in column `x` of row `y`, when rows are stored from the first to
/// the last and each row from its first column.
spec fn comes_before(tile: Tile, px: int, py: int, x: int, y: int) -> bool {
    tile.contains(px, py) && (py < y || (py == y && px < x))
}

/// Whether `now` is `before` with the pixels of `tile` stored up to, but not
/// including, column `x` of row `y`.
spec fn partly_stored<T>(
    before: Raster<T>,
    now: Raster<T>,
    tile: Tile,
    colors: Seq<T>,
    x: int,
    y: int,
) -> bool {
    &&& now.wf()
    &&& now.width == before.width
    &&& now.height == before.height
    &&& forall|px: int, py: int| #[trigger]
        comes_before(tile, px, py, x, y) ==> now.pixel(px, flipped(before.height as int, py))
            == colors[tile.offset_of(px, py)]
    &&& forall|px: int, row: int|
        0 <= px < before.width && 0 <= row < before.height && !comes_before(
            tile,
            px,
            flipped(before.height as int, row),
            x,
            y,
        ) ==> #[trigger] now.pixel(px, row) == before.pixel(px, row)
}

/// Storing the pixel in column `x` of row `y` carries a partly stored tile
/// one pixel further.
proof fn lemma_one_more_stored<T>(
    before: Raster<T>,
    now: Raster<T>,
    tile: Tile,
    colors: Seq<T>,
    x: int,
    y: int,
)
    requires
        before.wf(),
        tile.x2 <= before.width,
        tile.y2 <= before.height,
        tile.contains(x, y),
        partly_stored(before, now, tile, colors, x, y),
    ensures
        partly_stored(
            before,
            now.with_pixel(x, flipped(before.height as int, y), colors[tile.offset_of(x, y)]),
            tile,
            colors,
            x + 1,
            y,
        ),
{
    let h = before.height as int;
    let row = flipped(h, y);
    let color = colors[tile.offset_of(x, y)];
    let next = now.with_pixel(x, row, color);
    assert forall|px: int, py: int| #[trigger] comes_before(tile, px, py, x + 1, y) implies
        next.pixel(px, flipped(h, py)) == colors[tile.offset_of(px, py)] by {
        lemma_write_then_read(now, x, row, color, px, flipped(h, py));
        if !(px == x && py == y) {
            assert(comes_before(tile, px, py, x, y));
        }
    }
    assert forall|px: int, prow: int|
        0 <= px < before.width && 0 <= prow < h && !comes_before(
            tile,
            px,
            flipped(h, prow),
            x + 1,
            y,
        ) implies #[trigger] next.pixel(px, prow) == before.pixel(px, prow) by {
        lemma_write_then_read(now, x, row, color, px, prow);
        assert(!comes_before(tile, px, flipped(h, prow), x, y));
        assert(now.pixel(px, prow) == before.pixel(px, prow));
    }
    lemma_write_then_read(now, x, row, color, x, row);
}

/// A tile stored up to the end of row `y` is stored up to the start of the
/// next row.
proof fn lemma_row_stored<T>(before: Raster<T>, now: Raster<T>, tile: Tile, colors: Seq<T>, y: int)
    requires
        tile.x <= tile.x2,
        partly_stored(before, now, tile, colors, tile.x2 as int, y),
    ensures
        partly_stored(before, now, tile, colors, tile.x as int, y + 1),
        tile.offset_of(tile.x2 as int, y) == tile.offset_of(tile.x as int, y + 1),
{
    let h = before.height as int;
    assert forall|px: int, py: int| #[trigger]
        comes_before(tile, px, py, tile.x as int, y + 1) implies now.pixel(px, flipped(h, py))
        == colors[tile.offset_of(px, py)] by {
        assert(comes_before(tile, px, py, tile.x2 as int, y));
    }
    assert forall|px: int, prow: int|
        0 <= px < before.width && 0 <= prow < h && !comes_before(
            tile,
            px,
            flipped(h, prow),
            tile.x as int,
            y + 1,
        ) implies #[trigger] now.pixel(px, prow) == before.pixel(px, prow) by {
        assert(!comes_before(tile, px, flipped(h, prow), tile.x2 as int, y));
    }
    assert(tile.offset_of(tile.x2 as int, y) == tile.offset_of(tile.x as int, y + 1))
        by (nonlinear_arith);
}

/// Row `y` counted from the other end of `height` rows.
pub open spec fn flipped(height: int, y: int) -> int {
    height - 1 - y
}

/// The cell of a pixel inside the image lies inside the buffer.
pub proof fn lemma_cell_index_in_range(width: int, height: int, x: int, y: int)
    requires
        0 <= x < width,
        0 <= y < height,
    ensures
        0 <= cell_index(width, x, y) < width * height,
{
    assert(y * width + x < width * height) by (nonlinear_arith)
        requires
            0 <= x < width,
            0 <= y < height,
    ;
    assert(0 <= y * width) by (nonlinear_arith)
        requires
            0 <= width,
            0 <= y,
    ;
}

/// Different pixels have different cells.
pub proof fn lemma_cell_index_injective(width: int, xa: int, ya: int, xb: int, yb: int)
    requires
        0 <= xa < width,
        0 <= xb < width,
        cell_index(width, xa, ya) == cell_index(width, xb, yb),
    ensures
        xa == xb,
        ya == yb,
{
    assert(ya == yb) by (nonlinear_arith)
        requires
            0 <= xa < width,
            0 <= xb < width,
            ya * width + xa == yb * width + xb,
    ;
}

/// Counting rows from the other end twice gives the row back, and stays
/// inside the image.
pub proof fn lemma_flipped_twice(height: int, y: int)
    requires
        0 <= y < height,
    ensures
        0 <= flipped(height, y) < height,
        flipped(height, flipped(height, y)) == y,
{
}

/// A write changes the cell it names and no other: reading any pixel after
/// a write gives the written value at the written place and the old value
/// everywhere else.
pub proof fn lemma_write_then_read<T>(raster: Raster<T>, x: int, y: int, value: T, rx: int, ry: int)
    requires
        raster.wf(),
        0 <= x < raster.width,
        0 <= y < raster.height,
        0 <= rx < raster.width,
        0 <= ry < raster.height,
    ensures
        raster.with_pixel(x, y, value).wf(),
        raster.with_pixel(x, y, value).pixel(rx, ry) == if rx == x && ry == y {
            value
        } else {
            raster.pixel(rx, ry)
        },
{
    lemma_cell_index_in_range(raster.width as int, raster.height as int, x, y);
    lemma_cell_index_in_range(raster.width as int, raster.height as int, rx, ry);
    if cell_index(raster.width as int, x, y) == cell_index(raster.width as int, rx, ry) {
        lemma_cell_index_injective(raster.width as int, x, y, rx, ry);
    }
}

/// Writes to different pixels commute, so tasks that write different pixels
/// may run in any order.
pub proof fn lemma_writes_commute<T>(
    raster: Raster<T>,
    xa: int,
    ya: int,
    a: T,
    xb: int,
    yb: int,
    b: T,
)
    requires
        raster.wf(),
        0 <= xa < raster.width,
        0 <= ya < raster.height,
        0 <= xb < raster.width,
        0 <= yb < raster.height,
        (xa, ya) != (xb, yb),
    ensures
        raster.with_pixel(xa, ya, a).with_pixel(xb, yb, b) == raster.with_pixel(
            xb,
            yb,
            b,
        ).with_pixel(xa, ya, a),
{
    lemma_cell_index_in_range(raster.width as int, raster.height as int, xa, ya);
    lemma_cell_index_in_range(raster.width as int, raster.height as int, xb, yb);
    if cell_index(raster.width as int, xa, ya) == cell_index(raster.width as int, xb, yb) {
        lemma_cell_index_injective(raster.width as int, xa, ya, xb, yb);
    }
    assert(raster.with_pixel(xa, ya, a).with_pixel(xb, yb, b).cells =~= raster.with_pixel(
        xb,
        yb,
        b,
    ).with_pixel(xa, ya, a).cells);
}

/// Tasks for different tiles never write the same cell. A task writes the
/// pixel in column `x` and scene row `y` of its tile to column `x` of the
/// flipped row; for two different tiles of one grid those cells differ, and
/// each lies inside the buffer. So the tasks may share the buffer without a
/// lock on its cells.
pub proof fn lemma_tiles_write_different_cells(
    grid: TileGrid,
    col_a: int,
    row_a: int,
    a: Tile,
    col_b: int,
    row_b: int,
    b: Tile,
    xa: int,
    ya: int,
    xb: int,
    yb: int,
)
    requires
        grid.wf(),
        grid.is_tile(col_a, row_a, a),
        grid.is_tile(col_b, row_b, b),
        (col_a, row_a) != (col_b, row_b),
        a.contains(xa, ya),
        b.contains(xb, yb),
    ensures
        0 <= cell_index(grid.width as int, xa, flipped(grid.height as int, ya)) < grid.width
            * grid.height,
        0 <= cell_index(grid.width as int, xb, flipped(grid.height as int, yb)) < grid.width
            * grid.height,
        cell_index(grid.width as int, xa, flipped(grid.height as int, ya)) != cell_index(
            grid.width as int,
            xb,
            flipped(grid.height as int, yb),
        ),
{
    let w = grid.width as int;
    let h = grid.height as int;
    lemma_tile_within_image(grid, col_a, row_a, a);
    lemma_tile_within_image(grid, col_b, row_b, b);
    lemma_cell_index_in_range(w, h, xa, flipped(h, ya));
    lemma_cell_index_in_range(w, h, xb, flipped(h, yb));
    if cell_index(w, xa, flipped(h, ya)) == cell_index(w, xb, flipped(h, yb)) {
        lemma_cell_index_injective(w, xa, flipped(h, ya), xb, flipped(h, yb));
        lemma_tiles_are_disjoint(grid, col_a, row_a, a, col_b, row_b, b, xa, ya);
    }
}

/// A finished tile is never overwritten by another tile's task: after the
/// pixels of tile `a` and then those of a different tile `b` of the same
/// grid have been stored, every pixel of `a` still shows what `a` stored.
/// So the picture does not depend on the order in which the tasks end.
pub proof fn lemma_later_tile_keeps_earlier<T>(
    grid: TileGrid,
    col_a: int,
    row_a: int,
    a: Tile,
    col_b: int,
    row_b: int,
    b: Tile,
    start: Raster<T>,
    colors_a: Seq<T>,
    middle: Raster<T>,
    colors_b: Seq<T>,
    end: Raster<T>,
    x: int,
    y: int,
)
    requires
        grid.wf(),
        grid.is_tile(col_a, row_a, a),
        grid.is_tile(col_b, row_b, b),
        (col_a, row_a) != (col_b, row_b),
        start.width == grid.width,
        start.height == grid.height,
        start.tile_stored(middle, a, colors_a),
        middle.tile_stored(end, b, colors_b),
        a.contains(x, y),
    ensures
        end.pixel(x, flipped(grid.height as int, y)) == colors_a[a.offset_of(x, y)],
{
    let h = grid.height as int;
    lemma_tile_within_image(grid, col_a, row_a, a);
    lemma_tiles_are_disjoint(grid, col_a, row_a, a, col_b, row_b, b, x, y);
    lemma_flipped_twice(h, y);
    assert(!b.contains(x, flipped(h, flipped(h, y))));
    assert(end.pixel(x, flipped(h, y)) == middle.pixel(x, flipped(h, y)));
}

} // verus!
