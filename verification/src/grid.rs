//! Binning of an image's pixels into the character cells of a grid.

use vstd::prelude::*;
use crate::palette::{Rgb, cell_averageable, cell_count, colors_input_ok, lemma_channel_sum_bounds};

verus! {

/// The cell (row, column) into which the pixel at position `i` of a row-major
/// image `width` pixels wide and `height` pixels high falls, on a grid of
/// `rows` x `cols` cells. Both coordinates are scaled from the pixel's own
/// position, so no rounding drift accumulates across the image.
pub open spec fn cell_of(i: int, width: int, height: int, cols: int, rows: int) -> (int, int) {
    (((i / width) * rows) / height, ((i % width) * cols) / width)
}

/// The pixels among the first `n` of `pixels` that fall into cell
/// (`row`, `col`), in the order in which they occur.
pub open spec fn cell_pixels(
    pixels: Seq<Rgb>,
    n: int,
    width: int,
    height: int,
    cols: int,
    rows: int,
    row: int,
    col: int,
) -> Seq<Rgb>
    decreases n,
{
    if n <= 0 {
        Seq::empty()
    } else {
        let before = cell_pixels(pixels, n - 1, width, height, cols, rows, row, col);
        if cell_of(n - 1, width, height, cols, rows) == (row, col) {
            before.push(pixels[n - 1])
        } else {
            before
        }
    }
}

/// The whole grid of `rows` x `cols` cells after the first `n` pixels have
/// been sorted into it.
pub open spec fn pixel_grid(
    pixels: Seq<Rgb>,
    n: int,
    width: int,
    height: int,
    cols: int,
    rows: int,
) -> Seq<Seq<Seq<Rgb>>> {
    Seq::new(
        rows as nat,
        |r: int| Seq::new(cols as nat, |c: int| cell_pixels(pixels, n, width, height, cols, rows, r, c)),
    )
}

/// The number of pixels held by a row of cells.
pub open spec fn row_size(row: Seq<Seq<Rgb>>) -> int
    decreases row.len(),
{
    if row.len() == 0 {
        0
    } else {
        row_size(row.drop_last()) + row.last().len()
    }
}

/// The number of pixels held by a grid of cells.
pub open spec fn grid_size(grid: Seq<Seq<Seq<Rgb>>>) -> int
    decreases grid.len(),
{
    if grid.len() == 0 {
        0
    } else {
        grid_size(grid.drop_last()) + row_size(grid.last())
    }
}

/// The products that locate the pixel at position `i` fit in a `usize`.
pub open spec fn cell_math_fits(i: int, width: int, cols: int, rows: int) -> bool {
    &&& (i % width) * cols <= usize::MAX
    &&& (i / width) * rows <= usize::MAX
}

/// The inputs that `build_boxes` takes: an image of `len` pixels that fits in
/// `width` x `height`, a grid with at least one cell where there are pixels,
/// and cell arithmetic that fits in a `usize`.
pub open spec fn boxes_input_ok(len: int, width: int, height: int, cols: int, rows: int) -> bool {
    &&& len > 0 ==> {
        &&& width > 0
        &&& height > 0
        &&& cols > 0
        &&& rows > 0
        &&& len <= width * height
    }
    &&& forall|i: int| 0 <= i < len ==> #[trigger] cell_math_fits(i, width, cols, rows)
}

/// Every pixel of an image that fits in `width` x `height` falls into a cell
/// of the grid.
pub proof fn lemma_cell_in_grid(i: int, width: int, height: int, cols: int, rows: int)
    requires
        0 <= i < width * height,
        width > 0,
        height > 0,
        cols > 0,
        rows > 0,
    ensures
        0 <= cell_of(i, width, height, cols, rows).0 < rows,
        0 <= cell_of(i, width, height, cols, rows).1 < cols,
{
    let x = i % width;
    let y = i / width;
    assert(0 <= y < height) by (nonlinear_arith)
        requires
            0 <= i < width * height,
            width > 0,
            y == i / width,
    ;
    assert(0 <= x < width);
    assert(0 <= (y * rows) / height < rows) by (nonlinear_arith)
        requires
            0 <= y < height,
            rows > 0,
    ;
    assert(0 <= (x * cols) / width < cols) by (nonlinear_arith)
        requires
            0 <= x < width,
            cols > 0,
    ;
}

/// Replacing one cell of a row changes the row's size by the difference in
/// the cell's size.
proof fn lemma_row_size_update(row: Seq<Seq<Rgb>>, c: int, cell: Seq<Rgb>)
    requires
        0 <= c < row.len(),
    ensures
        row_size(row.update(c, cell)) == row_size(row) - row[c].len() + cell.len(),
    decreases row.len(),
{
    let updated = row.update(c, cell);
    if c < row.len() - 1 {
        assert(updated.drop_last() =~= row.drop_last().update(c, cell));
        lemma_row_size_update(row.drop_last(), c, cell);
    } else {
        assert(updated.drop_last() =~= row.drop_last());
    }
}

/// Replacing one row of a grid changes the grid's size by the difference in
/// the row's size.
proof fn lemma_grid_size_update(grid: Seq<Seq<Seq<Rgb>>>, r: int, row: Seq<Seq<Rgb>>)
    requires
        0 <= r < grid.len(),
    ensures
        grid_size(grid.update(r, row)) == grid_size(grid) - row_size(grid[r]) + row_size(row),
    decreases grid.len(),
{
    let updated = grid.update(r, row);
    if r < grid.len() - 1 {
        assert(updated.drop_last() =~= grid.drop_last().update(r, row));
        lemma_grid_size_update(grid.drop_last(), r, row);
    } else {
        assert(updated.drop_last() =~= grid.drop_last());
    }
}

/// Every pixel of the image ends up in exactly one cell: the cells together
/// hold as many pixels as the image has.
pub proof fn lemma_every_pixel_binned(
    pixels: Seq<Rgb>,
    width: int,
    height: int,
    cols: int,
    rows: int,
)
    requires
        boxes_input_ok(pixels.len() as int, width, height, cols, rows),
        cols >= 0,
        rows >= 0,
    ensures
        grid_size(pixel_grid(pixels, pixels.len() as int, width, height, cols, rows)) == pixels.len(),
{
    lemma_prefix_binned(pixels, pixels.len() as int, width, height, cols, rows);
}

/// The first `n` pixels of the image are held by the grid, once each.
proof fn lemma_prefix_binned(
    pixels: Seq<Rgb>,
    n: int,
    width: int,
    height: int,
    cols: int,
    rows: int,
)
    requires
        0 <= n <= pixels.len(),
        boxes_input_ok(pixels.len() as int, width, height, cols, rows),
        cols >= 0,
        rows >= 0,
    ensures
        grid_size(pixel_grid(pixels, n, width, height, cols, rows)) == n,
    decreases n,
{
    let grid = pixel_grid(pixels, n, width, height, cols, rows);
    if n == 0 {
        lemma_empty_grid_size(grid);
    } else {
        lemma_prefix_binned(pixels, n - 1, width, height, cols, rows);
        let prev = pixel_grid(pixels, n - 1, width, height, cols, rows);
        lemma_cell_in_grid(n - 1, width, height, cols, rows);
        let (r0, c0) = cell_of(n - 1, width, height, cols, rows);
        let new_cell = prev[r0][c0].push(pixels[n - 1]);
        let new_row = prev[r0].update(c0, new_cell);
        assert(grid =~= prev.update(r0, new_row)) by {
            assert forall|r: int| 0 <= r < rows implies #[trigger] grid[r] =~= prev.update(r0, new_row)[r] by {
                assert forall|c: int| 0 <= c < cols implies #[trigger] grid[r][c] == prev.update(r0, new_row)[r][c] by {
                }
            }
        }
        lemma_row_size_update(prev[r0], c0, new_cell);
        lemma_grid_size_update(prev, r0, new_row);
    }
}

/// A grid whose cells are all empty holds no pixels.
proof fn lemma_empty_grid_size(grid: Seq<Seq<Seq<Rgb>>>)
    requires
        forall|r: int, c: int| 0 <= r < grid.len() && 0 <= c < grid[r].len() ==> #[trigger] grid[r][c].len() == 0,
    ensures
        grid_size(grid) == 0,
    decreases grid.len(),
{
    if grid.len() > 0 {
        lemma_empty_row_size(grid.last());
        lemma_empty_grid_size(grid.drop_last());
    }
}

/// A row whose cells are all empty holds no pixels.
proof fn lemma_empty_row_size(row: Seq<Seq<Rgb>>)
    requires
        forall|c: int| 0 <= c < row.len() ==> #[trigger] row[c].len() == 0,
    ensures
        row_size(row) == 0,
    decreases row.len(),
{
    if row.len() > 0 {
        lemma_empty_row_size(row.drop_last());
    }
}

/// The cells built from the first `k` pixels depend only on those pixels.
proof fn lemma_cell_pixels_use_prefix(
    pixels: Seq<Rgb>,
    other: Seq<Rgb>,
    k: int,
    width: int,
    height: int,
    cols: int,
    rows: int,
    row: int,
    col: int,
)
    requires
        0 <= k <= pixels.len(),
        0 <= k <= other.len(),
        forall|i: int| 0 <= i < k ==> pixels[i] == other[i],
    ensures
        cell_pixels(pixels, k, width, height, cols, rows, row, col) == cell_pixels(
            other, k, width, height, cols, rows, row, col),
    decreases k,
{
    if k > 0 {
        lemma_cell_pixels_use_prefix(pixels, other, k - 1, width, height, cols, rows, row, col);
    }
}

/// Sorting in more pixels only appends to each cell.
proof fn lemma_cell_pixels_grow(
    pixels: Seq<Rgb>,
    k: int,
    n: int,
    width: int,
    height: int,
    cols: int,
    rows: int,
    row: int,
    col: int,
)
    requires
        0 <= k <= n,
    ensures
        cell_pixels(pixels, k, width, height, cols, rows, row, col).is_prefix_of(
            cell_pixels(pixels, n, width, height, cols, rows, row, col),
        ),
    decreases n - k,
{
    if k < n {
        lemma_cell_pixels_grow(pixels, k, n - 1, width, height, cols, rows, row, col);
    }
}

/// Binning a prefix of the pixels gives a grid of the same shape whose every
/// cell is a prefix of the corresponding cell of the whole image's grid: more
/// pixels only append to cells.
pub proof fn lemma_prefix_binning(
    pixels: Seq<Rgb>,
    k: int,
    width: int,
    height: int,
    cols: int,
    rows: int,
)
    requires
        0 <= k <= pixels.len(),
        cols >= 0,
        rows >= 0,
    ensures
        ({
            let part = pixel_grid(pixels.take(k), k, width, height, cols, rows);
            let full = pixel_grid(pixels, pixels.len() as int, width, height, cols, rows);
            &&& part.len() == full.len() == rows
            &&& forall|r: int| 0 <= r < rows ==> #[trigger] part[r].len() == full[r].len() == cols
            &&& forall|r: int, c: int|
                0 <= r < rows && 0 <= c < cols ==> (#[trigger] part[r][c]).is_prefix_of(full[r][c])
        }),
{
    let part = pixel_grid(pixels.take(k), k, width, height, cols, rows);
    let full = pixel_grid(pixels, pixels.len() as int, width, height, cols, rows);
    assert forall|r: int, c: int| 0 <= r < rows && 0 <= c < cols implies (#[trigger] part[r][c]).is_prefix_of(
        full[r][c]) by {
        lemma_cell_pixels_use_prefix(pixels.take(k), pixels, k, width, height, cols, rows, r, c);
        lemma_cell_pixels_grow(pixels, k, pixels.len() as int, width, height, cols, rows, r, c);
    }
}

/// The number of positions `p` in `0..k` along one axis (`extent` positions
/// long, scaled onto `cells` cells) whose cell is `cell`.
pub open spec fn axis_hits(extent: int, cells: int, cell: int, k: int) -> int
    decreases k,
{
    if k <= 0 {
        0
    } else {
        axis_hits(extent, cells, cell, k - 1) + if ((k - 1) * cells) / extent == cell {
            1int
        } else {
            0int
        }
    }
}

/// `n / d` and `n % d` of `n == q * d + r`.
proof fn lemma_div_mod_of(n: int, d: int, q: int, r: int)
    requires
        d > 0,
        0 <= r < d,
        n == q * d + r,
    ensures
        n / d == q,
        n % d == r,
{
    vstd::arithmetic::div_mod::lemma_fundamental_div_mod_converse_div(n, d, q, r);
    vstd::arithmetic::div_mod::lemma_fundamental_div_mod_converse_mod(n, d, q, r);
}

/// In an image `width` pixels wide, the first `n` pixels put into cell
/// (`row`, `col`) the complete rows that fall into `row`, times the columns
/// that fall into `col`, plus the part of the current row.
proof fn lemma_cell_size_by_axes(
    pixels: Seq<Rgb>,
    n: int,
    width: int,
    height: int,
    cols: int,
    rows: int,
    row: int,
    col: int,
)
    requires
        0 <= n,
        width > 0,
    ensures
        cell_pixels(pixels, n, width, height, cols, rows, row, col).len() == axis_hits(height, rows, row, n / width)
            * axis_hits(width, cols, col, width) + if ((n / width) * rows) / height == row {
            axis_hits(width, cols, col, n % width)
        } else {
            0
        },
    decreases n,
{
    if n == 0 {
        lemma_div_mod_of(0, width, 0, 0);
    } else {
        let m = n - 1;
        lemma_cell_size_by_axes(pixels, m, width, height, cols, rows, row, col);
        let y = m / width;
        let x = m % width;
        vstd::arithmetic::div_mod::lemma_fundamental_div_mod(m, width);
        let rh = axis_hits(height, rows, row, y);
        let cw = axis_hits(width, cols, col, width);
        let in_row = (y * rows) / height == row;
        let in_col = (x * cols) / width == col;
        assert(cell_of(m, width, height, cols, rows) == ((y * rows) / height, (x * cols) / width));
        if x + 1 < width {
            assert(n == y * width + (x + 1)) by (nonlinear_arith)
                requires
                    m == width * y + x,
                    n == m + 1,
            ;
            lemma_div_mod_of(n, width, y, x + 1);
        } else {
            assert(n == (y + 1) * width + 0) by (nonlinear_arith)
                requires
                    m == width * y + x,
                    x + 1 == width,
                    n == m + 1,
            ;
            lemma_div_mod_of(n, width, y + 1, 0);
            assert(axis_hits(height, rows, row, y + 1) * cw == rh * cw + if in_row { cw } else { 0 }) by (nonlinear_arith)
                requires
                    axis_hits(height, rows, row, y + 1) == rh + if in_row { 1int } else { 0int },
            ;
        }
    }
}

/// `m / e == c` exactly when `c * e <= m < (c + 1) * e`.
proof fn lemma_floor_div_is(m: int, e: int, c: int)
    requires
        e > 0,
    ensures
        m / e == c <==> c * e <= m < (c + 1) * e,
{
    vstd::arithmetic::div_mod::lemma_fundamental_div_mod(m, e);
    let q = m / e;
    assert(q == c <==> c * e <= m < (c + 1) * e) by (nonlinear_arith)
        requires
            m == e * q + m % e,
            0 <= m % e < e,
            e > 0,
    ;
}

/// `x` is at least the rounded-up quotient of `a` by `d` exactly when
/// `x * d >= a`; and that quotient times `d` is less than `a + d`.
proof fn lemma_ceil_div_is(a: int, d: int, x: int)
    requires
        d > 0,
    ensures
        x >= (a + d - 1) / d <==> x * d >= a,
        ((a + d - 1) / d) * d >= a,
        ((a + d - 1) / d) * d < a + d,
{
    vstd::arithmetic::div_mod::lemma_fundamental_div_mod(a + d - 1, d);
    let q = (a + d - 1) / d;
    let r = (a + d - 1) % d;
    assert(x >= q <==> x * d >= a) by (nonlinear_arith)
        requires
            a + d - 1 == d * q + r,
            0 <= r < d,
            d > 0,
    ;
    assert(q * d >= a && q * d < a + d) by (nonlinear_arith)
        requires
            a + d - 1 == d * q + r,
            0 <= r < d,
            d > 0,
    ;
}

/// Along an axis of `extent` positions scaled onto `cells <= extent` cells,
/// the positions of cell `cell` are those from `lo` (inclusive) to `hi`
/// (exclusive), the rounded-up quotients of `cell * extent` and
/// `(cell + 1) * extent` by `cells`.
proof fn lemma_axis_interval(extent: int, cells: int, cell: int, p: int)
    requires
        0 < cells <= extent,
        0 <= cell < cells,
        0 <= p,
    ensures
        ((p * cells) / extent == cell) <==> ((cell * extent + cells - 1) / cells <= p < ((cell + 1) * extent + cells
            - 1) / cells),
{
    lemma_floor_div_is(p * cells, extent, cell);
    lemma_ceil_div_is(cell * extent, cells, p);
    lemma_ceil_div_is((cell + 1) * extent, cells, p);
}

/// The positions of one cell along an axis, counted over the first `k`.
proof fn lemma_axis_hits_count(extent: int, cells: int, cell: int, k: int, lo: int, hi: int)
    requires
        0 < cells <= extent,
        0 <= cell < cells,
        0 <= k,
        lo == (cell * extent + cells - 1) / cells,
        hi == ((cell + 1) * extent + cells - 1) / cells,
        0 <= lo <= hi,
    ensures
        axis_hits(extent, cells, cell, k) == if k <= lo {
            0
        } else if k <= hi {
            k - lo
        } else {
            hi - lo
        },
    decreases k,
{
    if k > 0 {
        lemma_axis_hits_count(extent, cells, cell, k - 1, lo, hi);
        lemma_axis_interval(extent, cells, cell, k - 1);
    }
}

/// Along an axis with at least as many positions as cells, every cell gets at
/// least one position and at most `extent / cells + 1`.
proof fn lemma_axis_hits_bounds(extent: int, cells: int, cell: int)
    requires
        0 < cells <= extent,
        0 <= cell < cells,
    ensures
        1 <= axis_hits(extent, cells, cell, extent) <= extent / cells + 1,
{
    let lo = (cell * extent + cells - 1) / cells;
    let hi = ((cell + 1) * extent + cells - 1) / cells;
    lemma_ceil_div_is(cell * extent, cells, lo);
    lemma_ceil_div_is((cell + 1) * extent, cells, extent);
    lemma_ceil_div_is((cell + 1) * extent, cells, lo);
    assert(0 <= cell * extent) by (nonlinear_arith)
        requires
            0 <= cell,
            0 < extent,
    ;
    assert(lo >= 0) by (nonlinear_arith)
        requires
            lo * cells >= cell * extent,
            0 <= cell * extent,
            cells > 0,
    ;
    assert((cell + 1) * extent <= extent * cells) by (nonlinear_arith)
        requires
            cell + 1 <= cells,
            0 < extent,
    ;
    assert(lo * cells < (cell + 1) * extent) by (nonlinear_arith)
        requires
            lo * cells < cell * extent + cells,
            cells <= extent,
    ;
    assert(hi <= extent);
    assert(lo < hi);
    lemma_axis_hits_count(extent, cells, cell, extent, lo, hi);
    vstd::arithmetic::div_mod::lemma_fundamental_div_mod(extent, cells);
    assert(hi - lo <= extent / cells + 1) by (nonlinear_arith)
        requires
            hi * cells < (cell + 1) * extent + cells,
            lo * cells >= cell * extent,
            extent == cells * (extent / cells) + extent % cells,
            0 <= extent % cells < cells,
            cells > 0,
    ;
}

/// On a full image (`width * height` pixels) sorted onto a grid no larger than
/// the image (`1 <= cols <= width`, `1 <= rows <= height`), every cell holds at
/// least one pixel and at most `(width / cols + 1) * (height / rows + 1)`.
pub proof fn lemma_full_image_cell_sizes(pixels: Seq<Rgb>, width: int, height: int, cols: int, rows: int)
    requires
        pixels.len() == width * height,
        1 <= cols <= width,
        1 <= rows <= height,
    ensures
        forall|r: int, c: int|
            0 <= r < rows && 0 <= c < cols ==> 1 <= (#[trigger] cell_pixels(
                pixels,
                width * height,
                width,
                height,
                cols,
                rows,
                r,
                c,
            )).len() <= (width / cols + 1) * (height / rows + 1),
{
    assert forall|r: int, c: int| 0 <= r < rows && 0 <= c < cols implies 1 <= (#[trigger] cell_pixels(
        pixels,
        width * height,
        width,
        height,
        cols,
        rows,
        r,
        c,
    )).len() <= (width / cols + 1) * (height / rows + 1) by {
        assert(width * height >= 0) by (nonlinear_arith)
            requires
                width > 0,
                height > 0,
        ;
        lemma_cell_size_by_axes(pixels, width * height, width, height, cols, rows, r, c);
        assert(width * height == height * width + 0) by (nonlinear_arith);
        lemma_div_mod_of(width * height, width, height, 0);
        let rh = axis_hits(height, rows, r, height);
        let cw = axis_hits(width, cols, c, width);
        assert(axis_hits(width, cols, c, 0) == 0);
        lemma_axis_hits_bounds(height, rows, r);
        lemma_axis_hits_bounds(width, cols, c);
        assert(1 <= rh * cw <= (width / cols + 1) * (height / rows + 1)) by (nonlinear_arith)
            requires
                1 <= rh <= height / rows + 1,
                1 <= cw <= width / cols + 1,
        ;
    }
}

/// On a full image sorted onto a grid no larger than the image, with cells of
/// at most 16843009 pixels (so that 255 per pixel fits a `u32`), the grid
/// meets what `pick_colors` takes: colour picking never fails on it.
pub proof fn lemma_full_image_colorable(pixels: Seq<Rgb>, width: int, height: int, cols: int, rows: int)
    requires
        pixels.len() == width * height,
        1 <= cols <= width,
        1 <= rows <= height,
        (width / cols + 1) * (height / rows + 1) <= 16843009,
    ensures
        colors_input_ok(pixel_grid(pixels, width * height, width, height, cols, rows)),
{
    let grid = pixel_grid(pixels, width * height, width, height, cols, rows);
    lemma_full_image_cell_sizes(pixels, width, height, cols, rows);
    assert forall|y: int, x: int| 0 <= y < grid.len() && 0 <= x < grid[y].len() implies #[trigger] cell_averageable(
        grid[y][x]) by {
        let cell = grid[y][x];
        assert(cell == cell_pixels(pixels, width * height, width, height, cols, rows, y, x));
        assert(1 <= cell.len() <= 16843009);
        assert(cell_count(cell) == cell.len());
        lemma_channel_sum_bounds(cell, 0, 0);
        lemma_channel_sum_bounds(cell, 0, 1);
        lemma_channel_sum_bounds(cell, 0, 2);
    }
}

/// The cell of the pixel in column `x = i % width` and row `y = i / width` is
/// the cell whose share of the image holds it: row `r` with
/// `r * height <= y * rows < (r + 1) * height` and column `c` with
/// `c * width <= x * cols < (c + 1) * width`.
pub proof fn lemma_cell_of_scales(i: int, width: int, height: int, cols: int, rows: int)
    requires
        0 <= i,
        width > 0,
        height > 0,
    ensures
        ({
            let (r, c) = cell_of(i, width, height, cols, rows);
            let x = i % width;
            let y = i / width;
            &&& r * height <= y * rows < (r + 1) * height
            &&& c * width <= x * cols < (c + 1) * width
        }),
{
    let (r, c) = cell_of(i, width, height, cols, rows);
    let x = i % width;
    let y = i / width;
    lemma_floor_div_is(y * rows, height, r);
    lemma_floor_div_is(x * cols, width, c);
}

/// Every one of the first `n` pixels is among the pixels of its own cell, and
/// a cell holds only pixels whose cell it is.
pub proof fn lemma_pixel_in_its_cell(
    pixels: Seq<Rgb>,
    n: int,
    width: int,
    height: int,
    cols: int,
    rows: int,
)
    requires
        0 <= n <= pixels.len(),
    ensures
        forall|i: int|
            0 <= i < n ==> {
                let (r, c) = #[trigger] cell_of(i, width, height, cols, rows);
                cell_pixels(pixels, n, width, height, cols, rows, r, c).contains(pixels[i])
            },
        forall|r: int, c: int, p: Rgb|
            #[trigger] cell_pixels(pixels, n, width, height, cols, rows, r, c).contains(p) ==> exists|i: int|
                0 <= i < n && pixels[i] == p && #[trigger] cell_of(i, width, height, cols, rows) == (r, c),
    decreases n,
{
    if n > 0 {
        lemma_pixel_in_its_cell(pixels, n - 1, width, height, cols, rows);
        assert forall|i: int| 0 <= i < n implies {
            let (r, c) = #[trigger] cell_of(i, width, height, cols, rows);
            cell_pixels(pixels, n, width, height, cols, rows, r, c).contains(pixels[i])
        } by {
            let (r, c) = cell_of(i, width, height, cols, rows);
            let before = cell_pixels(pixels, n - 1, width, height, cols, rows, r, c);
            if i < n - 1 {
                assert(before.contains(pixels[i]));
                let j = choose|j: int| 0 <= j < before.len() && before[j] == pixels[i];
                if cell_of(n - 1, width, height, cols, rows) == (r, c) {
                    assert(before.push(pixels[n - 1])[j] == pixels[i]);
                }
            } else {
                let after = before.push(pixels[n - 1]);
                assert(after[after.len() - 1] == pixels[i]);
            }
        }
        assert forall|r: int, c: int, p: Rgb|
            #[trigger] cell_pixels(pixels, n, width, height, cols, rows, r, c).contains(p) implies exists|i: int|
                0 <= i < n && pixels[i] == p && #[trigger] cell_of(i, width, height, cols, rows) == (r, c) by {
            let before = cell_pixels(pixels, n - 1, width, height, cols, rows, r, c);
            let all = cell_pixels(pixels, n, width, height, cols, rows, r, c);
            let j = choose|j: int| 0 <= j < all.len() && all[j] == p;
            if j < before.len() {
                assert(before[j] == p);
                assert(before.contains(p));
            } else {
                assert(cell_of(n - 1, width, height, cols, rows) == (r, c));
                assert(pixels[n - 1] == p);
            }
        }
    }
}

/// Sorts every pixel of a row-major image into the character cell it falls in:
/// `boxes[row][col]` holds, in order, every pixel whose cell is (`row`, `col`).
pub fn build_boxes(
    all_triplets: &Vec<Rgb>,
    total_width: usize,
    total_height: usize,
    cols: usize,
    total_rows: usize,
) -> (boxes: Vec<Vec<Vec<Rgb>>>)
    requires
        boxes_input_ok(all_triplets.len() as int, total_width as int, total_height as int, cols as int, total_rows as int),
    ensures
        boxes@.len() == total_rows,
        forall|r: int| 0 <= r < total_rows ==> #[trigger] boxes@[r]@.len() == cols,
        forall|r: int, c: int|
            0 <= r < total_rows && 0 <= c < cols ==> #[trigger] boxes@[r]@[c]@ == cell_pixels(
                all_triplets@,
                all_triplets.len() as int,
                total_width as int,
                total_height as int,
                cols as int,
                total_rows as int,
                r,
                c,
            ),
        boxes.deep_view() == pixel_grid(
            all_triplets@,
            all_triplets.len() as int,
            total_width as int,
            total_height as int,
            cols as int,
            total_rows as int,
        ),
        grid_size(boxes.deep_view()) == all_triplets.len(),
{
    let ghost pixels = all_triplets@;
    let ghost w = total_width as int;
    let ghost h = total_height as int;
    let ghost gc = cols as int;
    let ghost gr = total_rows as int;

    let mut boxes: Vec<Vec<Vec<Rgb>>> = Vec::new();
    let mut r: usize = 0;
    while r < total_rows
        invariant
            r <= total_rows,
            boxes@.len() == r,
            forall|k: int| 0 <= k < r ==> #[trigger] boxes@[k]@.len() == cols,
            forall|k: int, c: int| 0 <= k < r && 0 <= c < cols ==> #[trigger] boxes@[k]@[c]@ == Seq::<Rgb>::empty(),
        decreases total_rows - r,
    {
        let mut row: Vec<Vec<Rgb>> = Vec::new();
        let mut c: usize = 0;
        while c < cols
            invariant
                c <= cols,
                row@.len() == c,
                forall|j: int| 0 <= j < c ==> #[trigger] row@[j]@ == Seq::<Rgb>::empty(),
            decreases cols - c,
        {
            row.push(Vec::new());
            c = c + 1;
        }
        boxes.push(row);
        r = r + 1;
    }

    let n = all_triplets.len();
    let mut i: usize = 0;
    while i < n
        invariant
            n == all_triplets.len(),
            pixels == all_triplets@,
            w == total_width,
            h == total_height,
            gc == cols,
            gr == total_rows,
            boxes_input_ok(n as int, w, h, gc, gr),
            i <= n,
            boxes@.len() == total_rows,
            forall|k: int| 0 <= k < total_rows ==> #[trigger] boxes@[k]@.len() == cols,
            forall|k: int, c: int|
                0 <= k < total_rows && 0 <= c < cols ==> #[trigger] boxes@[k]@[c]@ == cell_pixels(
                    pixels, i as int, w, h, gc, gr, k, c),
        decreases n - i,
    {
        let triplet = all_triplets[i];
        assert(cell_math_fits(i as int, w, gc, gr));
        proof {
            lemma_cell_in_grid(i as int, w, h, gc, gr);
        }
        let x = i % total_width;
        let y = i / total_width;
        let cell_x = (x * cols) / total_width;
        let cell_y = (y * total_rows) / total_height;
        let ghost before = boxes@;
        boxes[cell_y][cell_x].push(triplet);
        assert forall|k: int, c: int|
            0 <= k < total_rows && 0 <= c < cols implies #[trigger] boxes@[k]@[c]@ == cell_pixels(
                pixels, i + 1, w, h, gc, gr, k, c)
        by {
            if k == cell_y as int && c == cell_x as int {
            } else if k == cell_y as int {
                assert(boxes@[k]@[c] == before[k]@[c]);
            } else {
                assert(boxes@[k] == before[k]);
            }
        }
        i = i + 1;
    }
    proof {
        let grid = pixel_grid(pixels, n as int, w, h, gc, gr);
        let dv = boxes.deep_view();
        assert(dv =~= grid) by {
            assert forall|k: int| 0 <= k < total_rows implies #[trigger] dv[k] =~= grid[k] by {
                assert forall|c: int| 0 <= c < cols implies #[trigger] dv[k][c] =~= grid[k][c] by {
                    assert(dv[k][c] =~= boxes@[k]@[c]@);
                }
            }
        }
        lemma_every_pixel_binned(pixels, w, h, gc, gr);
    }
    boxes
}

} // verus!
