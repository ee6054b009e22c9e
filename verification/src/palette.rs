//! Colour arithmetic of one character cell: the average colour of its pixels,
//! its xterm-256 palette index, the colour that index stands for, and its glyph.

use vstd::prelude::*;

verus! {

/// One pixel: red, green and blue channels.
pub type Rgb = (u8, u8, u8);

/// The brightness level (0..=5) of one 0..=255 channel in the 6x6x6 colour cube.
pub open spec fn channel_step(v: int) -> int {
    v / 51
}

/// The xterm-256 palette index of a colour: the cube starts at index 16 and is
/// flattened red-major, then green, then blue.
pub open spec fn spec_palette_index(c: Rgb) -> int {
    16 + channel_step(c.0 as int) * 36 + channel_step(c.1 as int) * 6 + channel_step(c.2 as int)
}

/// The colour that a palette index at or above 16 stands for in the cube, each
/// channel computed in `u32` and narrowed to `u8` (indices above 231 lie
/// outside the cube and wrap).
pub open spec fn spec_palette_rgb(index: u8) -> Rgb {
    let code = index - 16;
    (
        ((code / 36) * 51) as u8,
        (((code % 36) / 6) * 51) as u8,
        ((code % 6) * 51) as u8,
    )
}

/// Quantises a colour into the xterm-256 palette.
pub fn palette_index(c: Rgb) -> (index: u8)
    ensures
        index == spec_palette_index(c),
        16 <= index <= 231,
{
    let r_step = c.0 / 51;
    let g_step = c.1 / 51;
    let b_step = c.2 / 51;
    16 + (r_step * 36) + (g_step * 6) + b_step
}

/// Converts an xterm-256 palette index back into the colour it stands for.
pub fn palette_index_to_rgb(index: u8) -> (rgb: Rgb)
    requires
        index >= 16,
    ensures
        rgb == spec_palette_rgb(index),
{
    let code = (index as u32) - 16;
    let r_step = code / 36;
    let g_step = (code % 36) / 6;
    let b_step = code % 6;
    ((r_step * 51) as u8, (g_step * 51) as u8, (b_step * 51) as u8)
}

/// Every index of the colour cube is given back by quantising the colour it
/// stands for.
pub proof fn lemma_palette_index_round_trip(index: u8)
    requires
        16 <= index <= 231,
    ensures
        spec_palette_index(spec_palette_rgb(index)) == index,
{
    let code = index - 16;
    assert(0 <= code / 36 <= 5);
    assert(0 <= (code % 36) / 6 <= 5);
    assert(0 <= code % 6 <= 5);
}

/// Quantising a colour and converting the index back gives each channel rounded
/// down to its level of the cube.
pub proof fn lemma_quantized_color(c: Rgb)
    ensures
        spec_palette_rgb(spec_palette_index(c) as u8) == (
            (channel_step(c.0 as int) * 51) as u8,
            (channel_step(c.1 as int) * 51) as u8,
            (channel_step(c.2 as int) * 51) as u8,
        ),
{
    let r = channel_step(c.0 as int);
    let g = channel_step(c.1 as int);
    let b = channel_step(c.2 as int);
    assert(0 <= r <= 5 && 0 <= g <= 5 && 0 <= b <= 5);
    let code = spec_palette_index(c) - 16;
    assert(code == r * 36 + g * 6 + b);
    assert(code / 36 == r && code % 36 == g * 6 + b) by (nonlinear_arith)
        requires
            code == r * 36 + g * 6 + b,
            0 <= r <= 5,
            0 <= g <= 5,
            0 <= b <= 5,
    ;
    assert((g * 6 + b) / 6 == g && code % 6 == b) by (nonlinear_arith)
        requires
            code == r * 36 + g * 6 + b,
            0 <= r <= 5,
            0 <= g <= 5,
            0 <= b <= 5,
    ;
}

/// Channel `k` (0 red, 1 green, 2 blue) of a pixel.
pub open spec fn channel(p: Rgb, k: int) -> int {
    if k == 0 {
        p.0 as int
    } else if k == 1 {
        p.1 as int
    } else {
        p.2 as int
    }
}

/// The sum of channel `k` over the pixels of a cell.
pub open spec fn channel_sum(cell: Seq<Rgb>, k: int) -> int
    decreases cell.len(),
{
    if cell.len() == 0 {
        0
    } else {
        channel_sum(cell.drop_last(), k) + channel(cell.last(), k)
    }
}

/// The pixel count of a cell as the `u32` that its average divides by (the
/// count narrowed to 32 bits).
pub open spec fn cell_count(cell: Seq<Rgb>) -> int {
    (cell.len() as u32) as int
}

/// A cell whose colour can be averaged in `u32` arithmetic: its channel totals
/// fit in a `u32` and its pixel count, narrowed to a `u32`, is not zero.
pub open spec fn cell_averageable(cell: Seq<Rgb>) -> bool {
    &&& cell_count(cell) != 0
    &&& channel_sum(cell, 0) <= u32::MAX
    &&& channel_sum(cell, 1) <= u32::MAX
    &&& channel_sum(cell, 2) <= u32::MAX
}

/// The average colour of a cell, each channel rounded down and narrowed to a
/// `u8` (which keeps it unchanged for every cell of fewer than 2^32 pixels).
pub open spec fn spec_cell_average(cell: Seq<Rgb>) -> Rgb {
    (
        (channel_sum(cell, 0) / cell_count(cell)) as u8,
        (channel_sum(cell, 1) / cell_count(cell)) as u8,
        (channel_sum(cell, 2) / cell_count(cell)) as u8,
    )
}

/// The brightness of a colour: the mean of its channels, rounded down.
pub open spec fn spec_luminance(c: Rgb) -> int {
    (c.0 as int + c.1 as int + c.2 as int) / 3
}

/// The glyphs, from sparse-looking (a space) to dense-looking.
pub open spec fn glyph_ramp() -> Seq<char> {
    " `.,-:+*%$#"@
}

/// The position in the glyph ramp of a brightness: the range 0..=255 is cut
/// into equal buckets, one per glyph, and a brightness past the last bucket
/// takes the last glyph.
pub open spec fn spec_glyph_index(lum: int) -> int {
    let bucket = lum / (256int / (glyph_ramp().len() as int));
    if bucket >= glyph_ramp().len() {
        glyph_ramp().len() - 1
    } else {
        bucket
    }
}

/// The glyph of a colour, picked by its brightness.
pub open spec fn spec_glyph(c: Rgb) -> char {
    glyph_ramp()[spec_glyph_index(spec_luminance(c))]
}

/// The palette index and glyph of a cell.
pub open spec fn spec_cell_color(cell: Seq<Rgb>) -> (u8, char) {
    let avg = spec_cell_average(cell);
    (spec_palette_index(avg) as u8, spec_glyph(avg))
}

/// The glyph ramp has eleven glyphs.
pub proof fn lemma_glyph_ramp_len()
    ensures
        glyph_ramp().len() == 11,
{
    reveal_strlit(" `.,-:+*%$#");
}

/// Every brightness gets a glyph of the ramp.
pub proof fn lemma_glyph_index_in_ramp(lum: int)
    requires
        0 <= lum,
    ensures
        0 <= spec_glyph_index(lum) < glyph_ramp().len(),
{
    lemma_glyph_ramp_len();
}

/// Brighter colours never get a sparser glyph than darker ones.
pub proof fn lemma_glyph_index_monotonic(lum1: int, lum2: int)
    requires
        0 <= lum1 <= lum2,
    ensures
        spec_glyph_index(lum1) <= spec_glyph_index(lum2),
{
    lemma_glyph_ramp_len();
    vstd::arithmetic::div_mod::lemma_div_is_ordered(lum1, lum2, 23);
}

/// A prefix of a cell has channel totals no larger than the whole cell, and
/// each channel total is at most 255 per pixel.
pub proof fn lemma_channel_sum_bounds(cell: Seq<Rgb>, i: int, k: int)
    requires
        0 <= i <= cell.len(),
    ensures
        channel_sum(cell.take(i), k) <= channel_sum(cell, k),
        0 <= channel_sum(cell, k) <= 255 * cell.len(),
    decreases cell.len(),
{
    if cell.len() > 0 {
        if i == cell.len() {
            assert(cell.take(i) =~= cell);
            lemma_channel_sum_bounds(cell.drop_last(), 0, k);
        } else {
            assert(cell.drop_last().take(i) =~= cell.take(i));
            lemma_channel_sum_bounds(cell.drop_last(), i, k);
        }
    }
}

/// Adding one more pixel of a cell to a running total.
proof fn lemma_channel_sum_step(cell: Seq<Rgb>, i: int, k: int)
    requires
        0 <= i < cell.len(),
    ensures
        channel_sum(cell.take(i + 1), k) == channel_sum(cell.take(i), k) + channel(cell[i], k),
{
    assert(cell.take(i + 1).drop_last() =~= cell.take(i));
}

/// A cell's pixels repeated `m` times over.
pub open spec fn repeat_cell(cell: Seq<Rgb>, m: nat) -> Seq<Rgb>
    decreases m,
{
    if m == 0 {
        Seq::empty()
    } else {
        repeat_cell(cell, (m - 1) as nat) + cell
    }
}

/// The channel total of two runs of pixels one after the other is the sum of
/// their totals.
pub proof fn lemma_channel_sum_concat(a: Seq<Rgb>, b: Seq<Rgb>, k: int)
    ensures
        channel_sum(a + b, k) == channel_sum(a, k) + channel_sum(b, k),
    decreases b.len(),
{
    if b.len() == 0 {
        assert(a + b =~= a);
    } else {
        assert((a + b).drop_last() =~= a + b.drop_last());
        lemma_channel_sum_concat(a, b.drop_last(), k);
    }
}

/// Taking one pixel out of a cell takes its channel out of the total.
proof fn lemma_channel_sum_remove(cell: Seq<Rgb>, i: int, k: int)
    requires
        0 <= i < cell.len(),
    ensures
        channel_sum(cell.remove(i), k) == channel_sum(cell, k) - channel(cell[i], k),
{
    let front = cell.subrange(0, i);
    let back = cell.subrange(i + 1, cell.len() as int);
    assert(cell =~= (front + seq![cell[i]]) + back);
    assert(cell.remove(i) =~= front + back);
    let single = seq![cell[i]];
    assert(single.drop_last() =~= Seq::<Rgb>::empty());
    assert(channel_sum(Seq::<Rgb>::empty(), k) == 0);
    assert(single.last() == cell[i]);
    assert(channel_sum(single, k) == channel(cell[i], k));
    lemma_channel_sum_concat(front + single, back, k);
    lemma_channel_sum_concat(front, single, k);
    lemma_channel_sum_concat(front, back, k);
    assert(channel_sum(cell, k) == channel_sum(front + single, k) + channel_sum(back, k));
}

/// The channel totals of a cell depend only on which pixels it holds, and how
/// often, not on their order.
pub proof fn lemma_channel_sum_multiset(a: Seq<Rgb>, b: Seq<Rgb>, k: int)
    requires
        a.to_multiset() == b.to_multiset(),
    ensures
        channel_sum(a, k) == channel_sum(b, k),
    decreases a.len(),
{
    broadcast use vstd::seq_lib::group_to_multiset_ensures;
    broadcast use vstd::multiset::group_multiset_axioms;

    assert(a.to_multiset().len() == a.len());
    assert(b.to_multiset().len() == b.len());
    if a.len() == 0 {
        assert(b.len() == 0);
        assert(a =~= b);
    } else {
        let x = a.last();
        let rest = a.drop_last();
        assert(a =~= rest.push(x));
        assert(a.to_multiset().count(x) > 0);
        assert(b.contains(x));
        let j = choose|j: int| 0 <= j < b.len() && b[j] == x;
        let b_rest = b.remove(j);
        assert(rest.to_multiset() =~= b_rest.to_multiset()) by {
            assert(a.to_multiset() =~= rest.to_multiset().insert(x));
            assert(b_rest.to_multiset() =~= b.to_multiset().remove(x));
        }
        lemma_channel_sum_multiset(rest, b_rest, k);
        lemma_channel_sum_remove(b, j, k);
    }
}

/// The channel totals and pixel count of a cell repeated `m` times.
proof fn lemma_repeat_cell(cell: Seq<Rgb>, m: nat, k: int)
    ensures
        channel_sum(repeat_cell(cell, m), k) == m * channel_sum(cell, k),
        repeat_cell(cell, m).len() == m * cell.len(),
    decreases m,
{
    if m > 0 {
        lemma_repeat_cell(cell, (m - 1) as nat, k);
        lemma_channel_sum_concat(repeat_cell(cell, (m - 1) as nat), cell, k);
        assert(m * channel_sum(cell, k) == (m - 1) * channel_sum(cell, k) + channel_sum(cell, k)) by (nonlinear_arith);
        assert(m * cell.len() == (m - 1) * cell.len() + cell.len()) by (nonlinear_arith);
    } else {
        assert(channel_sum(repeat_cell(cell, m), k) == 0);
        assert(m * channel_sum(cell, k) == 0);
        assert(m * cell.len() == 0);
    }
}

/// Equal fractions round down to the same quotient.
proof fn lemma_equal_fractions_floor(a: int, b: int, c: int, d: int)
    requires
        0 <= a,
        0 <= c,
        0 < b,
        0 < d,
        a * d == c * b,
    ensures
        a / b == c / d,
{
    let q = a / b;
    let r = a % b;
    assert(a == q * b + r && 0 <= r < b) by {
        vstd::arithmetic::div_mod::lemma_fundamental_div_mod(a, b);
    }
    assert(c * b == q * d * b + r * d) by (nonlinear_arith)
        requires
            a == q * b + r,
            a * d == c * b,
    ;
    assert(q * d <= c < (q + 1) * d) by (nonlinear_arith)
        requires
            c * b == q * d * b + r * d,
            0 <= r < b,
            0 < b,
            0 < d,
    ;
    vstd::arithmetic::div_mod::lemma_fundamental_div_mod(c, d);
    assert(c / d == q) by (nonlinear_arith)
        requires
            q * d <= c < (q + 1) * d,
            c == d * (c / d) + c % d,
            0 <= c % d < d,
            0 < d,
    ;
}

/// A cell's average colour depends only on the means of its channels: two
/// cells of fewer than 2^32 pixels whose channel totals stand in the ratio of
/// their pixel counts have the same average colour, and so the same palette
/// index and glyph.
pub proof fn lemma_cell_color_by_means(a: Seq<Rgb>, b: Seq<Rgb>)
    requires
        0 < a.len() <= u32::MAX,
        0 < b.len() <= u32::MAX,
        forall|k: int| 0 <= k < 3 ==> #[trigger] channel_sum(a, k) * b.len() == channel_sum(b, k) * a.len(),
    ensures
        spec_cell_average(a) == spec_cell_average(b),
        spec_cell_color(a) == spec_cell_color(b),
{
    assert forall|k: int| 0 <= k < 3 implies #[trigger] channel_sum(a, k) / cell_count(a) == channel_sum(b, k)
        / cell_count(b) by {
        lemma_channel_sum_bounds(a, 0, k);
        lemma_channel_sum_bounds(b, 0, k);
        lemma_equal_fractions_floor(channel_sum(a, k), a.len() as int, channel_sum(b, k), b.len() as int);
    }
    assert(channel_sum(a, 0) / cell_count(a) == channel_sum(b, 0) / cell_count(b));
    assert(channel_sum(a, 1) / cell_count(a) == channel_sum(b, 1) / cell_count(b));
    assert(channel_sum(a, 2) / cell_count(a) == channel_sum(b, 2) / cell_count(b));
}

/// A cell's colour does not change when its pixels are reordered or each is
/// repeated the same number of times: a cell holding the pixels of `cell`
/// `m` times over, in any order, has the same average colour, palette index
/// and glyph.
pub proof fn lemma_cell_color_reorder_repeat(cell: Seq<Rgb>, other: Seq<Rgb>, m: nat)
    requires
        m >= 1,
        0 < cell.len(),
        other.len() <= u32::MAX,
        other.to_multiset() == repeat_cell(cell, m).to_multiset(),
    ensures
        spec_cell_average(other) == spec_cell_average(cell),
        spec_cell_color(other) == spec_cell_color(cell),
{
    broadcast use vstd::seq_lib::group_to_multiset_ensures;

    lemma_repeat_cell(cell, m, 0);
    assert(other.to_multiset().len() == other.len());
    assert(repeat_cell(cell, m).to_multiset().len() == repeat_cell(cell, m).len());
    assert(other.len() == repeat_cell(cell, m).len());
    assert(cell.len() <= m * cell.len()) by (nonlinear_arith)
        requires
            m >= 1,
            0 < cell.len(),
    ;
    assert forall|k: int| 0 <= k < 3 implies #[trigger] channel_sum(other, k) * cell.len() == channel_sum(
        cell, k) * other.len() by {
        lemma_channel_sum_multiset(other, repeat_cell(cell, m), k);
        lemma_repeat_cell(cell, m, k);
        assert(m * channel_sum(cell, k) * cell.len() == channel_sum(cell, k) * (m * cell.len())) by (nonlinear_arith);
    }
    lemma_cell_color_by_means(other, cell);
}

/// Two grids of the same shape whose corresponding cells hold the same pixels
/// repeated (`counts[y][x]` times over, in any order) get the same colours.
pub proof fn lemma_grid_colors_reorder_repeat(
    boxes: Seq<Seq<Seq<Rgb>>>,
    other: Seq<Seq<Seq<Rgb>>>,
    counts: Seq<Seq<nat>>,
)
    requires
        other.len() == boxes.len(),
        counts.len() == boxes.len(),
        forall|y: int| 0 <= y < boxes.len() ==> #[trigger] other[y].len() == boxes[y].len() && counts[y].len()
            == boxes[y].len(),
        forall|y: int, x: int|
            0 <= y < boxes.len() && 0 <= x < boxes[y].len() ==> {
                &&& counts[y][x] >= 1
                &&& 0 < boxes[y][x].len()
                &&& (#[trigger] other[y][x]).len() <= u32::MAX
                &&& other[y][x].to_multiset() == repeat_cell(boxes[y][x], counts[y][x]).to_multiset()
            },
    ensures
        forall|y: int, x: int|
            0 <= y < boxes.len() && 0 <= x < boxes[y].len() ==> spec_cell_color(#[trigger] other[y][x])
                == spec_cell_color(boxes[y][x]),
{
    assert forall|y: int, x: int| 0 <= y < boxes.len() && 0 <= x < boxes[y].len() implies spec_cell_color(
        #[trigger] other[y][x]) == spec_cell_color(boxes[y][x]) by {
        lemma_cell_color_reorder_repeat(boxes[y][x], other[y][x], counts[y][x]);
    }
}

/// The channel total of a single pixel is that pixel's channel, and a cell
/// with no pixels totals zero.
pub proof fn lemma_channel_sum_single(p: Rgb, k: int)
    ensures
        channel_sum(seq![p], k) == channel(p, k),
        channel_sum(Seq::<Rgb>::empty(), k) == 0,
{
    assert(seq![p].drop_last() =~= Seq::<Rgb>::empty());
    assert(channel_sum(Seq::<Rgb>::empty(), k) == 0);
    assert(seq![p].last() == p);
}

/// The glyphs of the ramp, in order from sparse to dense.
pub proof fn lemma_glyph_ramp_chars()
    ensures
        glyph_ramp() == seq![' ', '`', '.', ',', '-', ':', '+', '*', '%', '$', '#'],
{
    reveal_strlit(" `.,-:+*%$#");
    assert(glyph_ramp() =~= seq![' ', '`', '.', ',', '-', ':', '+', '*', '%', '$', '#']);
}

/// Quantising rounds each channel down to a multiple of 51, by less than 51:
/// the colour that the palette index stands for has every channel a multiple
/// of 51, at most the original channel and more than 51 below it.
pub proof fn lemma_quantize_rounds_down(c: Rgb)
    ensures
        16 <= spec_palette_index(c) <= 231,
        ({
            let q = spec_palette_rgb(spec_palette_index(c) as u8);
            &&& q.0 <= c.0 < q.0 + 51 && q.0 % 51 == 0
            &&& q.1 <= c.1 < q.1 + 51 && q.1 % 51 == 0
            &&& q.2 <= c.2 < q.2 + 51 && q.2 % 51 == 0
        }),
{
    lemma_quantized_color(c);
    let r = c.0 as int / 51;
    let g = c.1 as int / 51;
    let b = c.2 as int / 51;
    assert(0 <= r <= 5 && 0 <= g <= 5 && 0 <= b <= 5);
    assert((r * 51) as u8 == r * 51);
    assert((g * 51) as u8 == g * 51);
    assert((b * 51) as u8 == b * 51);
}

/// The average colour of a cell is the mean of each channel rounded down:
/// every channel `a` of it, times the pixel count, is at most the channel's
/// total and more than one pixel count below it.
pub proof fn lemma_cell_average_is_mean(cell: Seq<Rgb>)
    requires
        cell_averageable(cell),
        cell.len() <= u32::MAX,
    ensures
        ({
            let a = spec_cell_average(cell);
            let n = cell.len() as int;
            &&& a.0 * n <= channel_sum(cell, 0) < (a.0 + 1) * n
            &&& a.1 * n <= channel_sum(cell, 1) < (a.1 + 1) * n
            &&& a.2 * n <= channel_sum(cell, 2) < (a.2 + 1) * n
        }),
{
    let n = cell.len() as int;
    assert(cell_count(cell) == n);
    assert forall|k: int| 0 <= k < 3 implies ({
        let m = #[trigger] channel_sum(cell, k) / n;
        &&& (m as u8) == m
        &&& m * n <= channel_sum(cell, k) < (m + 1) * n
    }) by {
        lemma_channel_sum_bounds(cell, 0, k);
        lemma_average_is_channel(channel_sum(cell, k), n);
        let t = channel_sum(cell, k);
        vstd::arithmetic::div_mod::lemma_fundamental_div_mod(t, n);
        assert((t / n) * n <= t < (t / n + 1) * n) by (nonlinear_arith)
            requires
                t == n * (t / n) + t % n,
                0 <= t % n < n,
        ;
    }
    assert(channel_sum(cell, 0) / n == channel_sum(cell, 0) / n);
    assert(channel_sum(cell, 1) / n == channel_sum(cell, 1) / n);
    assert(channel_sum(cell, 2) / n == channel_sum(cell, 2) / n);
}

/// The glyph of a colour is the ramp's glyph at its brightness (the mean of
/// its channels, rounded down) divided by 23, with brightnesses past the last
/// bucket taking the last glyph `#`.
pub proof fn lemma_glyph_of_brightness(c: Rgb)
    ensures
        ({
            let bucket = ((c.0 as int + c.1 as int + c.2 as int) / 3) / 23;
            spec_glyph(c) == seq![' ', '`', '.', ',', '-', ':', '+', '*', '%', '$', '#'][if bucket > 10 {
                10
            } else {
                bucket
            }]
        }),
{
    lemma_glyph_ramp_chars();
    assert(256int / 11 == 23);
    let lum = spec_luminance(c);
    assert(lum == (c.0 as int + c.1 as int + c.2 as int) / 3);
    assert(0 <= lum / 23 <= 11);
}

/// A cell's palette index and glyph both come from its average colour `a`
/// itself: the index is the cube position of `a`'s channel levels, and the
/// glyph is picked by `a`'s brightness.
pub proof fn lemma_cell_color_of_average(cell: Seq<Rgb>)
    ensures
        ({
            let a = spec_cell_average(cell);
            let bucket = ((a.0 as int + a.1 as int + a.2 as int) / 3) / 23;
            &&& spec_cell_color(cell).0 == 16 + 36 * (a.0 as int / 51) + 6 * (a.1 as int / 51) + a.2 as int / 51
            &&& spec_cell_color(cell).1 == seq![' ', '`', '.', ',', '-', ':', '+', '*', '%', '$', '#'][if bucket
                > 10 {
                10
            } else {
                bucket
            }]
        }),
{
    let a = spec_cell_average(cell);
    lemma_quantize_rounds_down(a);
    lemma_glyph_of_brightness(a);
}

/// A total of at most 255 per pixel averages to at most 255.
proof fn lemma_average_is_channel(sum: int, n: int)
    requires
        0 < n,
        0 <= sum <= 255 * n,
    ensures
        0 <= sum / n <= 255,
{
    assert(0 <= sum / n <= 255) by (nonlinear_arith)
        requires
            0 < n,
            0 <= sum <= 255 * n,
    ;
}

/// The average colour of a cell's pixels, each channel rounded down.
pub fn cell_average(cell: &Vec<Rgb>) -> (avg: Rgb)
    requires
        cell_averageable(cell@),
    ensures
        avg == spec_cell_average(cell@),
        cell@.len() <= u32::MAX ==> {
            &&& avg.0 == channel_sum(cell@, 0) / (cell@.len() as int)
            &&& avg.1 == channel_sum(cell@, 1) / (cell@.len() as int)
            &&& avg.2 == channel_sum(cell@, 2) / (cell@.len() as int)
        },
{
    let mut total: (u32, u32, u32) = (0, 0, 0);
    let n = cell.len();
    let mut i: usize = 0;
    assert(cell@.take(0) =~= Seq::<Rgb>::empty());
    while i < n
        invariant
            n == cell.len(),
            cell_averageable(cell@),
            i <= n,
            total.0 == channel_sum(cell@.take(i as int), 0),
            total.1 == channel_sum(cell@.take(i as int), 1),
            total.2 == channel_sum(cell@.take(i as int), 2),
        decreases n - i,
    {
        let (r, g, b) = cell[i];
        proof {
            lemma_channel_sum_step(cell@, i as int, 0);
            lemma_channel_sum_step(cell@, i as int, 1);
            lemma_channel_sum_step(cell@, i as int, 2);
            lemma_channel_sum_bounds(cell@, i + 1, 0);
            lemma_channel_sum_bounds(cell@, i + 1, 1);
            lemma_channel_sum_bounds(cell@, i + 1, 2);
        }
        total.0 = total.0 + r as u32;
        total.1 = total.1 + g as u32;
        total.2 = total.2 + b as u32;
        i = i + 1;
    }
    assert(cell@.take(n as int) =~= cell@);
    proof {
        if n <= u32::MAX {
            lemma_channel_sum_bounds(cell@, 0, 0);
            lemma_channel_sum_bounds(cell@, 0, 1);
            lemma_channel_sum_bounds(cell@, 0, 2);
            lemma_average_is_channel(total.0 as int, n as int);
            lemma_average_is_channel(total.1 as int, n as int);
            lemma_average_is_channel(total.2 as int, n as int);
        }
    }
    let count = n as u32;
    ((total.0 / count) as u8, (total.1 / count) as u8, (total.2 / count) as u8)
}

/// The brightness of a colour: the mean of its channels, rounded down.
pub fn luminance(c: Rgb) -> (lum: u32)
    ensures
        lum == spec_luminance(c),
        lum <= 255,
{
    (c.0 as u32 + c.1 as u32 + c.2 as u32) / 3
}

/// The glyph of a colour, picked from the ramp by its brightness: darker
/// colours get sparser glyphs, brighter colours denser ones.
pub fn glyph_for(c: Rgb) -> (glyph: char)
    ensures
        glyph == spec_glyph(c),
{
    let lum = luminance(c);
    let glyph_ramp = " `.,-:+*%$#";
    proof {
        lemma_glyph_ramp_len();
    }
    let glyph_count = glyph_ramp.unicode_len();
    assert(glyph_count == 11);
    let bucket_size = 256 / glyph_count;
    assert(bucket_size == 23);
    let mut glyph_index = lum as usize / bucket_size;
    if glyph_index >= glyph_count {
        glyph_index = glyph_count - 1;
    }
    glyph_ramp.get_char(glyph_index)
}

/// The palette index and glyph of a cell, from the cell's average colour.
pub fn cell_color(cell: &Vec<Rgb>) -> (color: (u8, char))
    requires
        cell_averageable(cell@),
    ensures
        color == spec_cell_color(cell@),
        color.0 == spec_palette_index(spec_cell_average(cell@)),
        color.1 == spec_glyph(spec_cell_average(cell@)),
{
    let average = cell_average(cell);
    (palette_index(average), glyph_for(average))
}

/// The colours that `pick_colors` takes: at least one row, no row wider than
/// the first, and every cell averageable.
pub open spec fn colors_input_ok(boxes: Seq<Seq<Seq<Rgb>>>) -> bool {
    &&& boxes.len() > 0
    &&& forall|y: int| 0 <= y < boxes.len() ==> #[trigger] boxes[y].len() <= boxes[0].len()
    &&& forall|y: int, x: int|
        0 <= y < boxes.len() && 0 <= x < boxes[y].len() ==> #[trigger] cell_averageable(boxes[y][x])
}

/// Gives every cell of the grid its palette index and glyph. The result has as
/// many rows as `boxes` and as many columns as its first row; a position past
/// the end of a shorter row keeps the blank colour `(0, ' ')`.
pub fn pick_colors(boxes: &Vec<Vec<Vec<Rgb>>>) -> (colors: Vec<Vec<(u8, char)>>)
    requires
        colors_input_ok(boxes.deep_view()),
    ensures
        colors@.len() == boxes@.len(),
        forall|y: int| 0 <= y < colors@.len() ==> #[trigger] colors@[y]@.len() == boxes@[0]@.len(),
        forall|y: int, x: int|
            0 <= y < boxes@.len() && 0 <= x < boxes@[0]@.len() ==> #[trigger] colors@[y]@[x] == (
            if x < boxes@[y]@.len() {
                spec_cell_color(boxes@[y]@[x]@)
            } else {
                (0u8, ' ')
            }),
{
    let ghost dv = boxes.deep_view();
    assert(dv[0].len() == boxes@[0]@.len());
    let width = boxes[0].len();
    let height = boxes.len();
    let mut colors: Vec<Vec<(u8, char)>> = Vec::new();
    let mut cell_y: usize = 0;
    while cell_y < height
        invariant
            height == boxes@.len(),
            width == boxes@[0]@.len(),
            dv == boxes.deep_view(),
            colors_input_ok(dv),
            cell_y <= height,
            colors@.len() == cell_y,
            forall|y: int| 0 <= y < cell_y ==> #[trigger] colors@[y]@.len() == width,
            forall|y: int, x: int|
                0 <= y < cell_y && 0 <= x < width ==> #[trigger] colors@[y]@[x] == (
                if x < boxes@[y]@.len() {
                    spec_cell_color(boxes@[y]@[x]@)
                } else {
                    (0u8, ' ')
                }),
        decreases height - cell_y,
    {
        let row = &boxes[cell_y];
        assert(dv[cell_y as int].len() == row@.len());
        let mut row_colors: Vec<(u8, char)> = Vec::new();
        let mut cell_x: usize = 0;
        while cell_x < width
            invariant
                height == boxes@.len(),
                width == boxes@[0]@.len(),
                dv == boxes.deep_view(),
                colors_input_ok(dv),
                cell_y < height,
                row == boxes@[cell_y as int],
                row@.len() <= width,
                cell_x <= width,
                row_colors@.len() == cell_x,
                forall|x: int|
                    0 <= x < cell_x ==> #[trigger] row_colors@[x] == (if x < row@.len() {
                        spec_cell_color(row@[x]@)
                    } else {
                        (0u8, ' ')
                    }),
            decreases width - cell_x,
        {
            if cell_x < row.len() {
                assert(dv[cell_y as int][cell_x as int] =~= row@[cell_x as int]@);
                assert(cell_averageable(dv[cell_y as int][cell_x as int]));
                let color = cell_color(&row[cell_x]);
                row_colors.push(color);
            } else {
                row_colors.push((0, ' '));
            }
            cell_x = cell_x + 1;
        }
        colors.push(row_colors);
        cell_y = cell_y + 1;
    }
    colors
}

} // verus!
