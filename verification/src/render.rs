//! The text that the grid is shown as: ANSI escape sequences for a terminal,
//! and HTML markup for a browser.

use vstd::prelude::*;
use base64::Engine;
use crate::palette::{spec_palette_rgb, palette_index_to_rgb};

verus! {

/// Sets the foreground colour to the palette index that follows.
pub const ANSI_FG_OPEN: &'static str = "\x1b[38;5;";

/// Ends the foreground escape and starts the background one.
pub const ANSI_FG_TO_BG: &'static str = "m\x1b[48;5;";

/// Ends an escape sequence.
pub const ANSI_ESCAPE_END: &'static str = "m";

/// Resets the colours and ends a row.
pub const ANSI_ROW_END: &'static str = "\x1b[0m\n";

/// Opens a cell's `<span>` and its text colour.
pub const HTML_CELL_OPEN: &'static str = "<span style=\"color: rgb(";

/// Separates the channels of a colour.
pub const HTML_CHANNEL_SEP: &'static str = ",";

/// Ends the text colour and starts the background colour.
pub const HTML_CELL_TO_BG: &'static str = "); background-color: rgb(";

/// Ends the style of a cell's `<span>`.
pub const HTML_CELL_STYLE_END: &'static str = ");\">";

/// Closes a cell's `<span>`.
pub const HTML_CELL_CLOSE: &'static str = "</span>";

/// Opens a row.
pub const HTML_ROW_OPEN: &'static str = "<div class=\"ansi-line\">";

/// Closes a row.
pub const HTML_ROW_CLOSE: &'static str = "</div>";

/// The page up to the embedded font's base64 data.
pub const HTML_PAGE_HEAD: &'static str = "<!DOCTYPE html>\n<html>\n<head>\n<meta charset=\"utf-8\">\n<title>ANSI Art</title>\n<style>\n  @font-face {\n    font-family: \"ConsolasEmbedded\";\n    src: url(data:font/woff2;base64,";

/// The page from the end of the font's data up to the column count that sizes
/// the font.
pub const HTML_PAGE_AFTER_FONT: &'static str = ") format(\"woff2\");\n    font-weight: 400;\n    font-style: normal;\n  }\n  body { background: #000; margin: 0; padding: 2rem; }\n  .ansi-frame {\n    container-type: inline-size;\n    width: 100%;\n    max-width: 640px;\n    margin: 0 auto;\n    background: #000;\n    overflow: hidden;\n    user-select: none;\n    -webkit-user-select: none;\n    cursor: default;\n  }\n  .ansi-pre {\n    margin: 0;\n    padding: 0;\n    line-height: 1;\n    letter-spacing: 0;\n    white-space: pre;\n    width: max-content;\n    font-family: \"ConsolasEmbedded\", Consolas, monospace;\n  }\n  .ansi-line {\n    height: 1em;\n    overflow: hidden;\n    display: flex;\n  }\n  .ansi-line span {\n    display: inline-block;\n  }\n</style>\n</head>\n<body>\n  <div class=\"ansi-frame\">\n    <pre class=\"ansi-pre\" style=\"font-size: clamp(4px, calc(100cqw / ";

/// The page from the column count up to the rows.
pub const HTML_PAGE_AFTER_COLS: &'static str = "), 16px);\">\n";

/// The page after the rows.
pub const HTML_PAGE_END: &'static str = "    </pre>\n  </div>\n</body>\n</html>\n";

/// The decimal digit `d` (0..=9) as a character.
pub open spec fn digit_char(d: int) -> char {
    ((d + 48) as u8) as char
}

/// The decimal digits of `n`, without leading zeros.
pub open spec fn decimal(n: nat) -> Seq<char>
    decreases n,
{
    if n < 10 {
        seq![digit_char(n as int)]
    } else {
        decimal(n / 10).push(digit_char((n % 10) as int))
    }
}

/// The number that a run of decimal digit characters spells.
pub open spec fn digits_value(s: Seq<char>) -> int
    decreases s.len(),
{
    if s.len() == 0 {
        0
    } else {
        digits_value(s.drop_last()) * 10 + (s.last() as int - 48)
    }
}

/// `decimal(n)` is the usual decimal writing of `n`: it is made of the
/// characters `0` to `9`, it spells `n`, and it starts with `0` only when it is
/// the single digit of zero.
pub proof fn lemma_decimal_spells(n: nat)
    ensures
        decimal(n).len() >= 1,
        forall|i: int| 0 <= i < decimal(n).len() ==> '0' <= #[trigger] decimal(n)[i] <= '9',
        digits_value(decimal(n)) == n,
        decimal(n)[0] == '0' ==> n == 0 && decimal(n).len() == 1,
    decreases n,
{
    if n >= 10 {
        lemma_decimal_spells(n / 10);
        let d = decimal(n);
        assert(d.drop_last() =~= decimal(n / 10));
        assert(d[0] == decimal(n / 10)[0]);
        let last = digit_char((n % 10) as int);
        assert(last as int == (n % 10) + 48);
        assert(d.last() == last);
        assert(digits_value(d) == digits_value(decimal(n / 10)) * 10 + (n % 10));
    } else {
        let d = decimal(n);
        assert(digit_char(n as int) as int == n + 48);
        assert(d.drop_last() =~= Seq::<char>::empty());
        assert(digits_value(Seq::<char>::empty()) == 0);
    }
}

/// Appends one character to a string.
#[verifier::external_body]
fn push_char(s: &mut String, c: char)
    ensures
        final(s)@ == old(s)@.push(c),
{
    s.push(c);
}

/// The decimal digit `d` as a character.
fn digit(d: u8) -> (c: char)
    requires
        d < 10,
    ensures
        c == digit_char(d as int),
{
    (d + 48) as char
}

/// Appends the decimal digits of `n` to `s`.
pub fn push_decimal(s: &mut String, n: u8)
    ensures
        final(s)@ == old(s)@ + decimal(n as nat),
{
    reveal_with_fuel(decimal, 3);
    if n >= 100 {
        push_char(s, digit(n / 100));
        push_char(s, digit((n / 10) % 10));
        push_char(s, digit(n % 10));
        assert(decimal(n as nat) =~= seq![digit_char((n / 100) as int), digit_char(((n / 10) % 10) as int), digit_char((n % 10) as int)]);
    } else if n >= 10 {
        push_char(s, digit(n / 10));
        push_char(s, digit(n % 10));
        assert(decimal(n as nat) =~= seq![digit_char((n / 10) as int), digit_char((n % 10) as int)]);
    } else {
        push_char(s, digit(n));
    }
}

/// The text of one cell: its glyph drawn in its palette colour on a
/// background of the same colour.
pub open spec fn ansi_cell(cell: (u8, char)) -> Seq<char> {
    ANSI_FG_OPEN@ + decimal(cell.0 as nat) + ANSI_FG_TO_BG@ + decimal(cell.0 as nat) + ANSI_ESCAPE_END@
        + seq![cell.1]
}

/// The text of a sequence of cells, one after the other.
pub open spec fn ansi_cells(cells: Seq<(u8, char)>) -> Seq<char>
    decreases cells.len(),
{
    if cells.len() == 0 {
        Seq::empty()
    } else {
        ansi_cells(cells.drop_last()) + ansi_cell(cells.last())
    }
}

/// The text of a run of cells is the text of each cell in turn: splitting
/// the run anywhere splits the text there, and one cell's text is
/// `ansi_cell` of it, so a run of `n` cells holds `n` cell texts.
pub proof fn lemma_ansi_cells_concat(a: Seq<(u8, char)>, b: Seq<(u8, char)>)
    ensures
        ansi_cells(a + b) == ansi_cells(a) + ansi_cells(b),
        ansi_cells(Seq::<(u8, char)>::empty()) == Seq::<char>::empty(),
    decreases b.len(),
{
    if b.len() == 0 {
        assert(a + b =~= a);
        assert(ansi_cells(a) + Seq::<char>::empty() =~= ansi_cells(a));
    } else {
        assert((a + b).drop_last() =~= a + b.drop_last());
        lemma_ansi_cells_concat(a, b.drop_last());
        assert(ansi_cells(a + b) =~= ansi_cells(a) + ansi_cells(b));
    }
}

/// One cell's text: the foreground escape `ESC [ 3 8 ; 5 ; <index> m`, the
/// background escape `ESC [ 4 8 ; 5 ; <index> m` with the same palette index
/// in decimal, then the cell's glyph.
pub proof fn lemma_ansi_cell_text(cell: (u8, char))
    ensures
        ansi_cells(seq![cell]) == ansi_cell(cell),
        ansi_cell(cell) == seq!['\x1b', '[', '3', '8', ';', '5', ';'] + decimal(cell.0 as nat) + seq![
            'm',
            '\x1b',
            '[',
            '4',
            '8',
            ';',
            '5',
            ';',
        ] + decimal(cell.0 as nat) + seq!['m', cell.1],
{
    reveal_strlit("\x1b[38;5;");
    reveal_strlit("m\x1b[48;5;");
    reveal_strlit("m");
    lemma_ansi_cells_concat(Seq::empty(), seq![cell]);
    assert(seq![cell].drop_last() =~= Seq::<(u8, char)>::empty());
    assert(Seq::<char>::empty() + ansi_cell(cell) =~= ansi_cell(cell));
    assert(ansi_cell(cell) =~= seq!['\x1b', '[', '3', '8', ';', '5', ';'] + decimal(cell.0 as nat) + seq![
        'm',
        '\x1b',
        '[',
        '4',
        '8',
        ';',
        '5',
        ';',
    ] + decimal(cell.0 as nat) + seq!['m', cell.1]);
}

/// The text of one row: its cells, then a colour reset and a newline.
pub open spec fn ansi_row(row: Seq<(u8, char)>) -> Seq<char> {
    ansi_cells(row) + ANSI_ROW_END@
}

/// The text of a grid: its rows, one after the other.
pub open spec fn ansi_grid(grid: Seq<Seq<(u8, char)>>) -> Seq<char>
    decreases grid.len(),
{
    if grid.len() == 0 {
        Seq::empty()
    } else {
        ansi_grid(grid.drop_last()) + ansi_row(grid.last())
    }
}

/// The text of a grid is the text of each row in turn, and one row's text is
/// its cells' text followed by the reset `ESC [ 0 m` and a newline.
pub proof fn lemma_ansi_grid_concat(a: Seq<Seq<(u8, char)>>, b: Seq<Seq<(u8, char)>>, row: Seq<(u8, char)>)
    ensures
        ansi_grid(a + b) == ansi_grid(a) + ansi_grid(b),
        ansi_grid(seq![row]) == ansi_cells(row) + seq!['\x1b', '[', '0', 'm', '\n'],
        ansi_grid(Seq::<Seq<(u8, char)>>::empty()) == Seq::<char>::empty(),
    decreases b.len(),
{
    reveal_strlit("\x1b[0m\n");
    if b.len() == 0 {
        assert(a + b =~= a);
        assert(ansi_grid(a) + Seq::<char>::empty() =~= ansi_grid(a));
    } else {
        assert((a + b).drop_last() =~= a + b.drop_last());
        lemma_ansi_grid_concat(a, b.drop_last(), row);
        assert(ansi_grid(a + b) =~= ansi_grid(a) + ansi_grid(b));
    }
    assert(seq![row].drop_last() =~= Seq::<Seq<(u8, char)>>::empty());
    assert(seq![row].last() == row);
    assert(ansi_grid(seq![row]) == ansi_grid(Seq::<Seq<(u8, char)>>::empty()) + ansi_row(row));
    assert(Seq::<char>::empty() + ansi_row(row) =~= ansi_row(row));
    assert(ANSI_ROW_END@ == "\x1b[0m\n"@);
    assert(ansi_row(row) =~= ansi_cells(row) + seq!['\x1b', '[', '0', 'm', '\n']);
}

/// Renders the coloured grid as ANSI escape text, as in an `.ans` file: per
/// cell a foreground and a background escape in the cell's palette colour,
/// then its glyph; a colour reset and a newline end each row.
pub fn ansi_text(colors: &Vec<Vec<(u8, char)>>) -> (text: String)
    ensures
        text@ == ansi_grid(colors.deep_view()),
{
    let ghost grid = colors.deep_view();
    let mut output = String::new();
    let mut cell_y: usize = 0;
    while cell_y < colors.len()
        invariant
            grid == colors.deep_view(),
            cell_y <= colors.len(),
            output@ == ansi_grid(grid.take(cell_y as int)),
        decreases colors.len() - cell_y,
    {
        let row = &colors[cell_y];
        assert(grid[cell_y as int] =~= row@);
        let mut row_output = String::new();
        let mut cell_x: usize = 0;
        while cell_x < row.len()
            invariant
                row@ == grid[cell_y as int],
                cell_x <= row.len(),
                row_output@ == ansi_cells(row@.take(cell_x as int)),
            decreases row.len() - cell_x,
        {
            let cell = row[cell_x];
            row_output.append(ANSI_FG_OPEN);
            push_decimal(&mut row_output, cell.0);
            row_output.append(ANSI_FG_TO_BG);
            push_decimal(&mut row_output, cell.0);
            row_output.append(ANSI_ESCAPE_END);
            push_char(&mut row_output, cell.1);
            assert(row@.take(cell_x + 1).drop_last() =~= row@.take(cell_x as int));
            cell_x = cell_x + 1;
        }
        assert(row@.take(row@.len() as int) =~= row@);
        row_output.append(ANSI_ROW_END);
        output.append(row_output.as_str());
        assert(grid.take(cell_y + 1).drop_last() =~= grid.take(cell_y as int));
        cell_y = cell_y + 1;
    }
    assert(grid.take(colors.len() as int) =~= grid);
    output
}

/// The channels of a colour in decimal, separated by commas.
pub open spec fn rgb_text(c: (u8, u8, u8)) -> Seq<char> {
    decimal(c.0 as nat) + HTML_CHANNEL_SEP@ + decimal(c.1 as nat) + HTML_CHANNEL_SEP@ + decimal(c.2 as nat)
}

/// The markup of one cell: a `<span>` holding its glyph, with text and
/// background in the colour that its palette index stands for.
pub open spec fn html_cell(cell: (u8, char)) -> Seq<char> {
    let rgb = spec_palette_rgb(cell.0);
    HTML_CELL_OPEN@ + rgb_text(rgb) + HTML_CELL_TO_BG@ + rgb_text(rgb) + HTML_CELL_STYLE_END@
        + seq![cell.1] + HTML_CELL_CLOSE@
}

/// The markup of a sequence of cells, one after the other.
pub open spec fn html_cells(cells: Seq<(u8, char)>) -> Seq<char>
    decreases cells.len(),
{
    if cells.len() == 0 {
        Seq::empty()
    } else {
        html_cells(cells.drop_last()) + html_cell(cells.last())
    }
}

/// The markup of a run of cells is the markup of each cell in turn:
/// splitting the run anywhere splits the markup there, and one cell's markup
/// is one `<span>` (`html_cell`), so a run of `n` cells holds `n` spans.
pub proof fn lemma_html_cells_concat(a: Seq<(u8, char)>, b: Seq<(u8, char)>)
    ensures
        html_cells(a + b) == html_cells(a) + html_cells(b),
        html_cells(Seq::<(u8, char)>::empty()) == Seq::<char>::empty(),
    decreases b.len(),
{
    if b.len() == 0 {
        assert(a + b =~= a);
        assert(html_cells(a) + Seq::<char>::empty() =~= html_cells(a));
    } else {
        assert((a + b).drop_last() =~= a + b.drop_last());
        lemma_html_cells_concat(a, b.drop_last());
        assert(html_cells(a + b) =~= html_cells(a) + html_cells(b));
    }
}

/// One cell's markup: a `<span>` whose text colour and background colour are
/// both the colour `(r, g, b)` that the cell's palette index stands for,
/// written in decimal, holding the cell's glyph.
pub proof fn lemma_html_cell_text(cell: (u8, char))
    ensures
        html_cells(seq![cell]) == html_cell(cell),
        ({
            let rgb = spec_palette_rgb(cell.0);
            let channels = decimal(rgb.0 as nat) + seq![','] + decimal(rgb.1 as nat) + seq![','] + decimal(
                rgb.2 as nat);
            html_cell(cell) == "<span style=\"color: rgb("@ + channels + "); background-color: rgb("@ + channels
                + ");\">"@ + seq![cell.1] + "</span>"@
        }),
{
    reveal_strlit(",");
    lemma_html_cells_concat(Seq::empty(), seq![cell]);
    assert(seq![cell].drop_last() =~= Seq::<(u8, char)>::empty());
    assert(Seq::<char>::empty() + html_cell(cell) =~= html_cell(cell));
    let rgb = spec_palette_rgb(cell.0);
    assert(rgb_text(rgb) =~= decimal(rgb.0 as nat) + seq![','] + decimal(rgb.1 as nat) + seq![','] + decimal(
        rgb.2 as nat));
}

/// The markup of one row: a line `<div>` around its cells.
pub open spec fn html_row(row: Seq<(u8, char)>) -> Seq<char> {
    HTML_ROW_OPEN@ + html_cells(row) + HTML_ROW_CLOSE@
}

/// The markup of a grid: its rows, one after the other, with nothing between.
pub open spec fn html_grid(grid: Seq<Seq<(u8, char)>>) -> Seq<char>
    decreases grid.len(),
{
    if grid.len() == 0 {
        Seq::empty()
    } else {
        html_grid(grid.drop_last()) + html_row(grid.last())
    }
}

/// The markup of a grid is the markup of each row in turn, with nothing
/// between rows, and one row's markup is a line `<div>` around its cells.
pub proof fn lemma_html_grid_concat(a: Seq<Seq<(u8, char)>>, b: Seq<Seq<(u8, char)>>, row: Seq<(u8, char)>)
    ensures
        html_grid(a + b) == html_grid(a) + html_grid(b),
        html_grid(seq![row]) == "<div class=\"ansi-line\">"@ + html_cells(row) + "</div>"@,
        html_grid(Seq::<Seq<(u8, char)>>::empty()) == Seq::<char>::empty(),
    decreases b.len(),
{
    if b.len() == 0 {
        assert(a + b =~= a);
        assert(html_grid(a) + Seq::<char>::empty() =~= html_grid(a));
    } else {
        assert((a + b).drop_last() =~= a + b.drop_last());
        lemma_html_grid_concat(a, b.drop_last(), row);
        assert(html_grid(a + b) =~= html_grid(a) + html_grid(b));
    }
    assert(seq![row].drop_last() =~= Seq::<Seq<(u8, char)>>::empty());
    assert(seq![row].last() == row);
    assert(html_grid(seq![row]) == html_grid(Seq::<Seq<(u8, char)>>::empty()) + html_row(row));
    assert(Seq::<char>::empty() + html_row(row) =~= html_row(row));
    assert(HTML_ROW_OPEN@ == "<div class=\"ansi-line\">"@);
    assert(HTML_ROW_CLOSE@ == "</div>"@);
}

/// Every cell of the grid holds a palette index at or above 16.
pub open spec fn palette_indices_ok(grid: Seq<Seq<(u8, char)>>) -> bool {
    forall|y: int, x: int| 0 <= y < grid.len() && 0 <= x < grid[y].len() ==> #[trigger] grid[y][x].0 >= 16
}

/// Appends the channels of a colour in decimal, separated by commas.
fn push_rgb(s: &mut String, c: (u8, u8, u8))
    ensures
        final(s)@ == old(s)@ + rgb_text(c),
{
    push_decimal(s, c.0);
    s.append(HTML_CHANNEL_SEP);
    push_decimal(s, c.1);
    s.append(HTML_CHANNEL_SEP);
    push_decimal(s, c.2);
}

/// Renders the coloured grid as HTML markup: one line `<div>` per row and one
/// `<span>` per cell, coloured by the colour that its palette index stands for.
pub fn html_rows(colors: &Vec<Vec<(u8, char)>>) -> (html: String)
    requires
        palette_indices_ok(colors.deep_view()),
    ensures
        html@ == html_grid(colors.deep_view()),
{
    let ghost grid = colors.deep_view();
    let mut rows_html = String::new();
    let mut cell_y: usize = 0;
    while cell_y < colors.len()
        invariant
            grid == colors.deep_view(),
            palette_indices_ok(grid),
            cell_y <= colors.len(),
            rows_html@ == html_grid(grid.take(cell_y as int)),
        decreases colors.len() - cell_y,
    {
        let row = &colors[cell_y];
        assert(grid[cell_y as int] =~= row@);
        let mut row_html = String::new();
        let mut cell_x: usize = 0;
        while cell_x < row.len()
            invariant
                row@ == grid[cell_y as int],
                palette_indices_ok(grid),
                cell_y < grid.len(),
                cell_x <= row.len(),
                row_html@ == html_cells(row@.take(cell_x as int)),
            decreases row.len() - cell_x,
        {
            let (palette_index, glyph) = row[cell_x];
            assert(grid[cell_y as int][cell_x as int].0 >= 16);
            let rgb = palette_index_to_rgb(palette_index);
            row_html.append(HTML_CELL_OPEN);
            push_rgb(&mut row_html, rgb);
            row_html.append(HTML_CELL_TO_BG);
            push_rgb(&mut row_html, rgb);
            row_html.append(HTML_CELL_STYLE_END);
            push_char(&mut row_html, glyph);
            row_html.append(HTML_CELL_CLOSE);
            assert(row@.take(cell_x + 1).drop_last() =~= row@.take(cell_x as int));
            cell_x = cell_x + 1;
        }
        assert(row@.take(row@.len() as int) =~= row@);
        rows_html.append(HTML_ROW_OPEN);
        rows_html.append(row_html.as_str());
        rows_html.append(HTML_ROW_CLOSE);
        assert(grid.take(cell_y + 1).drop_last() =~= grid.take(cell_y as int));
        cell_y = cell_y + 1;
    }
    assert(grid.take(colors.len() as int) =~= grid);
    rows_html
}

/// A self-contained HTML page around the rows' markup, with the font embedded
/// as base64 data and sized so that `effective_cols` characters fill the page
/// width.
pub open spec fn html_page(font_base64: Seq<char>, effective_cols: Seq<char>, rows_html: Seq<char>) -> Seq<char> {
    HTML_PAGE_HEAD@ + font_base64 + HTML_PAGE_AFTER_FONT@ + effective_cols + HTML_PAGE_AFTER_COLS@ + rows_html
        + HTML_PAGE_END@
}

/// The character of a 6-bit value (0..=63) in the standard base64 alphabet:
/// `A`-`Z`, `a`-`z`, `0`-`9`, `+`, `/`.
pub open spec fn base64_char(v: int) -> char {
    if v < 26 {
        (65 + v) as char
    } else if v < 52 {
        (97 + v - 26) as char
    } else if v < 62 {
        (48 + v - 52) as char
    } else if v == 62 {
        '+'
    } else {
        '/'
    }
}

/// Standard base64 with padding: every group of three bytes becomes four
/// characters of six bits each, most significant first; a last group of one
/// or two bytes is filled with zero bits and padded with `=` to four
/// characters.
pub open spec fn base64_standard(data: Seq<u8>) -> Seq<char>
    decreases data.len(),
{
    if data.len() == 0 {
        Seq::empty()
    } else if data.len() == 1 {
        let a = data[0] as int;
        seq![base64_char(a / 4), base64_char((a % 4) * 16), '=', '=']
    } else if data.len() == 2 {
        let a = data[0] as int;
        let b = data[1] as int;
        seq![base64_char(a / 4), base64_char((a % 4) * 16 + b / 16), base64_char((b % 16) * 4), '=']
    } else {
        let a = data[0] as int;
        let b = data[1] as int;
        let c = data[2] as int;
        seq![
            base64_char(a / 4),
            base64_char((a % 4) * 16 + b / 16),
            base64_char((b % 16) * 4 + c / 64),
            base64_char(c % 64),
        ] + base64_standard(data.subrange(3, data.len() as int))
    }
}

/// Base64 text has four characters for every started group of three bytes.
pub proof fn lemma_base64_len(data: Seq<u8>)
    ensures
        base64_standard(data).len() == 4 * ((data.len() + 2) / 3),
    decreases data.len(),
{
    if data.len() > 2 {
        lemma_base64_len(data.subrange(3, data.len() as int));
    }
}

/// Encodes bytes with `base64::engine::general_purpose::STANDARD.encode`, the
/// standard alphabet with `=` padding, as its documentation and source state.
/// The call panics where the encoded length overflows a `usize`, so
/// `requires` leaves that out.
#[verifier::external_body]
fn base64_encode(data: &[u8]) -> (encoded: String)
    requires
        4 * ((data@.len() + 2) / 3) <= usize::MAX,
    ensures
        encoded@ == base64_standard(data@),
{
    base64::engine::general_purpose::STANDARD.encode(data)
}

/// Builds the HTML page from the font's base64 text, the column count as text
/// and the grid's colours.
pub fn html_document(font_base64: &str, effective_cols: &str, colors: &Vec<Vec<(u8, char)>>) -> (html: String)
    requires
        palette_indices_ok(colors.deep_view()),
    ensures
        html@ == html_page(font_base64@, effective_cols@, html_grid(colors.deep_view())),
{
    let rows_html = html_rows(colors);
    let mut html = String::new();
    html.append(HTML_PAGE_HEAD);
    html.append(font_base64);
    html.append(HTML_PAGE_AFTER_FONT);
    html.append(effective_cols);
    html.append(HTML_PAGE_AFTER_COLS);
    html.append(rows_html.as_str());
    html.append(HTML_PAGE_END);
    html
}

/// Builds the HTML page for the grid's colours with `font` embedded as base64
/// data, sized so that `effective_cols` characters fill the page width.
pub fn html_with_font(font: &[u8], effective_cols: &str, colors: &Vec<Vec<(u8, char)>>) -> (html: String)
    requires
        4 * ((font@.len() + 2) / 3) <= usize::MAX,
        palette_indices_ok(colors.deep_view()),
    ensures
        html@ == html_page(base64_standard(font@), effective_cols@, html_grid(colors.deep_view())),
{
    let font_base64 = base64_encode(font);
    html_document(font_base64.as_str(), effective_cols, colors)
}

} // verus!
