# image_to_ansi

Turns a JPEG image into ANSI art: the image's pixels are sorted into the
character cells of a grid, each cell is averaged into one colour, the colour is
quantised into the xterm-256 6x6x6 cube, a glyph is picked from its
brightness, and the grid is rendered as ANSI escape text (an `.ans` file) or as
a self-contained HTML page.

- `src/` is the verified library: `decode` (JPEG bytes to pixels),
  `grid` (pixels to cells), `palette` (cell colour, palette index, glyph),
  `render` (ANSI text and HTML).
- `app/` is the command-line program: argument parsing, file I/O, printing, and
  the floating-point row count of the grid.
- `tests/` runs the library on concrete inputs.
