//! Turns a decoded RGB image into a grid of coloured character cells: the
//! pixels are binned into cells, each cell is averaged, quantised into the
//! xterm-256 colour cube and given a glyph by its brightness, and the grid is
//! rendered as ANSI escape text or as HTML markup.

pub mod decode;
pub mod grid;
pub mod palette;
pub mod render;
