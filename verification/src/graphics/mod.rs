//! Software drawing into a 1-bit framebuffer: text and basic shapes.
//!
//! * `font` — the 5×7 bitmap font
//! * `text` — text rendering (normal / packed / inverted)
//! * `canvas` — basic shapes (rectangles, lines, circles, triangles, dotted lines)
pub mod canvas;
pub mod font;
pub mod intdiv;
pub mod text;
