//! The colour type and the drawing capability that the engine draws through.

use vstd::prelude::*;

verus! {

/// An RGBA colour: four independent 8-bit channels (red, green, blue, alpha),
/// not premultiplied.
#[derive(Clone, Copy, Debug)]
pub struct Color(pub u8, pub u8, pub u8, pub u8);

/// The drawing capability. Anything that offers these operations can be drawn
/// on: an in-memory frame, a terminal grid, a GPU surface.
pub trait Canvas {
    /// Width and height in pixels.
    fn size(&self) -> (u32, u32);

    /// Paints every pixel with `color`.
    fn clear(&mut self, color: Color);

    /// Fills the axis-aligned rectangle with top-left corner `(x, y)`, width
    /// `w` and height `h`.
    fn fill_rect(&mut self, x: i32, y: i32, w: i32, h: i32, color: Color);

    /// Outlines the circle around `(x, y)`.
    fn draw_circle(&mut self, x: i32, y: i32, radius: i32, color: Color);

    /// Draws the segment from `(x1, y1)` to `(x2, y2)`.
    fn draw_line(&mut self, x1: i32, y1: i32, x2: i32, y2: i32, color: Color);

    /// Shows what has been drawn. The failure of the backend is handed on
    /// as it is.
    fn present(&mut self) -> Result<(), String>;
}

} // verus!
