//! Drawing: the canvas capability, an in-memory frame that offers it, and
//! the shapes that the frame draws.

pub mod canvas;
pub mod circle;
pub mod frame;
pub mod line;
