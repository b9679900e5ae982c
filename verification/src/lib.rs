//! A small real-time particle engine.
//!
//! This crate holds the discrete machinery of the engine and proves it
//! correct: the fixed-capacity particle pool with its deterministic
//! generator, integer rasterisation into RGBA frames, the bitmap font,
//! widget bookkeeping and input edge detection. What a particle is made of,
//! and how it moves, is real arithmetic; the pool takes it from the host as
//! functions on particle records.

pub mod input;
pub mod particles;
pub mod render;
pub mod ui;
