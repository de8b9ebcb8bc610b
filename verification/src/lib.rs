//! A CPU-side software rasterizer.
//!
//! The crate renders filled, alpha-blended, optionally textured triangles
//! into an in-memory RGBA pixel buffer, and keeps a cache of rasterized
//! glyph bitmaps for text rendering.  Colors and coordinates are held in
//! fixed-point form so that every arithmetic step has an exact contract.

pub mod bits;
pub mod buffer;
pub mod color;
pub mod geom;
pub mod glyph;
pub mod img;
