//! Bit-plane decomposition of raster images.
//!
//! The crate has two parts: a parser that turns a hex-digit string into a
//! 4-channel 8-bit color, and an engine that renders every (channel, bit)
//! pair of a source pixel grid as a two-color tile on one large output grid.

pub mod color;
pub mod engine;
pub mod laws;
