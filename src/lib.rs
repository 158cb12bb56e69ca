//! Escape-time fractal rendering: an adaptive rectangle sampler that fills an
//! RGBA pixel buffer from per-pixel iteration counts.

pub mod buffer;
pub mod sampler;

pub use buffer::{PixelBuffer, RenderError};
