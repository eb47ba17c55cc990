//! Windowed, resolution-aware reads of multi-band rasters.
//!
//! A raster source hands out flat sample buffers; this crate decides what to
//! ask of it, shapes what comes back into row-major arrays, and stacks the
//! bands of a dataset into one band-major array. The source itself stays
//! outside: every function here works on plain values.

pub mod error;
pub mod grid;
pub mod multiband;
pub mod overview;
pub mod reader;
pub mod window;
