//! The failures a raster operation can end in.

use vstd::prelude::*;

verus! {

/// Why a raster operation failed. Every variant carries what is needed to
/// tell which request went wrong.
#[derive(Clone, Copy, Debug, PartialEq, Eq, Structural)]
pub enum RasterError {
    /// The source could not be opened.
    OpenFailure,
    /// A band outside `1..=available` was asked for.
    BandNotFound { requested: usize, available: usize },
    /// An overview level at or beyond the `available` levels was asked for.
    OverviewOutOfRange { requested: usize, available: usize },
    /// The source did not deliver the pixels of band `band`.
    ReadFailure { band: usize },
    /// A buffer of `actual` samples cannot be laid out as
    /// `bands` x `rows` x `cols`.
    ShapeMismatch { bands: usize, rows: usize, cols: usize, actual: usize },
    /// `bands` arrays, the first of them `rows` x `cols`, do not stack into
    /// one array: they disagree in shape, or the stack would be too large to
    /// address.
    StackShapeMismatch { bands: usize, rows: usize, cols: usize },
}

} // verus!
