//! Reading one band: what to ask of the source, and the array that its
//! answer makes.

use vstd::prelude::*;
use crate::error::RasterError;
use crate::grid::{reshaped2, viewed, Grid2, SampleArray2D};
use crate::window::{effective_resample, ReadRequest, ResampleAlgorithm};

verus! {

/// The array that `buffer` makes when it was read for an output of
/// `array_size` = (width, height): `height` rows of `width` samples, in the
/// order of the buffer.
pub open spec fn band_array<S>(buffer: Seq<S>, array_size: (usize, usize)) -> Result<
    Grid2<S>,
    RasterError,
> {
    reshaped2(buffer, array_size.1, array_size.0)
}

/// The request that reads a whole band of `size` at that size.
pub open spec fn full_band_read(size: (usize, usize), resample: Option<ResampleAlgorithm>)
    -> ReadRequest {
    ReadRequest {
        origin: (0isize, 0isize),
        read_size: size,
        output_size: size,
        algorithm: effective_resample(resample),
    }
}

/// The request that reads a whole band of `size` = (width, height) at that
/// size. With no algorithm given the read uses nearest neighbour.
pub fn full_band_request(size: (usize, usize), resample: Option<ResampleAlgorithm>) -> (r:
    ReadRequest)
    ensures
        r == full_band_read(size, resample),
{
    let algorithm = match resample {
        Some(algorithm) => algorithm,
        None => ResampleAlgorithm::NearestNeighbour,
    };
    ReadRequest { origin: (0, 0), read_size: size, output_size: size, algorithm }
}

/// Shapes the flat `buffer` that a source returned for an output of
/// `array_size` = (width, height) into an array of `height` rows and
/// `width` columns. The samples keep their order and their values. Fails
/// with `ShapeMismatch` unless the buffer holds exactly `width * height`
/// samples of an addressable shape.
pub fn read_as_array<S>(buffer: Vec<S>, array_size: (usize, usize)) -> (r: Result<
    SampleArray2D<S>,
    RasterError,
>)
    ensures
        viewed(r) == band_array(buffer@, array_size),
        r matches Ok(a) ==> a@.rows == array_size.1 && a@.cols == array_size.0 && a@.cells
            == buffer@ && a@.wf(),
{
    SampleArray2D::from_shape_vec(array_size.1, array_size.0, buffer)
}

/// Shapes the flat `buffer` that a source returned for a whole band of
/// `size` = (width, height), read at that size.
pub fn read_full_band<S>(size: (usize, usize), buffer: Vec<S>) -> (r: Result<
    SampleArray2D<S>,
    RasterError,
>)
    ensures
        viewed(r) == band_array(buffer@, size),
        r matches Ok(a) ==> a@.rows == size.1 && a@.cols == size.0 && a@.cells == buffer@
            && a@.wf(),
{
    read_as_array(buffer, size)
}

} // verus!
