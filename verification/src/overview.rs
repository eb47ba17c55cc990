//! Reading a band at one level of its resolution pyramid.

use vstd::prelude::*;
use crate::error::RasterError;
use crate::grid::SampleArray2D;
use crate::reader::{band_array, full_band_read, full_band_request, read_as_array};
use crate::window::{ReadRequest, ResampleAlgorithm};

verus! {

/// What asking a band with `available` overviews for level `level` gives:
/// the level itself while it is below `available`, and otherwise the
/// failure that names both.
pub open spec fn resolved(available: usize, level: usize) -> Result<usize, RasterError> {
    if level < available {
        Ok(level)
    } else {
        Err(RasterError::OverviewOutOfRange { requested: level, available })
    }
}

/// Checks `level` against the `available` overviews of a band. The level is
/// passed through as it is: what a level means is the source's affair.
pub fn resolve_overview(available: usize, level: usize) -> (r: Result<usize, RasterError>)
    ensures
        r == resolved(available, level),
        level < available ==> r == Ok::<usize, RasterError>(level),
        level >= available ==> r == Err::<usize, RasterError>(
            RasterError::OverviewOutOfRange { requested: level, available },
        ),
{
    if level < available {
        Ok(level)
    } else {
        Err(RasterError::OverviewOutOfRange { requested: level, available })
    }
}

/// What the source has answered while one overview is being read.
#[derive(Debug, PartialEq)]
pub enum OverviewStage<S> {
    /// The band has `available` overviews.
    Counted { available: usize },
    /// The overview band is `size` = (width, height) pixels large.
    Sized { size: (usize, usize) },
    /// The overview band of `size` delivered `buffer` for its full window.
    Fetched { size: (usize, usize), buffer: Vec<S> },
}

/// What to do next while one overview is being read.
#[derive(Debug, PartialEq)]
pub enum OverviewStep<S> {
    /// Fetch the overview band at `level` and ask for its size.
    Open { level: usize },
    /// Read the overview band with `request`.
    Read { request: ReadRequest },
    /// The overview has been read.
    Done(SampleArray2D<S>),
}

/// One step of reading the overview `ovr_index` of a band in full: from
/// what the source answered last to what to do next.
///
/// Once the overview count of the band is known, the level is checked and
/// the overview is to be opened. Once the size of the overview is known,
/// its whole extent is to be read at that size, with averaging. Once the
/// pixels are there, they are shaped into the array.
pub fn read_overview<S>(ovr_index: usize, stage: OverviewStage<S>) -> (r: Result<
    OverviewStep<S>,
    RasterError,
>)
    ensures
        match stage {
            OverviewStage::Counted { available } => match resolved(available, ovr_index) {
                Ok(level) => r == Ok::<OverviewStep<S>, RasterError>(OverviewStep::Open { level }),
                Err(e) => r == Err::<OverviewStep<S>, RasterError>(e),
            },
            OverviewStage::Sized { size } => r == Ok::<OverviewStep<S>, RasterError>(
                OverviewStep::Read {
                    request: full_band_read(size, Some(ResampleAlgorithm::Average)),
                },
            ),
            OverviewStage::Fetched { size, buffer } => match band_array(buffer@, size) {
                Ok(grid) => r matches Ok(OverviewStep::Done(a)) && a@ == grid,
                Err(e) => r == Err::<OverviewStep<S>, RasterError>(e),
            },
        },
{
    match stage {
        OverviewStage::Counted { available } => {
            let level = resolve_overview(available, ovr_index)?;
            Ok(OverviewStep::Open { level })
        },
        OverviewStage::Sized { size } => Ok(
            OverviewStep::Read { request: full_band_request(size, Some(ResampleAlgorithm::Average)) },
        ),
        OverviewStage::Fetched { size, buffer } => {
            let array = read_as_array(buffer, size)?;
            Ok(OverviewStep::Done(array))
        },
    }
}

} // verus!
