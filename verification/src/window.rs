//! What is asked of a raster source: a window of a band, the shape to
//! deliver it in, and how to resample when the two differ.

use vstd::prelude::*;

verus! {

/// How a source fills an output that differs in size from the window read.
#[derive(Clone, Copy, Debug, PartialEq, Eq, Structural)]
pub enum ResampleAlgorithm {
    /// The nearest source pixel.
    NearestNeighbour,
    /// Bilinear interpolation over a 2 x 2 kernel.
    Bilinear,
    /// Cubic convolution over a 4 x 4 kernel.
    Cubic,
    /// Cubic B-spline over a 4 x 4 kernel.
    CubicSpline,
    /// Lanczos windowed sinc over a 6 x 6 kernel.
    Lanczos,
    /// The average of the source pixels that an output pixel covers.
    Average,
    /// The value that occurs most often among the covered source pixels.
    Mode,
    /// Gaussian blurring.
    Gauss,
}

/// The algorithm a read uses: the one asked for, or nearest neighbour when
/// none was.
pub open spec fn effective_resample(resample: Option<ResampleAlgorithm>) -> ResampleAlgorithm {
    match resample {
        Some(algorithm) => algorithm,
        None => ResampleAlgorithm::NearestNeighbour,
    }
}

/// One read as a source performs it. Sizes are (width, height); the origin
/// is (x offset, y offset) in source pixels.
#[derive(Clone, Copy, Debug, PartialEq, Eq)]
pub struct ReadRequest {
    pub origin: (isize, isize),
    pub read_size: (usize, usize),
    pub output_size: (usize, usize),
    pub algorithm: ResampleAlgorithm,
}

/// A window of a band and the size to deliver it in, both (width, height)
/// and both positive in either direction.
#[derive(Clone, Copy, Debug, PartialEq, Eq)]
pub struct WindowSpec {
    origin: (isize, isize),
    read_size: (usize, usize),
    output_size: (usize, usize),
}

/// Whether both directions of `size` are positive.
pub open spec fn positive(size: (usize, usize)) -> bool {
    size.0 > 0 && size.1 > 0
}

impl WindowSpec {
    #[verifier::type_invariant]
    spec fn inv(self) -> bool {
        positive(self.read_size) && positive(self.output_size)
    }

    /// Where the window starts, as (x offset, y offset).
    pub closed spec fn spec_origin(&self) -> (isize, isize) {
        self.origin
    }

    /// The size of the window in source pixels.
    pub closed spec fn spec_read_size(&self) -> (usize, usize) {
        self.read_size
    }

    /// The size of the output.
    pub closed spec fn spec_output_size(&self) -> (usize, usize) {
        self.output_size
    }

    /// The request that reads this window with `resample`.
    pub open spec fn spec_request(&self, resample: Option<ResampleAlgorithm>) -> ReadRequest {
        ReadRequest {
            origin: self.origin(),
            read_size: self.read_size(),
            output_size: self.output_size(),
            algorithm: effective_resample(resample),
        }
    }

    /// The window of `read_size` pixels at `origin`, delivered as
    /// `output_size`, or `None` if a size is zero in some direction.
    pub fn new(origin: (isize, isize), read_size: (usize, usize), output_size: (usize, usize)) -> (r:
        Option<Self>)
        ensures
            (r is Some) == (positive(read_size) && positive(output_size)),
            r matches Some(w) ==> w.origin() == origin && w.read_size() == read_size
                && w.output_size() == output_size,
    {
        if read_size.0 > 0 && read_size.1 > 0 && output_size.0 > 0 && output_size.1 > 0 {
            Some(WindowSpec { origin, read_size, output_size })
        } else {
            None
        }
    }

    /// The window that covers a whole band of `size`, delivered at that
    /// size, or `None` if the band is empty in some direction.
    pub fn full_band(size: (usize, usize)) -> (r: Option<Self>)
        ensures
            (r is Some) == positive(size),
            r matches Some(w) ==> w.origin() == (0isize, 0isize) && w.read_size() == size
                && w.output_size() == size,
    {
        Self::new((0, 0), size, size)
    }

    /// Where the window starts, as (x offset, y offset).
    #[verifier::when_used_as_spec(spec_origin)]
    pub fn origin(&self) -> (r: (isize, isize))
        ensures
            r == self.origin(),
    {
        self.origin
    }

    /// The size of the window in source pixels.
    #[verifier::when_used_as_spec(spec_read_size)]
    pub fn read_size(&self) -> (r: (usize, usize))
        ensures
            r == self.read_size(),
            positive(r),
    {
        proof {
            use_type_invariant(self);
        }
        self.read_size
    }

    /// The size of the output.
    #[verifier::when_used_as_spec(spec_output_size)]
    pub fn output_size(&self) -> (r: (usize, usize))
        ensures
            r == self.output_size(),
            positive(r),
    {
        proof {
            use_type_invariant(self);
        }
        self.output_size
    }

    /// Whether the output differs in size from the window, so that the
    /// source resamples.
    pub fn resamples(&self) -> (r: bool)
        ensures
            r == (self.read_size() != self.output_size()),
    {
        self.read_size.0 != self.output_size.0 || self.read_size.1 != self.output_size.1
    }

    /// The request that reads this window. With no algorithm given the
    /// read uses nearest neighbour, also where the source resamples.
    #[verifier::when_used_as_spec(spec_request)]
    pub fn request(&self, resample: Option<ResampleAlgorithm>) -> (r: ReadRequest)
        ensures
            r == self.request(resample),
            positive(r.read_size),
            positive(r.output_size),
    {
        proof {
            use_type_invariant(self);
        }
        let algorithm = match resample {
            Some(algorithm) => algorithm,
            None => ResampleAlgorithm::NearestNeighbour,
        };
        ReadRequest {
            origin: self.origin,
            read_size: self.read_size,
            output_size: self.output_size,
            algorithm,
        }
    }
}

} // verus!
