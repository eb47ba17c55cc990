//! Dense sample arrays: one band as rows x cols, a dataset as
//! bands x rows x cols, both stored row by row with the band outermost.

use vstd::prelude::*;
use crate::error::RasterError;

verus! {

/// What a [`SampleArray2D`] holds: `cells` lists the rows one after another.
pub struct Grid2<S> {
    pub rows: nat,
    pub cols: nat,
    pub cells: Seq<S>,
}

impl<S> Grid2<S> {
    /// There is exactly one cell per position.
    pub open spec fn wf(self) -> bool {
        self.cells.len() == self.rows * self.cols
    }

    /// The sample in row `row`, column `col`.
    pub open spec fn at(self, row: int, col: int) -> S {
        self.cells[row * self.cols + col]
    }
}

/// What a [`StackedArray3D`] holds: `cells` lists the bands one after
/// another, each of them row by row.
pub struct Grid3<S> {
    pub bands: nat,
    pub rows: nat,
    pub cols: nat,
    pub cells: Seq<S>,
}

impl<S> Grid3<S> {
    /// There is exactly one cell per position.
    pub open spec fn wf(self) -> bool {
        self.cells.len() == self.bands * (self.rows * self.cols)
    }

    /// The sample of band `band` in row `row`, column `col`.
    pub open spec fn at(self, band: int, row: int, col: int) -> S {
        self.cells[(band * self.rows + row) * self.cols + col]
    }

    /// Band `band` on its own.
    pub open spec fn band(self, band: int) -> Grid2<S> {
        Grid2 {
            rows: self.rows,
            cols: self.cols,
            cells: self.cells.subrange(
                band * (self.rows * self.cols),
                (band + 1) * (self.rows * self.cols),
            ),
        }
    }
}

/// Length that an axis adds to the addressable extent of a shape: an empty
/// axis counts as one.
pub open spec fn axis_extent(n: nat) -> nat {
    if n == 0 {
        1
    } else {
        n
    }
}

/// Whether an array of `rows` x `cols` can be addressed: the product of its
/// non-empty axes fits in `isize`.
pub open spec fn addressable2(rows: nat, cols: nat) -> bool {
    axis_extent(rows) * axis_extent(cols) <= isize::MAX
}

/// Whether an array of `bands` x `rows` x `cols` can be addressed.
pub open spec fn addressable3(bands: nat, rows: nat, cols: nat) -> bool {
    axis_extent(bands) * axis_extent(rows) * axis_extent(cols) <= isize::MAX
}

/// What laying `cells` out as `rows` x `cols` gives: the array, provided
/// the shape can be addressed and has one position per cell.
pub open spec fn reshaped2<S>(cells: Seq<S>, rows: usize, cols: usize) -> Result<
    Grid2<S>,
    RasterError,
> {
    if addressable2(rows as nat, cols as nat) && rows * cols == cells.len() {
        Ok(Grid2 { rows: rows as nat, cols: cols as nat, cells })
    } else {
        Err(RasterError::ShapeMismatch { bands: 1, rows, cols, actual: cells.len() as usize })
    }
}

/// What laying `cells` out as `bands` x `rows` x `cols` gives.
pub open spec fn reshaped3<S>(cells: Seq<S>, bands: usize, rows: usize, cols: usize) -> Result<
    Grid3<S>,
    RasterError,
> {
    if addressable3(bands as nat, rows as nat, cols as nat) && bands * rows * cols == cells.len() {
        Ok(Grid3 { bands: bands as nat, rows: rows as nat, cols: cols as nat, cells })
    } else {
        Err(RasterError::ShapeMismatch { bands, rows, cols, actual: cells.len() as usize })
    }
}

/// Whether every one of `bands` is a well-formed `rows` x `cols` array.
pub open spec fn all_shaped<S>(bands: Seq<Grid2<S>>, rows: nat, cols: nat) -> bool {
    forall|i: int|
        0 <= i < bands.len() ==> (#[trigger] bands[i]).wf() && bands[i].rows == rows
            && bands[i].cols == cols
}

/// The cells of `bands`, one band after another.
pub open spec fn stacked_cells<S>(bands: Seq<Grid2<S>>) -> Seq<S>
    decreases bands.len(),
{
    if bands.len() == 0 {
        Seq::empty()
    } else {
        stacked_cells(bands.drop_last()) + bands.last().cells
    }
}

/// What stacking `bands` as arrays of `rows` x `cols` gives: the bands in
/// their order along a new leading axis, provided each has that shape and
/// the stack, unless it is empty, can be addressed.
pub open spec fn stacked<S>(bands: Seq<Grid2<S>>, rows: usize, cols: usize) -> Result<
    Grid3<S>,
    RasterError,
> {
    if all_shaped(bands, rows as nat, cols as nat) && (bands.len() == 0 || addressable3(
        bands.len(),
        rows as nat,
        cols as nat,
    )) {
        Ok(
            Grid3 {
                bands: bands.len(),
                rows: rows as nat,
                cols: cols as nat,
                cells: stacked_cells(bands),
            },
        )
    } else {
        Err(RasterError::StackShapeMismatch { bands: bands.len() as usize, rows, cols })
    }
}

/// The views of a sequence of arrays.
pub open spec fn grids<S>(bands: Seq<SampleArray2D<S>>) -> Seq<Grid2<S>> {
    Seq::new(bands.len(), |i: int| bands[i]@)
}

/// A result with its array seen through its view.
pub open spec fn viewed<T: View>(r: Result<T, RasterError>) -> Result<T::V, RasterError> {
    match r {
        Ok(a) => Ok(a@),
        Err(e) => Err(e),
    }
}

/// A position inside a `rows` x `cols` array has its cell inside the
/// row-major listing.
pub proof fn lemma_cell_index(rows: int, cols: int, row: int, col: int)
    requires
        0 <= row < rows,
        0 <= col < cols,
    ensures
        0 <= row * cols,
        row * cols + col < rows * cols,
{
    assert(0 <= row * cols) by (nonlinear_arith)
        requires
            0 <= row,
            0 <= cols,
    ;
    assert(row * cols + cols <= rows * cols) by (nonlinear_arith)
        requires
            row + 1 <= rows,
            0 <= cols,
    ;
}

/// Band `band` of `bands` bands of `per` cells each lies inside the listing
/// of all of them.
pub proof fn lemma_band_range(bands: int, per: int, band: int)
    requires
        0 <= band < bands,
        0 <= per,
    ensures
        0 <= band * per,
        (band + 1) * per == band * per + per,
        (band + 1) * per <= bands * per,
        per <= bands * per,
{
    assert(0 <= band * per) by (nonlinear_arith)
        requires
            0 <= band,
            0 <= per,
    ;
    assert((band + 1) * per == band * per + per) by (nonlinear_arith);
    assert((band + 1) * per <= bands * per) by (nonlinear_arith)
        requires
            band + 1 <= bands,
            0 <= per,
    ;
}

/// Stacked bands of one shape keep their cells: the listing has one cell per
/// position, and each band stands in it unchanged at its own place.
pub proof fn lemma_stacked_cells<S>(bands: Seq<Grid2<S>>, rows: nat, cols: nat)
    requires
        all_shaped(bands, rows, cols),
    ensures
        stacked_cells(bands).len() == bands.len() * (rows * cols),
        forall|b: int|
            0 <= b < bands.len() ==> #[trigger] stacked_cells(bands).subrange(
                b * (rows * cols),
                (b + 1) * (rows * cols),
            ) == bands[b].cells,
    decreases bands.len(),
{
    let per = (rows * cols) as int;
    if bands.len() == 0 {
    } else {
        let front = bands.drop_last();
        let n = front.len() as int;
        assert(all_shaped(front, rows, cols)) by {
            assert forall|i: int| 0 <= i < front.len() implies (#[trigger] front[i]).wf()
                && front[i].rows == rows && front[i].cols == cols by {
                assert(front[i] == bands[i]);
            }
        }
        lemma_stacked_cells(front, rows, cols);
        assert(bands.last().wf());
        lemma_band_range(n + 1, per, n);
        let all = stacked_cells(bands);
        assert(all == stacked_cells(front) + bands.last().cells);
        assert forall|b: int| 0 <= b < bands.len() implies #[trigger] all.subrange(
            b * per,
            (b + 1) * per,
        ) == bands[b].cells by {
            lemma_band_range(n + 1, per, b);
            if b < n {
                lemma_band_range(n, per, b);
                assert(all.subrange(b * per, (b + 1) * per) =~= stacked_cells(front).subrange(
                    b * per,
                    (b + 1) * per,
                ));
                assert(front[b] == bands[b]);
            } else {
                assert(all.subrange(b * per, (b + 1) * per) =~= bands.last().cells);
            }
        }
    }
}

/// The shape error of the `ndarray` crate, carried through unread.
#[verifier::external_type_specification]
#[verifier::external_body]
pub struct ExShapeError(ndarray::ShapeError);

/// `ndarray::Array2::from_shape_vec` with a row-major shape, and the vector
/// taken back out of the array it made. The call accepts exactly when the
/// shape is addressable and has one position per element; the vector comes
/// back as it went in.
#[verifier::external_body]
fn array2_from_shape_vec<S>(rows: usize, cols: usize, data: Vec<S>) -> (r: Result<
    Vec<S>,
    ndarray::ShapeError,
>)
    ensures
        (r is Ok) == (addressable2(rows as nat, cols as nat) && rows * cols == data@.len()),
        r matches Ok(v) ==> v@ == data@,
{
    ndarray::Array2::from_shape_vec((rows, cols), data).map(|a| a.into_raw_vec_and_offset().0)
}

/// `ndarray::Array3::from_shape_vec` with a row-major shape, and the vector
/// taken back out of the array it made. The call accepts exactly when the
/// shape is addressable and has one position per element; the vector comes
/// back as it went in.
#[verifier::external_body]
fn array3_from_shape_vec<S>(bands: usize, rows: usize, cols: usize, data: Vec<S>) -> (r: Result<
    Vec<S>,
    ndarray::ShapeError,
>)
    ensures
        (r is Ok) == (addressable3(bands as nat, rows as nat, cols as nat) && bands * rows * cols
            == data@.len()),
        r matches Ok(v) ==> v@ == data@,
{
    ndarray::Array3::from_shape_vec((bands, rows, cols), data).map(
        |a| a.into_raw_vec_and_offset().0,
    )
}

/// `ndarray::stack` along a new leading axis, over a row-major view of each
/// band, and the elements of the array it made in their logical order. The
/// call accepts exactly when there is at least one band, all bands have the
/// shape of the first, and the stacked shape is addressable; the elements
/// are then those of the bands, one band after another.
#[verifier::external_body]
fn stack_axis0<S: Copy>(bands: &Vec<SampleArray2D<S>>) -> (r: Result<Vec<S>, ndarray::ShapeError>)
    requires
        forall|i: int| 0 <= i < bands@.len() ==> (#[trigger] bands@[i])@.wf(),
    ensures
        (r is Ok) == (bands@.len() > 0 && all_shaped(
            grids(bands@),
            bands@[0]@.rows,
            bands@[0]@.cols,
        ) && addressable3(bands@.len(), bands@[0]@.rows, bands@[0]@.cols)),
        r matches Ok(v) ==> v@ == stacked_cells(grids(bands@)),
{
    let views: Result<Vec<ndarray::ArrayView2<S>>, ndarray::ShapeError> = bands.iter().map(
        |b| ndarray::ArrayView2::from_shape((b.rows, b.cols), b.data.as_slice()),
    ).collect();
    ndarray::stack(ndarray::Axis(0), &views?).map(|a| a.iter().copied().collect())
}

/// One band of samples, `rows` x `cols`, stored row by row.
#[derive(Debug, PartialEq)]
pub struct SampleArray2D<S> {
    rows: usize,
    cols: usize,
    data: Vec<S>,
}

impl<S> View for SampleArray2D<S> {
    type V = Grid2<S>;

    closed spec fn view(&self) -> Grid2<S> {
        Grid2 { rows: self.rows as nat, cols: self.cols as nat, cells: self.data@ }
    }
}

impl<S> SampleArray2D<S> {
    #[verifier::type_invariant]
    spec fn inv(self) -> bool {
        self.data@.len() == self.rows * self.cols
    }

    /// Lays `data` out as `rows` x `cols`, row by row. Fails with
    /// `ShapeMismatch` unless the shape is addressable and `data` has
    /// exactly `rows * cols` elements.
    pub fn from_shape_vec(rows: usize, cols: usize, data: Vec<S>) -> (r: Result<Self, RasterError>)
        ensures
            viewed(r) == reshaped2(data@, rows, cols),
    {
        let actual = data.len();
        match array2_from_shape_vec(rows, cols, data) {
            Ok(cells) => Ok(SampleArray2D { rows, cols, data: cells }),
            Err(_) => Err(RasterError::ShapeMismatch { bands: 1, rows, cols, actual }),
        }
    }

    /// Number of rows.
    pub fn rows(&self) -> (n: usize)
        ensures
            n == self@.rows,
            self@.wf(),
    {
        proof {
            use_type_invariant(self);
        }
        self.rows
    }

    /// Number of columns.
    pub fn cols(&self) -> (n: usize)
        ensures
            n == self@.cols,
            self@.wf(),
    {
        proof {
            use_type_invariant(self);
        }
        self.cols
    }

    /// The samples, row by row.
    pub fn as_slice(&self) -> (s: &[S])
        ensures
            s@ == self@.cells,
            self@.wf(),
    {
        proof {
            use_type_invariant(self);
        }
        self.data.as_slice()
    }

    /// Gives up the array for its samples, row by row.
    pub fn into_raw_vec(self) -> (v: Vec<S>)
        ensures
            v@ == self@.cells,
            self@.wf(),
    {
        proof {
            use_type_invariant(&self);
        }
        self.data
    }

    /// The sample at (`row`, `col`), or `None` outside the array.
    pub fn get(&self, row: usize, col: usize) -> (r: Option<&S>)
        ensures
            (r is Some) == (row < self@.rows && col < self@.cols),
            r matches Some(s) ==> *s == self@.at(row as int, col as int),
    {
        proof {
            use_type_invariant(self);
        }
        if row < self.rows && col < self.cols {
            let len = self.data.len();
            proof {
                lemma_cell_index(self.rows as int, self.cols as int, row as int, col as int);
            }
            Some(&self.data[row * self.cols + col])
        } else {
            None
        }
    }
}

/// The bands of a dataset, `bands` x `rows` x `cols`, stored band by band
/// and each band row by row.
#[derive(Debug, PartialEq)]
pub struct StackedArray3D<S> {
    bands: usize,
    rows: usize,
    cols: usize,
    data: Vec<S>,
}

impl<S> View for StackedArray3D<S> {
    type V = Grid3<S>;

    closed spec fn view(&self) -> Grid3<S> {
        Grid3 {
            bands: self.bands as nat,
            rows: self.rows as nat,
            cols: self.cols as nat,
            cells: self.data@,
        }
    }
}

impl<S> StackedArray3D<S> {
    #[verifier::type_invariant]
    spec fn inv(self) -> bool {
        self.data@.len() == self.bands * (self.rows * self.cols)
    }

    /// The stack of no bands at all, each of which would be `rows` x `cols`.
    pub fn empty(rows: usize, cols: usize) -> (a: Self)
        ensures
            a@ == (Grid3 {
                bands: 0,
                rows: rows as nat,
                cols: cols as nat,
                cells: Seq::<S>::empty(),
            }),
            a@.wf(),
    {
        assert(0 * (rows * cols) == 0) by (nonlinear_arith);
        StackedArray3D { bands: 0, rows, cols, data: Vec::new() }
    }

    /// Lays `data` out as `bands` x `rows` x `cols`, band by band and each
    /// band row by row. Fails with `ShapeMismatch` unless the shape is
    /// addressable and `data` has exactly `bands * rows * cols` elements.
    pub fn from_shape_vec(bands: usize, rows: usize, cols: usize, data: Vec<S>) -> (r: Result<
        Self,
        RasterError,
    >)
        ensures
            viewed(r) == reshaped3(data@, bands, rows, cols),
    {
        let actual = data.len();
        match array3_from_shape_vec(bands, rows, cols, data) {
            Ok(cells) => {
                assert(bands * rows * cols == bands * (rows * cols)) by (nonlinear_arith);
                Ok(StackedArray3D { bands, rows, cols, data: cells })
            },
            Err(_) => Err(RasterError::ShapeMismatch { bands, rows, cols, actual }),
        }
    }

    /// Number of bands.
    pub fn bands(&self) -> (n: usize)
        ensures
            n == self@.bands,
            self@.wf(),
    {
        proof {
            use_type_invariant(self);
        }
        self.bands
    }

    /// Number of rows in each band.
    pub fn rows(&self) -> (n: usize)
        ensures
            n == self@.rows,
            self@.wf(),
    {
        proof {
            use_type_invariant(self);
        }
        self.rows
    }

    /// Number of columns in each band.
    pub fn cols(&self) -> (n: usize)
        ensures
            n == self@.cols,
            self@.wf(),
    {
        proof {
            use_type_invariant(self);
        }
        self.cols
    }

    /// The samples, band by band and each band row by row.
    pub fn as_slice(&self) -> (s: &[S])
        ensures
            s@ == self@.cells,
            self@.wf(),
    {
        proof {
            use_type_invariant(self);
        }
        self.data.as_slice()
    }

    /// Gives up the array for its samples, band by band and each band row
    /// by row.
    pub fn into_raw_vec(self) -> (v: Vec<S>)
        ensures
            v@ == self@.cells,
            self@.wf(),
    {
        proof {
            use_type_invariant(&self);
        }
        self.data
    }

    /// The sample of band `band` at (`row`, `col`), or `None` outside the
    /// array.
    pub fn get(&self, band: usize, row: usize, col: usize) -> (r: Option<&S>)
        ensures
            (r is Some) == (band < self@.bands && row < self@.rows && col < self@.cols),
            r matches Some(s) ==> *s == self@.at(band as int, row as int, col as int),
    {
        proof {
            use_type_invariant(self);
        }
        if band < self.bands && row < self.rows && col < self.cols {
            let len = self.data.len();
            proof {
                let lines = self.bands * self.rows;
                lemma_cell_index(self.bands as int, self.rows as int, band as int, row as int);
                lemma_cell_index(
                    lines,
                    self.cols as int,
                    band * self.rows + row,
                    col as int,
                );
                assert(lines * self.cols == self.bands * (self.rows * self.cols) && lines <= lines
                    * self.cols) by (nonlinear_arith)
                    requires
                        lines == self.bands * self.rows,
                        1 <= self.cols,
                ;
            }
            Some(&self.data[(band * self.rows + row) * self.cols + col])
        } else {
            None
        }
    }
}

impl<S: Copy> StackedArray3D<S> {
    /// Stacks `bands`, each expected to be `rows` x `cols`, in their order
    /// along a new leading axis. No bands give the empty stack. Fails with
    /// `StackShapeMismatch` if a band has another shape or the stack cannot
    /// be addressed.
    pub fn stack(bands: &Vec<SampleArray2D<S>>, rows: usize, cols: usize) -> (r: Result<
        Self,
        RasterError,
    >)
        ensures
            viewed(r) == stacked(grids(bands@), rows, cols),
    {
        let n = bands.len();
        let mut i: usize = 0;
        while i < n
            invariant
                i <= n,
                n == bands@.len(),
                forall|j: int|
                    0 <= j < i ==> (#[trigger] bands@[j])@.wf() && bands@[j]@.rows == rows
                        && bands@[j]@.cols == cols,
            decreases n - i,
        {
            let band = &bands[i];
            if band.rows() != rows || band.cols() != cols {
                assert(grids(bands@)[i as int] == bands@[i as int]@);
                return Err(RasterError::StackShapeMismatch { bands: n, rows, cols });
            }
            i += 1;
        }
        assert(all_shaped(grids(bands@), rows as nat, cols as nat));
        if n == 0 {
            assert(stacked_cells(grids(bands@)) =~= Seq::<S>::empty());
            return Ok(Self::empty(rows, cols));
        }
        match stack_axis0(bands) {
            Ok(cells) => {
                proof {
                    lemma_stacked_cells(grids(bands@), rows as nat, cols as nat);
                }
                Ok(StackedArray3D { bands: n, rows, cols, data: cells })
            },
            Err(_) => Err(RasterError::StackShapeMismatch { bands: n, rows, cols }),
        }
    }

    /// A copy of band `index`, counted from zero, or `None` if there is no
    /// such band.
    pub fn band(&self, index: usize) -> (r: Option<SampleArray2D<S>>)
        ensures
            (r is Some) == (index < self@.bands),
            r matches Some(a) ==> a@ == self@.band(index as int) && a@.wf(),
    {
        proof {
            use_type_invariant(self);
        }
        if index >= self.bands {
            return None;
        }
        let len = self.data.len();
        proof {
            lemma_band_range(self.bands as int, self.rows * self.cols, index as int);
        }
        let per = self.rows * self.cols;
        let start = index * per;
        let end = start + per;
        let mut cells: Vec<S> = Vec::with_capacity(per);
        let mut i = start;
        while i < end
            invariant
                start <= i <= end,
                end <= self.data@.len(),
                cells@ == self.data@.subrange(start as int, i as int),
            decreases end - i,
        {
            cells.push(self.data[i]);
            assert(cells@ =~= self.data@.subrange(start as int, i + 1));
            i += 1;
        }
        Some(SampleArray2D { rows: self.rows, cols: self.cols, data: cells })
    }
}

} // verus!
