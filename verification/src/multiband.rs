//! Assembling the bands of a dataset into one band-major array.

use vstd::prelude::*;
use crate::error::RasterError;
use crate::grid::{
    addressable2, addressable3, all_shaped, axis_extent, grids, lemma_stacked_cells, reshaped3,
    stacked, stacked_cells, viewed, Grid2, Grid3, SampleArray2D, StackedArray3D,
};
use crate::reader::{band_array, read_as_array};
use crate::window::{ReadRequest, ResampleAlgorithm, WindowSpec};

verus! {

/// What one band came to: the array of its buffer, or why there is none.
pub open spec fn outcome_array<S>(outcome: Result<Vec<S>, RasterError>, array_size: (usize, usize))
    -> Result<Grid2<S>, RasterError> {
    match outcome {
        Ok(buffer) => band_array(buffer@, array_size),
        Err(e) => Err(e),
    }
}

/// Whether `k` is the place of the first failure among `results`.
pub open spec fn first_failure<T>(results: Seq<Result<T, RasterError>>, k: int) -> bool {
    &&& 0 <= k < results.len()
    &&& results[k] is Err
    &&& forall|j: int| 0 <= j < k ==> (#[trigger] results[j]) is Ok
}

/// All of `results` if none failed, and otherwise the first failure.
pub open spec fn collected<T>(results: Seq<Result<T, RasterError>>) -> Result<Seq<T>, RasterError> {
    if exists|k: int| first_failure(results, k) {
        Err(results[choose|k: int| first_failure(results, k)]->Err_0)
    } else {
        Ok(Seq::new(results.len(), |i: int| results[i]->Ok_0))
    }
}

/// What the bands of a dataset, read one after another for an output of
/// `array_size` = (width, height), assemble to: the failure of the first
/// band that has one, and otherwise the stack of the bands in their order.
pub open spec fn assembled<S>(outcomes: Seq<Result<Vec<S>, RasterError>>, array_size: (usize, usize))
    -> Result<Grid3<S>, RasterError> {
    match collected(Seq::new(outcomes.len(), |i: int| outcome_array(outcomes[i], array_size))) {
        Ok(bands) => stacked(bands, array_size.1, array_size.0),
        Err(e) => Err(e),
    }
}

/// What one completion of a fan-out over `band_count` bands came to. A
/// completion names the band it read, counted from one, and carries what
/// the read gave.
pub open spec fn completion_array<S>(
    band_count: usize,
    completion: (usize, Result<Vec<S>, RasterError>),
    array_size: (usize, usize),
) -> Result<Grid2<S>, RasterError> {
    if 1 <= completion.0 <= band_count {
        outcome_array(completion.1, array_size)
    } else {
        Err(RasterError::BandNotFound { requested: completion.0, available: band_count })
    }
}

/// Whether some completion read band `band`.
pub open spec fn delivered<S>(completions: Seq<(usize, Result<Vec<S>, RasterError>)>, band: int)
    -> bool {
    exists|k: int| 0 <= k < completions.len() && (#[trigger] completions[k]).0 == band
}

/// Whether completion `k` is the one that fills the slot of band `band`:
/// the last that read it.
pub open spec fn fills_slot<S>(
    completions: Seq<(usize, Result<Vec<S>, RasterError>)>,
    band: int,
    k: int,
) -> bool {
    &&& 0 <= k < completions.len()
    &&& completions[k].0 == band
    &&& forall|j: int| k < j < completions.len() ==> (#[trigger] completions[j]).0 != band
}

/// The place of the completion that fills the slot of band `band`.
pub open spec fn slot_source<S>(completions: Seq<(usize, Result<Vec<S>, RasterError>)>, band: int)
    -> int {
    choose|k: int| fills_slot(completions, band, k)
}

/// Whether `band` is the first of the bands `1..=band_count` that no
/// completion read.
pub open spec fn first_missing<S>(
    completions: Seq<(usize, Result<Vec<S>, RasterError>)>,
    band_count: usize,
    band: int,
) -> bool {
    &&& 1 <= band <= band_count
    &&& !delivered(completions, band)
    &&& forall|b: int| 1 <= b < band ==> #[trigger] delivered(completions, b)
}

/// The arrays of the completions, each in the slot of its band.
pub open spec fn slotted<S>(
    band_count: usize,
    completions: Seq<(usize, Result<Vec<S>, RasterError>)>,
    arrays: Seq<Grid2<S>>,
) -> Seq<Grid2<S>> {
    Seq::new(band_count as nat, |i: int| arrays[slot_source(completions, i + 1)])
}

/// What the completions of a fan-out over `band_count` bands, taken in the
/// order in which they arrived, assemble to: the first failure that
/// arrived; else a read failure for the first band that nothing read; else
/// the stack of the bands in band order, whatever order they arrived in.
pub open spec fn fanned_in<S>(
    band_count: usize,
    completions: Seq<(usize, Result<Vec<S>, RasterError>)>,
    array_size: (usize, usize),
) -> Result<Grid3<S>, RasterError> {
    match collected(
        Seq::new(
            completions.len(),
            |k: int| completion_array(band_count, completions[k], array_size),
        ),
    ) {
        Ok(arrays) => if exists|b: int| first_missing(completions, band_count, b) {
            Err(
                RasterError::ReadFailure {
                    band: (choose|b: int| first_missing(completions, band_count, b)) as usize,
                },
            )
        } else {
            stacked(slotted(band_count, completions, arrays), array_size.1, array_size.0)
        },
        Err(e) => Err(e),
    }
}

/// The stack of no bands at all for an output of `array_size` = (width,
/// height).
pub open spec fn empty_stack<S>(array_size: (usize, usize)) -> Grid3<S> {
    Grid3 {
        bands: 0,
        rows: array_size.1 as nat,
        cols: array_size.0 as nat,
        cells: Seq::<S>::empty(),
    }
}

/// What one buffer that holds all `band_count` bands of a dataset, band
/// after band, gives for an output of `array_size` = (width, height): the
/// empty stack for no bands and no samples, and otherwise the buffer laid
/// out as `band_count` x `height` x `width`.
pub open spec fn bulk_shaped<S>(band_count: usize, buffer: Seq<S>, array_size: (usize, usize))
    -> Result<Grid3<S>, RasterError> {
    if band_count == 0 && buffer.len() == 0 {
        Ok(empty_stack(array_size))
    } else {
        reshaped3(buffer, band_count, array_size.1, array_size.0)
    }
}

/// The samples of `outcomes`, one band after another; a band that was not
/// read adds none.
pub open spec fn joined<S>(outcomes: Seq<Result<Vec<S>, RasterError>>) -> Seq<S>
    decreases outcomes.len(),
{
    if outcomes.len() == 0 {
        Seq::empty()
    } else {
        joined(outcomes.drop_last()) + match outcomes.last() {
            Ok(buffer) => buffer@,
            Err(_) => Seq::empty(),
        }
    }
}

/// Whether every band of `outcomes` was read in full for an output of
/// `array_size` = (width, height).
pub open spec fn all_in_full<S>(outcomes: Seq<Result<Vec<S>, RasterError>>, array_size: (usize, usize))
    -> bool {
    forall|i: int|
        0 <= i < outcomes.len() ==> (#[trigger] outcomes[i]) is Ok && outcomes[i]->Ok_0@.len()
            == array_size.0 * array_size.1
}

/// The bands of a dataset with `band_count` bands, as a source counts
/// them: from one, in ascending order.
pub fn band_indices(band_count: usize) -> (bands: Vec<usize>)
    ensures
        bands@.len() == band_count,
        forall|i: int| 0 <= i < band_count ==> (#[trigger] bands@[i]) == i + 1,
{
    let mut bands: Vec<usize> = Vec::new();
    let mut band: usize = 0;
    while band < band_count
        invariant
            band <= band_count,
            bands@.len() == band,
            forall|i: int| 0 <= i < band ==> (#[trigger] bands@[i]) == i + 1,
        decreases band_count - band,
    {
        band += 1;
        bands.push(band);
    }
    bands
}

/// The request that reads `window` from every band of a dataset that is
/// being assembled: the window as it is, resampled by averaging.
pub fn band_request(window: &WindowSpec) -> (r: ReadRequest)
    ensures
        r == window.request(Some(ResampleAlgorithm::Average)),
{
    window.request(Some(ResampleAlgorithm::Average))
}

/// Assembles the bands of a dataset that were read one after another.
/// `outcomes[i]` is what reading band `i + 1` for an output of `array_size`
/// = (width, height) gave: the flat buffer or the failure.
///
/// Fails with the failure of the first band, in band order, that was not
/// read or whose buffer does not make an array of `height` x `width`.
/// Otherwise stacks the arrays in band order; no bands at all give the
/// empty stack.
pub fn read_multiband_3d<S: Copy>(
    outcomes: Vec<Result<Vec<S>, RasterError>>,
    array_size: (usize, usize),
) -> (r: Result<StackedArray3D<S>, RasterError>)
    ensures
        viewed(r) == assembled(outcomes@, array_size),
        outcomes@.len() == 0 ==> viewed(r) == Ok::<Grid3<S>, RasterError>(empty_stack(array_size)),
        r matches Ok(stack) ==> stack@.wf() && stack@.bands == outcomes@.len() && forall|i: int|
            0 <= i < outcomes@.len() ==> outcome_array(#[trigger] outcomes@[i], array_size) == Ok::<
                Grid2<S>,
                RasterError,
            >(stack@.band(i)),
{
    proof {
        lemma_assembled_empty::<S>(array_size);
        if assembled(outcomes@, array_size) is Ok {
            lemma_assembled_bands(outcomes@, array_size);
        }
    }
    let ghost results = Seq::new(
        outcomes@.len(),
        |i: int| outcome_array(outcomes@[i], array_size),
    );
    let mut bands: Vec<SampleArray2D<S>> = Vec::new();
    for outcome in it: outcomes.into_iter()
        invariant
            it.seq() == outcomes@,
            results == Seq::new(outcomes@.len(), |i: int| outcome_array(outcomes@[i], array_size)),
            bands@.len() == it.index(),
            forall|j: int|
                0 <= j < it.index() ==> (#[trigger] results[j]) == Ok::<Grid2<S>, RasterError>(
                    bands@[j]@,
                ),
    {
        let ghost k = it.index() as int;
        let buffer = match outcome {
            Ok(buffer) => buffer,
            Err(e) => {
                proof {
                    assert(first_failure(results, k));
                    lemma_collected_err(results, k);
                }
                return Err(e);
            },
        };
        let array = match read_as_array(buffer, array_size) {
            Ok(array) => array,
            Err(e) => {
                proof {
                    assert(first_failure(results, k));
                    lemma_collected_err(results, k);
                }
                return Err(e);
            },
        };
        bands.push(array);
    }
    proof {
        assert(!exists|k: int| first_failure(results, k));
        assert(grids(bands@) =~= Seq::new(results.len(), |i: int| results[i]->Ok_0));
    }
    StackedArray3D::stack(&bands, array_size.1, array_size.0)
}

/// Assembles the bands of a dataset that were read by a fan-out, one task
/// per band. Each of `completions` names the band it read, counted from
/// one, and carries what reading it for an output of `array_size` =
/// (width, height) gave; they stand in the order in which they arrived.
///
/// Every array goes into the slot of its band, so the stack is in band
/// order whatever the order of arrival. Fails with the first failure that
/// arrived: a band outside `1..=band_count`, a band that was not read, or a
/// buffer that does not make an array of `height` x `width`. Fails with
/// `ReadFailure` for the first band that no completion read.
pub fn read_multiband_parallel<S: Copy>(
    band_count: usize,
    completions: Vec<(usize, Result<Vec<S>, RasterError>)>,
    array_size: (usize, usize),
) -> (r: Result<StackedArray3D<S>, RasterError>)
    ensures
        viewed(r) == fanned_in(band_count, completions@, array_size),
        band_count == 0 && completions@.len() == 0 ==> viewed(r) == Ok::<Grid3<S>, RasterError>(
            empty_stack(array_size),
        ),
        r matches Ok(stack) ==> stack@.wf() && stack@.bands == band_count && forall|i: int|
            0 <= i < band_count ==> fills_slot(
                completions@,
                i + 1,
                #[trigger] slot_source(completions@, i + 1),
            ) && outcome_array(completions@[slot_source(completions@, i + 1)].1, array_size) == Ok::<
                Grid2<S>,
                RasterError,
            >(stack@.band(i)),
{
    proof {
        lemma_fanned_in_empty::<S>(array_size);
        if fanned_in(band_count, completions@, array_size) is Ok {
            lemma_fanned_in_bands(band_count, completions@, array_size);
        }
    }
    let ghost results = Seq::new(
        completions@.len(),
        |k: int| completion_array(band_count, completions@[k], array_size),
    );
    let ghost mut filled: Seq<int> = Seq::new(band_count as nat, |b: int| -1int);
    let mut slots: Vec<Option<SampleArray2D<S>>> = Vec::new();
    while slots.len() < band_count
        invariant
            slots@.len() <= band_count,
            forall|b: int| 0 <= b < slots@.len() ==> (#[trigger] slots@[b]) is None,
        decreases band_count - slots@.len(),
    {
        slots.push(None);
    }
    for completion in it: completions.into_iter()
        invariant
            it.seq() == completions@,
            results == Seq::new(
                completions@.len(),
                |k: int| completion_array(band_count, completions@[k], array_size),
            ),
            slots@.len() == band_count,
            filled.len() == band_count,
            forall|j: int| 0 <= j < it.index() ==> (#[trigger] results[j]) is Ok,
            forall|b: int|
                0 <= b < band_count && (#[trigger] filled[b]) < 0 ==> slots@[b] is None && forall|
                    j: int,
                | 0 <= j < it.index() ==> (#[trigger] completions@[j]).0 != b + 1,
            forall|b: int|
                0 <= b < band_count && (#[trigger] filled[b]) >= 0 ==> {
                    &&& filled[b] < it.index()
                    &&& completions@[filled[b]].0 == b + 1
                    &&& forall|j: int|
                        filled[b] < j < it.index() ==> (#[trigger] completions@[j]).0 != b + 1
                    &&& slots@[b] matches Some(a)
                    &&& results[filled[b]] == Ok::<Grid2<S>, RasterError>(a@)
                },
    {
        let ghost k = it.index() as int;
        let (band, outcome) = completion;
        if band == 0 || band > band_count {
            proof {
                assert(first_failure(results, k));
                lemma_collected_err(results, k);
            }
            return Err(RasterError::BandNotFound { requested: band, available: band_count });
        }
        let buffer = match outcome {
            Ok(buffer) => buffer,
            Err(e) => {
                proof {
                    assert(first_failure(results, k));
                    lemma_collected_err(results, k);
                }
                return Err(e);
            },
        };
        let array = match read_as_array(buffer, array_size) {
            Ok(array) => array,
            Err(e) => {
                proof {
                    assert(first_failure(results, k));
                    lemma_collected_err(results, k);
                }
                return Err(e);
            },
        };
        slots.set(band - 1, Some(array));
        proof {
            filled = filled.update(band - 1, k);
        }
    }
    let ghost arrays = Seq::new(results.len(), |i: int| results[i]->Ok_0);
    proof {
        assert(!exists|k: int| first_failure(results, k));
        assert forall|b: int| 0 <= b < band_count && (#[trigger] filled[b]) >= 0 implies fills_slot(
            completions@,
            b + 1,
            filled[b],
        ) by {}
    }
    let mut bands: Vec<SampleArray2D<S>> = Vec::new();
    for slot in it: slots.into_iter()
        invariant
            it.seq() == slots@,
            slots@.len() == band_count,
            filled.len() == band_count,
            bands@.len() == it.index(),
            results == Seq::new(
                completions@.len(),
                |k: int| completion_array(band_count, completions@[k], array_size),
            ),
            forall|j: int| 0 <= j < results.len() ==> (#[trigger] results[j]) is Ok,
            arrays == Seq::new(results.len(), |i: int| results[i]->Ok_0),
            forall|b: int|
                0 <= b < band_count && (#[trigger] filled[b]) < 0 ==> slots@[b] is None
                    && !delivered(completions@, b + 1),
            forall|b: int|
                0 <= b < band_count && (#[trigger] filled[b]) >= 0 ==> {
                    &&& fills_slot(completions@, b + 1, filled[b])
                    &&& slots@[b] matches Some(a)
                    &&& results[filled[b]] == Ok::<Grid2<S>, RasterError>(a@)
                },
            forall|b: int|
                0 <= b < it.index() ==> (#[trigger] filled[b]) >= 0 && bands@[b]@
                    == arrays[filled[b]],
    {
        let ghost i = it.index() as int;
        match slot {
            Some(array) => {
                bands.push(array);
            },
            None => {
                proof {
                    assert(filled[i] < 0);
                    assert forall|b: int| 1 <= b < i + 1 implies #[trigger] delivered(
                        completions@,
                        b,
                    ) by {
                        assert(filled[b - 1] >= 0);
                        assert(completions@[filled[b - 1]].0 == b);
                    }
                    assert(first_missing(completions@, band_count, i + 1));
                    let c = choose|c: int| first_missing(completions@, band_count, c);
                    lemma_first_missing_unique(completions@, band_count, c, i + 1);
                }
                return Err(RasterError::ReadFailure { band: bands.len() + 1 });
            },
        }
    }
    proof {
        assert forall|b: int| !first_missing(completions@, band_count, b) by {
            if 1 <= b <= band_count {
                assert(filled[b - 1] >= 0);
                assert(completions@[filled[b - 1]].0 == b);
                assert(delivered(completions@, b));
            }
        }
        assert forall|i: int| 0 <= i < band_count implies grids(bands@)[i] == slotted(
            band_count,
            completions@,
            arrays,
        )[i] by {
            assert(filled[i] >= 0);
            lemma_fills_slot_unique(
                completions@,
                i + 1,
                slot_source(completions@, i + 1),
                filled[i],
            );
        }
        assert(grids(bands@) =~= slotted(band_count, completions@, arrays));
    }
    StackedArray3D::stack(&bands, array_size.1, array_size.0)
}

/// Shapes the one buffer that a source returned when it read all
/// `band_count` bands of a dataset in a single call, band after band, for an
/// output of `array_size` = (width, height). Nothing is stacked: the buffer
/// is laid out as `band_count` x `height` x `width` as it stands. Fails with
/// `ShapeMismatch` unless the buffer holds exactly that many samples of an
/// addressable shape; no bands and no samples give the empty stack.
pub fn read_full_dataset_3d<S>(band_count: usize, buffer: Vec<S>, array_size: (usize, usize)) -> (r:
    Result<StackedArray3D<S>, RasterError>)
    ensures
        viewed(r) == bulk_shaped(band_count, buffer@, array_size),
        band_count == 0 && buffer@.len() == 0 ==> viewed(r) == Ok::<Grid3<S>, RasterError>(
            empty_stack(array_size),
        ),
        r matches Ok(stack) ==> stack@.wf() && stack@.bands == band_count && stack@.rows
            == array_size.1 && stack@.cols == array_size.0 && stack@.cells == buffer@,
{
    if band_count == 0 && buffer.len() == 0 {
        assert(buffer@ =~= Seq::<S>::empty());
        Ok(StackedArray3D::empty(array_size.1, array_size.0))
    } else {
        assert(band_count * array_size.1 * array_size.0 == band_count * (array_size.1
            * array_size.0)) by (nonlinear_arith);
        StackedArray3D::from_shape_vec(band_count, array_size.1, array_size.0, buffer)
    }
}

/// No bands assemble to the empty stack, without failure.
pub proof fn lemma_assembled_empty<S>(array_size: (usize, usize))
    ensures
        assembled(Seq::<Result<Vec<S>, RasterError>>::empty(), array_size) == Ok::<
            Grid3<S>,
            RasterError,
        >(empty_stack(array_size)),
{
    let outcomes = Seq::<Result<Vec<S>, RasterError>>::empty();
    let results = Seq::new(outcomes.len(), |i: int| outcome_array(outcomes[i], array_size));
    lemma_collected_ok(results);
    let bands = Seq::new(results.len(), |i: int| results[i]->Ok_0);
    assert(stacked_cells(bands) =~= Seq::<S>::empty());
}

/// A fan-out over no bands that nothing completed assembles to the empty
/// stack, without failure.
pub proof fn lemma_fanned_in_empty<S>(array_size: (usize, usize))
    ensures
        fanned_in(0, Seq::<(usize, Result<Vec<S>, RasterError>)>::empty(), array_size) == Ok::<
            Grid3<S>,
            RasterError,
        >(empty_stack(array_size)),
{
    let completions = Seq::<(usize, Result<Vec<S>, RasterError>)>::empty();
    let results = Seq::new(
        completions.len(),
        |k: int| completion_array(0, completions[k], array_size),
    );
    lemma_collected_ok(results);
    let arrays = Seq::new(results.len(), |i: int| results[i]->Ok_0);
    assert(stacked_cells(slotted(0, completions, arrays)) =~= Seq::<S>::empty());
}

/// The stack is in band order: where the bands of a dataset assemble, there
/// are as many bands in the stack as were read, and band `i` of the stack
/// is, cell for cell, the array that reading band `i + 1` alone gives.
pub proof fn lemma_assembled_bands<S>(
    outcomes: Seq<Result<Vec<S>, RasterError>>,
    array_size: (usize, usize),
)
    requires
        assembled(outcomes, array_size) is Ok,
    ensures
        assembled(outcomes, array_size)->Ok_0.wf(),
        assembled(outcomes, array_size)->Ok_0.bands == outcomes.len(),
        forall|i: int|
            0 <= i < outcomes.len() ==> outcome_array(#[trigger] outcomes[i], array_size) == Ok::<
                Grid2<S>,
                RasterError,
            >(assembled(outcomes, array_size)->Ok_0.band(i)),
{
    let results = Seq::new(outcomes.len(), |i: int| outcome_array(outcomes[i], array_size));
    lemma_collected_is_ok(results);
    lemma_collected_ok(results);
    let bands = Seq::new(results.len(), |i: int| results[i]->Ok_0);
    let rows = array_size.1 as nat;
    let cols = array_size.0 as nat;
    lemma_stacked_cells(bands, rows, cols);
    let stack = assembled(outcomes, array_size)->Ok_0;
    assert forall|i: int| 0 <= i < outcomes.len() implies outcome_array(
        #[trigger] outcomes[i],
        array_size,
    ) == Ok::<Grid2<S>, RasterError>(stack.band(i)) by {
        assert(results[i] is Ok);
        assert(bands[i].wf());
        assert(stacked_cells(bands).subrange(i * (rows * cols), (i + 1) * (rows * cols))
            == bands[i].cells);
    }
}

/// The stack of a fan-out is in band order, whatever the order of arrival:
/// where the completions assemble, there are `band_count` bands in the
/// stack, and band `i` of the stack is, cell for cell, the array that the
/// completion in the slot of band `i + 1` gives on its own.
pub proof fn lemma_fanned_in_bands<S>(
    band_count: usize,
    completions: Seq<(usize, Result<Vec<S>, RasterError>)>,
    array_size: (usize, usize),
)
    requires
        fanned_in(band_count, completions, array_size) is Ok,
    ensures
        fanned_in(band_count, completions, array_size)->Ok_0.wf(),
        fanned_in(band_count, completions, array_size)->Ok_0.bands == band_count,
        forall|i: int|
            0 <= i < band_count ==> fills_slot(
                completions,
                i + 1,
                #[trigger] slot_source(completions, i + 1),
            ) && outcome_array(completions[slot_source(completions, i + 1)].1, array_size) == Ok::<
                Grid2<S>,
                RasterError,
            >(fanned_in(band_count, completions, array_size)->Ok_0.band(i)),
{
    let results = Seq::new(
        completions.len(),
        |k: int| completion_array(band_count, completions[k], array_size),
    );
    lemma_collected_is_ok(results);
    lemma_collected_ok(results);
    let arrays = Seq::new(results.len(), |i: int| results[i]->Ok_0);
    let bands = slotted(band_count, completions, arrays);
    let rows = array_size.1 as nat;
    let cols = array_size.0 as nat;
    lemma_stacked_cells(bands, rows, cols);
    let stack = fanned_in(band_count, completions, array_size)->Ok_0;
    assert forall|i: int| 0 <= i < band_count implies fills_slot(
        completions,
        i + 1,
        #[trigger] slot_source(completions, i + 1),
    ) && outcome_array(completions[slot_source(completions, i + 1)].1, array_size) == Ok::<
        Grid2<S>,
        RasterError,
    >(stack.band(i)) by {
        lemma_all_delivered(completions, band_count, i + 1);
        lemma_delivered_fills_slot(completions, i + 1);
        let k = slot_source(completions, i + 1);
        assert(results[k] is Ok);
        assert(bands[i] == arrays[k]);
        assert(bands[i].wf());
        assert(stacked_cells(bands).subrange(i * (rows * cols), (i + 1) * (rows * cols))
            == bands[i].cells);
    }
}

/// The three ways to assemble a dataset agree. Let a source have delivered
/// the same samples three times: `outcomes[i]` for band `i + 1` read on its
/// own, the same to the tasks of a fan-out that read every band and arrived
/// in any order, and the same, band after band, in one buffer. Then the
/// fan-out gives a stack exactly when the bands read one after another do;
/// where they do, all three give the same stack; and where every band was
/// read in full, the one buffer gives a stack exactly when they do.
pub proof fn lemma_paths_agree<S>(
    outcomes: Seq<Result<Vec<S>, RasterError>>,
    completions: Seq<(usize, Result<Vec<S>, RasterError>)>,
    bulk: Seq<S>,
    array_size: (usize, usize),
)
    requires
        outcomes.len() <= usize::MAX,
        forall|i: int| 0 <= i < outcomes.len() ==> (#[trigger] outcomes[i]) is Ok,
        forall|k: int|
            0 <= k < completions.len() ==> 1 <= (#[trigger] completions[k]).0 <= outcomes.len()
                && completions[k].1 is Ok && completions[k].1->Ok_0@ == outcomes[completions[k].0
                - 1]->Ok_0@,
        forall|b: int| 1 <= b <= outcomes.len() ==> #[trigger] delivered(completions, b),
        bulk == joined(outcomes),
    ensures
        fanned_in(outcomes.len() as usize, completions, array_size) is Ok <==> assembled(
            outcomes,
            array_size,
        ) is Ok,
        assembled(outcomes, array_size) is Ok ==> fanned_in(
            outcomes.len() as usize,
            completions,
            array_size,
        ) == assembled(outcomes, array_size) && bulk_shaped(
            outcomes.len() as usize,
            bulk,
            array_size,
        ) == assembled(outcomes, array_size),
        all_in_full(outcomes, array_size) ==> (bulk_shaped(
            outcomes.len() as usize,
            bulk,
            array_size,
        ) is Ok <==> assembled(outcomes, array_size) is Ok),
{
    let n = outcomes.len();
    let band_count = n as usize;
    let rows = array_size.1;
    let cols = array_size.0;
    assert(rows * cols == array_size.0 * array_size.1) by (nonlinear_arith)
        requires
            rows == array_size.1,
            cols == array_size.0,
    ;
    let one_by_one = Seq::new(n, |i: int| outcome_array(outcomes[i], array_size));
    let fanned = Seq::new(
        completions.len(),
        |k: int| completion_array(band_count, completions[k], array_size),
    );
    assert forall|k: int| 0 <= k < completions.len() implies #[trigger] fanned[k]
        == one_by_one[completions[k].0 - 1] by {
        assert(outcomes[completions[k].0 - 1] is Ok);
    }
    if exists|i: int| 0 <= i < n && (#[trigger] one_by_one[i]) is Err {
        let i = choose|i: int| 0 <= i < n && (#[trigger] one_by_one[i]) is Err;
        lemma_has_first_failure(one_by_one, i);
        lemma_collected_err(one_by_one, choose|k: int| first_failure(one_by_one, k));
        assert(delivered(completions, i + 1));
        let k = choose|k: int| 0 <= k < completions.len() && (#[trigger] completions[k]).0 == i + 1;
        assert(fanned[k] == one_by_one[i]);
        lemma_has_first_failure(fanned, k);
        lemma_collected_err(fanned, choose|c: int| first_failure(fanned, c));
        if all_in_full(outcomes, array_size) {
            assert(outcomes[i] is Ok);
            assert(!addressable2(rows as nat, cols as nat));
            assert(!addressable3(n, rows as nat, cols as nat)) by (nonlinear_arith)
                requires
                    axis_extent(rows as nat) * axis_extent(cols as nat) > isize::MAX,
                    axis_extent(n) >= 1,
                    axis_extent(rows as nat) >= 1,
                    axis_extent(cols as nat) >= 1,
                    addressable3(n, rows as nat, cols as nat) == (axis_extent(n) * axis_extent(
                        rows as nat,
                    ) * axis_extent(cols as nat) <= isize::MAX),
            ;
        }
    } else {
        assert forall|i: int| 0 <= i < n implies (#[trigger] one_by_one[i]) is Ok by {}
        assert forall|k: int| 0 <= k < completions.len() implies (#[trigger] fanned[k]) is Ok by {
            assert(one_by_one[completions[k].0 - 1] is Ok);
        }
        lemma_collected_ok(one_by_one);
        lemma_collected_ok(fanned);
        let bands = Seq::new(n, |i: int| one_by_one[i]->Ok_0);
        let arrays = Seq::new(fanned.len(), |k: int| fanned[k]->Ok_0);
        assert forall|b: int| !first_missing(completions, band_count, b) by {
            if 1 <= b <= n {
                assert(delivered(completions, b));
            }
        }
        assert forall|i: int| 0 <= i < n implies slotted(band_count, completions, arrays)[i]
            == bands[i] by {
            assert(delivered(completions, i + 1));
            lemma_delivered_fills_slot(completions, i + 1);
            let k = slot_source(completions, i + 1);
            assert(fanned[k] == one_by_one[completions[k].0 - 1]);
        }
        assert(slotted(band_count, completions, arrays) =~= bands);
        assert forall|i: int| 0 <= i < n implies (#[trigger] outcomes[i]) is Ok && outcome_array(
            outcomes[i],
            array_size,
        ) is Ok by {
            assert(one_by_one[i] is Ok);
        }
        lemma_joined_is_stacked(outcomes, array_size);
        assert(bands =~= Seq::new(n, |i: int| outcome_array(outcomes[i], array_size)->Ok_0));
        assert(all_shaped(bands, rows as nat, cols as nat)) by {
            assert forall|i: int| 0 <= i < n implies (#[trigger] bands[i]).wf() && bands[i].rows
                == rows as nat && bands[i].cols == cols as nat by {
                assert(one_by_one[i] is Ok);
            }
        }
        lemma_stacked_cells(bands, rows as nat, cols as nat);
        assert(n * rows * cols == n * (rows * cols)) by (nonlinear_arith);
        if n == 0 {
            assert(bulk =~= Seq::<S>::empty());
        }
    }
}

/// There is at most one first failure.
pub proof fn lemma_first_failure_unique<T>(results: Seq<Result<T, RasterError>>, a: int, b: int)
    requires
        first_failure(results, a),
        first_failure(results, b),
    ensures
        a == b,
{
    if a < b {
        assert(results[a] is Ok);
    }
    if b < a {
        assert(results[b] is Ok);
    }
}

/// Where some result failed, one failed first.
pub proof fn lemma_has_first_failure<T>(results: Seq<Result<T, RasterError>>, i: int)
    requires
        0 <= i < results.len(),
        results[i] is Err,
    ensures
        exists|k: int| first_failure(results, k),
    decreases i,
{
    if exists|j: int| 0 <= j < i && (#[trigger] results[j]) is Err {
        let j = choose|j: int| 0 <= j < i && (#[trigger] results[j]) is Err;
        lemma_has_first_failure(results, j);
    } else {
        assert(first_failure(results, i));
    }
}

/// Results that all succeeded are collected as they stand.
pub proof fn lemma_collected_ok<T>(results: Seq<Result<T, RasterError>>)
    requires
        forall|i: int| 0 <= i < results.len() ==> (#[trigger] results[i]) is Ok,
    ensures
        collected(results) == Ok::<Seq<T>, RasterError>(
            Seq::new(results.len(), |i: int| results[i]->Ok_0),
        ),
{
    assert forall|k: int| !first_failure(results, k) by {
        if 0 <= k < results.len() {
            assert(results[k] is Ok);
        }
    }
}

/// Results of which one failed first are collected as that failure.
pub proof fn lemma_collected_err<T>(results: Seq<Result<T, RasterError>>, k: int)
    requires
        first_failure(results, k),
    ensures
        collected(results) == Err::<Seq<T>, RasterError>(results[k]->Err_0),
{
    lemma_first_failure_unique(results, choose|c: int| first_failure(results, c), k);
}

/// Results that were collected all succeeded.
pub proof fn lemma_collected_is_ok<T>(results: Seq<Result<T, RasterError>>)
    requires
        collected(results) is Ok,
    ensures
        forall|i: int| 0 <= i < results.len() ==> (#[trigger] results[i]) is Ok,
    decreases results.len(),
{
    if exists|i: int| 0 <= i < results.len() && (#[trigger] results[i]) is Err {
        let i = choose|i: int| 0 <= i < results.len() && (#[trigger] results[i]) is Err;
        lemma_has_first_failure(results, i);
    }
}

/// At most one completion fills the slot of a band.
pub proof fn lemma_fills_slot_unique<S>(
    completions: Seq<(usize, Result<Vec<S>, RasterError>)>,
    band: int,
    a: int,
    b: int,
)
    requires
        fills_slot(completions, band, a),
        fills_slot(completions, band, b),
    ensures
        a == b,
{
    if a < b {
        assert(completions[b].0 != band);
    }
    if b < a {
        assert(completions[a].0 != band);
    }
}

/// At most one band is the first that nothing read.
pub proof fn lemma_first_missing_unique<S>(
    completions: Seq<(usize, Result<Vec<S>, RasterError>)>,
    band_count: usize,
    a: int,
    b: int,
)
    requires
        first_missing(completions, band_count, a),
        first_missing(completions, band_count, b),
    ensures
        a == b,
{
    if a < b {
        assert(delivered(completions, a));
    }
    if b < a {
        assert(delivered(completions, b));
    }
}

/// Where no band is the first that nothing read, every band was read.
pub proof fn lemma_all_delivered<S>(
    completions: Seq<(usize, Result<Vec<S>, RasterError>)>,
    band_count: usize,
    band: int,
)
    requires
        forall|b: int| !first_missing(completions, band_count, b),
        1 <= band <= band_count,
    ensures
        delivered(completions, band),
    decreases band,
{
    if !delivered(completions, band) {
        assert forall|b: int| 1 <= b < band implies #[trigger] delivered(completions, b) by {
            lemma_all_delivered(completions, band_count, b);
        }
        assert(first_missing(completions, band_count, band));
    }
}

/// From a completion that read a band on, one is the last that read it.
pub proof fn lemma_last_delivery<S>(
    completions: Seq<(usize, Result<Vec<S>, RasterError>)>,
    band: int,
    k: int,
)
    requires
        0 <= k < completions.len(),
        completions[k].0 == band,
    ensures
        exists|l: int| fills_slot(completions, band, l),
    decreases completions.len() - k,
{
    if exists|j: int| k < j < completions.len() && (#[trigger] completions[j]).0 == band {
        let j = choose|j: int| k < j < completions.len() && (#[trigger] completions[j]).0 == band;
        lemma_last_delivery(completions, band, j);
    } else {
        assert(fills_slot(completions, band, k));
    }
}

/// A band that some completion read has a completion that fills its slot.
pub proof fn lemma_delivered_fills_slot<S>(
    completions: Seq<(usize, Result<Vec<S>, RasterError>)>,
    band: int,
)
    requires
        delivered(completions, band),
    ensures
        fills_slot(completions, band, slot_source(completions, band)),
    decreases completions.len(),
{
    let k = choose|k: int| 0 <= k < completions.len() && (#[trigger] completions[k]).0 == band;
    lemma_last_delivery(completions, band, k);
}

/// Where every band was read in full, the joined samples are those of the
/// stacked arrays.
pub proof fn lemma_joined_is_stacked<S>(
    outcomes: Seq<Result<Vec<S>, RasterError>>,
    array_size: (usize, usize),
)
    requires
        forall|i: int|
            0 <= i < outcomes.len() ==> (#[trigger] outcomes[i]) is Ok && outcome_array(
                outcomes[i],
                array_size,
            ) is Ok,
    ensures
        joined(outcomes) == stacked_cells(
            Seq::new(outcomes.len(), |i: int| outcome_array(outcomes[i], array_size)->Ok_0),
        ),
    decreases outcomes.len(),
{
    let bands = Seq::new(outcomes.len(), |i: int| outcome_array(outcomes[i], array_size)->Ok_0);
    if outcomes.len() == 0 {
    } else {
        let front = outcomes.drop_last();
        assert forall|i: int| 0 <= i < front.len() implies (#[trigger] front[i]) is Ok
            && outcome_array(front[i], array_size) is Ok by {
            assert(front[i] == outcomes[i]);
        }
        lemma_joined_is_stacked(front, array_size);
        assert(bands.drop_last() =~= Seq::new(
            front.len(),
            |i: int| outcome_array(front[i], array_size)->Ok_0,
        ));
        assert(outcomes.last() is Ok);
        assert(bands.last().cells == outcomes.last()->Ok_0@);
    }
}

} // verus!
