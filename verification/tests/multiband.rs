use raster_window::error::RasterError;
use raster_window::grid::{SampleArray2D, StackedArray3D};
use raster_window::multiband::{
    band_indices, read_full_dataset_3d, read_multiband_3d, read_multiband_parallel,
};
use raster_window::reader::read_as_array;

fn band_buffer(band: usize, len: usize) -> Vec<f64> {
    (0..len).map(|i| band as f64 * 1000.0 + i as f64 * 0.25).collect()
}

fn bits(samples: &[f64]) -> Vec<u64> {
    samples.iter().map(|s| s.to_bits()).collect()
}

fn four_bands() -> Vec<Vec<f64>> {
    (1..=4).map(|band| band_buffer(band, 25 * 25)).collect()
}

#[test]
fn band_indices_count_from_one() {
    assert_eq!(band_indices(4), vec![1, 2, 3, 4]);
    assert_eq!(band_indices(1), vec![1]);
    assert_eq!(band_indices(0), Vec::<usize>::new());
}

#[test]
fn four_bands_stack_the_same_in_sequence_and_in_parallel() {
    let buffers = four_bands();
    let outcomes: Vec<Result<Vec<f64>, RasterError>> =
        buffers.iter().cloned().map(Ok).collect();
    let sequential = read_multiband_3d(outcomes, (25, 25)).unwrap();
    assert_eq!((sequential.bands(), sequential.rows(), sequential.cols()), (4, 25, 25));

    let arrival = [3usize, 1, 4, 2];
    let completions: Vec<(usize, Result<Vec<f64>, RasterError>)> =
        arrival.iter().map(|&band| (band, Ok(buffers[band - 1].clone()))).collect();
    let parallel = read_multiband_parallel(4, completions, (25, 25)).unwrap();
    assert_eq!((parallel.bands(), parallel.rows(), parallel.cols()), (4, 25, 25));

    assert_eq!(bits(sequential.as_slice()), bits(parallel.as_slice()));
    for band in 0..4 {
        for row in 0..25 {
            for col in 0..25 {
                let expected = buffers[band][row * 25 + col];
                assert_eq!(sequential.get(band, row, col), Some(&expected));
                assert_eq!(parallel.get(band, row, col), Some(&expected));
            }
        }
    }
}

#[test]
fn the_bulk_buffer_gives_the_same_stack() {
    let buffers = four_bands();
    let outcomes: Vec<Result<Vec<f64>, RasterError>> =
        buffers.iter().cloned().map(Ok).collect();
    let sequential = read_multiband_3d(outcomes, (25, 25)).unwrap();
    let bulk: Vec<f64> = buffers.iter().flatten().copied().collect();
    let direct = read_full_dataset_3d(4, bulk, (25, 25)).unwrap();
    assert_eq!((direct.bands(), direct.rows(), direct.cols()), (4, 25, 25));
    assert_eq!(bits(direct.as_slice()), bits(sequential.as_slice()));
}

#[test]
fn each_band_of_the_stack_is_the_band_read_alone() {
    let buffers: Vec<Vec<f64>> = (1..=3).map(|band| band_buffer(band, 6)).collect();
    let outcomes: Vec<Result<Vec<f64>, RasterError>> =
        buffers.iter().cloned().map(Ok).collect();
    let completions: Vec<(usize, Result<Vec<f64>, RasterError>)> =
        vec![(2, Ok(buffers[1].clone())), (3, Ok(buffers[2].clone())), (1, Ok(buffers[0].clone()))];
    let sequential = read_multiband_3d(outcomes, (3, 2)).unwrap();
    let parallel = read_multiband_parallel(3, completions, (3, 2)).unwrap();
    for i in 0..3 {
        let alone = read_as_array(buffers[i].clone(), (3, 2)).unwrap();
        for stack in [&sequential, &parallel] {
            let band = stack.band(i).unwrap();
            assert_eq!((band.rows(), band.cols()), (alone.rows(), alone.cols()));
            assert_eq!(bits(band.as_slice()), bits(alone.as_slice()));
        }
    }
    assert!(sequential.band(3).is_none());
}

#[test]
fn a_stack_lists_band_after_band() {
    let outcomes: Vec<Result<Vec<f64>, RasterError>> =
        vec![Ok(vec![1.0, 2.0]), Ok(vec![3.0, 4.0]), Ok(vec![5.0, 6.0])];
    let stack = read_multiband_3d(outcomes, (2, 1)).unwrap();
    assert_eq!(stack.as_slice(), &[1.0, 2.0, 3.0, 4.0, 5.0, 6.0]);
    assert_eq!(stack.get(2, 0, 1), Some(&6.0));
    assert_eq!(stack.into_raw_vec(), vec![1.0, 2.0, 3.0, 4.0, 5.0, 6.0]);
}

#[test]
fn a_dataset_without_bands_gives_the_empty_stack() {
    let sequential = read_multiband_3d(Vec::<Result<Vec<f64>, RasterError>>::new(), (25, 30));
    let sequential = sequential.unwrap();
    assert_eq!((sequential.bands(), sequential.rows(), sequential.cols()), (0, 30, 25));
    assert_eq!(sequential.as_slice().len(), 0);

    let parallel = read_multiband_parallel(
        0,
        Vec::<(usize, Result<Vec<f64>, RasterError>)>::new(),
        (25, 30),
    )
    .unwrap();
    assert_eq!((parallel.bands(), parallel.rows(), parallel.cols()), (0, 30, 25));

    let bulk = read_full_dataset_3d(0, Vec::<f64>::new(), (25, 30)).unwrap();
    assert_eq!((bulk.bands(), bulk.rows(), bulk.cols()), (0, 30, 25));
    assert!(bulk.band(0).is_none());
    assert_eq!(bulk.get(0, 0, 0), None);
}

#[test]
fn the_empty_stack_needs_no_addressable_shape() {
    let huge = (usize::MAX, usize::MAX);
    let sequential =
        read_multiband_3d(Vec::<Result<Vec<f64>, RasterError>>::new(), huge).unwrap();
    assert_eq!(sequential.bands(), 0);
    let bulk = read_full_dataset_3d(0, Vec::<f64>::new(), huge).unwrap();
    assert_eq!((bulk.bands(), bulk.rows(), bulk.cols()), (0, usize::MAX, usize::MAX));
}

#[test]
fn the_first_failing_band_decides_in_sequence() {
    let outcomes: Vec<Result<Vec<f64>, RasterError>> = vec![
        Ok(band_buffer(1, 4)),
        Err(RasterError::ReadFailure { band: 2 }),
        Err(RasterError::BandNotFound { requested: 3, available: 2 }),
    ];
    assert_eq!(
        read_multiband_3d(outcomes, (2, 2)).err(),
        Some(RasterError::ReadFailure { band: 2 })
    );
}

#[test]
fn a_short_band_fails_before_a_later_read_failure() {
    let outcomes: Vec<Result<Vec<f64>, RasterError>> = vec![
        Ok(band_buffer(1, 4)),
        Ok(band_buffer(2, 3)),
        Err(RasterError::ReadFailure { band: 3 }),
    ];
    assert_eq!(
        read_multiband_3d(outcomes, (2, 2)).err(),
        Some(RasterError::ShapeMismatch { bands: 1, rows: 2, cols: 2, actual: 3 })
    );
}

#[test]
fn the_first_failure_to_arrive_decides_in_parallel() {
    let completions: Vec<(usize, Result<Vec<f64>, RasterError>)> = vec![
        (3, Ok(band_buffer(3, 4))),
        (2, Err(RasterError::OpenFailure)),
        (1, Err(RasterError::ReadFailure { band: 1 })),
    ];
    assert_eq!(
        read_multiband_parallel(3, completions, (2, 2)).err(),
        Some(RasterError::OpenFailure)
    );
}

#[test]
fn a_fan_out_rejects_a_band_outside_the_dataset() {
    let beyond: Vec<(usize, Result<Vec<f64>, RasterError>)> =
        vec![(1, Ok(band_buffer(1, 4))), (3, Ok(band_buffer(3, 4)))];
    assert_eq!(
        read_multiband_parallel(2, beyond, (2, 2)).err(),
        Some(RasterError::BandNotFound { requested: 3, available: 2 })
    );
    let zero: Vec<(usize, Result<Vec<f64>, RasterError>)> = vec![(0, Ok(band_buffer(0, 4)))];
    assert_eq!(
        read_multiband_parallel(2, zero, (2, 2)).err(),
        Some(RasterError::BandNotFound { requested: 0, available: 2 })
    );
    let none: Vec<(usize, Result<Vec<f64>, RasterError>)> = vec![(1, Ok(band_buffer(1, 4)))];
    assert_eq!(
        read_multiband_parallel(0, none, (2, 2)).err(),
        Some(RasterError::BandNotFound { requested: 1, available: 0 })
    );
}

#[test]
fn a_fan_out_names_the_first_band_that_nothing_read() {
    let completions: Vec<(usize, Result<Vec<f64>, RasterError>)> =
        vec![(4, Ok(band_buffer(4, 4))), (1, Ok(band_buffer(1, 4)))];
    assert_eq!(
        read_multiband_parallel(4, completions, (2, 2)).err(),
        Some(RasterError::ReadFailure { band: 2 })
    );
    let nothing = Vec::<(usize, Result<Vec<f64>, RasterError>)>::new();
    assert_eq!(
        read_multiband_parallel(2, nothing, (2, 2)).err(),
        Some(RasterError::ReadFailure { band: 1 })
    );
}

#[test]
fn a_fan_out_rejects_a_short_band() {
    let completions: Vec<(usize, Result<Vec<f64>, RasterError>)> =
        vec![(2, Ok(band_buffer(2, 4))), (1, Ok(band_buffer(1, 5)))];
    assert_eq!(
        read_multiband_parallel(2, completions, (2, 2)).err(),
        Some(RasterError::ShapeMismatch { bands: 1, rows: 2, cols: 2, actual: 5 })
    );
}

#[test]
fn the_last_completion_of_a_band_fills_its_slot() {
    let completions: Vec<(usize, Result<Vec<f64>, RasterError>)> = vec![
        (1, Ok(vec![1.0, 1.0])),
        (2, Ok(vec![2.0, 2.0])),
        (1, Ok(vec![9.0, 9.0])),
    ];
    let stack = read_multiband_parallel(2, completions, (2, 1)).unwrap();
    assert_eq!(stack.as_slice(), &[9.0, 9.0, 2.0, 2.0]);
}

#[test]
fn the_bulk_buffer_must_hold_every_band() {
    assert_eq!(
        read_full_dataset_3d(4, band_buffer(1, 99), (5, 5)).err(),
        Some(RasterError::ShapeMismatch { bands: 4, rows: 5, cols: 5, actual: 99 })
    );
    assert_eq!(
        read_full_dataset_3d(0, band_buffer(1, 3), (5, 5)).err(),
        Some(RasterError::ShapeMismatch { bands: 0, rows: 5, cols: 5, actual: 3 })
    );
    let stack = read_full_dataset_3d(2, band_buffer(1, 12), (3, 2)).unwrap();
    assert_eq!((stack.bands(), stack.rows(), stack.cols()), (2, 2, 3));
    assert_eq!(stack.get(1, 1, 2), Some(&(1000.0 + 11.0 * 0.25)));
}

#[test]
fn bands_of_different_shapes_do_not_stack() {
    let bands = vec![
        SampleArray2D::from_shape_vec(2, 3, band_buffer(1, 6)).unwrap(),
        SampleArray2D::from_shape_vec(3, 2, band_buffer(2, 6)).unwrap(),
    ];
    assert_eq!(
        StackedArray3D::stack(&bands, 2, 3).err(),
        Some(RasterError::StackShapeMismatch { bands: 2, rows: 2, cols: 3 })
    );
}

#[test]
fn bands_of_another_shape_than_expected_do_not_stack() {
    let bands = vec![
        SampleArray2D::from_shape_vec(2, 3, band_buffer(1, 6)).unwrap(),
        SampleArray2D::from_shape_vec(2, 3, band_buffer(2, 6)).unwrap(),
    ];
    assert_eq!(
        StackedArray3D::stack(&bands, 3, 2).err(),
        Some(RasterError::StackShapeMismatch { bands: 2, rows: 3, cols: 2 })
    );
    let stack = StackedArray3D::stack(&bands, 2, 3).unwrap();
    assert_eq!((stack.bands(), stack.rows(), stack.cols()), (2, 2, 3));
    let mut expected = band_buffer(1, 6);
    expected.extend(band_buffer(2, 6));
    assert_eq!(stack.as_slice(), &expected[..]);
}

#[test]
fn no_bands_stack_to_the_empty_stack() {
    let bands: Vec<SampleArray2D<f64>> = Vec::new();
    let stack = StackedArray3D::stack(&bands, 7, 9).unwrap();
    assert_eq!((stack.bands(), stack.rows(), stack.cols()), (0, 7, 9));
    let empty = StackedArray3D::<f64>::empty(7, 9);
    assert_eq!((empty.bands(), empty.rows(), empty.cols()), (0, 7, 9));
}

#[test]
fn bands_without_cells_stack() {
    let bands = vec![
        SampleArray2D::from_shape_vec(0, 3, Vec::<f64>::new()).unwrap(),
        SampleArray2D::from_shape_vec(0, 3, Vec::<f64>::new()).unwrap(),
    ];
    let stack = StackedArray3D::stack(&bands, 0, 3).unwrap();
    assert_eq!((stack.bands(), stack.rows(), stack.cols()), (2, 0, 3));
    assert_eq!(stack.as_slice().len(), 0);
    let band = stack.band(1).unwrap();
    assert_eq!((band.rows(), band.cols()), (0, 3));
}

#[test]
fn a_stack_beyond_addressing_does_not_stack() {
    let widest = isize::MAX as usize;
    let bands = vec![
        SampleArray2D::from_shape_vec(0, widest, Vec::<f64>::new()).unwrap(),
        SampleArray2D::from_shape_vec(0, widest, Vec::<f64>::new()).unwrap(),
    ];
    assert_eq!(
        StackedArray3D::stack(&bands, 0, widest).err(),
        Some(RasterError::StackShapeMismatch { bands: 2, rows: 0, cols: widest })
    );
    let one = vec![SampleArray2D::from_shape_vec(0, widest, Vec::<f64>::new()).unwrap()];
    let stack = StackedArray3D::stack(&one, 0, widest).unwrap();
    assert_eq!((stack.bands(), stack.rows(), stack.cols()), (1, 0, widest));
}

#[test]
fn bands_beyond_addressing_fail_in_every_way() {
    let widest = isize::MAX as usize;
    let outcomes: Vec<Result<Vec<f64>, RasterError>> = vec![Ok(Vec::new()), Ok(Vec::new())];
    assert_eq!(
        read_multiband_3d(outcomes, (widest, 0)).err(),
        Some(RasterError::StackShapeMismatch { bands: 2, rows: 0, cols: widest })
    );
    let completions: Vec<(usize, Result<Vec<f64>, RasterError>)> =
        vec![(2, Ok(Vec::new())), (1, Ok(Vec::new()))];
    assert_eq!(
        read_multiband_parallel(2, completions, (widest, 0)).err(),
        Some(RasterError::StackShapeMismatch { bands: 2, rows: 0, cols: widest })
    );
    assert_eq!(
        read_full_dataset_3d(2, Vec::<f64>::new(), (widest, 0)).err(),
        Some(RasterError::ShapeMismatch { bands: 2, rows: 0, cols: widest, actual: 0 })
    );
}

#[test]
fn bands_of_uneven_length_fail_one_by_one_though_their_sum_fits() {
    let outcomes: Vec<Result<Vec<f64>, RasterError>> =
        vec![Ok(band_buffer(1, 3)), Ok(band_buffer(2, 5))];
    assert_eq!(
        read_multiband_3d(outcomes, (2, 2)).err(),
        Some(RasterError::ShapeMismatch { bands: 1, rows: 2, cols: 2, actual: 3 })
    );
    let mut bulk = band_buffer(1, 3);
    bulk.extend(band_buffer(2, 5));
    let stack = read_full_dataset_3d(2, bulk, (2, 2)).unwrap();
    assert_eq!((stack.bands(), stack.rows(), stack.cols()), (2, 2, 2));
}

#[test]
fn a_single_band_stacks_to_one_band() {
    let outcomes: Vec<Result<Vec<f64>, RasterError>> = vec![Ok(band_buffer(7, 6))];
    let stack = read_multiband_3d(outcomes, (3, 2)).unwrap();
    assert_eq!((stack.bands(), stack.rows(), stack.cols()), (1, 2, 3));
    let alone = read_as_array(band_buffer(7, 6), (3, 2)).unwrap();
    assert_eq!(stack.band(0), Some(alone));
}

#[test]
fn a_fan_out_in_band_order_gives_the_sequential_stack() {
    let buffers = four_bands();
    let outcomes: Vec<Result<Vec<f64>, RasterError>> =
        buffers.iter().cloned().map(Ok).collect();
    let completions: Vec<(usize, Result<Vec<f64>, RasterError>)> = band_indices(4)
        .into_iter()
        .map(|band| (band, Ok(buffers[band - 1].clone())))
        .collect();
    assert_eq!(
        read_multiband_parallel(4, completions, (25, 25)),
        read_multiband_3d(outcomes, (25, 25))
    );
}
