use normalisation::calibrator::{initial_state, next_state, CalibrationState, StageOutcome};
use normalisation::index::BeadsetIndex;
use normalisation::outliers::Outliers;
use normalisation::pipeline::Normalise;
use normalisation::points::IntensityPoint;
use normalisation::sort::sort_by_probe_id;
use normalisation::transpose::transpose_matrix_in_place;
use normalisation::NormalisationError;

fn point(v: u64) -> IntensityPoint {
    IntensityPoint { x: v, y: v, ratio: v }
}

/// Twenty ascending points: thresholds are lower = min(s[4], s[0]) = 0 and
/// upper = max(s[15], s[19]) = 190, so exactly the first and last point are
/// rejected, and every survivor lies strictly between the thresholds.
#[test]
fn outlier_bounds_on_ascending_group() {
    let mut data: Vec<IntensityPoint> = (0..20).map(|i| point(i * 10)).collect();
    let removed = Outliers::remove_outliers_parallelised(&mut data).unwrap();
    assert_eq!(removed, vec![(0, point(0)), (19, point(190))]);
    let expected: Vec<IntensityPoint> = (1..19).map(|i| point(i * 10)).collect();
    assert_eq!(data, expected);
    for p in &data {
        assert!(0 < p.x && p.x < 190);
        assert!(0 < p.y && p.y < 190);
        assert!(0 < p.ratio && p.ratio < 190);
    }
}

/// The same group fed in descending order: the thresholds come off the
/// sorted series, so the same two extreme values leave, now at the opposite
/// ends. If the series were ranked unsorted, the rank values would cross
/// and every point would be rejected.
#[test]
fn outlier_thresholds_rank_the_sorted_series() {
    let mut data: Vec<IntensityPoint> = (0..20).rev().map(|i| point(i * 10)).collect();
    let removed = Outliers::remove_outliers_parallelised(&mut data).unwrap();
    assert_eq!(removed, vec![(0, point(190)), (19, point(0))]);
    assert_eq!(data.len(), 18);
    for p in &data {
        assert!(0 < p.x && p.x < 190);
    }
}

/// The smallest group the filter takes: five distinct points. The lower
/// threshold is the smallest value and the upper the largest, so the two
/// extremes leave and the middle three stay.
#[test]
fn outlier_filter_on_five_points() {
    let mut data: Vec<IntensityPoint> = vec![
        point(30),
        point(10),
        point(50),
        point(20),
        point(40),
    ];
    let removed = Outliers::remove_outliers_parallelised(&mut data).unwrap();
    assert_eq!(removed, vec![(1, point(10)), (2, point(50))]);
    assert_eq!(data, vec![point(30), point(20), point(40)]);
}

/// Ten points clustered at one value: every point sits at both thresholds,
/// so the whole group is rejected, the error comes back, and the caller's
/// data is left exactly as it was.
#[test]
fn empty_group_skip_leaves_data_untouched() {
    let mut data: Vec<IntensityPoint> = (0..10).map(|_| point(5)).collect();
    let r = Outliers::remove_outliers_parallelised(&mut data);
    assert_eq!(r, Err(NormalisationError::EmptyGroup));
    assert_eq!(data, (0..10).map(|_| point(5)).collect::<Vec<_>>());
}

/// The unconditional variant keeps the survivors and forgets the rest.
#[test]
fn remove_outliers_retains_survivors() {
    let mut data: Vec<IntensityPoint> = (0..20).map(|i| point(i * 10)).collect();
    Outliers::remove_outliers(&mut data);
    let expected: Vec<IntensityPoint> = (1..19).map(|i| point(i * 10)).collect();
    assert_eq!(data, expected);
}

/// The unconditional variant may empty a group.
#[test]
fn remove_outliers_may_empty_the_group() {
    let mut data: Vec<IntensityPoint> = (0..10).map(|_| point(7)).collect();
    Outliers::remove_outliers(&mut data);
    assert!(data.is_empty());
}

/// One pipeline run around a correction: points leave at their positions,
/// the survivors are corrected, the removed points come back unchanged at
/// their original indices, and the length is restored.
#[test]
fn removal_and_reinsertion_preserve_layout() {
    let mut data: Vec<u64> = (0..10).collect();
    let positions: Vec<usize> = vec![2, 5, 9];
    let removed = Normalise::remove_at_positions(&mut data, &positions);
    assert_eq!(removed, vec![(2, 2), (5, 5), (9, 9)]);
    assert_eq!(data, vec![0, 1, 3, 4, 6, 7, 8]);
    // the correction reshapes the survivors but keeps their number
    for v in data.iter_mut() {
        *v += 100;
    }
    Normalise::reinsert_outliers(&mut data, &removed);
    assert_eq!(data, vec![100, 101, 2, 103, 104, 5, 106, 107, 108, 9]);
}

/// Reinsertion alone: empty removal list, nothing changes.
#[test]
fn reinsert_nothing() {
    let mut data: Vec<u64> = vec![4, 5, 6];
    Normalise::reinsert_outliers(&mut data, &Vec::new());
    assert_eq!(data, vec![4, 5, 6]);
}

/// Removing every point and reinserting restores the group exactly.
#[test]
fn remove_all_then_reinsert_is_identity() {
    let mut data: Vec<i64> = vec![-3, 8, 0, 11];
    let positions: Vec<usize> = vec![0, 1, 2, 3];
    let removed = Normalise::remove_at_positions(&mut data, &positions);
    assert!(data.is_empty());
    Normalise::reinsert_outliers(&mut data, &removed);
    assert_eq!(data, vec![-3, 8, 0, 11]);
}

/// The index built from a layout and a manifest: per beadset, the ascending
/// positions and the probe ids found there.
#[test]
fn index_groups_positions_by_beadset() {
    let probe_ids: Vec<u32> = vec![10, 20, 30, 40, 50];
    let addresses: Vec<u32> = vec![10, 20, 30, 40, 50];
    let beadsets: Vec<i32> = vec![1, 2, 1, 2, 1];
    let names: Vec<i32> = vec![1, 2];
    let index = BeadsetIndex::process_vectors(&probe_ids, &addresses, &beadsets, &names);
    assert_eq!(index.names, vec![1, 2]);
    assert_eq!(index.positions, vec![vec![0, 2, 4], vec![1, 3]]);
    assert_eq!(index.ids, vec![vec![10, 30, 50], vec![20, 40]]);
}

/// A probe whose address the manifest does not carry belongs to no group;
/// a repeated address counts under the beadset of its first manifest entry.
#[test]
fn index_skips_unlisted_probes() {
    let probe_ids: Vec<u32> = vec![5, 10, 15, 20];
    let addresses: Vec<u32> = vec![10, 10, 20];
    let beadsets: Vec<i32> = vec![3, 4, 4];
    let names: Vec<i32> = vec![3, 4];
    let index = BeadsetIndex::process_vectors(&probe_ids, &addresses, &beadsets, &names);
    assert_eq!(index.positions, vec![vec![1], vec![3]]);
    assert_eq!(index.ids, vec![vec![10], vec![20]]);
}

/// Round trip of the grouping: slicing an individual into beadset groups
/// and reconstructing by probe id gives back the original order exactly.
#[test]
fn grouping_round_trip_restores_order() {
    let probe_ids: Vec<u32> = vec![10, 20, 30, 40, 50];
    let addresses: Vec<u32> = vec![10, 20, 30, 40, 50];
    let beadsets: Vec<i32> = vec![1, 2, 1, 2, 1];
    let names: Vec<i32> = vec![1, 2];
    let index = BeadsetIndex::process_vectors(&probe_ids, &addresses, &beadsets, &names);
    let data: Vec<u64> = vec![700, 701, 702, 703, 704];
    let groups = index.populate_vectors(&data);
    assert_eq!(groups, vec![vec![700, 702, 704], vec![701, 703]]);
    let out = index.recontruct_individual_vector(&groups);
    assert_eq!(out, data);
}

/// Reconstruction merges the groups in ascending probe-id order even when
/// the groups interleave irregularly.
#[test]
fn reconstruction_sorts_by_probe_id() {
    let probe_ids: Vec<u32> = vec![100, 200, 300];
    let addresses: Vec<u32> = vec![100, 200, 300];
    let beadsets: Vec<i32> = vec![9, 8, 9];
    let names: Vec<i32> = vec![8, 9];
    let index = BeadsetIndex::process_vectors(&probe_ids, &addresses, &beadsets, &names);
    assert_eq!(index.positions, vec![vec![1], vec![0, 2]]);
    let data: Vec<i64> = vec![-1, -2, -3];
    let groups = index.populate_vectors(&data);
    assert_eq!(groups, vec![vec![-2], vec![-1, -3]]);
    let out = index.recontruct_individual_vector(&groups);
    assert_eq!(out, vec![-1, -2, -3]);
}

/// A beadset name that matches no probe gets an empty group, which the
/// reconstruction simply passes over.
#[test]
fn index_with_unmatched_beadset_name() {
    let probe_ids: Vec<u32> = vec![10, 20];
    let addresses: Vec<u32> = vec![10, 20];
    let beadsets: Vec<i32> = vec![1, 1];
    let names: Vec<i32> = vec![1, 7];
    let index = BeadsetIndex::process_vectors(&probe_ids, &addresses, &beadsets, &names);
    assert_eq!(index.positions, vec![vec![0, 1], vec![]]);
    let data: Vec<u64> = vec![500, 600];
    let groups = index.populate_vectors(&data);
    assert_eq!(groups, vec![vec![500, 600], vec![]]);
    let out = index.recontruct_individual_vector(&groups);
    assert_eq!(out, vec![500, 600]);
}

/// Taking out an empty position list removes nothing.
#[test]
fn remove_at_no_positions() {
    let mut data: Vec<u64> = vec![9, 8, 7];
    let removed = Normalise::remove_at_positions(&mut data, &Vec::new());
    assert!(removed.is_empty());
    assert_eq!(data, vec![9, 8, 7]);
}

/// The pair sort: ascending probe ids, payloads carried along.
#[test]
fn sort_pairs_by_probe_id() {
    let mut v: Vec<(u32, u64)> = vec![(30, 3), (10, 1), (20, 2)];
    sort_by_probe_id(&mut v);
    assert_eq!(v, vec![(10, 1), (20, 2), (30, 3)]);
}

/// Transposition swaps rows and columns exactly; an empty matrix stays.
#[test]
fn transpose_swaps_rows_and_columns() {
    let mut m: Vec<Vec<i64>> = vec![vec![1, 2, 3], vec![4, 5, 6]];
    transpose_matrix_in_place(&mut m);
    assert_eq!(m, vec![vec![1, 4], vec![2, 5], vec![3, 6]]);
    let mut e: Vec<Vec<i64>> = Vec::new();
    transpose_matrix_in_place(&mut e);
    assert!(e.is_empty());
}

/// Four sound stages walk translate, rotate, shear, scale and complete.
#[test]
fn calibration_completes_after_four_sound_stages() {
    let mut s = initial_state();
    for k in 0u8..4 {
        assert_eq!(s, CalibrationState::Stage(k));
        s = next_state(s, StageOutcome::Sound);
    }
    assert_eq!(s, CalibrationState::Complete);
    assert_eq!(next_state(s, StageOutcome::Sound), CalibrationState::Complete);
}

/// Degenerate geometry at any stage skips the group for good.
#[test]
fn calibration_skips_on_degenerate_geometry() {
    let mut s = initial_state();
    s = next_state(s, StageOutcome::Sound);
    s = next_state(s, StageOutcome::Degenerate);
    assert_eq!(s, CalibrationState::Skipped);
    s = next_state(s, StageOutcome::Sound);
    assert_eq!(s, CalibrationState::Skipped);
}
