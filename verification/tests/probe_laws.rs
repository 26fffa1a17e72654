use supertable::probe_laws::{
    evidence_current, live_picks, live_slots, recalibration_due, restamp_laws, sample_rows,
    CellRouting, Pick, ProbeLaws, RecalibrationFault, Slot,
};

fn routing() -> CellRouting {
    CellRouting { n_cent: 4, dim: 8, column_known: true, width_for_k: vec![0, 3] }
}

#[test]
fn recalibration_skips_non_vector_cell_tables() {
    assert_eq!(recalibration_due(None, true), Ok(false));
    assert_eq!(recalibration_due(None, false), Ok(false));
}

#[test]
fn laws_are_measured_anew_where_there_are_some() {
    assert_eq!(recalibration_due(Some(&routing()), true), Ok(true));
    let mut fresh = routing();
    fresh.width_for_k = vec![0, 0];
    assert_eq!(recalibration_due(Some(&fresh), true), Ok(false));
    let mut empty = routing();
    empty.n_cent = 0;
    assert_eq!(recalibration_due(Some(&empty), false), Ok(false));
    assert_eq!(
        recalibration_due(Some(&routing()), false),
        Err(RecalibrationFault::NoStorage)
    );
    let mut unknown = routing();
    unknown.column_known = false;
    assert_eq!(recalibration_due(Some(&unknown), true), Err(RecalibrationFault::MissingColumn));
}

fn slot(entry: usize, cell: u32, rows: u32) -> Slot {
    Slot { entry, cell, rows }
}

fn pick(entry: usize, cell: u32, ordinal: u32) -> Pick {
    Pick { entry, cell, ordinal }
}

#[test]
fn a_sample_is_spread_over_all_rows() {
    let slots = live_slots(&vec![slot(0, 7, 3), slot(0, 2, 0), slot(0, 1, 3), slot(1, 7, 4)]);
    assert_eq!(slots, vec![slot(0, 7, 3), slot(0, 1, 3), slot(1, 7, 4)]);
    // Rows 0, 2, 5 and 7 of ten.
    assert_eq!(
        sample_rows(&slots, 4),
        vec![pick(0, 1, 2), pick(0, 7, 0), pick(0, 7, 2), pick(1, 7, 1)]
    );
    assert_eq!(sample_rows(&slots, 100).len(), 10);
    assert!(sample_rows(&slots, 0).is_empty());
    assert!(sample_rows(&vec![], 4).is_empty());
}

#[test]
fn a_sample_has_exactly_as_many_rows_as_it_may() {
    for total in [257u32, 511, 512] {
        assert_eq!(sample_rows(&vec![slot(0, 0, total)], 256).len(), 256);
    }
}

#[test]
fn places_are_scaled_to_live_rows() {
    assert_eq!(live_picks(&vec![0, 25, 50, 75, 99], 100, 4), vec![0, 1, 2, 3]);
    assert_eq!(live_picks(&vec![0, 1, 2, 3], 4, 4), vec![0, 1, 2, 3]);
    assert_eq!(live_picks(&vec![3, 9], 0, 2), vec![1]);
    assert!(live_picks(&vec![1, 2], 10, 0).is_empty());
}

fn laws(width: Vec<u32>, fine: Vec<u32>) -> ProbeLaws {
    ProbeLaws { width_for_k: width, fine_for_k: fine }
}

#[test]
fn a_current_measurement_replaces_the_width_and_widens_the_depth() {
    let live = laws(vec![9, 9, 9], vec![5, 5, 5]);
    let measured = laws(vec![4, 0, 12], vec![7, 1, 0]);
    let stamp = restamp_laws(&live, &measured, true, false).expect("changed");
    assert_eq!(stamp.width_for_k, vec![4, 9, 12]);
    assert_eq!(stamp.fine_for_k, vec![7, 5, 5]);
}

#[test]
fn a_stale_measurement_only_widens() {
    let live = laws(vec![9, 9, 9], vec![5, 5, 5]);
    let stamp = restamp_laws(&live, &laws(vec![4, 0, 12], vec![1, 1, 1]), false, false).expect("changed");
    assert_eq!(stamp.width_for_k, vec![9, 9, 12]);
    assert_eq!(stamp.fine_for_k, vec![5, 5, 5]);
    assert!(restamp_laws(&live, &laws(vec![4, 0, 9], vec![1, 1, 1]), false, false).is_none());
    assert!(restamp_laws(&live, &laws(vec![4, 0, 9], vec![1, 1, 1]), false, true).is_some());
}

#[test]
fn evidence_is_current_while_the_files_are_the_same() {
    assert!(evidence_current(&vec![1, 2], &vec![2, 1, 2]));
    assert!(!evidence_current(&vec![1, 2], &vec![1, 2, 3]));
    assert!(!evidence_current(&vec![1, 2, 3], &vec![1, 2]));
}
