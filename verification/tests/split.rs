use supertable::cell_map::CellMap;
use supertable::split::{
    estimate_split_resident_bytes, live_split_extraction_jobs, next_wave, scan_cell_parents,
    select_split_batch, shrink_wave, split_batch_window_bytes, split_candidates, takes_bulk_path,
    ScannedEntry, SplitRules,
};
use supertable::superseded::SupersededCells;

fn map(pairs: &[(u32, u64)]) -> CellMap<u64> {
    let mut m = CellMap::new();
    for (cell, n) in pairs {
        m.insert(*cell, *n);
    }
    m
}

fn set(cells: &[u32]) -> CellMap<()> {
    let mut m = CellMap::new();
    for cell in cells {
        m.insert(*cell, ());
    }
    m
}

fn rules() -> SplitRules {
    SplitRules { candidate_floor: 150, doc_cap: 300 }
}

#[test]
fn select_split_batch_packs_largest_first_within_budget() {
    let dim = 128u32;
    let counts = map(&[(1, 1000), (2, 600), (3, 200), (4, 100), (5, 50)]);
    let budget = estimate_split_resident_bytes(1000, dim) + estimate_split_resident_bytes(200, dim);
    let batch = select_split_batch(&counts, &set(&[]), &rules(), dim, budget, usize::MAX);
    assert_eq!(
        batch,
        vec![1, 3],
        "largest first, middle skipped over budget, sub-floor cells (4, 5) excluded"
    );
}

#[test]
fn select_split_batch_always_admits_one() {
    let counts = map(&[(7, 1000), (9, 900)]);
    let batch = select_split_batch(&counts, &set(&[]), &rules(), 128, 1, usize::MAX);
    assert_eq!(batch, vec![7]);
}

#[test]
fn select_split_batch_respects_unsplittable_allowance_and_ties() {
    let counts = map(&[(3, 400), (8, 400), (1, 400), (6, 400)]);
    let batch = select_split_batch(&counts, &set(&[1]), &rules(), 128, u64::MAX, 2);
    assert_eq!(batch, vec![3, 6], "id-order ties, unsplittable 1 dropped, capped at 2");
}

#[test]
fn split_batch_window_survives_disabled_merge_ceiling() {
    let mib: u64 = 1024 * 1024;
    assert_eq!(split_batch_window_bytes(0), 4096 * mib, "0 falls back to the default");
    assert_eq!(split_batch_window_bytes(512), 512 * mib, "nonzero passes through");
    assert_eq!(
        split_batch_window_bytes(u64::MAX),
        u64::MAX,
        "saturates instead of overflowing"
    );
}

#[test]
fn resident_bytes_are_seven_for_each_number() {
    assert_eq!(estimate_split_resident_bytes(1000, 128), 896_000);
    assert_eq!(estimate_split_resident_bytes(u64::MAX, 2), u64::MAX);
    assert_eq!(estimate_split_resident_bytes(0, 128), 0);
}

#[test]
fn one_row_is_no_candidate_whatever_the_floor() {
    let low = SplitRules { candidate_floor: 0, doc_cap: 1 };
    assert_eq!(split_candidates(&map(&[(1, 1), (2, 2), (3, 5)]), &set(&[]), &low), vec![(3, 5), (2, 2)]);
    assert!(rules().split_overflow_needed(301));
    assert!(!rules().split_overflow_needed(300));
}

#[test]
fn a_quarter_of_the_grid_is_repacked_in_bulk() {
    assert!(takes_bulk_path(2, 8));
    assert!(!takes_bulk_path(1, 8));
    assert!(takes_bulk_path(1, 4));
    assert!(!takes_bulk_path(0, 0));
}

#[test]
fn a_wave_loses_no_cell() {
    let cost = |n: u64| estimate_split_resident_bytes(n, 2);
    let queue = vec![(1, 100), (9, 70), (2, 60), (3, 10)];
    let wave = next_wave(&queue, 8, 2, cost(110));
    assert_eq!(wave.cells, vec![(1, 100), (3, 10)]);
    assert_eq!(wave.bytes, cost(110));
    assert_eq!(wave.deferred, vec![(2, 60)]);
    assert_eq!(wave.outside, vec![9]);
    let one = shrink_wave(wave, 2);
    assert_eq!(one.cells, vec![(1, 100)]);
    assert_eq!(one.bytes, cost(100));
    assert_eq!(one.deferred, vec![(3, 10), (2, 60)]);
    let none = next_wave(&vec![(9, 1)], 8, 2, 0);
    assert!(none.cells.is_empty());
    assert_eq!(next_wave(&vec![(1, 100)], 8, 2, 0).cells, vec![(1, 100)]);
}

fn entries() -> Vec<ScannedEntry> {
    vec![
        ScannedEntry { superfile_id: 70, counts: vec![(1, 5), (2, 3)] },
        ScannedEntry { superfile_id: 71, counts: vec![(2, 4)] },
    ]
}

#[test]
fn cells_are_counted_over_all_files() {
    let (counts, parents) = scan_cell_parents(&entries(), None);
    assert_eq!(*counts.pairs(), vec![(1, 5), (2, 7)]);
    assert_eq!(*parents.pairs(), vec![(1, vec![70]), (2, vec![70, 71])]);
    let (counts, parents) = scan_cell_parents(&entries(), Some(&vec![1, 8]));
    assert_eq!(*counts.pairs(), vec![(1, 5)]);
    assert_eq!(*parents.pairs(), vec![(1, vec![70])]);
}

#[test]
fn superseded_copies_are_not_read() {
    let (_, parents) = scan_cell_parents(&entries(), None);
    let mut superseded = SupersededCells::new();
    superseded.insert(70, 2);
    let jobs = live_split_extraction_jobs(&vec![2, 1, 5], &parents, &superseded);
    assert_eq!(jobs[0].cell, 2);
    assert_eq!(jobs[0].parents, vec![71]);
    assert_eq!(jobs[1].parents, vec![70]);
    assert!(jobs[2].parents.is_empty());
}

#[test]
fn superseded_cells_form_a_set() {
    let mut a = SupersededCells::new();
    a.insert(2, 1);
    a.insert(1, 9);
    a.insert(2, 1);
    let mut b = SupersededCells::new();
    b.insert(1, 3);
    b.insert(2, 1);
    a.absorb(&b);
    a.absorb(&b);
    assert_eq!(*a.pairs(), vec![(1, 3), (1, 9), (2, 1)]);
    assert!(a.contains(1, 3));
    assert!(!a.contains(3, 1));
}
