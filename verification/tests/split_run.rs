use supertable::families::split_cell;
use supertable::split::ExtractionJob;
use supertable::split_pass::{ChildOutsideGrid, SettledBatch};
use supertable::split_run::{CellPlan, ExtractedCell, GridFull, RunStart, SplitFacts, SplitRun};

fn facts() -> SplitFacts {
    SplitFacts { routed_by_cells: true, has_vector_column: true, n_cent: 4, dim: 2, has_storage: true }
}

fn begin(candidates: Vec<(u32, u64)>, budget: u64) -> SplitRun<()> {
    match SplitRun::begin(candidates, &facts(), budget) {
        RunStart::Go(run) => run,
        other => panic!("unexpected {other:?}"),
    }
}

fn extracted(cell: u32, parents: Vec<u128>, n_rows: usize) -> ExtractedCell {
    ExtractedCell { job: ExtractionJob { cell, parents }, n_rows }
}

/// A plan of children of two numbers each, the rows dealt out by these counts.
fn plan(rows: &[usize]) -> Option<CellPlan> {
    let sides = rows.iter().enumerate().flat_map(|(side, n)| vec![side as u32; *n]);
    Some(CellPlan { n_floats: 2 * rows.len(), assign: sides.collect() })
}

/// A file for each child that has rows, counted from `first`.
fn files(run: &SplitRun<u128>, first: u128) -> Vec<Vec<u128>> {
    let mut next = first;
    let mut out = Vec::new();
    for split in run.splits_to_build() {
        let n = split.to_build().len() as u128;
        out.push((next..next + n).collect());
        next += n;
    }
    out
}

fn grid_of(n_cent: u32) -> SplitRun<u128> {
    match SplitRun::begin_batch(&vec![], &SplitFacts { n_cent, ..facts() }).0 {
        RunStart::Go(run) => run,
        other => panic!("unexpected {other:?}"),
    }
}

#[test]
fn without_a_grid_every_cell_stays() {
    for no_grid in [
        SplitFacts { routed_by_cells: false, ..facts() },
        SplitFacts { has_vector_column: false, ..facts() },
        SplitFacts { n_cent: 0, ..facts() },
        SplitFacts { dim: 0, has_storage: false, ..facts() },
    ] {
        match SplitRun::<()>::begin(vec![(3, 9), (1, 8)], &no_grid, 1) {
            RunStart::NoGrid(outcome) => assert_eq!(outcome.per_cell, vec![(3, None), (1, None)]),
            other => panic!("unexpected {other:?}"),
        }
        match SplitRun::<u128>::begin_batch(&vec![3, 1], &no_grid).0 {
            RunStart::NoGrid(outcome) => assert_eq!(outcome.per_cell, vec![(3, None), (1, None)]),
            other => panic!("unexpected {other:?}"),
        }
    }
    let offline = SplitFacts { has_storage: false, ..facts() };
    assert!(matches!(SplitRun::<()>::begin(vec![], &offline, 1), RunStart::NoStorage));
    assert!(matches!(SplitRun::<()>::begin_batch(&vec![], &offline).0, RunStart::NoStorage));
}

#[test]
fn a_batch_sets_cells_outside_the_grid_aside() {
    let (start, eligible) = SplitRun::<u128>::begin_batch(&vec![2, 9, 0, 4], &facts());
    assert_eq!(eligible, vec![2, 0]);
    match start {
        RunStart::Go(run) => assert_eq!(run.no_ops, vec![9, 4]),
        other => panic!("unexpected {other:?}"),
    }
}

#[test]
fn waves_take_what_fits() {
    let mut run = begin(vec![(0, 10), (7, 9), (1, 8), (2, 2)], 170);
    let wave = run.take_wave().expect("a wave");
    assert_eq!(wave.cells, vec![(0, 10), (2, 2)]);
    assert_eq!(wave.bytes, 168);
    assert_eq!(run.no_ops, vec![7]);
    assert_eq!(run.queue, vec![(1, 8)]);
    let wave = run.take_wave().expect("a wave");
    assert_eq!(wave.cells, vec![(1, 8)]);
    assert!(run.take_wave().is_none());
}

#[test]
fn a_wave_without_memory_goes_cell_by_cell() {
    let mut run = begin(vec![(0, 10), (1, 8), (2, 2)], 1000);
    let wave = run.take_wave().expect("a wave");
    let (wave, again) = run.admit_wave(wave, false);
    assert_eq!(wave.cells, vec![(0, 10)]);
    assert_eq!(again, Some(140));
    assert_eq!(run.queue, vec![(1, 8), (2, 2)]);
    let (wave, again) = run.admit_wave(wave, false);
    assert_eq!(wave.cells, vec![(0, 10)]);
    assert_eq!(again, None);
}

#[test]
fn every_cell_of_a_run_has_an_answer() {
    let mut run = begin(vec![(3, 10), (9, 9), (1, 8), (2, 2), (0, 1)], 1000);
    let wave = run.take_wave().expect("a wave");
    assert_eq!(wave.cells.len(), 4);
    let read = vec![
        extracted(3, vec![77], 10),
        extracted(1, vec![77], 8),
        extracted(2, vec![77], 2),
        extracted(0, vec![77], 1),
    ];
    let places = run.set_small_aside(&read);
    assert_eq!(places, vec![0, 1, 2]);
    let at = run.fold_plans(&read, &places, &vec![plan(&[10, 0]), plan(&[3, 5]), None]);
    assert_eq!(at, Ok(vec![1, 0]));
    assert_eq!(run.no_ops, vec![9, 0, 2]);
    let built = run.splits_to_build().iter().map(|s| vec![(); s.to_build().len()]).collect();
    run.record_built(built);
    assert!(run.splits_to_build().is_empty());
    assert!(run.take_wave().is_none());
    assert_eq!(run.finish(5).err(), Some(ChildOutsideGrid { child: 5, n_cent: 5 }));
    match run.finish(6) {
        Ok(SettledBatch::Commit { counts, superseded, outcome }) => {
            assert_eq!(*counts.pairs(), vec![(1, 3), (3, 10), (4, 5), (5, 0)]);
            assert_eq!(*superseded.pairs(), vec![(77, 1), (77, 3)]);
            assert_eq!(
                outcome.per_cell,
                vec![
                    (1, Some(vec![(1, 3), (4, 5)])),
                    (3, Some(vec![(3, 10), (5, 0)])),
                    (9, None),
                    (0, None),
                    (2, None),
                ]
            );
            assert_eq!(outcome.new_entries_by_cell, vec![(1, ()), (4, ()), (3, ())]);
        }
        other => panic!("unexpected {other:?}"),
    }
}

#[test]
fn a_split_counts_the_rows_that_it_routes() {
    let job = ExtractionJob { cell: 3, parents: vec![70, 71] };
    let split = split_cell(&job, &vec![3, 8, 9], &vec![2, 0, 7, 0, 2]);
    assert_eq!(split.family.cell, 3);
    assert_eq!(split.family.parent_ids, vec![70, 71]);
    assert_eq!(split.family.n_rows, 5);
    assert_eq!(split.family.children, vec![(3, 2), (8, 0), (9, 3)]);
    assert_eq!(split.groups, vec![vec![1, 3], vec![], vec![0, 2, 4]]);
    assert_eq!(split.to_build(), vec![0, 2]);
}

#[test]
fn a_batch_commits_what_its_splits_made() {
    let mut run = grid_of(8);
    let read = vec![
        extracted(4, vec![70], 2),
        extracted(3, vec![70, 71], 11),
        extracted(6, vec![70], 5),
    ];
    let places = run.set_small_aside(&read);
    let at = run.fold_plans(&read, &places, &vec![plan(&[2, 0]), plan(&[5, 6]), None]);
    assert_eq!(at, Ok(vec![1, 0]));
    let named = files(&run, 100);
    run.record_built(named);
    match run.finish(10) {
        Ok(SettledBatch::Commit { counts, superseded, outcome }) => {
            assert_eq!(*counts.pairs(), vec![(3, 5), (4, 2), (8, 6), (9, 0)]);
            assert_eq!(*superseded.pairs(), vec![(70, 3), (70, 4), (71, 3)]);
            assert_eq!(
                outcome.per_cell,
                vec![
                    (3, Some(vec![(3, 5), (8, 6)])),
                    (4, Some(vec![(4, 2), (9, 0)])),
                    (6, None),
                ]
            );
            assert_eq!(outcome.new_entries_by_cell, vec![(3, 100), (8, 101), (4, 102)]);
        }
        other => panic!("unexpected {other:?}"),
    }
    assert_eq!(run.finish(9).expect_err("outside"), ChildOutsideGrid { child: 9, n_cent: 9 });
}

#[test]
fn waves_number_their_children_on() {
    let mut run = grid_of(8);
    for (cell, children) in [(5u32, vec![(5u32, 1u32), (8, 2), (9, 3)]), (2, vec![(2, 4), (10, 1)])] {
        let counts: Vec<usize> = children.iter().map(|c| c.1 as usize).collect();
        let read = vec![extracted(cell, vec![70], counts.iter().sum())];
        assert_eq!(run.fold_plans(&read, &vec![0], &vec![plan(&counts)]), Ok(vec![0]));
        assert_eq!(run.splits_to_build()[0].family.children, children);
        let named = files(&run, 100);
        run.record_built(named);
    }
    match run.finish(11) {
        Ok(SettledBatch::Commit { outcome, .. }) => assert_eq!(outcome.per_cell.len(), 2),
        other => panic!("unexpected {other:?}"),
    }
}

#[test]
fn a_plan_of_another_shape_sets_its_cell_aside() {
    let mut run = grid_of(8);
    let read = vec![extracted(5, vec![70], 3), extracted(6, vec![70], 3)];
    let odd = Some(CellPlan { n_floats: 3, assign: vec![0, 1, 0] });
    let short = Some(CellPlan { n_floats: 4, assign: vec![0, 1] });
    assert_eq!(run.fold_plans(&read, &vec![0, 1], &vec![odd, short]), Ok(vec![]));
    assert_eq!(run.no_ops, vec![5, 6]);
}

#[test]
fn a_grid_has_only_so_many_ids() {
    let mut run = grid_of(u32::MAX);
    let read = vec![extracted(5, vec![70], 3)];
    let full = run.fold_plans(&read, &vec![0], &vec![plan(&[1, 1, 1])]);
    assert_eq!(full, Err(GridFull { next_id: u32::MAX }));
    assert!(run.splits_to_build().is_empty());
    assert_eq!(run.fold_plans(&read, &vec![0], &vec![plan(&[3])]), Ok(vec![0]));
}

#[test]
fn a_batch_that_built_nothing_changes_nothing() {
    let mut run = grid_of(8);
    let read = vec![extracted(6, vec![70], 1), extracted(3, vec![70], 0)];
    assert!(run.set_small_aside(&vec![extracted(6, vec![70], 1)]).is_empty());
    assert_eq!(run.fold_plans(&read, &vec![1], &vec![plan(&[0, 0])]), Ok(vec![1]));
    run.record_built(vec![vec![]]);
    match run.finish(1) {
        Ok(SettledBatch::Nothing(outcome)) => {
            assert_eq!(outcome.per_cell, vec![(6, None), (3, None)]);
            assert!(outcome.new_entries_by_cell.is_empty());
        }
        other => panic!("unexpected {other:?}"),
    }
}

/// The ids that can be reached, as the superseded cells and the new files say.
#[test]
fn a_split_keeps_the_rows_that_can_be_reached() {
    let rows: Vec<i128> = vec![11, 12, 13, 14, 15];
    let sides = vec![1, 0, 1, 1, 0];
    let job = ExtractionJob { cell: 3, parents: vec![70, 71] };
    let split = split_cell(&job, &vec![3, 8], &sides);
    let mut reached: Vec<i128> =
        split.groups.iter().flatten().map(|&place| rows[place]).collect();
    reached.sort();
    assert_eq!(reached, rows);
}
