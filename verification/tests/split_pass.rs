use supertable::cell_map::CellMap;
use supertable::split::SplitRules;
use supertable::split_pass::{
    check_plan, fold_order, has_rows_to_split, name_shards, part_batch, route_to_children,
    SplitBatchOutcome, SplitPass, SplitStep,
};

#[test]
fn a_batch_is_parted_by_the_grid() {
    assert_eq!(part_batch(&vec![3, 9, 1, 8], 8), (vec![3, 1], vec![9, 8]));
    assert!(has_rows_to_split(2));
    assert!(!has_rows_to_split(1));
}

#[test]
fn a_plan_of_another_shape_leaves_the_cell() {
    assert_eq!(check_plan(8, 4, 3, 3), Some(2));
    assert_eq!(check_plan(9, 4, 3, 3), None);
    assert_eq!(check_plan(0, 4, 3, 3), None);
    assert_eq!(check_plan(8, 4, 2, 3), None);
}

#[test]
fn every_row_goes_to_one_child() {
    assert_eq!(route_to_children(&vec![1, 0, 1, 7], 2), vec![vec![1], vec![0, 2, 3]]);
    assert_eq!(route_to_children(&vec![], 2), vec![Vec::<usize>::new(), Vec::new()]);
    assert_eq!(fold_order(&vec![9, 2, 5]), vec![1, 2, 0]);
}

#[test]
fn a_bulk_pass_names_the_superfile_of_each_shard() {
    let outcome = SplitBatchOutcome {
        per_cell: vec![(3, Some(vec![(3, 5), (8, 6)]))],
        new_entries_by_cell: vec![(3, ()), (8, ())],
    };
    let named = name_shards(outcome, &vec![(0, vec![8]), (1, vec![3, 5])], &vec![(1, 201), (0, 200), (7, 9)]);
    assert_eq!(named.new_entries_by_cell, vec![(3, 201), (5, 201), (8, 200)]);
    assert_eq!(named.per_cell, vec![(3, Some(vec![(3, 5), (8, 6)]))]);
}

fn pass(counts: &[(u32, u64)]) -> SplitPass {
    let mut cell_counts = CellMap::new();
    for (cell, n) in counts {
        cell_counts.insert(*cell, *n);
    }
    SplitPass {
        rules: SplitRules { candidate_floor: 100, doc_cap: 150 },
        dim: 2,
        budget_bytes: u64::MAX,
        cell_counts,
        unsplittable: CellMap::new(),
        parents_by_cell: CellMap::new(),
        splits_committed: 0,
    }
}

#[test]
fn a_pass_goes_on_until_every_cell_is_settled() {
    let mut pass = pass(&[(1, 400), (2, 120)]);
    assert_eq!(pass.candidates(), vec![(1, 400), (2, 120)]);
    assert_eq!(pass.next_batch(), vec![1, 2]);
    assert_eq!(pass.batch_bytes(&vec![1, 2, 9]), 7 * 2 * 520);
    pass.apply_outcome(&SplitBatchOutcome {
        per_cell: vec![(1, Some(vec![(1, 140), (5, 260)])), (2, None)],
        new_entries_by_cell: vec![(1, 70), (5, 71), (5, 72)],
    });
    assert_eq!(*pass.cell_counts.pairs(), vec![(1, 140), (2, 120), (5, 260)]);
    assert_eq!(pass.unsplittable.get(2), Some(&()));
    assert_eq!(pass.unsplittable.get(1), Some(&()));
    assert_eq!(pass.unsplittable.get(5), None);
    assert_eq!(pass.splits_committed, 1);
    assert_eq!(pass.parents_by_cell.get(5), Some(&vec![71, 72]));
    assert_eq!(pass.next_batch(), vec![5]);
    pass.apply_outcome(&SplitBatchOutcome::no_op_cells(vec![5]));
    assert!(pass.next_batch().is_empty());
    assert!(!pass.is_at_bound());
    pass.splits_committed = 4096;
    assert!(pass.is_at_bound());
}

#[test]
fn a_pass_makes_so_many_splits_and_no_more() {
    let mut pass = pass(&[(1, 400), (2, 300), (3, 200)]);
    pass.splits_committed = 4094;
    assert_eq!(pass.next_batch(), vec![1, 2]);
    pass.splits_committed = 5000;
    assert!(pass.next_batch().is_empty());
}

#[test]
fn children_are_pinned_before_any_byte_moves() {
    let mut step = SplitStep::Pin;
    for expected in [SplitStep::Upload, SplitStep::Commit, SplitStep::StoreInserts, SplitStep::Done] {
        step = step.after(true);
        assert_eq!(step, expected);
    }
    assert_eq!(SplitStep::Pin.after(false), SplitStep::Failed);
    assert_eq!(SplitStep::Upload.after(false), SplitStep::Unpin);
    assert_eq!(SplitStep::Commit.after(false), SplitStep::Unpin);
    assert_eq!(SplitStep::Unpin.after(false), SplitStep::Failed);
    assert_eq!(SplitStep::Unpin.after(true), SplitStep::Failed);
}

#[test]
fn a_single_cell_has_one_result() {
    let split = SplitBatchOutcome::<u128> {
        per_cell: vec![(3, Some(vec![(3, 5), (9, 6)])), (4, None)],
        new_entries_by_cell: vec![],
    };
    assert_eq!(split.single_result(), Some(vec![(3, 5), (9, 6)]));
    assert_eq!(SplitBatchOutcome::<u128>::no_op_cells(vec![3]).single_result(), None);
    assert_eq!(SplitBatchOutcome::<u128>::no_op_cells(vec![]).single_result(), None);
}

#[test]
fn a_batch_without_memory_is_its_first_cell() {
    let pass = pass(&[(5, 10)]);
    let (batch, again) = pass.admit_batch(vec![5, 6], false);
    assert_eq!(batch, vec![5]);
    assert_eq!(again, Some(7 * 10 * pass.dim as u64));
    assert_eq!(pass.admit_batch(vec![5], false), (vec![5], None));
    assert_eq!(pass.admit_batch(vec![5, 6], true), (vec![5, 6], None));
}
