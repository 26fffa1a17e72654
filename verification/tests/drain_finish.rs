use supertable::drain_finish::{
    drain_start, membership_metadata, AssignmentGrid, DrainFacts, DrainFinish, DrainStart,
    FinishStep, NoDrainStorage,
};
use supertable::publish::CommitListMetadata;
use supertable::superfile::GridShape;

fn facts() -> DrainFacts {
    DrainFacts {
        busy: false,
        user_grid: Some(GridShape { n_cent: 4, dim: 2 }),
        hidden_grid: Some(GridShape { n_cent: 9, dim: 2 }),
        drained_before: true,
        n_sources: 1,
        batch_superfiles: 8,
        has_storage: true,
    }
}

#[test]
fn a_drain_extends_the_grid_that_was_grown() {
    assert_eq!(
        drain_start(&facts()),
        Ok(DrainStart::Go { grid: AssignmentGrid::Hidden, keeps_routing: true, budget: 8 })
    );
    assert_eq!(
        drain_start(&DrainFacts { drained_before: false, ..facts() }),
        Ok(DrainStart::Go { grid: AssignmentGrid::User, keeps_routing: true, budget: 8 })
    );
    assert_eq!(
        drain_start(&DrainFacts { hidden_grid: None, batch_superfiles: -1, ..facts() }),
        Ok(DrainStart::Go { grid: AssignmentGrid::User, keeps_routing: false, budget: usize::MAX })
    );
}

#[test]
fn a_drain_without_work_is_skipped() {
    for skipped in [
        DrainFacts { busy: true, ..facts() },
        DrainFacts { user_grid: None, ..facts() },
        DrainFacts { hidden_grid: Some(GridShape { n_cent: 0, dim: 2 }), ..facts() },
        DrainFacts { hidden_grid: Some(GridShape { n_cent: 9, dim: 0 }), ..facts() },
        DrainFacts { n_sources: 0, has_storage: false, ..facts() },
        DrainFacts { batch_superfiles: 0, has_storage: false, ..facts() },
    ] {
        assert_eq!(drain_start(&skipped), Ok(DrainStart::Skip));
    }
    assert_eq!(drain_start(&DrainFacts { has_storage: false, ..facts() }), Err(NoDrainStorage));
}

#[test]
fn members_are_stamped_with_their_graph() {
    let m: CommitListMetadata<char, char, char> = membership_metadata('p', vec![(0, 9)], None);
    assert_eq!(m.partition_strategy, Some('p'));
    assert_eq!(m.drained_ranges, Some(vec![(0, 9)]));
    assert_eq!(m.graph_ref, Some(None));
    assert_eq!(m.global_vector_index, None);
    assert!(m.superseded_cells_additions.is_none());
}

fn walk(builds_graph: bool, fails_at: Option<FinishStep>) -> Vec<FinishStep> {
    let mut finish = DrainFinish::start(builds_graph);
    let mut steps = vec![finish.step];
    while finish.step != FinishStep::Done && finish.step != FinishStep::Failed {
        let ok = Some(finish.step) != fails_at;
        finish.advance(ok);
        steps.push(finish.step);
    }
    steps
}

#[test]
fn the_graph_is_built_before_its_members_are_seen() {
    assert_eq!(
        walk(true, None),
        vec![
            FinishStep::WarmForGraph,
            FinishStep::BuildGraph,
            FinishStep::CommitMembers,
            FinishStep::StoreInserts,
            FinishStep::RemoveScratch,
            FinishStep::Settle,
            FinishStep::Done,
        ]
    );
    assert_eq!(
        walk(false, None),
        vec![
            FinishStep::CommitMembers,
            FinishStep::StoreInserts,
            FinishStep::WarmAfterCommit,
            FinishStep::RemoveScratch,
            FinishStep::Settle,
            FinishStep::Done,
        ]
    );
}

#[test]
fn only_the_commit_and_the_slow_state_fail_a_drain() {
    assert_eq!(
        walk(false, Some(FinishStep::CommitMembers)),
        vec![FinishStep::CommitMembers, FinishStep::Failed]
    );
    assert_eq!(walk(true, Some(FinishStep::Settle)).last(), Some(&FinishStep::Failed));
    for step in [FinishStep::WarmForGraph, FinishStep::BuildGraph, FinishStep::StoreInserts] {
        assert_eq!(walk(true, Some(step)).last(), Some(&FinishStep::Done));
    }
}
