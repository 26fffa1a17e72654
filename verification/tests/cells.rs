use supertable::cells::{
    assign_cells, assigned_cell_ids, drain_cell_vector_config, drain_replica_extra_budget, row_stride_fits,
    group_cells_by_packed_shard, index_locals, packed_cell_shard, packed_cell_shard_count,
    shard_id_range, shard_row_order, AssignedCellGroup, CellMember, EmptyBucket, ReplicaCandidate,
    RerankCodecInfo,
};

fn candidate(row: usize, cell: u32, margin: i32) -> ReplicaCandidate {
    ReplicaCandidate { row, cell, margin }
}

fn primary(stable_id: i128, row: usize) -> CellMember {
    CellMember { stable_id, is_primary: true, row }
}

fn replica(stable_id: i128, row: usize) -> CellMember {
    CellMember { stable_id, is_primary: false, row }
}

#[test]
fn assign_pack_boundary_replicas_are_vector_only_stubs() {
    let stable_ids = vec![10i128, 11, 12, 13];
    let candidates = vec![candidate(0, 1, 2), candidate(1, 0, 1), candidate(2, 1, 4), candidate(3, 0, 3)];
    let budget = drain_replica_extra_budget(4, 6, 3);
    let assigned = assign_cells(&stable_ids, &vec![0, 1, 0, 1], &candidates, budget);
    let postings: usize = assigned.iter().map(|group| group.members.len()).sum();
    let primaries: usize =
        assigned.iter().flat_map(|group| group.members.iter()).filter(|m| m.is_primary).count();
    assert_eq!(primaries, stable_ids.len());
    assert!(postings > primaries, "boundary replicas add vector postings, not primary rows");
    for group in &assigned {
        let ids = assigned_cell_ids(group).expect("drain pack");
        assert_eq!(ids.len(), group.members.len());
    }
    assert_eq!(assigned.len(), 2);
    assert_eq!(assigned[0].cell_id, 0);
    assert_eq!(assigned[0].members, vec![primary(10, 0), primary(12, 2), replica(11, 1)]);
    assert_eq!(assigned[1].cell_id, 1);
    assert_eq!(assigned[1].members, vec![primary(11, 1), primary(13, 3), replica(10, 0)]);
}

#[test]
fn the_budget_takes_the_closest_candidates() {
    let candidates = vec![candidate(0, 7, 5), candidate(0, 8, -1), candidate(0, 9, 5)];
    let cells = |budget: usize| -> Vec<u32> {
        assign_cells(&vec![1], &vec![0], &candidates, budget).iter().map(|g| g.cell_id).collect()
    };
    assert_eq!(cells(0), vec![0]);
    assert_eq!(cells(1), vec![0, 8]);
    assert_eq!(cells(2), vec![0, 7, 8]);
    assert_eq!(cells(9), vec![0, 7, 8, 9]);
    assert!(assign_cells(&vec![], &vec![], &vec![], 5).is_empty());
}

#[test]
fn a_cell_without_rows_cannot_be_packed() {
    let group = AssignedCellGroup { cell_id: 3, members: Vec::new() };
    assert_eq!(assigned_cell_ids(&group), Err(EmptyBucket { cell: 3 }));
}

#[test]
fn a_replica_budget_is_bounded_by_target_and_copies() {
    assert_eq!(drain_replica_extra_budget(0, 10, 3), 0);
    assert_eq!(drain_replica_extra_budget(10, 10, 3), 0);
    assert_eq!(drain_replica_extra_budget(10, 8, 3), 0);
    assert_eq!(drain_replica_extra_budget(10, 13, 3), 3);
    assert_eq!(drain_replica_extra_budget(10, 100, 3), 30);
    assert_eq!(drain_replica_extra_budget(1 << 62, usize::MAX, 8), usize::MAX - (1 << 62));
}

#[test]
fn drain_fine_centroids_follow_two_mib_run_target() {
    let dim: usize = 1024;
    let codec = RerankCodecInfo { codec_id: 1, ivf_mergeable: true, per_vector_bytes: 2 * dim };
    assert_eq!(
        drain_cell_vector_config(dim, codec, codec, 4, 98).1,
        1,
        "a small commit delta fits one ~2 MiB fine run"
    );
    assert_eq!(
        drain_cell_vector_config(dim, codec, codec, 4, 1_562).1,
        2,
        "a fully drained cell needs two ~2 MiB fine runs"
    );
}

#[test]
fn a_codec_that_cannot_be_merged_gives_way() {
    let fp32 = RerankCodecInfo { codec_id: 0, ivf_mergeable: false, per_vector_bytes: 4096 };
    let sq8 = RerankCodecInfo { codec_id: 2, ivf_mergeable: true, per_vector_bytes: 2048 };
    // One row has 128 + 4 + 2048 + 16 + 4 = 2200 bytes, a run 953 rows.
    assert_eq!(drain_cell_vector_config(1024, fp32, sq8, 4, 953), (sq8, 1));
    assert_eq!(drain_cell_vector_config(1024, fp32, sq8, 4, 954), (sq8, 2));
    let huge = RerankCodecInfo { codec_id: 3, ivf_mergeable: true, per_vector_bytes: 1 << 30 };
    assert_eq!(drain_cell_vector_config(8, huge, sq8, 4, 3), (huge, 3));
}

#[test]
fn cells_go_to_the_shard_of_their_remainder() {
    assert_eq!(packed_cell_shard_count(0), 1);
    assert_eq!(packed_cell_shard_count(6), 6);
    assert_eq!(packed_cell_shard(7, 3), 1);
    let groups = group_cells_by_packed_shard(vec![(7, 'a'), (2, 'b'), (4, 'c'), (1, 'd')], 3);
    assert_eq!(groups, vec![(1, vec![(1, 'd'), (4, 'c'), (7, 'a')]), (2, vec![(2, 'b')])]);
    let none: Vec<(u32, char)> = Vec::new();
    assert!(group_cells_by_packed_shard(none, 3).is_empty());
}

#[test]
fn a_shard_lists_its_primaries_cell_by_cell() {
    let locals = index_locals(&vec![30, 20, 10]);
    let cells = vec![
        (1, AssignedCellGroup { cell_id: 1, members: vec![primary(10, 2), replica(30, 0)] }),
        (4, AssignedCellGroup { cell_id: 4, members: vec![primary(20, 1), primary(30, 0)] }),
    ];
    assert_eq!(shard_row_order(&cells, &locals), Ok(Some(vec![2, 1, 0])));
    let stubs = vec![(1, AssignedCellGroup { cell_id: 1, members: vec![replica(30, 0)] })];
    assert_eq!(shard_row_order(&stubs, &locals), Ok(None));
    let unknown = vec![(1, AssignedCellGroup { cell_id: 1, members: vec![primary(99, 0)] })];
    assert_eq!(shard_row_order(&unknown, &locals), Err(99));
}

#[test]
fn the_last_of_equal_ids_is_indexed() {
    let locals = index_locals(&vec![5, 6, 5]);
    assert_eq!(locals.get(&5), Some(&2));
    assert_eq!(locals.get(&6), Some(&1));
    assert_eq!(locals.len(), 2);
}

#[test]
fn an_id_range_spans_all_ids() {
    assert_eq!(shard_id_range(&vec![3, -7, 5]), (-7, 5));
    assert_eq!(shard_id_range(&vec![]), (0, 0));
}

#[test]
fn the_bytes_of_a_row_can_be_counted() {
    assert!(row_stride_fits(16, 4, 10));
    assert!(row_stride_fits(8, 0, usize::MAX - 21));
    assert!(!row_stride_fits(9, 0, usize::MAX - 21));
    assert!(!row_stride_fits(8, usize::MAX, 0));
}
