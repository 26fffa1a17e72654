use supertable::cell_map::CellMap;
use supertable::cells::ReplicaCandidate;
use supertable::drain::{
    DrainBatch, DrainConsolidate, DrainRemoteCheckpoint, DrainRemoteShard, DRAIN_CHECKPOINT_SCHEMA,
};
use supertable::drain_run::{
    clusters_are_cells, drained_watermark, keeps_ingest_cells, load_drain_local_checkpoint,
    place_each, place_with_replicas, restore_spilled_packed_cell, widen_law, DrainCellSource,
    DrainLocalCell, DrainLocalCheckpoint, DrainLocalSpill, DrainRun, PackedCell, PendingEntry,
    Placement, RunFault, SpliceStep,
};

fn spill(rerank_codec_id: u8) -> DrainLocalSpill {
    DrainLocalSpill { n_rows: 11, n_quants: 3, dim: 16, rabitq_len: 2, rerank_codec_id }
}

fn cell_state(n_docs: u32, rerank_codec_id: u8) -> DrainLocalCell {
    DrainLocalCell { n_docs, subsection_len: 1_024, rerank_codec_id }
}

fn packed(cell_id: u32, n_docs: u32) -> PackedCell {
    PackedCell { cell_id, n_docs, subsection_len: 1_024, rerank_codec_id: 1 }
}

fn place(row: usize, cell: u32) -> Placement {
    Placement { row, cell }
}

fn text(id: u128) -> String {
    uuid::Uuid::from_u128(id).to_string()
}

fn fresh(n_batches: usize, shard_count: usize) -> DrainRun {
    DrainRun::begin(DrainLocalCheckpoint::new("epoch".to_string()), n_batches, shard_count)
        .expect("begin")
}

fn remote() -> DrainRemoteCheckpoint {
    DrainRemoteCheckpoint {
        schema: DRAIN_CHECKPOINT_SCHEMA,
        epoch_id: "epoch".to_string(),
        options_hash: "opts".to_string(),
        sources: Vec::new(),
        batch_layout: Vec::new(),
        shard_count: 2,
        completed_shards: Vec::new(),
    }
}

#[test]
fn drain_local_checkpoint_round_trips_and_rejects_other_epoch() {
    let mut checkpoint = DrainLocalCheckpoint::new("epoch-a".to_string());
    checkpoint.batches_done = 2;
    checkpoint.spills.insert(7, spill(5));
    checkpoint.built_cells.insert(2, cell_state(9, 5));
    checkpoint.added_per_cell.insert(2, 9);
    checkpoint.added_per_cell.insert(7, 11);
    let loaded = load_drain_local_checkpoint(Some(checkpoint), &"epoch-a".to_string())
        .expect("load")
        .expect("checkpoint");
    assert_eq!(loaded.batches_done, 2);
    assert_eq!(loaded.spills.get(7), Some(&spill(5)));
    assert_eq!(loaded.built_cells.get(2), Some(&cell_state(9, 5)));
    assert_eq!(*loaded.added_per_cell.pairs(), vec![(2, 9), (7, 11)]);
    let err = load_drain_local_checkpoint(Some(loaded), &"epoch-b".to_string())
        .expect_err("an incompatible local epoch must fail loud");
    assert_eq!(err.epoch_id, "epoch-a");
    assert!(load_drain_local_checkpoint(None, &"epoch-b".to_string()).expect("load").is_none());
    let mut newer = DrainLocalCheckpoint::new("epoch-b".to_string());
    newer.schema = 9;
    let err = load_drain_local_checkpoint(Some(newer), &"epoch-b".to_string()).expect_err("schema");
    assert_eq!(err.schema, 9);
}

#[test]
fn a_cell_map_lists_its_cells_in_order() {
    let mut map: CellMap<char> = CellMap::new();
    map.insert(5, 'a');
    map.insert(1, 'b');
    map.insert(5, 'c');
    assert_eq!(*map.pairs(), vec![(1, 'b'), (5, 'c')]);
    let copy = map.duplicate();
    assert_eq!(map.remove(5), Some('c'));
    assert_eq!(map.remove(5), None);
    assert_eq!(map.get(1), Some(&'b'));
    assert_eq!(map.get(5), None);
    assert_eq!(*copy.pairs(), vec![(1, 'b'), (5, 'c')]);
}

#[test]
fn more_batches_than_there_are_cannot_be_done() {
    let mut local = DrainLocalCheckpoint::new("epoch".to_string());
    local.batches_done = 3;
    assert!(matches!(
        DrainRun::begin(local, 2, 1),
        Err(RunFault::BatchesDone { done: 3, batches: 2 })
    ));
}

#[test]
fn rows_are_counted_where_they_are_placed() {
    let mut run = fresh(2, 2);
    assert!(run.is_clean());
    assert_eq!(run.next_batch(), Some(0));
    let kept = run.place_rows(&vec![place(0, 4), place(1, 5), place(2, 4)]);
    assert_eq!(kept.len(), 3);
    assert_eq!(*run.added.pairs(), vec![(4, 2), (5, 1)]);
    let mut spills: CellMap<DrainLocalSpill> = CellMap::new();
    spills.insert(4, spill(1));
    run.end_batch(Some(spills));
    assert_eq!(run.next_batch(), Some(1));
    assert!(!run.is_clean());
    assert_eq!(*run.local.added_per_cell.pairs(), vec![(4, 2), (5, 1)]);
    assert_eq!(run.local.spills.get(4), Some(&spill(1)));
    run.end_batch(None);
    assert_eq!(run.next_batch(), None);
    assert_eq!(run.local.spills.get(4), Some(&spill(1)));
}

#[test]
fn copies_come_before_the_rows_themselves() {
    let candidates = vec![
        ReplicaCandidate { row: 1, cell: 8, margin: 3 },
        ReplicaCandidate { row: 0, cell: 9, margin: 1 },
    ];
    assert_eq!(
        place_with_replicas(&vec![2, 3], &candidates, 1),
        vec![place(0, 9), place(0, 2), place(1, 3)]
    );
    assert_eq!(
        place_with_replicas(&vec![2, 3], &candidates, 9),
        vec![place(0, 9), place(1, 8), place(0, 2), place(1, 3)]
    );
    assert_eq!(place_each(&vec![2, 3]), vec![place(0, 2), place(1, 3)]);
    assert!(keeps_ingest_cells(true, 0));
    assert!(!keeps_ingest_cells(true, 1));
    assert!(!keeps_ingest_cells(false, 0));
    assert!(clusters_are_cells(false, true));
    assert!(!clusters_are_cells(true, true));
    assert!(!clusters_are_cells(false, false));
}

fn shard(shard_id: u32, superfile_id: u128, cell_counts: Vec<(u32, u32)>) -> DrainRemoteShard {
    DrainRemoteShard { shard_id, superfile_id: text(superfile_id), cell_counts }
}

#[test]
fn an_uploaded_shard_is_taken_over() {
    let mut run = fresh(1, 2);
    let entries = vec![
        PendingEntry { superfile_id: 70, partition_hint: Some(0) },
        PendingEntry { superfile_id: 71, partition_hint: Some(1) },
    ];
    let first = shard(1, 71, vec![(1, 4), (3, 2)]);
    assert_eq!(run.resolve_shard(&first, &entries).expect("entry"), 1);
    run.adopt_shard(&first, 71).expect("adopt");
    assert!(!run.is_clean());
    assert_eq!(run.completed.get(1), Some(&71));
    assert_eq!(*run.added.pairs(), vec![(1, 4), (3, 2)]);
    assert_eq!(run.new_entries, vec![71]);
    assert!(matches!(
        run.resolve_shard(&first, &entries),
        Err(RunFault::RepeatedShard { shard: 1 })
    ));
    assert!(matches!(
        run.resolve_shard(&shard(0, 99, vec![]), &entries),
        Err(RunFault::MissingEntry { shard: 0 })
    ));
    assert!(matches!(
        run.resolve_shard(&shard(0, 71, vec![]), &entries),
        Err(RunFault::WrongHint { shard: 0, hint: Some(1) })
    ));
    assert!(matches!(
        run.adopt_shard(&shard(0, 70, vec![(1, 5)]), 70),
        Err(RunFault::CellCount { cell: 1, count: 5, existing: 4 })
    ));
    // Rows of a shard on storage are passed over.
    let kept = run.place_rows(&vec![place(0, 1), place(1, 2)]);
    assert_eq!(kept, vec![place(1, 2)]);
}

#[test]
fn a_restart_takes_over_what_is_not_on_storage() {
    let mut local = DrainLocalCheckpoint::new("epoch".to_string());
    local.spills.insert(1, spill(1));
    local.spills.insert(2, spill(1));
    local.built_cells.insert(3, cell_state(5, 1));
    local.built_cells.insert(4, cell_state(6, 1));
    let mut run = DrainRun::begin(local, 1, 2).expect("begin");
    run.adopt_shard(&shard(1, 71, vec![]), 71).expect("adopt");
    assert_eq!(run.spills_to_resume(&vec![1]).expect("spills"), vec![(2, spill(1))]);
    assert!(matches!(
        run.spills_to_resume(&vec![7]),
        Err(RunFault::UnknownCodec { cell: 2, codec_id: 1 })
    ));
    assert_eq!(run.cells_to_restore(), vec![(4, cell_state(6, 1))]);
    run.add_restored(packed(4, 6));
    assert_eq!(run.packed, vec![packed(4, 6)]);
}

#[test]
fn a_finished_cell_is_held_to_its_files() {
    let state = cell_state(5, 1);
    let restore = |codecs: Vec<u8>, sub: Result<u64, String>, ids: Result<u64, String>| {
        restore_spilled_packed_cell(3, &state, &codecs, sub, ids)
    };
    assert_eq!(restore(vec![1], Ok(1_024), Ok(80)).expect("restored"), packed(3, 5));
    assert!(matches!(
        restore(vec![2], Ok(1_024), Ok(80)),
        Err(RunFault::UnknownCodec { cell: 3, codec_id: 1 })
    ));
    assert!(matches!(
        restore(vec![1], Err("gone".to_string()), Ok(80)),
        Err(RunFault::SubsectionMetadata { cell: 3, .. })
    ));
    assert!(matches!(
        restore(vec![1], Ok(1_000), Ok(80)),
        Err(RunFault::SubsectionLength { cell: 3, expected: 1_024, found: 1_000 })
    ));
    assert!(matches!(
        restore(vec![1], Ok(1_024), Err("gone".to_string())),
        Err(RunFault::IdsMetadata { cell: 3, .. })
    ));
    assert!(matches!(
        restore(vec![1], Ok(1_024), Ok(79)),
        Err(RunFault::IdsLength { cell: 3, expected: 80, found: 79 })
    ));
}

#[test]
fn splice_drain_concatenates_same_cell_across_batches() {
    let mut run = fresh(2, 2);
    assert_eq!(run.begin_splice(4), SpliceStep::Fresh);
    run.end_splice(packed(4, 3));
    run.end_batch(None);
    assert_eq!(run.begin_splice(4), SpliceStep::Join(packed(4, 3)));
    assert!(run.local.built_cells.get(4).is_none());
    run.end_splice(packed(4, 8));
    run.end_batch(None);
    assert_eq!(*run.added.pairs(), vec![(4, 8)]);
    assert_eq!(run.packed, vec![packed(4, 8)]);
    assert_eq!(run.local.built_cells.get(4), Some(&cell_state(8, 1)));
    run.adopt_shard(&shard(1, 71, vec![]), 71).expect("adopt");
    assert_eq!(run.begin_splice(5), SpliceStep::Skip);
}

#[test]
fn cells_are_packed_by_shard() {
    let mut run = fresh(1, 2);
    run.add_restored(packed(4, 6));
    let plan = run.plan_pack(DrainConsolidate::Kmeans, &vec![3, 2]).expect("plan");
    assert_eq!(
        plan,
        vec![
            (0, vec![(2, DrainCellSource::Rows), (4, DrainCellSource::Packed(packed(4, 6)))]),
            (1, vec![(3, DrainCellSource::Rows)]),
        ]
    );
    assert!(matches!(
        run.plan_pack(DrainConsolidate::Splice, &vec![3]),
        Err(RunFault::SpillsInSplice)
    ));
    let mut counted = fresh(1, 2);
    counted.place_rows(&vec![place(0, 1)]);
    assert!(matches!(
        counted.plan_pack(DrainConsolidate::Kmeans, &vec![]),
        Err(RunFault::NoSources)
    ));
    run.adopt_shard(&shard(1, 71, vec![]), 71).expect("adopt");
    let plan = run.plan_pack(DrainConsolidate::Kmeans, &vec![3]).expect("plan");
    assert_eq!(plan.len(), 1);
}

#[test]
fn an_upload_moves_a_shard_into_the_remote_checkpoint() {
    let mut run = fresh(1, 2);
    run.place_rows(&vec![place(0, 3), place(1, 4), place(2, 1), place(3, 3)]);
    let mut spills: CellMap<DrainLocalSpill> = CellMap::new();
    spills.insert(1, spill(1));
    spills.insert(3, spill(1));
    spills.insert(4, spill(1));
    run.end_batch(Some(spills));
    run.record_built(3, cell_state(2, 1));
    assert!(run.local.spills.get(3).is_none());
    let mut checkpoint = remote();
    let counts = run
        .record_upload(&mut checkpoint, &PendingEntry { superfile_id: 71, partition_hint: Some(1) })
        .expect("upload");
    assert_eq!(counts, vec![(1, 1), (3, 2)]);
    assert_eq!(*run.local.spills.pairs(), vec![(4, spill(1))]);
    assert!(run.local.built_cells.get(3).is_none());
    assert_eq!(checkpoint.completed_shards.len(), 1);
    assert_eq!(checkpoint.completed_shards[0].superfile_id, text(71));
    assert_eq!(run.expected_shards(), 2);
    assert!(matches!(
        run.check_complete(),
        Err(RunFault::ShardTotal { completed: 1, expected: 2 })
    ));
    run.record_upload(&mut checkpoint, &PendingEntry { superfile_id: 70, partition_hint: Some(0) })
        .expect("upload");
    let order: Vec<u32> = checkpoint.completed_shards.iter().map(|s| s.shard_id).collect();
    assert_eq!(order, vec![0, 1]);
    run.check_complete().expect("complete");
    assert_eq!(run.shard_counts(0), vec![(4, 1)]);
    run.check_shard_total(0).expect("as many shards as workers");
    assert!(matches!(
        run.check_shard_total(1),
        Err(RunFault::TooManyShards { made: 3, shards: 2 })
    ));
    assert!(matches!(
        run.check_shard_total(usize::MAX),
        Err(RunFault::TooManyShards { made: usize::MAX, shards: 2 })
    ));
}

#[test]
fn an_upload_without_a_place_is_refused() {
    let mut run = fresh(1, 2);
    let mut checkpoint = remote();
    assert!(matches!(
        run.record_upload(&mut checkpoint, &PendingEntry { superfile_id: 7, partition_hint: None }),
        Err(RunFault::NoHint { superfile_id: 7 })
    ));
    assert!(matches!(
        run.record_upload(&mut checkpoint, &PendingEntry { superfile_id: 7, partition_hint: Some(1) }),
        Err(RunFault::NoCellCounts { shard: 1 })
    ));
    assert!(checkpoint.completed_shards.is_empty());
}

#[test]
fn drained_rows_are_added_to_the_grid() {
    let mut run = fresh(1, 2);
    run.place_rows(&vec![place(0, 0), place(1, 2), place(2, 2)]);
    let updates = run.cell_updates(&vec![u32::MAX, 7]);
    assert_eq!(*updates.pairs(), vec![(0, u32::MAX), (2, 2)]);
}

#[test]
fn the_watermark_closes_the_gap_below_it() {
    let batches = vec![
        DrainBatch { versions: vec![4, 6], sources: Vec::new() },
        DrainBatch { versions: vec![9], sources: Vec::new() },
    ];
    assert_eq!(drained_watermark(None, &batches), (0, 9));
    assert_eq!(drained_watermark(Some(3), &batches), (4, 9));
    assert_eq!(drained_watermark(Some(20), &batches), (9, 9));
    assert_eq!(drained_watermark(None, &vec![]), (0, 0));
}

#[test]
fn a_measurement_only_widens_a_law() {
    let mut law = vec![5, 6, 6, 6];
    widen_law(&mut law, &vec![7, 2]);
    assert_eq!(law, vec![7, 6, 6, 6]);
}

#[test]
fn drain_resumes_from_last_local_batch_checkpoint() {
    let mut run = fresh(2, 1);
    let kept = run.place_rows(&place_each(&vec![0, 0, 1]));
    assert_eq!(kept.len(), 3);
    let mut spills: CellMap<DrainLocalSpill> = CellMap::new();
    spills.insert(0, spill(1));
    spills.insert(1, spill(1));
    run.end_batch(Some(spills));
    let local = load_drain_local_checkpoint(Some(run.local), &"epoch".to_string())
        .expect("load local checkpoint")
        .expect("local checkpoint");
    assert_eq!(local.batches_done, 1);

    let mut resumed = DrainRun::begin(local, 2, 1).expect("resume drain");
    assert_eq!(resumed.next_batch(), Some(1));
    let spilled = resumed.spills_to_resume(&vec![1]).expect("spills");
    assert_eq!(spilled.iter().map(|s| s.0).collect::<Vec<u32>>(), vec![0, 1]);
    resumed.place_rows(&place_each(&vec![1, 1]));
    let mut spills: CellMap<DrainLocalSpill> = CellMap::new();
    spills.insert(0, spill(1));
    spills.insert(1, spill(1));
    resumed.end_batch(Some(spills));
    assert_eq!(resumed.next_batch(), None);
    assert_eq!(*resumed.added.pairs(), vec![(0, 2), (1, 3)]);
    for cell in [0, 1] {
        resumed.record_built(cell, cell_state(2 + cell, 1));
    }
    let mut remote = remote();
    remote.shard_count = 1;
    let counts = resumed
        .record_upload(&mut remote, &PendingEntry { superfile_id: 7, partition_hint: Some(0) })
        .expect("upload");
    assert_eq!(counts, vec![(0, 2), (1, 3)]);
    resumed.check_complete().expect("complete");
}

#[test]
fn drain_preserves_uploaded_shard_across_node_replacement() {
    let mut run = fresh(1, 2);
    run.place_rows(&place_each(&vec![0, 1, 2, 3]));
    run.end_batch(Some(CellMap::new()));
    let mut remote = remote();
    let entry = PendingEntry { superfile_id: 70, partition_hint: Some(0) };
    run.record_upload(&mut remote, &entry).expect("first shard");
    assert!(run.check_complete().is_err(), "first drain must stop after one shard");
    assert_eq!(remote.completed_shards.len(), 1);
    let preserved_id = entry.superfile_id;

    let mut replaced = fresh(1, 2);
    let entries = vec![entry];
    let shard = &remote.completed_shards[0];
    let at = replaced.resolve_shard(shard, &entries).expect("entry");
    replaced.adopt_shard(shard, entries[at].superfile_id).expect("adopted");
    assert!(!replaced.is_clean());
    let kept = replaced.place_rows(&place_each(&vec![0, 1, 2, 3]));
    assert_eq!(kept, vec![place(1, 1), place(3, 3)]);
    replaced.end_batch(Some(CellMap::new()));
    replaced
        .record_upload(&mut remote, &PendingEntry { superfile_id: 71, partition_hint: Some(1) })
        .expect("second shard");
    replaced.check_complete().expect("complete");
    assert!(
        replaced.new_entries.contains(&preserved_id),
        "final manifest must reuse the shard recorded before"
    );
    assert_eq!(remote.completed_shards.len(), 2);
}
