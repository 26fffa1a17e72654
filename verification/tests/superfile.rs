use bytes::Bytes;
use supertable::open_ranges::{BlobFormats, FooterFields, FtsFormat, VectorFormat, VectorLayout};
use supertable::publish::CommitListMetadata;
use supertable::superfile::{
    aligned_grid, append_metadata, bootstrap_cells, collect_prepared_superfiles, count_assignments,
    disposition, finish_superfile_entry, grid_training, plan_commit, prepare_superfile,
    prepare_superfile_with_uri, prepare_user_superfile_batch, publish_steps, shard_span,
    summarize_terms, BatchFault, BatchVectors, BytePlaces, CommitFacts, CommitPlan, Disposition,
    GridShape, GridSource, GridTraining, MissingGrid, OpenedSuperfile, OutOfSync, PrepareFault,
    PreparedSuperfile, PublishStep, ShardOutput, SuperfileName,
};

fn facts() -> CommitFacts {
    CommitFacts {
        total_rows: 1_000,
        has_vectors: false,
        trained: false,
        manifest_has_grid: false,
        partition_grid: None,
        buffered_bytes: 300,
        pool_threads: 8,
        target_bytes: 100,
    }
}

#[test]
fn a_commit_without_rows_builds_nothing() {
    assert_eq!(plan_commit(&CommitFacts { total_rows: 0, ..facts() }), Ok(CommitPlan::Nothing));
    assert_eq!(
        plan_commit(&CommitFacts { total_rows: 0, has_vectors: true, ..facts() }),
        Ok(CommitPlan::Nothing)
    );
}

#[test]
fn commit_superfile_count_follows_bytes_not_pool_size() {
    assert_eq!(plan_commit(&facts()), Ok(CommitPlan::Balanced { n_superfiles: 3 }));
    assert_eq!(
        plan_commit(&CommitFacts { pool_threads: 192, buffered_bytes: 10, ..facts() }),
        Ok(CommitPlan::Balanced { n_superfiles: 1 })
    );
}

#[test]
fn commit_splits_wide_buffer_up_to_pool_width() {
    assert_eq!(
        plan_commit(&CommitFacts { pool_threads: 2, ..facts() }),
        Ok(CommitPlan::Balanced { n_superfiles: 2 })
    );
}

#[test]
fn vectors_go_to_a_grid() {
    let vectors = CommitFacts { has_vectors: true, ..facts() };
    assert_eq!(plan_commit(&vectors), Err(MissingGrid));
    assert_eq!(
        plan_commit(&CommitFacts { trained: true, ..vectors }),
        Ok(CommitPlan::Packed(GridSource::Trained))
    );
    assert_eq!(
        plan_commit(&CommitFacts { manifest_has_grid: true, ..vectors }),
        Ok(CommitPlan::Packed(GridSource::Manifest))
    );
    let grid = Some(GridShape { n_cent: 4, dim: 2 });
    assert_eq!(plan_commit(&CommitFacts { partition_grid: grid, ..facts() }), Ok(CommitPlan::ByCell));
    let empty = Some(GridShape { n_cent: 0, dim: 2 });
    assert_eq!(
        plan_commit(&CommitFacts { partition_grid: empty, ..facts() }),
        Ok(CommitPlan::Balanced { n_superfiles: 3 })
    );
}

#[test]
fn the_first_vectors_train_the_grid() {
    let asked = |has_grid: bool, n_batches: usize, vectors: bool, user: usize| {
        grid_training(has_grid, n_batches, vectors, 16, user)
    };
    assert_eq!(asked(false, 1, true, 16), Some(GridTraining { hidden_cells: 16, user_cells: None }));
    assert_eq!(asked(false, 1, true, 4), Some(GridTraining { hidden_cells: 16, user_cells: Some(4) }));
    assert_eq!(asked(true, 1, true, 4), None);
    assert_eq!(asked(false, 0, true, 4), None);
    assert_eq!(asked(false, 1, false, 4), None);
    let stamped: CommitListMetadata<char, char, char> = append_metadata(Some('g'));
    assert_eq!(stamped.global_vector_index, Some('g'));
    assert!(append_metadata::<char, char, char>(None).is_empty());
    let grid = |n_cent: u32| Some(GridShape { n_cent, dim: 2 });
    assert_eq!(aligned_grid(false, grid(4), grid(4)), None);
    assert_eq!(aligned_grid(true, grid(4), None), Some(GridSource::Trained));
    assert_eq!(aligned_grid(true, None, grid(4)), Some(GridSource::Manifest));
    assert_eq!(aligned_grid(true, grid(0), grid(4)), None);
    assert_eq!(aligned_grid(true, None, grid(0)), None);
    assert_eq!(aligned_grid(true, None, None), None);
    let batch = |rows: usize, values: Option<usize>| BatchVectors { rows, values };
    assert_eq!(bootstrap_cells(&vec![batch(3, Some(12)), batch(9, None), batch(2, Some(8))], 4, 64), Some(5));
    assert_eq!(bootstrap_cells(&vec![batch(3, Some(12))], 4, 2), Some(2));
    assert_eq!(bootstrap_cells(&vec![batch(3, Some(12))], 4, 0), Some(1));
    assert_eq!(bootstrap_cells(&vec![batch(3, Some(11))], 4, 2), None);
    assert_eq!(bootstrap_cells(&vec![batch(3, None)], 4, 2), None);
    assert_eq!(count_assignments(&vec![2, 0, 2, 2], 4), vec![1, 0, 3, 0]);
}

#[test]
fn a_shard_spans_its_ids() {
    assert_eq!(shard_span(&vec![vec![5, 9], vec![], vec![-3]]), (3, -3, 9));
    assert_eq!(shard_span(&vec![vec![]]), (0, 0, 0));
    let out = shard(b"ab", 3, 'x');
    assert_eq!(out.bytes, Bytes::from_static(b"ab"));
    assert_eq!((out.n_docs, out.id_min, out.id_max, out.scalar_stats), (3, -3, 9, 'x'));
}

#[test]
fn terms_are_bounded_by_the_first_and_the_last() {
    let summary = summarize_terms(&vec![b"ab".to_vec(), b"b".to_vec(), b"z".to_vec()]);
    assert_eq!(summary.n_terms_distinct, 3);
    assert_eq!((summary.min_term, summary.max_term), (b"ab".to_vec(), b"z".to_vec()));
    let none = summarize_terms(&vec![]);
    assert_eq!((none.n_terms_distinct, none.min_term, none.max_term), (0, vec![], vec![]));
}

fn places(has_storage: bool, has_cache: bool, prepopulate: bool) -> BytePlaces {
    BytePlaces { has_storage, has_cache, prepopulate }
}

#[test]
fn bytes_go_to_storage_and_stay_out_of_memory_behind_a_cache() {
    let to = |store: bool, storage: bool, cache: bool| Disposition { store, storage, cache };
    assert_eq!(disposition(&places(false, false, false)), to(true, false, false));
    assert_eq!(disposition(&places(true, false, true)), to(true, true, false));
    assert_eq!(disposition(&places(true, true, true)), to(false, true, true));
    assert_eq!(disposition(&places(true, true, false)), to(false, true, false));
    assert_eq!(disposition(&places(false, true, true)), to(true, false, false));
}

fn shard(bytes: &'static [u8], n_docs: u64, stats: char) -> ShardOutput<char> {
    ShardOutput::new_with_params(Bytes::from_static(bytes), n_docs, -3, 9, stats)
}

fn name(id: u128) -> SuperfileName {
    SuperfileName { uri: 100 + id, superfile_id: 200 + id }
}

fn formats() -> BlobFormats {
    BlobFormats {
        vector: VectorFormat {
            outer_header_size: 32,
            crc_bytes: 4,
            version_single: 1,
            version_multi_cell: 2,
            version_off: 4,
            n_columns_off: 8,
            n_cells_off: 12,
            dir_offset_off: 16,
            dir_entry_size: 32,
            column_subsection_off: 0,
            column_subsection_len: 8,
            column_codec_meta_off: 16,
            column_codec_meta_size: 20,
            column_n_cent: 24,
            cell_dir_entry_size: 16,
            cell_subsection_off: 0,
            cell_subsection_len: 8,
            sub_header_size: 16,
            centroids_off: 0,
            cluster_idx_off: 8,
            cluster_idx_entry_bytes: 8,
        },
        fts: FtsFormat { header_size: 16, postings_offset_off: 0, doc_lengths_dir_off: 8 },
    }
}

fn opened(vector_layout: VectorLayout, vec: Option<(u64, u64)>) -> Result<OpenedSuperfile<u8>, String> {
    let footer = FooterFields {
        vec_offset: vec.map(|b| b.0),
        vec_length: vec.map(|b| b.1),
        fts_offset: None,
        fts_length: None,
        layout: vector_layout,
        column_dims: None,
    };
    Ok(OpenedSuperfile { summary: 5, footer: Some(footer), vector_layout })
}

fn closed(text: &str) -> Result<OpenedSuperfile<u8>, String> {
    Err(text.to_string())
}

#[test]
fn a_superfile_is_prepared_from_its_shard() {
    let both = places(true, true, true);
    let ready = prepare_superfile(shard(b"ab", 3, 'x'), name(1), opened(VectorLayout::Ivf, None), &formats(), &both)
        .expect("opens")
        .expect("has rows");
    assert_eq!((ready.entry.uri, ready.entry.superfile_id), (101, 201));
    assert_eq!((ready.entry.n_docs, ready.entry.id_min, ready.entry.id_max), (3, -3, 9));
    assert_eq!((ready.entry.scalar_stats, ready.entry.summary), ('x', 5));
    assert_eq!((ready.entry.birth_version, ready.entry.partition_hint), (0, None));
    let offsets = ready.entry.subsection_offsets.as_ref().expect("a footer");
    assert_eq!(offsets.open_blob, vec![(0, b"ab".to_vec())]);
    assert_eq!(ready.bytes_for_store, None);
    assert_eq!(ready.bytes_for_storage, Some((101, Bytes::from_static(b"ab"))));
    assert_eq!(ready.bytes_for_cache, Some((101, Bytes::from_static(b"ab"))));
    let hinted = finish_superfile_entry(ready.entry, Some(7));
    assert_eq!(hinted.partition_hint, Some(7));
    assert_eq!(finish_superfile_entry(hinted, None).partition_hint, Some(7));
    let reused = prepare_superfile_with_uri(
        shard(b"ab", 3, 'x'),
        Some(55),
        name(1),
        opened(VectorLayout::Ivf, None),
        &formats(),
        &places(false, false, false),
    )
    .expect("opens")
    .expect("has rows");
    assert_eq!((reused.entry.uri, reused.entry.superfile_id), (55, 201));
    assert_eq!(reused.bytes_for_store, Some((55, Bytes::from_static(b"ab"))));
    assert_eq!(reused.bytes_for_storage, None);
}

#[test]
fn a_superfile_that_cannot_be_read_is_not_published() {
    let both = places(true, true, true);
    let posting = |n_docs: u64, vec: Option<(u64, u64)>| {
        prepare_superfile(shard(b"ab", n_docs, 'x'), name(1), opened(VectorLayout::CellPosting, vec), &formats(), &both)
    };
    assert!(matches!(posting(0, None), Ok(None)));
    assert!(matches!(posting(1, None), Err(PrepareFault::MissingVectorOffsets)));
    assert!(matches!(posting(1, Some((1, 0))), Err(PrepareFault::MissingVectorOffsets)));
    let ready = posting(1, Some((1, 2))).expect("opens").expect("has rows");
    let offsets = ready.entry.subsection_offsets.expect("a footer");
    assert_eq!((offsets.total_size, offsets.vec, offsets.fts), (2, Some((1, 2)), None));
    assert!(offsets.open_blob.is_empty());
    match prepare_superfile(shard(b"ab", 1, 'x'), name(1), closed("magic"), &formats(), &both) {
        Err(PrepareFault::Open(text)) => assert_eq!(text, "magic"),
        other => panic!("unexpected {other:?}"),
    }
}

#[test]
fn shards_and_hints_go_together() {
    let opening = || opened(VectorLayout::Ivf, None);
    let batch = prepare_user_superfile_batch(
        vec![shard(b"a", 1, 'a'), shard(b"b", 0, 'b'), shard(b"c", 2, 'c')],
        vec![Some(4), Some(5), None],
        &vec![name(1), name(2), name(3)],
        vec![opening(), opening(), opening()],
        &formats(),
        &places(true, false, true),
    )
    .expect("prepared");
    let entries: Vec<(u128, char, Option<u32>)> =
        batch.new_entries.iter().map(|e| (e.uri, e.scalar_stats, e.partition_hint)).collect();
    assert_eq!(entries, vec![(101, 'a', Some(4)), (103, 'c', None)]);
    assert!(batch.to_remove.is_empty());
    let written = vec![(101, Bytes::from_static(b"a")), (103, Bytes::from_static(b"c"))];
    assert_eq!(batch.pending_storage_writes, written);
    assert_eq!(batch.pending_store_inserts, written);
    assert!(batch.pending_cache_inserts.is_empty());
    match prepare_user_superfile_batch(
        vec![shard(b"a", 1, 'a')],
        vec![],
        &vec![name(1)],
        vec![opening()],
        &formats(),
        &places(true, false, true),
    ) {
        Err(BatchFault::OutOfSync(fault)) => assert_eq!(fault, OutOfSync { outputs: 1, hints: 0 }),
        other => panic!("unexpected {other:?}"),
    }
    match prepare_user_superfile_batch(
        vec![shard(b"z", 0, 'z'), shard(b"a", 1, 'a'), shard(b"b", 1, 'b')],
        vec![None, None, None],
        &vec![name(0), name(1), name(2)],
        vec![closed("unread"), closed("first"), closed("second")],
        &formats(),
        &places(true, false, true),
    ) {
        Err(BatchFault::Prepare(PrepareFault::Open(text))) => assert_eq!(text, "first"),
        other => panic!("unexpected {other:?}"),
    }
}

fn prepared(entry: char, store: Option<u8>, storage: Option<u8>, cache: Option<u8>) -> PreparedSuperfile<char, u8> {
    PreparedSuperfile {
        entry,
        bytes_for_store: store,
        bytes_for_storage: storage,
        bytes_for_cache: cache,
    }
}

#[test]
fn superfiles_are_collected_for_publishing() {
    let batch = collect_prepared_superfiles(vec![
        prepared('a', Some(1), Some(1), None),
        prepared('b', None, Some(2), Some(2)),
    ]);
    assert_eq!(batch.new_entries, vec!['a', 'b']);
    assert!(batch.to_remove.is_empty());
    assert_eq!(batch.pending_storage_writes, vec![1, 2]);
    assert_eq!(batch.pending_cache_inserts, vec![2]);
    assert_eq!(batch.pending_store_inserts, vec![1]);
    assert_eq!(prepared('a', Some(1), Some(2), Some(3)).bytes_at_hand(), Some(&1));
    assert_eq!(prepared('a', None, Some(2), Some(3)).bytes_at_hand(), Some(&2));
    assert_eq!(prepared('a', None, None, Some(3)).bytes_at_hand(), Some(&3));
    assert_eq!(prepared('a', None, None, None).bytes_at_hand(), None);
}

#[test]
fn storage_comes_before_memory() {
    assert!(publish_steps(0, true, true).is_empty());
    assert_eq!(
        publish_steps(1, true, true),
        vec![
            PublishStep::Commit,
            PublishStep::StoreInserts { required: false },
            PublishStep::WarmCache,
        ]
    );
    assert_eq!(publish_steps(1, true, false).len(), 2);
    assert_eq!(
        publish_steps(1, false, true),
        vec![PublishStep::StoreInserts { required: true }, PublishStep::Swap]
    );
}

#[test]
fn superfile_buffer_split_config_knob_reaches_commit_fanout() {
    let mib: usize = 1 << 20;
    for (target_mb, expect) in [(1usize, 2usize), (0, 2), (4096, 1)] {
        let plan = plan_commit(&CommitFacts {
            total_rows: 50_000,
            buffered_bytes: 3 * mib,
            pool_threads: 2,
            target_bytes: target_mb * mib,
            ..facts()
        });
        assert_eq!(plan, Ok(CommitPlan::Balanced { n_superfiles: expect }), "target_mb={target_mb}");
    }
}

#[test]
fn each_small_commit_produces_exactly_one_superfile() {
    for _ in 0..3 {
        let plan = plan_commit(&CommitFacts {
            total_rows: 5,
            buffered_bytes: 400,
            pool_threads: 4,
            target_bytes: 64 << 20,
            ..facts()
        });
        assert_eq!(plan, Ok(CommitPlan::Balanced { n_superfiles: 1 }));
    }
}

#[test]
fn superfile_entry_records_id_range_and_n_docs() {
    let (n_docs, id_min, id_max) = shard_span(&vec![vec![100, 101, 102], vec![103, 104]]);
    assert_eq!(n_docs, 5);
    let output =
        ShardOutput::new_with_params(Bytes::from_static(b"ab"), n_docs as u64, id_min, id_max, 'x');
    let ready = prepare_superfile(
        output,
        name(1),
        opened(VectorLayout::Ivf, None),
        &formats(),
        &places(true, false, false),
    )
    .expect("opens")
    .expect("has rows");
    assert_eq!(ready.entry.n_docs, 5);
    assert!(ready.entry.id_min > 0);
    assert!(ready.entry.id_max > ready.entry.id_min, "id_max should exceed id_min");
}

#[test]
fn superfile_entry_carries_fts_summary() {
    let terms: Vec<Vec<u8>> =
        ["0", "1", "2", "3", "alpha", "doc"].iter().map(|t| t.as_bytes().to_vec()).collect();
    let fts = summarize_terms(&terms);
    assert!(fts.n_terms_distinct >= 3, "expected at least 3 terms, got {}", fts.n_terms_distinct);
    assert!(!fts.min_term.is_empty());
    assert!(!fts.max_term.is_empty());
    assert!(fts.min_term <= fts.max_term, "min_term <= max_term invariant");
}
