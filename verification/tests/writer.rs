use std::cell::RefCell;

use supertable::mutation::{
    IdSpan, MutationError, MutationStats, PendingDeleteEntry, PendingUpdateEntry, ResolveError,
};
use supertable::writer::{
    AppendError, BatchBytes, CommitError, FlushError, NewRows, ReservedIds, Supertable,
    SupertableWriter, TableError, WriterOptions, WriterRefused,
};

type Batch = Vec<u8>;

fn options() -> WriterOptions {
    WriterOptions {
        has_storage: true,
        consumer_memory_mode: false,
        commit_threshold_size_mb: 0,
        max_targets: 10,
    }
}

fn bytes(n: usize) -> BatchBytes {
    BatchBytes { scalar: n, vector: 0, fts: 0 }
}

fn granted(_n: usize) -> bool {
    true
}

fn refused(_n: usize) -> bool {
    false
}

fn built(_rows: &Vec<Batch>) -> Result<(), String> {
    Ok(())
}

fn broken(_rows: &Vec<Batch>) -> Result<(), String> {
    Err("disk full".to_string())
}

fn stats(wal_id: i128, matched: usize) -> MutationStats {
    MutationStats { wal_id, matched, n_tombstoned: matched, n_not_found: 0 }
}

fn updated(e: &PendingUpdateEntry) -> Result<MutationStats, MutationError> {
    Ok(stats(e.wal_id, e.target_ids.len()))
}

fn deleted(e: &PendingDeleteEntry) -> Result<MutationStats, MutationError> {
    Ok(stats(e.wal_id, e.target_ids.len()))
}

fn writer() -> SupertableWriter<Batch> {
    SupertableWriter::new(options())
}

#[test]
fn buffered_bytes_grows_then_resets_on_commit() {
    let mut w = writer();
    assert_eq!(w.buffered_bytes(), 0);
    w.append(Ok(vec![1, 2]), BatchBytes { scalar: 5, vector: 7, fts: 3 }, granted, built)
        .expect("append");
    assert!(w.buffered_bytes() > 0, "buffer cost recorded");
    assert_eq!(w.buffered_bytes(), 12);
    assert_eq!(w.buffered_batches(), 1);
    w.commit(granted, built, updated, deleted).expect("commit");
    assert_eq!(w.buffered_bytes(), 0, "buffer drained on commit");
    assert_eq!(w.buffered_batches(), 0);
}

#[test]
fn over_budget_commit_preserves_the_buffer() {
    let mut w = writer();
    w.append(Ok(vec![1]), bytes(8), refused, built).expect("append buffers");
    assert_eq!(w.buffered_batches(), 1);
    let err = w.commit(refused, built, updated, deleted).expect_err("refused");
    assert!(matches!(err, CommitError::AppendFlush(FlushError::OverBudget)), "got {err:?}");
    assert_eq!(w.buffered_batches(), 1);
}

#[test]
fn a_failed_build_preserves_the_buffer() {
    let mut w = writer();
    w.append(Ok(vec![1]), bytes(8), granted, built).expect("append");
    match w.commit(granted, broken, updated, deleted) {
        Err(CommitError::AppendFlush(FlushError::Build(e))) => assert_eq!(e, "disk full"),
        other => panic!("unexpected {other:?}"),
    }
    assert_eq!(w.buffered_batches(), 1);
    assert_eq!(w.buffered_bytes(), 8);
}

#[test]
fn the_build_is_given_the_memory_of_each_class() {
    let asked = RefCell::new(Vec::new());
    let reserve = |n: usize| {
        asked.borrow_mut().push(n);
        true
    };
    let mut w = writer();
    w.append(Ok(vec![1]), BatchBytes { scalar: 1000, vector: 2000, fts: 400 }, reserve, built)
        .expect("append");
    assert!(asked.borrow().is_empty());
    w.commit(reserve, built, updated, deleted).expect("commit");
    assert_eq!(*asked.borrow(), vec![16_100]);
}

#[test]
fn commit_with_empty_buffer_is_noop() {
    let mut w = writer();
    let done = w.commit(refused, broken, updated, deleted).expect("commit-empty");
    assert!(done.outcomes.is_empty());
    assert!(done.wal_ids.is_empty());
}

#[test]
fn append_auto_flushes_when_buffer_crosses_threshold() {
    let mut w: SupertableWriter<Batch> =
        SupertableWriter::new(WriterOptions { commit_threshold_size_mb: 1, ..options() });
    let commits = RefCell::new(0);
    let build = |rows: &Vec<Batch>| -> Result<(), String> {
        *commits.borrow_mut() += rows.len();
        Ok(())
    };
    w.append(Ok(vec![1]), bytes((1 << 20) - 1), granted, &build).expect("append");
    assert_eq!(*commits.borrow(), 0);
    w.append(Ok(vec![2]), bytes(1), granted, &build).expect("append");
    assert_eq!(*commits.borrow(), 2, "auto-flush should fire");
    assert_eq!(w.buffered_batches(), 0, "buffer drained on auto-flush");
    w.commit(granted, &build, updated, deleted).expect("commit-empty");
    assert_eq!(*commits.borrow(), 2);
}

#[test]
fn append_does_not_auto_flush_when_threshold_zero() {
    let mut w = writer();
    w.append(Ok(vec![1]), bytes(1 << 40), granted, broken).expect("append");
    assert!(w.buffered_batches() > 0);
}

#[test]
fn auto_flush_over_budget_is_refused_from_append() {
    let mut w: SupertableWriter<Batch> =
        SupertableWriter::new(WriterOptions { commit_threshold_size_mb: 1, ..options() });
    let err = w.append(Ok(vec![1]), bytes(2 << 20), refused, built).expect_err("refused");
    assert!(matches!(err, AppendError::Flush(FlushError::OverBudget)), "got {err:?}");
    assert_eq!(w.buffered_batches(), 1);
}

#[test]
fn a_batch_that_does_not_fit_is_not_buffered() {
    let mut w = writer();
    match w.append(Err("schema".to_string()), bytes(8), granted, built) {
        Err(AppendError::InvalidBatch(e)) => assert_eq!(e, "schema"),
        other => panic!("unexpected {other:?}"),
    }
    assert_eq!(w.buffered_batches(), 0);
    assert_eq!(w.buffered_bytes(), 0);
}

fn rows(n_rows: usize) -> NewRows {
    NewRows { schema_matches: true, vectors: Ok(()), n_rows }
}

fn reserved(n: u32) -> ReservedIds {
    ReservedIds {
        wal_id: 50,
        spans: vec![IdSpan { first: 100, last: 99 + n as i128 }],
        superfile_id: 8,
    }
}

fn encoded() -> Result<Vec<u8>, String> {
    Ok(b"ipc".to_vec())
}

fn found(ids: Vec<i128>) -> impl Fn() -> Result<Vec<i128>, ResolveError> {
    move || Ok(ids.clone())
}

#[test]
fn update_cardinality_mismatch_is_rejected() {
    let mut w = writer();
    let err = w.update(rows(2), found(vec![1]), reserved, encoded).expect_err("cardinality mismatch");
    assert!(
        matches!(err, MutationError::CardinalityMismatch { matched: 1, new_rows: 2 }),
        "{err:?}"
    );
    assert!(w.pending_updates.is_empty());
}

#[test]
fn update_without_storage_is_rejected() {
    let mut w: SupertableWriter<Batch> =
        SupertableWriter::new(WriterOptions { has_storage: false, ..options() });
    let err = w.update(rows(1), found(vec![1]), reserved, encoded).expect_err("no storage");
    assert!(matches!(err, MutationError::NoStorageAttached), "{err:?}");
}

#[test]
fn delete_without_storage_is_rejected() {
    let mut w: SupertableWriter<Batch> =
        SupertableWriter::new(WriterOptions { has_storage: false, ..options() });
    let err = w.delete(found(vec![1]), || 7).expect_err("no storage");
    assert!(matches!(err, MutationError::NoStorageAttached), "{err:?}");
}

#[test]
fn a_mutation_of_too_many_rows_is_rejected() {
    let mut w = writer();
    let many: Vec<i128> = (0..11).collect();
    assert!(matches!(
        w.delete(found(many.clone()), || 7),
        Err(MutationError::MatchCountExceedsCap { matched: 11, cap: 10 })
    ));
    assert!(matches!(
        w.update(rows(11), found(many), reserved, encoded),
        Err(MutationError::MatchCountExceedsCap { matched: 11, cap: 10 })
    ));
}

#[test]
fn new_rows_that_do_not_fit_are_rejected() {
    let mut w = writer();
    let wrong = NewRows { schema_matches: false, vectors: Ok(()), n_rows: 1 };
    assert!(matches!(
        w.update(wrong, found(vec![1]), reserved, encoded),
        Err(MutationError::SchemaMismatch)
    ));
    let bent = NewRows { schema_matches: true, vectors: Err("dim".to_string()), n_rows: 1 };
    match w.update(bent, found(vec![1]), reserved, encoded) {
        Err(MutationError::InvalidNewRows(e)) => assert_eq!(e, "dim"),
        other => panic!("unexpected {other:?}"),
    }
    let fail = || -> Result<Vec<u8>, String> { Err("ipc".to_string()) };
    match w.update(rows(1), found(vec![1]), reserved, fail) {
        Err(MutationError::Storage(e)) => assert_eq!(e, "ipc"),
        other => panic!("unexpected {other:?}"),
    }
    let unresolved =
        || -> Result<Vec<i128>, ResolveError> { Err(ResolveError::Predicate("bad".to_string())) };
    assert!(matches!(
        w.update(rows(1), unresolved, reserved, encoded),
        Err(MutationError::PredicateEval(_))
    ));
    assert!(w.pending_updates.is_empty());
}

#[test]
fn an_update_is_buffered_with_its_payload() {
    let mut w = writer();
    let pending = w.update(rows(2), found(vec![4, 6]), reserved, encoded).expect("update");
    assert_eq!(pending.matched, 2);
    let entry = &w.pending_updates[0];
    assert_eq!(entry.wal_id, 50);
    assert_eq!(entry.target_ids, vec![4, 6]);
    assert_eq!(entry.preallocated_superfile_id, 8);
    assert_eq!(entry.minted_id_spans, vec![IdSpan { first: 100, last: 101 }]);
    assert_eq!(entry.new_row_count, 2);
    assert_eq!(entry.new_row_content_hash, blake3::hash(b"ipc").to_hex().to_string());
    assert_eq!(entry.ipc_bytes, b"ipc");
    let none = w.update(rows(0), found(vec![]), reserved, encoded).expect("no match");
    assert_eq!(none.matched, 0);
    assert_eq!(w.pending_updates.len(), 1);
}

fn buffered_mutations() -> SupertableWriter<Batch> {
    let mut w = writer();
    w.update(rows(1), found(vec![1]), |_| ReservedIds { wal_id: 10, spans: vec![], superfile_id: 1 }, encoded)
        .expect("update");
    w.update(rows(1), found(vec![2]), |_| ReservedIds { wal_id: 11, spans: vec![], superfile_id: 2 }, encoded)
        .expect("update");
    w.delete(found(vec![3]), || 12).expect("delete");
    w.delete(found(vec![4]), || 13).expect("delete");
    w
}

#[test]
fn a_commit_carries_updates_out_before_deletes() {
    let mut w = buffered_mutations();
    let done = w.commit(granted, built, updated, deleted).expect("commit");
    assert_eq!(done.wal_ids, vec![10, 11, 12, 13]);
    assert_eq!(done.outcomes.len(), 4);
    assert!(w.pending_updates.is_empty());
    assert!(w.pending_deletes.is_empty());
}

#[test]
fn a_failed_update_is_dropped_and_the_rest_stays() {
    let mut w = buffered_mutations();
    let fail = |e: &PendingUpdateEntry| -> Result<MutationStats, MutationError> {
        if e.wal_id == 10 {
            Err(MutationError::Phase("lost".to_string()))
        } else {
            updated(e)
        }
    };
    match w.commit(granted, built, fail, deleted) {
        Err(CommitError::PartialCommit { committed_wal_ids, committed, total, .. }) => {
            assert!(committed_wal_ids.is_empty());
            assert_eq!((committed, total), (0, 4));
        }
        other => panic!("unexpected {other:?}"),
    }
    let left: Vec<i128> = w.pending_updates.iter().map(|e| e.wal_id).collect();
    assert_eq!(left, vec![11]);
    assert_eq!(w.pending_deletes.len(), 2);
}

#[test]
fn a_failed_delete_is_dropped_and_the_rest_stays() {
    let mut w = buffered_mutations();
    let fail = |e: &PendingDeleteEntry| -> Result<MutationStats, MutationError> {
        if e.wal_id == 12 {
            Err(MutationError::Phase("lost".to_string()))
        } else {
            deleted(e)
        }
    };
    match w.commit(granted, built, updated, fail) {
        Err(CommitError::PartialCommit { committed_wal_ids, committed, total, .. }) => {
            assert_eq!(committed_wal_ids, vec![10, 11]);
            assert_eq!((committed, total), (2, 4));
        }
        other => panic!("unexpected {other:?}"),
    }
    assert!(w.pending_updates.is_empty());
    let left: Vec<i128> = w.pending_deletes.iter().map(|e| e.wal_id).collect();
    assert_eq!(left, vec![13]);
}

#[test]
fn writer_slot_is_exclusive() {
    let mut st = Supertable::new(options());
    let _w: SupertableWriter<Batch> = st.writer().expect("first writer");
    let second: Result<SupertableWriter<Batch>, WriterRefused> = st.writer();
    assert_eq!(second.err(), Some(WriterRefused::SupertableInUse));
}

#[test]
fn writer_slot_releases_on_drop() {
    let mut st = Supertable::new(options());
    let w: SupertableWriter<Batch> = st.writer().expect("first writer");
    st.release_writer(w);
    let _w2: SupertableWriter<Batch> = st.writer().expect("second writer after drop");
}

#[test]
fn consumer_memory_mode_handle_refuses_writer() {
    let mut st = Supertable::new(WriterOptions { consumer_memory_mode: true, ..options() });
    let refused: Result<SupertableWriter<Batch>, WriterRefused> = st.writer();
    assert_eq!(refused.err(), Some(WriterRefused::ConsumerMemoryMode));
}

#[test]
fn append_over_budget_is_refused() {
    let mut st = Supertable::new(options());
    let err = st.append(Ok(vec![1u8]), bytes(8), refused, built).expect_err("refused");
    assert!(
        matches!(err, TableError::Commit(CommitError::AppendFlush(FlushError::OverBudget))),
        "{err:?}"
    );
    assert!(!st.writer_outstanding);
}

#[test]
fn append_under_measured_budget_runs_and_tracks_peak() {
    let mut st = Supertable::new(options());
    let peak = RefCell::new(0);
    let reserve = |n: usize| {
        *peak.borrow_mut() += n;
        true
    };
    st.append(Ok(vec![1u8]), bytes(8), &reserve, built).expect("measured budget never refuses");
    assert!(*peak.borrow() > 0, "the build must reserve against the budget");
    assert_eq!(*peak.borrow(), 20);
}

#[test]
fn append_then_commit_publishes_one_superfile() {
    let mut st = Supertable::new(options());
    let seen = RefCell::new(Vec::new());
    let build = |rows: &Vec<Batch>| -> Result<(), String> {
        seen.borrow_mut().push(rows.len());
        Ok(())
    };
    st.append(Ok(vec![1u8]), bytes(8), granted, &build).expect("append");
    st.append(Ok(vec![2u8]), bytes(8), granted, &build).expect("append");
    assert_eq!(*seen.borrow(), vec![1, 1]);
}

#[test]
fn delete_tombstones_matching_row() {
    let mut st = Supertable::new(options());
    let done = st
        .delete(found(vec![5]), || 7, granted, built, updated, deleted)
        .expect("delete");
    assert_eq!(done.matched, 1);
    assert_eq!(done.n_tombstoned, 1);
    assert_eq!(done.wal_id, 7);
}

#[test]
fn delete_unmatched_predicate_is_noop() {
    let mut st = Supertable::new(options());
    let done = st
        .delete(found(vec![]), || 7, granted, built, updated, deleted)
        .expect("delete");
    assert_eq!(done.matched, 0);
    assert_eq!(done.n_tombstoned, 0);
}

#[test]
fn update_replaces_matching_row() {
    let mut st = Supertable::new(options());
    let done = st
        .update(rows(1), found(vec![5]), reserved, encoded, granted, built, updated, deleted)
        .expect("update");
    assert_eq!(done.matched, 1);
    assert_eq!(done.n_tombstoned, 1);
}

#[test]
fn an_update_that_matches_nothing_does_nothing() {
    let mut st = Supertable::new(options());
    let lost = |_: &PendingUpdateEntry| -> Result<MutationStats, MutationError> {
        Err(MutationError::Phase("unexpected".to_string()))
    };
    let done = st
        .update(rows(0), found(vec![]), reserved, encoded, granted, built, lost, deleted)
        .expect("update");
    assert_eq!(done, MutationStats::empty());
}

#[test]
fn a_refused_mutation_frees_the_writer() {
    let mut st = Supertable::new(WriterOptions { has_storage: false, ..options() });
    let err = st
        .delete(found(vec![1]), || 7, granted, built, updated, deleted)
        .expect_err("no storage");
    assert!(matches!(err, TableError::Mutation(MutationError::NoStorageAttached)), "{err:?}");
    assert!(!st.writer_outstanding);
    st.writer_outstanding = true;
    let err = st
        .delete(found(vec![1]), || 7, granted, built, updated, deleted)
        .expect_err("in use");
    assert!(matches!(err, TableError::Writer(WriterRefused::SupertableInUse)), "{err:?}");
}

/// A table over a budget of memory and a list of what was built.
struct Budget {
    limit: Option<usize>,
    peak: RefCell<usize>,
    denials: RefCell<usize>,
}

impl Budget {
    fn new(limit: Option<usize>) -> Self {
        Budget { limit, peak: RefCell::new(0), denials: RefCell::new(0) }
    }

    fn try_reserve(&self, n: usize) -> bool {
        if self.limit.is_some_and(|limit| n > limit) {
            *self.denials.borrow_mut() += 1;
            return false;
        }
        let peak = (*self.peak.borrow()).max(n);
        *self.peak.borrow_mut() = peak;
        true
    }
}

#[test]
fn append_under_ample_bounded_budget_runs() {
    let budget = Budget::new(Some(1 << 30));
    let docs = RefCell::new(0);
    let reserve = |n: usize| budget.try_reserve(n);
    let build = |rows: &Vec<Batch>| -> Result<(), String> {
        *docs.borrow_mut() += rows.iter().map(Vec::len).sum::<usize>();
        Ok(())
    };
    let mut st = Supertable::new(options());
    st.append(Ok(vec![0; 8]), bytes(128), &reserve, &build)
        .expect("under-budget append runs under a bounded budget");
    assert_eq!(*docs.borrow(), 8);
    assert_eq!(*budget.denials.borrow(), 0);
    assert!(budget.limit.is_some(), "bounded, not measured");
}

const VECTOR_BYTES: BatchBytes = BatchBytes { scalar: 64, vector: 8 * 16 * 4, fts: 0 };

#[test]
fn vector_ingest_over_budget_is_refused() {
    let budget = Budget::new(Some(0));
    let docs = RefCell::new(0);
    let reserve = |n: usize| budget.try_reserve(n);
    let build = |rows: &Vec<Batch>| -> Result<(), String> {
        *docs.borrow_mut() += rows.len();
        Ok(())
    };
    let mut st = Supertable::new(options());
    let err = st
        .append(Ok(vec![0; 8]), VECTOR_BYTES, &reserve, &build)
        .expect_err("vector build over a 0-byte gate is refused");
    assert!(
        matches!(err, TableError::Commit(CommitError::AppendFlush(FlushError::OverBudget))),
        "got {err:?}"
    );
    assert_eq!(*docs.borrow(), 0);
    assert_eq!(*budget.denials.borrow(), 1);
}

#[test]
fn vector_ingest_reserves_and_runs_under_measured() {
    let budget = Budget::new(None);
    let docs = RefCell::new(0);
    let reserve = |n: usize| budget.try_reserve(n);
    let build = |rows: &Vec<Batch>| -> Result<(), String> {
        *docs.borrow_mut() += rows.iter().map(Vec::len).sum::<usize>();
        Ok(())
    };
    let mut st = Supertable::new(options());
    st.append(Ok(vec![0; 8]), VECTOR_BYTES, &reserve, &build).expect("measured vector ingest runs");
    assert_eq!(*docs.borrow(), 8);
    assert_eq!(*budget.denials.borrow(), 0);
    assert_eq!(*budget.peak.borrow(), (5 * 64 + 13 * 512) / 2);
}

#[test]
fn append_with_vector_column_publishes_superfile() {
    let seen = RefCell::new(Vec::new());
    let build = |rows: &Vec<Batch>| -> Result<(), String> {
        seen.borrow_mut().push(rows.iter().map(Vec::len).sum::<usize>());
        Ok(())
    };
    let mut w = writer();
    w.append(Ok(vec![0; 8]), VECTOR_BYTES, granted, &build).expect("append");
    assert!(w.buffered_bytes() > 0, "buffered_bytes must account for the vector payload");
    assert_eq!(w.buffered_bytes(), 64 + 512);
    w.commit(granted, &build, updated, deleted).expect("commit");
    assert_eq!(*seen.borrow(), vec![8]);
}

#[test]
fn each_commit_appends_to_existing_superfiles() {
    let seen = RefCell::new(Vec::new());
    let build = |rows: &Vec<Batch>| -> Result<(), String> {
        seen.borrow_mut().push(rows.iter().map(Vec::len).sum::<usize>());
        Ok(())
    };
    let mut w = writer();
    for n in [2usize, 3, 1] {
        w.append(Ok(vec![0; n]), bytes(8 * n), granted, &build).expect("append");
        w.commit(granted, &build, updated, deleted).expect("commit");
    }
    assert_eq!(seen.borrow().len(), 3);
    assert_eq!(seen.borrow().iter().sum::<usize>(), 6);
}
