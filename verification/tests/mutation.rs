use supertable::mutation::{
    delete_wal_doc, mutation_stats, single_outcome, target_resolve_err, update_wal_doc,
    CommitResult, DocAuthor, DriveStep, IdSpan, Lease, ManifestLoadError, MutationDrive,
    MutationError, MutationStats, OpKind, PendingDeleteEntry, PendingUpdateEntry, ResolveError,
    TombstoneEntry, TombstoneOutcome, TombstonePhaseOutcome, WalState,
};

fn author() -> DocAuthor {
    DocAuthor { owner: 0xABCD, schema_version: 3, lease_micros: 30_000_000 }
}

fn pending(target_id: i128) -> TombstoneEntry {
    TombstoneEntry { target_id, outcome: TombstoneOutcome::Pending, tombstoned_in_superfile: None }
}

#[test]
fn delete_wal_doc_is_born_leased_by_this_handle() {
    let now: i64 = 1_700_000_000_000_000;
    let entry = PendingDeleteEntry { wal_id: 77, target_ids: vec![5] };
    let doc = delete_wal_doc(&author(), &entry, now);
    assert_eq!(doc.op_kind, OpKind::Delete);
    assert_eq!(doc.state, WalState::Intent);
    assert_eq!(
        doc.created_at, now,
        "created_at must come from the passed clock reading, not a second sample"
    );
    let lease = doc
        .lease
        .expect("a delete WAL must be born leased, not left unowned until a later acquire");
    assert_eq!(
        lease,
        Lease { owner: 0xABCD, acquired_at: now, expires_at: now + 30_000_000 },
        "the lease must run a full duration from the same reading"
    );
    assert_eq!(doc.wal_id, 77);
    assert_eq!(doc.schema_version, 3);
    assert_eq!(doc.predicate_repr, "writer.delete()");
    assert_eq!(doc.target_ids, vec![5]);
    assert_eq!(doc.new_row_count, None);
    assert_eq!(doc.new_row_content_hash, None);
    assert_eq!(doc.preallocated_superfile_id, None);
    assert!(doc.minted_id_spans.is_empty());
    assert_eq!(doc.tombstone_progress, vec![pending(5)]);
}

#[test]
fn update_wal_doc_is_born_leased_by_this_handle() {
    let now: i64 = 1_700_000_000_000_000;
    let entry = PendingUpdateEntry {
        wal_id: 78,
        target_ids: vec![9],
        preallocated_superfile_id: 4,
        minted_id_spans: vec![IdSpan { first: 100, last: 100 }],
        new_row_count: 1,
        new_row_content_hash: "hash".to_string(),
        ipc_bytes: vec![1, 2, 3],
    };
    let doc = update_wal_doc(&author(), &entry, now);
    assert_eq!(doc.op_kind, OpKind::Update);
    assert_eq!(doc.state, WalState::Intent);
    assert_eq!(
        doc.created_at, now,
        "created_at must come from the passed clock reading, not a second sample"
    );
    let lease = doc
        .lease
        .expect("an update WAL must be born leased, not left unowned until a later acquire");
    assert_eq!(lease.owner, 0xABCD, "the lease must name the handle that will drive the pipeline");
    assert_eq!(lease.acquired_at, now, "acquired_at must share created_at's clock reading");
    assert_eq!(
        lease.expires_at,
        now + 30_000_000,
        "the lease must run a full duration from the same reading"
    );
    assert_eq!(doc.new_row_count, Some(1));
    assert!(doc.preallocated_superfile_id.is_some());
    assert_eq!(doc.tombstone_progress.len(), 1);
    assert_eq!(doc.predicate_repr, "writer.update()");
    assert_eq!(doc.new_row_content_hash, Some("hash".to_string()));
    assert_eq!(doc.minted_id_spans, vec![IdSpan { first: 100, last: 100 }]);
}

fn walk(kind: OpKind, hidden_index: bool, fails_at: Option<DriveStep>) -> Vec<DriveStep> {
    let mut drive = MutationDrive::start(kind, true, hidden_index).expect("storage");
    let mut steps = vec![drive.step];
    while drive.step != DriveStep::Done && drive.step != DriveStep::Failed {
        let ok = Some(drive.step) != fails_at;
        drive.advance(ok);
        steps.push(drive.step);
    }
    steps
}

#[test]
fn an_update_goes_from_payload_to_done() {
    assert_eq!(
        walk(OpKind::Update, true, None),
        vec![
            DriveStep::PutPayload,
            DriveStep::CreateDoc,
            DriveStep::AppendPhase,
            DriveStep::TombstonePhase,
            DriveStep::RemovePayload,
            DriveStep::RemoveDoc,
            DriveStep::Done,
        ]
    );
}

#[test]
fn a_delete_tells_the_hidden_index() {
    assert_eq!(
        walk(OpKind::Delete, true, None),
        vec![
            DriveStep::CreateDoc,
            DriveStep::TombstonePhase,
            DriveStep::RemoveDoc,
            DriveStep::RecordDeleted,
            DriveStep::Done,
        ]
    );
    assert_eq!(walk(OpKind::Delete, false, None).len(), 4);
    assert_eq!(walk(OpKind::Delete, true, Some(DriveStep::RecordDeleted)).last(), Some(&DriveStep::Done));
}

#[test]
fn a_failed_delete_hands_back_its_wal_lease() {
    assert_eq!(
        walk(OpKind::Delete, false, Some(DriveStep::TombstonePhase)),
        vec![
            DriveStep::CreateDoc,
            DriveStep::TombstonePhase,
            DriveStep::ReleaseLease,
            DriveStep::Failed,
        ]
    );
    assert_eq!(
        walk(OpKind::Delete, false, Some(DriveStep::CreateDoc)),
        vec![DriveStep::CreateDoc, DriveStep::Failed]
    );
}

#[test]
fn a_failed_update_hands_back_its_wal_lease() {
    for phase in [DriveStep::AppendPhase, DriveStep::TombstonePhase] {
        let steps = walk(OpKind::Update, false, Some(phase));
        assert_eq!(steps[steps.len() - 2], DriveStep::ReleaseLease);
        assert_eq!(steps[steps.len() - 1], DriveStep::Failed);
    }
    assert_eq!(
        walk(OpKind::Update, false, Some(DriveStep::PutPayload)),
        vec![DriveStep::PutPayload, DriveStep::Failed]
    );
}

#[test]
fn cleaning_up_is_best_effort() {
    for step in [DriveStep::RemovePayload, DriveStep::RemoveDoc] {
        assert_eq!(walk(OpKind::Update, false, Some(step)).last(), Some(&DriveStep::Done));
    }
    assert_eq!(MutationDrive::start(OpKind::Update, false, true), None);
}

#[test]
fn a_table_without_a_pointer_is_gone() {
    let gone = |e: ManifestLoadError| target_resolve_err(ResolveError::Manifest(e));
    assert!(matches!(gone(ManifestLoadError::PointerVanished), MutationError::TableGone));
    assert!(matches!(gone(ManifestLoadError::PointerNotFound), MutationError::TableGone));
    match gone(ManifestLoadError::Other("io".to_string())) {
        MutationError::TargetResolve(text) => assert_eq!(text, "io"),
        other => panic!("unexpected {other:?}"),
    }
    match target_resolve_err(ResolveError::Predicate("bad".to_string())) {
        MutationError::PredicateEval(text) => assert_eq!(text, "bad"),
        other => panic!("unexpected {other:?}"),
    }
}

#[test]
fn statistics_name_what_was_done() {
    let stats = mutation_stats(7, 3, TombstonePhaseOutcome::Applied { n_tombstoned: 2, n_not_found: 1 });
    assert_eq!(stats, MutationStats { wal_id: 7, matched: 3, n_tombstoned: 2, n_not_found: 1 });
    let again =
        mutation_stats(7, 3, TombstonePhaseOutcome::AlreadyComplete { n_tombstoned: 2, n_not_found: 1 });
    assert_eq!(again, stats);
    let result = CommitResult { wal_ids: vec![7, 8], outcomes: vec![stats, MutationStats::empty()] };
    assert_eq!(single_outcome(&result), Some(stats));
    assert_eq!(single_outcome(&CommitResult { wal_ids: vec![], outcomes: vec![] }), None);
}
