use std::ops::Range;

use supertable::publish::{
    attempt_steps, backoff_delay_ms, commit_write_concurrency, drain_read_concurrency,
    multipart_check, multipart_parts, needs_slow_state, new_superfile_outcome, refresh_outcome,
    replace_step, settle_writes, uploads_in_parts, write_superfile_list, AfterAttempt, AfterPointer,
    AttemptReply, AttemptStep, CommitListMetadata, HeadReply, ListStamp, ListStep, ManifestRefresh,
    ManifestStamps, NewEntryBirthVersions, OccLoop, OrphanWalk, PointerReply, ReplaceStep,
    WriteReply,
};
use supertable::superseded::SupersededCells;
use supertable::wal_store::StorageFault;

fn base() -> ManifestStamps<char, char, char> {
    let mut superseded = SupersededCells::new();
    superseded.insert(1, 1);
    ManifestStamps {
        partition_strategy: 'p',
        global_vector_index: None,
        drained_ranges: vec![(0, 3)],
        superseded_cells: superseded,
        graph_ref: Some('g'),
    }
}

#[test]
fn empty_stamps_change_nothing() {
    let stamps: CommitListMetadata<char, char, char> = CommitListMetadata::empty();
    assert!(stamps.is_empty());
    let out = stamps.apply(&base());
    assert_eq!(out.partition_strategy, 'p');
    assert_eq!(out.global_vector_index, None);
    assert_eq!(out.drained_ranges, vec![(0, 3)]);
    assert_eq!(*out.superseded_cells.pairs(), vec![(1, 1)]);
    assert_eq!(out.graph_ref, Some('g'));
}

#[test]
fn stamps_replace_and_superseded_cells_join() {
    let mut additions = SupersededCells::new();
    additions.insert(2, 5);
    let stamps = CommitListMetadata {
        partition_strategy: Some('q'),
        global_vector_index: Some('v'),
        drained_ranges: Some(vec![(0, 9)]),
        superseded_cells_additions: Some(additions),
        graph_ref: Some(None),
    };
    assert!(!stamps.is_empty());
    let once = stamps.apply(&base());
    let twice = stamps.apply(&once);
    for out in [once, twice] {
        assert_eq!(out.partition_strategy, 'q');
        assert_eq!(out.global_vector_index, Some('v'));
        assert_eq!(out.drained_ranges, vec![(0, 9)]);
        assert_eq!(*out.superseded_cells.pairs(), vec![(1, 1), (2, 5)]);
        assert_eq!(out.graph_ref, None);
    }
}

#[test]
fn new_rows_are_born_with_their_commit() {
    assert_eq!(NewEntryBirthVersions::StampCommit.birth_version(3, 9), 9);
    assert_eq!(NewEntryBirthVersions::Preserve.birth_version(3, 9), 3);
}

#[test]
fn the_pointer_comes_last() {
    assert!(needs_slow_state(true, 1));
    assert!(!needs_slow_state(true, 0));
    assert!(!needs_slow_state(false, 1));
    assert_eq!(
        attempt_steps(true),
        vec![
            AttemptStep::WriteSuperfiles,
            AttemptStep::UpdateManifest,
            AttemptStep::WriteSlowState,
            AttemptStep::ReadPointer,
            AttemptStep::WriteManifest,
        ]
    );
    assert_eq!(attempt_steps(false).len(), 4);
}

#[test]
fn a_refresh_without_news_keeps_the_manifest() {
    assert_eq!(refresh_outcome(ManifestRefresh::Loaded(7)), Ok(Some(7)));
    assert_eq!(refresh_outcome::<u8>(ManifestRefresh::AlreadyLoaded), Ok(None));
    assert_eq!(refresh_outcome::<u8>(ManifestRefresh::PointerNotFound), Ok(None));
    let failed: ManifestRefresh<u8> = ManifestRefresh::Failed("io".to_string());
    assert_eq!(refresh_outcome(failed), Err("io".to_string()));
}

#[test]
fn a_lost_race_is_repeated_while_attempts_are_left() {
    let mut attempts = OccLoop::start(2);
    assert_eq!(attempts.after(AttemptReply::Published), AfterAttempt::Done);
    assert_eq!(attempts.after(AttemptReply::Failed), AfterAttempt::Fail);
    assert_eq!(attempts.after(AttemptReply::Contention), AfterAttempt::Retry);
    assert_eq!(attempts.manifest_id(5), 5);
    attempts.retry(9);
    assert_eq!(attempts.attempt, 1);
    assert_eq!(attempts.manifest_id(5), 9);
    assert_eq!(attempts.manifest_id(12), 12);
    assert_eq!(attempts.after(AttemptReply::Contention), AfterAttempt::Exhausted);
    assert_eq!(OccLoop::start(0).max_retries, 1);
}

#[test]
fn a_moved_pointer_is_read_again_for_tombstones_only() {
    let mut attempts = OccLoop::start(2);
    let stamps = [ListStamp::TombstoneSeqs, ListStamp::SlowState, ListStamp::DeletedIds];
    for stamp in stamps {
        assert_eq!(attempts.after_pointer(stamp, PointerReply::Read), AfterPointer::Write);
        assert_eq!(attempts.after_pointer(stamp, PointerReply::Failed), AfterPointer::Fail);
    }
    let moved = |attempts: &OccLoop| {
        stamps.map(|stamp| attempts.after_pointer(stamp, PointerReply::Moved))
    };
    assert_eq!(moved(&attempts), [AfterPointer::Reload, AfterPointer::Fail, AfterPointer::Fail]);
    attempts.retry(0);
    assert_eq!(attempts.next_id_floor, 0);
    assert_eq!(moved(&attempts), [AfterPointer::Fail; 3]);
}

#[test]
fn the_floor_never_falls() {
    let mut attempts = OccLoop::start(3);
    attempts.retry(9);
    attempts.retry(4);
    assert_eq!(attempts.next_id_floor, 9);
}

#[test]
fn the_wait_doubles_and_varies() {
    assert_eq!(backoff_delay_ms(0, 30), 10);
    assert_eq!(backoff_delay_ms(1, 30), 20);
    assert_eq!(backoff_delay_ms(3, 0), 56);
    assert_eq!(backoff_delay_ms(3, 60), 104);
    assert_eq!(backoff_delay_ms(6, 30), 640);
    assert_eq!(backoff_delay_ms(7, 30), 1000);
    assert_eq!(backoff_delay_ms(7, 0), 700);
    assert_eq!(backoff_delay_ms(60, 30), 1000);
    assert_eq!(backoff_delay_ms(u32::MAX, 60), 1300);
    assert_eq!(backoff_delay_ms(0, 0), 7);
    assert_eq!(backoff_delay_ms(0, 25), 10);
    assert_eq!(backoff_delay_ms(6, 60), 832);
}

#[test]
fn a_walk_ends_at_the_first_free_id() {
    let mut walk = OrphanWalk::start(4, 5);
    assert_eq!(walk.probe(), Some(5));
    walk.step(HeadReply::Found);
    assert_eq!(walk.probe(), Some(6));
    walk.step(HeadReply::Missing);
    assert_eq!(walk.probe(), None);
    assert_eq!(walk.floor(), 6);
    let raced = OrphanWalk::start(5, 5);
    assert_eq!(raced.probe(), None);
    assert_eq!(raced.floor(), 0);
    let mut failed = OrphanWalk::start(4, 5);
    failed.step(HeadReply::Failed);
    assert_eq!(failed.probe(), None);
    assert_eq!(failed.floor(), 0);
}

#[test]
fn a_walk_looks_at_so_many_ids() {
    let mut walk = OrphanWalk::start(4, 5);
    let mut looks = 0;
    while walk.probe().is_some() {
        walk.step(HeadReply::Found);
        looks += 1;
    }
    assert_eq!(looks, 32);
    assert_eq!(walk.floor(), 37);
    let mut high = OrphanWalk::start(0, u64::MAX - 1);
    high.step(HeadReply::Found);
    assert_eq!(high.probe(), None);
    assert_eq!(high.floor(), u64::MAX);
}

#[test]
fn put_superfile_replace_creates_then_overwrites() {
    assert!(matches!(replace_step(Err(StorageFault::NotFound)), ReplaceStep::PutAtomic));
    match replace_step(Ok(Some("v1".to_string()))) {
        ReplaceStep::PutIfMatch(etag) => assert_eq!(etag, Some("v1".to_string())),
        other => panic!("unexpected {other:?}"),
    }
    assert!(matches!(replace_step(Ok(None)), ReplaceStep::PutIfMatch(None)));
    assert!(matches!(
        replace_step(Err(StorageFault::Other)),
        ReplaceStep::Fail(StorageFault::Other)
    ));
}

#[test]
fn an_earlier_attempt_at_a_new_file_is_success() {
    assert_eq!(new_superfile_outcome(Ok(())), Ok(()));
    assert_eq!(new_superfile_outcome(Err(StorageFault::PreconditionFailed)), Ok(()));
    assert_eq!(new_superfile_outcome(Err(StorageFault::Other)), Err(StorageFault::Other));
    assert_eq!(multipart_check(Ok(())), Err(StorageFault::PreconditionFailed));
    assert_eq!(multipart_check(Err(StorageFault::NotFound)), Ok(()));
    assert_eq!(multipart_check(Err(StorageFault::Other)), Err(StorageFault::Other));
    assert!(uploads_in_parts(10, 10));
    assert!(!uploads_in_parts(9, 10));
}

#[test]
fn a_large_upload_goes_in_parts() {
    let part: u64 = 8 * 1024 * 1024;
    assert_eq!(
        multipart_parts(part + 1),
        vec![Range { start: 0, end: part }, Range { start: part, end: part + 1 }]
    );
    assert!(multipart_parts(0).is_empty());
}

fn reply(index: usize, result: Result<(), char>) -> WriteReply<char> {
    WriteReply { index, result }
}

#[test]
fn what_landed_is_not_written_again() {
    let mut pending = vec!['a', 'b', 'c', 'd'];
    let replies = vec![reply(2, Ok(())), reply(0, Err('x')), reply(3, Err('y')), reply(1, Ok(()))];
    assert_eq!(settle_writes(&mut pending, replies), Err('y'));
    assert_eq!(pending, vec!['a', 'd']);
    let replies = vec![reply(0, Ok(())), reply(1, Ok(()))];
    assert_eq!(settle_writes(&mut pending, replies), Ok(()));
    assert!(pending.is_empty());
}

#[test]
fn replaced_files_go_first() {
    let mut writes = vec!['w'];
    let mut replaces = vec!['r', 's'];
    let failed = write_superfile_list(
        ListStep::SendReplaces,
        &mut writes,
        &mut replaces,
        vec![reply(0, Ok(())), reply(1, Err('e'))],
    );
    assert!(matches!(failed, ListStep::Done(Err('e'))));
    assert_eq!(replaces, vec!['s']);
    assert_eq!(writes, vec!['w']);
    let ended = write_superfile_list(failed, &mut writes, &mut replaces, vec![reply(0, Ok(()))]);
    assert!(matches!(ended, ListStep::Done(Err('e'))));
    assert_eq!(writes, vec!['w']);
    let sent: ListStep<char> = write_superfile_list(
        ListStep::SendReplaces,
        &mut writes,
        &mut replaces,
        vec![reply(0, Ok(()))],
    );
    assert!(matches!(sent, ListStep::SendWrites));
    assert!(replaces.is_empty());
    let done = write_superfile_list(sent, &mut writes, &mut replaces, vec![reply(0, Ok(()))]);
    assert!(matches!(done, ListStep::Done(Ok(()))));
    assert!(writes.is_empty());
}

#[test]
fn concurrency_follows_the_processors() {
    assert_eq!(commit_write_concurrency(Some(9)), 4);
    assert_eq!(commit_write_concurrency(Some(1)), 1);
    assert_eq!(commit_write_concurrency(None), 1);
    assert_eq!(drain_read_concurrency(Some(5), Some(100), 8), 5);
    assert_eq!(drain_read_concurrency(Some(0), Some(100), 8), 64);
    assert_eq!(drain_read_concurrency(None, Some(2), 8), 8);
    assert_eq!(drain_read_concurrency(None, Some(20), 8), 20);
    assert_eq!(drain_read_concurrency(None, None, 8), 8);
}
