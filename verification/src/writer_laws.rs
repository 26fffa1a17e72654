//! What a writer does with rows and mutations, seen from outside.
use vstd::prelude::*;

use crate::fanout_laws::build_scratch_is_weighted;
use crate::hashing::blake3_digest;
use crate::mutation::{
    CommitResult, MutationError, MutationStats, PendingDeleteEntry, PendingUpdateEntry,
    ResolveError,
};
use crate::text::hex_of;
use crate::writer::{
    commit_outcome, commit_threshold, commits_at_once, delete_outcome, first_outcome,
    flush_outcome, update_outcome, writer_refusal, AppendError, BatchBytes, CommitError,
    FlushError, NewRows, PendingMatch, ReservedIds, Supertable, SupertableWriter, TableError,
    WriterOptions, WriterRefused,
};

verus! {

// ---------------------------------------------------------------------------
// Appends
// ---------------------------------------------------------------------------

/// The buffer is committed by itself from the configured number of MiB on, as far
/// as bytes can be counted, and a size of zero turns that off.
pub proof fn threshold_is_the_configured_size(options: WriterOptions)
    ensures
        ({
            let bytes = options.commit_threshold_size_mb * 1048576;
            commit_threshold(options) == if bytes <= usize::MAX {
                bytes
            } else {
                usize::MAX as int
            }
        }),
        commit_threshold(options) == 0 <==> options.commit_threshold_size_mb == 0,
{
    let mb = options.commit_threshold_size_mb as int;
    assert(mb * 1048576 == 1024 * (mb * 1024)) by (nonlinear_arith);
}

/// An append below the configured size only buffers its batch, behind the others;
/// one that reaches it has the whole buffer built, its batch with it, and where
/// that fails the buffer keeps everything. `mid` is the writer with the batch.
pub proof fn append_builds_when_the_size_is_reached<B, R, F, E>(
    before: SupertableWriter<B>,
    mid: SupertableWriter<B>,
    after: SupertableWriter<B>,
    batch: B,
    bytes: BatchBytes,
    reserve: R,
    build: F,
    result: Result<(), AppendError<E>>,
) where R: Fn(usize) -> bool, F: Fn(&Vec<B>) -> Result<(), E>
    requires
        mid.holds_also(before, batch, bytes),
        if mid.threshold() > 0 && mid.held_bytes() >= mid.threshold() {
            match result {
                Ok(_) => flush_outcome(mid, after, reserve, build, Ok::<(), FlushError<E>>(())),
                Err(AppendError::Flush(e)) => flush_outcome(
                    mid,
                    after,
                    reserve,
                    build,
                    Err::<(), FlushError<E>>(e),
                ),
                Err(AppendError::InvalidBatch(_)) => false,
            }
        } else {
            result is Ok && after.same_buffer(mid)
        },
        before.buffer_scalar_bytes + before.buffer_vector_bytes + bytes.scalar + bytes.vector <= usize::MAX,
    ensures
        ({
            let size = before.options.commit_threshold_size_mb * 1048576;
            let held = before.buffer_scalar_bytes + before.buffer_vector_bytes + bytes.scalar + bytes.vector;
            &&& size == 0 || (held < size && held < usize::MAX) ==> {
                &&& result is Ok
                &&& after.buffer@ == before.buffer@.push(batch)
                &&& after.buffer_scalar_bytes == before.buffer_scalar_bytes + bytes.scalar
                &&& after.buffer_vector_bytes == before.buffer_vector_bytes + bytes.vector
                &&& after.buffer_fts_bytes == before.buffer_fts_bytes + bytes.fts
            }
            &&& size > 0 && held >= size ==> {
                &&& result is Ok ==> {
                    &&& after.buffer.len() == 0
                    &&& after.buffer_scalar_bytes == 0
                    &&& after.buffer_vector_bytes == 0
                    &&& after.buffer_fts_bytes == 0
                    &&& exists|rows: Vec<B>, r: Result<(), E>|
                        rows@ == before.buffer@.push(batch) && r is Ok && #[trigger] call_ensures(
                            build,
                            (&rows,),
                            r,
                        )
                }
                &&& result is Err ==> after.buffer@ == before.buffer@.push(batch) && after.buffer_scalar_bytes
                    == before.buffer_scalar_bytes + bytes.scalar && after.buffer_vector_bytes
                    == before.buffer_vector_bytes + bytes.vector && after.buffer_fts_bytes
                    == before.buffer_fts_bytes + bytes.fts
            }
        }),
{
    threshold_is_the_configured_size(before.options);
    assert(mid.options == before.options);
    let size = before.options.commit_threshold_size_mb * 1048576;
    let held = before.buffer_scalar_bytes + before.buffer_vector_bytes + bytes.scalar + bytes.vector;
    if size > 0 && held >= size && result is Ok {
        assert(mid.buffer.len() == before.buffer@.len() + 1);
        assert(flush_outcome(mid, after, reserve, build, Ok::<(), FlushError<E>>(())));
        let r = choose|r: Result<(), E>| r is Ok && #[trigger] call_ensures(build, (&mid.buffer,), r);
        assert(mid.buffer@ == before.buffer@.push(batch) && call_ensures(build, (&mid.buffer,), r));
    }
}

/// A flush builds the whole buffer, after the memory for it was set aside, and
/// empties it; one that fails leaves the buffer as it was. Nothing is built from
/// an empty buffer.
pub proof fn flush_builds_all_or_keeps_all<B, R, F, E>(
    before: SupertableWriter<B>,
    after: SupertableWriter<B>,
    reserve: R,
    build: F,
    result: Result<(), FlushError<E>>,
) -> (scratch: usize) where R: Fn(usize) -> bool, F: Fn(&Vec<B>) -> Result<(), E>
    requires
        flush_outcome(before, after, reserve, build, result),
    ensures
        before.buffer.len() == 0 ==> result is Ok && after.buffer@ == before.buffer@,
        result is Err ==> after.buffer == before.buffer && after.buffer_scalar_bytes == before.buffer_scalar_bytes
            && after.buffer_vector_bytes == before.buffer_vector_bytes && after.buffer_fts_bytes
            == before.buffer_fts_bytes,
        before.buffer.len() > 0 && result is Ok ==> {
            &&& after.buffer.len() == 0
            &&& after.buffer_scalar_bytes == 0
            &&& after.buffer_vector_bytes == 0
            &&& after.buffer_fts_bytes == 0
            &&& call_ensures(reserve, (scratch,), true)
            &&& exists|r: Result<(), E>| r is Ok && #[trigger] call_ensures(build, (&before.buffer,), r)
        },
        before.buffer.len() > 0 && result == Err::<(), FlushError<E>>(FlushError::OverBudget) ==> call_ensures(
            reserve,
            (scratch,),
            false,
        ),
        before.buffer.len() > 0 ==> (result matches Err(FlushError::Build(e)) ==> call_ensures(
            reserve,
            (scratch,),
            true,
        ) && call_ensures(build, (&before.buffer,), Err::<(), E>(e))),
        ({
            let weighted = 5 * before.buffer_scalar_bytes + 13 * before.buffer_vector_bytes + 3
                * before.buffer_fts_bytes;
            &&& weighted <= usize::MAX ==> 2 * scratch <= weighted < 2 * scratch + 2
            &&& weighted > usize::MAX ==> 2 * scratch <= usize::MAX < 2 * scratch + 2
        }),
{
    build_scratch_is_weighted(
        before.buffer_scalar_bytes as int,
        before.buffer_vector_bytes as int,
        before.buffer_fts_bytes as int,
    );
    crate::fanout::build_scratch(
        before.buffer_scalar_bytes as int,
        before.buffer_vector_bytes as int,
        before.buffer_fts_bytes as int,
    ) as usize
}

/// A single append commits by itself exactly when its batch alone reaches the
/// configured size.
pub proof fn one_batch_commits_at_the_size(options: WriterOptions, bytes: BatchBytes)
    requires
        bytes.scalar + bytes.vector < usize::MAX,
    ensures
        commits_at_once(options, bytes) <==> options.commit_threshold_size_mb > 0 && bytes.scalar + bytes.vector
            >= options.commit_threshold_size_mb * 1048576,
{
    threshold_is_the_configured_size(options);
}

// ---------------------------------------------------------------------------
// Deletes and updates
// ---------------------------------------------------------------------------

/// A delete that is taken in buffers one entry with all the ids that were found,
/// behind the others, and touches nothing else; it is taken in only where there
/// is storage and no more rows match than may.
pub proof fn delete_buffers_what_was_found<B, F, G>(
    before: SupertableWriter<B>,
    after: SupertableWriter<B>,
    resolve: F,
    mint: G,
    result: Result<PendingMatch, MutationError>,
) where F: Fn() -> Result<Vec<i128>, ResolveError>, G: Fn() -> i128
    requires
        delete_outcome(before, after, resolve, mint, result),
    ensures
        result is Err ==> after == before,
        result matches Ok(m) ==> {
            &&& before.options.has_storage
            &&& m.matched <= before.options.max_targets
            &&& after.pending_deletes.len() == before.pending_deletes.len() + 1
            &&& after.pending_deletes@.drop_last() == before.pending_deletes@
            &&& after.pending_deletes@.last().target_ids.len() == m.matched
            &&& call_ensures(
                resolve,
                (),
                Ok::<Vec<i128>, ResolveError>(after.pending_deletes@.last().target_ids),
            )
            &&& call_ensures(mint, (), after.pending_deletes@.last().wal_id)
            &&& after.pending_updates == before.pending_updates
            &&& after.buffer == before.buffer
            &&& after.buffer_scalar_bytes == before.buffer_scalar_bytes
            &&& after.buffer_vector_bytes == before.buffer_vector_bytes
            &&& after.buffer_fts_bytes == before.buffer_fts_bytes
            &&& after.options == before.options
        },
        !before.options.has_storage ==> result == Err::<PendingMatch, MutationError>(
            MutationError::NoStorageAttached,
        ),
        result is Err && before.options.has_storage ==> exists|found: Result<Vec<i128>, ResolveError>|
            {
                &&& #[trigger] call_ensures(resolve, (), found)
                &&& found matches Ok(ids) ==> ids.len() > before.options.max_targets && result == Err::<
                    PendingMatch,
                    MutationError,
                >(
                    MutationError::MatchCountExceedsCap {
                        matched: ids.len(),
                        cap: before.options.max_targets,
                    },
                )
            },
{
    if before.options.has_storage {
        let found = choose|found: Result<Vec<i128>, ResolveError>| #[trigger]
            call_ensures(resolve, (), found) && match found {
                Err(e) => result == Err::<PendingMatch, MutationError>(
                    crate::mutation::resolve_failure(e),
                ) && after == before,
                Ok(ids) => if ids.len() > before.options.max_targets {
                    &&& result == Err::<PendingMatch, MutationError>(
                        MutationError::MatchCountExceedsCap {
                            matched: ids.len(),
                            cap: before.options.max_targets,
                        },
                    )
                    &&& after == before
                } else {
                    &&& result == Ok::<PendingMatch, MutationError>(PendingMatch { matched: ids.len() })
                    &&& after.same_buffer(before)
                    &&& after.options == before.options
                    &&& after.pending_updates == before.pending_updates
                    &&& exists|wal_id: i128| #[trigger]
                        call_ensures(mint, (), wal_id) && after.pending_deletes@
                            == before.pending_deletes@.push(
                            PendingDeleteEntry { wal_id, target_ids: ids },
                        )
                },
            };
        assert(call_ensures(resolve, (), found));
        if result is Ok {
            assert(after.pending_deletes@.drop_last() =~= before.pending_deletes@);
        }
    }
}

/// An update that is taken in buffers one entry: all the ids that were found, as
/// many as there are new rows, the bytes of the new rows and their hash, and the
/// ids that were set aside for them. An update that matches nothing buffers
/// nothing, and one that is refused changes nothing.
pub proof fn update_buffers_what_was_found<B, F, G, H>(
    before: SupertableWriter<B>,
    after: SupertableWriter<B>,
    rows: NewRows,
    resolve: F,
    reserve_ids: G,
    encode: H,
    result: Result<PendingMatch, MutationError>,
) where
    F: Fn() -> Result<Vec<i128>, ResolveError>,
    G: Fn(u32) -> ReservedIds,
    H: Fn() -> Result<Vec<u8>, String>,

    requires
        update_outcome(before, after, rows, resolve, reserve_ids, encode, result),
    ensures
        result is Err ==> after == before,
        !before.options.has_storage ==> result == Err::<PendingMatch, MutationError>(
            MutationError::NoStorageAttached,
        ),
        before.options.has_storage && !rows.schema_matches ==> result == Err::<PendingMatch, MutationError>(
            MutationError::SchemaMismatch,
        ),
        result is Err ==> !before.options.has_storage || !rows.schema_matches || rows.vectors is Err || (
        exists|bytes: Result<Vec<u8>, String>| #[trigger] call_ensures(encode, (), bytes) && bytes is Err) || (
        exists|found: Result<Vec<i128>, ResolveError>|
            {
                &&& #[trigger] call_ensures(resolve, (), found)
                &&& found matches Ok(ids) ==> ids.len() > before.options.max_targets || ids.len() != rows.n_rows
            }),
        result matches Ok(m) ==> {
            &&& before.options.has_storage
            &&& rows.schema_matches
            &&& rows.vectors is Ok
            &&& m.matched == rows.n_rows
            &&& m.matched <= before.options.max_targets
            &&& m.matched == 0 ==> after == before
            &&& m.matched > 0 ==> {
                let entry = after.pending_updates@.last();
                &&& after.pending_updates.len() == before.pending_updates.len() + 1
                &&& after.pending_updates@.drop_last() == before.pending_updates@
                &&& after.pending_deletes == before.pending_deletes
                &&& after.buffer == before.buffer
                &&& after.buffer_scalar_bytes == before.buffer_scalar_bytes
                &&& after.buffer_vector_bytes == before.buffer_vector_bytes
                &&& after.buffer_fts_bytes == before.buffer_fts_bytes
                &&& entry.target_ids.len() == m.matched
                &&& call_ensures(resolve, (), Ok::<Vec<i128>, ResolveError>(entry.target_ids))
                &&& entry.new_row_count == m.matched
                &&& call_ensures(encode, (), Ok::<Vec<u8>, String>(entry.ipc_bytes))
                &&& entry.new_row_content_hash@ == hex_of(blake3_digest(entry.ipc_bytes@))
                &&& exists|reserved: ReservedIds|
                    {
                        &&& #[trigger] call_ensures(reserve_ids, (m.matched as u32,), reserved)
                        &&& entry.wal_id == reserved.wal_id
                        &&& entry.minted_id_spans == reserved.spans
                        &&& entry.preallocated_superfile_id == reserved.superfile_id
                    }
            }
        },
{
    assert(result is Ok ==> rows.vectors is Ok);
}

// ---------------------------------------------------------------------------
// Commits
// ---------------------------------------------------------------------------

/// A commit that ends well has carried out every buffered update and then every
/// buffered delete, each with its own outcome in order, and leaves nothing
/// buffered.
pub proof fn commit_carries_out_every_mutation<B, R, F, E, U, D>(
    before: SupertableWriter<B>,
    after: SupertableWriter<B>,
    reserve: R,
    build: F,
    drive_update: U,
    drive_delete: D,
    done: CommitResult,
) where
    R: Fn(usize) -> bool,
    F: Fn(&Vec<B>) -> Result<(), E>,
    U: Fn(&PendingUpdateEntry) -> Result<MutationStats, MutationError>,
    D: Fn(&PendingDeleteEntry) -> Result<MutationStats, MutationError>,

    requires
        commit_outcome(
            before,
            after,
            reserve,
            build,
            drive_update,
            drive_delete,
            Ok::<CommitResult, CommitError<E>>(done),
        ),
    ensures
        after.buffer.len() == 0,
        after.pending_updates.len() == 0,
        after.pending_deletes.len() == 0,
        before.buffer.len() > 0 ==> exists|r: Result<(), E>|
            r is Ok && #[trigger] call_ensures(build, (&before.buffer,), r),
        done.outcomes.len() == before.pending_updates.len() + before.pending_deletes.len(),
        done.wal_ids.len() == done.outcomes.len(),
        forall|i: int| 0 <= i < done.outcomes.len() ==> done.wal_ids@[i] == (#[trigger] done.outcomes@[i]).wal_id,
        forall|i: int|
            0 <= i < before.pending_updates.len() ==> call_ensures(
                drive_update,
                (&#[trigger] before.pending_updates@[i],),
                Ok::<MutationStats, MutationError>(done.outcomes@[i]),
            ),
        forall|i: int|
            0 <= i < before.pending_deletes.len() ==> call_ensures(
                drive_delete,
                (&#[trigger] before.pending_deletes@[i],),
                Ok::<MutationStats, MutationError>(done.outcomes@[before.pending_updates.len() + i]),
            ),
{
    let outcomes = done.outcomes@;
    assert forall|i: int| 0 <= i < before.pending_updates.len() implies call_ensures(
        drive_update,
        (&#[trigger] before.pending_updates@[i],),
        Ok::<MutationStats, MutationError>(done.outcomes@[i]),
    ) by {
        assert(outcomes[0 + i] == done.outcomes@[i]);
    }
}

/// A commit that stops has carried out the mutations before the one that failed,
/// names them, drops that one and keeps all behind it.
pub proof fn stopped_commit_keeps_the_rest<B, R, F, E, U, D>(
    before: SupertableWriter<B>,
    after: SupertableWriter<B>,
    reserve: R,
    build: F,
    drive_update: U,
    drive_delete: D,
    result: Result<CommitResult, CommitError<E>>,
) -> (outcomes: Seq<MutationStats>) where
    R: Fn(usize) -> bool,
    F: Fn(&Vec<B>) -> Result<(), E>,
    U: Fn(&PendingUpdateEntry) -> Result<MutationStats, MutationError>,
    D: Fn(&PendingDeleteEntry) -> Result<MutationStats, MutationError>,

    requires
        commit_outcome(before, after, reserve, build, drive_update, drive_delete, result),
        result is Err,
    ensures
        match result {
            Ok(_) => false,
            Err(CommitError::AppendFlush(_)) => {
                &&& after.buffer == before.buffer
                &&& after.pending_updates == before.pending_updates
                &&& after.pending_deletes == before.pending_deletes
            },
            Err(CommitError::PartialCommit { committed_wal_ids, committed, total, cause }) => {
                let (u, d) = (before.pending_updates@, before.pending_deletes@);
                &&& after.buffer.len() == 0
                &&& total == u.len() + d.len()
                &&& committed < total
                &&& committed_wal_ids.len() == committed
                &&& committed < u.len() ==> {
                    &&& call_ensures(
                        drive_update,
                        (&u[committed as int],),
                        Err::<MutationStats, MutationError>(cause),
                    )
                    &&& after.pending_updates.len() == u.len() - committed - 1
                    &&& forall|i: int|
                        0 <= i < after.pending_updates.len() ==> (#[trigger] after.pending_updates@[i]) == u[committed
                            + 1 + i]
                    &&& after.pending_deletes@ == d
                }
                &&& committed >= u.len() ==> {
                    &&& call_ensures(
                        drive_delete,
                        (&d[committed - u.len()],),
                        Err::<MutationStats, MutationError>(cause),
                    )
                    &&& after.pending_updates.len() == 0
                    &&& after.pending_deletes.len() == total - committed - 1
                    &&& forall|i: int|
                        0 <= i < after.pending_deletes.len() ==> (#[trigger] after.pending_deletes@[i]) == d[committed
                            - u.len() + 1 + i]
                }
                &&& outcomes.len() == committed
                &&& forall|i: int|
                    0 <= i < committed ==> (#[trigger] outcomes[i]).wal_id == committed_wal_ids@[i]
                &&& forall|i: int|
                    0 <= i < committed && i < u.len() ==> call_ensures(
                        drive_update,
                        (&#[trigger] u[i],),
                        Ok::<MutationStats, MutationError>(outcomes[i]),
                    )
                &&& forall|i: int|
                    0 <= i && u.len() + i < committed ==> call_ensures(
                        drive_delete,
                        (&#[trigger] d[i],),
                        Ok::<MutationStats, MutationError>(outcomes[u.len() + i]),
                    )
            },
        },
{
    if let Err(CommitError::PartialCommit { committed_wal_ids, committed, total, cause }) = result {
        let (u, d) = (before.pending_updates@, before.pending_deletes@);
        let outcomes = choose|outcomes: Seq<MutationStats>|
            {
                &&& outcomes.len() == committed
                &&& committed_wal_ids@ == #[trigger] crate::writer::log_ids(outcomes)
                &&& crate::writer::carried_out(drive_update, u, outcomes, 0)
                &&& crate::writer::carried_out(drive_delete, d, outcomes, u.len() as int)
            };
        assert forall|i: int| 0 <= i < committed implies (#[trigger] outcomes[i]).wal_id
            == committed_wal_ids@[i] by {
            assert(crate::writer::log_ids(outcomes)[i] == outcomes[i].wal_id);
        }
        assert forall|i: int| 0 <= i < committed && i < u.len() implies call_ensures(
            drive_update,
            (&#[trigger] u[i],),
            Ok::<MutationStats, MutationError>(outcomes[i]),
        ) by {
            assert(outcomes[0 + i] == outcomes[i]);
        }
        outcomes
    } else {
        Seq::empty()
    }
}

/// A table has a writer to give exactly when it may write and has given none.
pub proof fn one_writer_at_a_time(table: Supertable)
    ensures
        writer_refusal(table) is None <==> !table.options.consumer_memory_mode && !table.writer_outstanding,
        table.options.consumer_memory_mode ==> writer_refusal(table) == Some(WriterRefused::ConsumerMemoryMode),
        !table.options.consumer_memory_mode && table.writer_outstanding ==> writer_refusal(table) == Some(
            WriterRefused::SupertableInUse,
        ),
{
}

/// What a single mutation gives back is the outcome of its own commit.
pub proof fn single_mutation_gives_its_outcome<E>(committed: Result<CommitResult, CommitError<E>>)
    ensures
        match committed {
            Err(e) => first_outcome(committed) == Err::<MutationStats, TableError<E>>(TableError::Commit(e)),
            Ok(done) => done.outcomes.len() == 1 ==> first_outcome(committed) == Ok::<
                MutationStats,
                TableError<E>,
            >(done.outcomes@[0]),
        },
{
}

} // verus!
