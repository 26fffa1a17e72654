//! The writer of a table: what it buffers, and what a commit makes of it.
use vstd::prelude::*;

use crate::arith::{capped, saturating_mul_usize};
use crate::fanout::{build_scratch, reserve_build_scratch};
use crate::hashing::{blake3_digest, blake3_hash_hex};
use crate::mutation::{
    resolve_failure, single_outcome, target_resolve_err, CommitResult, IdSpan, MutationError, MutationStats,
    PendingDeleteEntry, PendingUpdateEntry, ResolveError,
};
use crate::text::hex_of;

verus! {

/// What a writer goes by.
#[derive(Clone, Copy, PartialEq, Eq, Structural, Debug)]
pub struct WriterOptions {
    pub has_storage: bool,
    /// The handle holds no centroids of its own, so it cannot write.
    pub consumer_memory_mode: bool,
    /// A buffer of this many MiB is committed by itself; zero for never.
    pub commit_threshold_size_mb: usize,
    /// The most rows that one mutation may match.
    pub max_targets: usize,
}

/// The bytes that a batch holds, by what they become.
#[derive(Clone, Copy, PartialEq, Eq, Structural, Debug)]
pub struct BatchBytes {
    pub scalar: usize,
    pub vector: usize,
    /// The part of the scalar bytes that is indexed text.
    pub fts: usize,
}

/// Why buffered rows were not committed.
#[derive(Debug)]
pub enum FlushError<E> {
    /// The memory for the build could not be had.
    OverBudget,
    Build(E),
}

/// Why a commit ended early.
#[allow(inconsistent_fields)]
#[derive(Debug)]
pub enum CommitError<E> {
    /// The rows were not committed; nothing else was tried.
    AppendFlush(FlushError<E>),
    /// A mutation failed. Those before it are durable, those after it are still
    /// buffered.
    PartialCommit { committed_wal_ids: Vec<i128>, committed: usize, total: usize, cause: MutationError },
}

/// A buffered mutation's match count.
#[derive(Clone, Copy, PartialEq, Eq, Structural, Debug)]
pub struct PendingMatch {
    pub matched: usize,
}

/// The single writer of a table. `B` is a batch as it is buffered.
#[derive(Debug)]
pub struct SupertableWriter<B> {
    pub options: WriterOptions,
    pub buffer: Vec<B>,
    pub buffer_scalar_bytes: usize,
    pub buffer_vector_bytes: usize,
    pub buffer_fts_bytes: usize,
    pub pending_updates: Vec<PendingUpdateEntry>,
    pub pending_deletes: Vec<PendingDeleteEntry>,
}

/// What a try to commit the buffered rows came to, whatever the two calls gave:
/// nothing is called without rows; without memory, or when the build fails, the
/// rows stay; else they are gone.
pub open spec fn flush_outcome<B, R, F, E>(
    before: SupertableWriter<B>,
    after: SupertableWriter<B>,
    reserve: R,
    build: F,
    result: Result<(), FlushError<E>>,
) -> bool where R: Fn(usize) -> bool, F: Fn(&Vec<B>) -> Result<(), E> {
    let scratch = build_scratch(
        before.buffer_scalar_bytes as int,
        before.buffer_vector_bytes as int,
        before.buffer_fts_bytes as int,
    ) as usize;
    if before.buffer.len() == 0 {
        result is Ok && after.same_buffer(before)
    } else {
        match result {
            Ok(_) => {
                &&& call_ensures(reserve, (scratch,), true)
                &&& exists|r: Result<(), E>| r is Ok && #[trigger] call_ensures(build, (&before.buffer,), r)
                &&& after.buffer.len() == 0
                &&& after.held_bytes() == 0
                &&& after.buffer_fts_bytes == 0
            },
            Err(FlushError::OverBudget) => {
                &&& call_ensures(reserve, (scratch,), false)
                &&& after.same_buffer(before)
            },
            Err(FlushError::Build(e)) => {
                &&& call_ensures(reserve, (scratch,), true)
                &&& call_ensures(build, (&before.buffer,), Err::<(), E>(e))
                &&& after.same_buffer(before)
            },
        }
    }
}

impl<B> SupertableWriter<B> {
    /// The buffered bytes can be counted.
    pub open spec fn well_formed(self) -> bool {
        self.buffer_scalar_bytes + self.buffer_vector_bytes <= usize::MAX
    }

    /// The bytes that are held.
    pub open spec fn held_bytes(self) -> int {
        self.buffer_scalar_bytes + self.buffer_vector_bytes
    }

    /// The two hold the same rows and mutations.
    pub open spec fn same_buffer(self, other: SupertableWriter<B>) -> bool {
        &&& self.buffer == other.buffer
        &&& self.buffer_scalar_bytes == other.buffer_scalar_bytes
        &&& self.buffer_vector_bytes == other.buffer_vector_bytes
        &&& self.buffer_fts_bytes == other.buffer_fts_bytes
    }

    /// A writer with nothing in it.
    pub fn new(options: WriterOptions) -> (w: SupertableWriter<B>)
        ensures
            w.well_formed(),
            w.options == options,
            w.buffer.len() == 0,
            w.held_bytes() == 0,
            w.buffer_fts_bytes == 0,
            w.pending_updates.len() == 0,
            w.pending_deletes.len() == 0,
    {
        SupertableWriter {
            options,
            buffer: Vec::new(),
            buffer_scalar_bytes: 0,
            buffer_vector_bytes: 0,
            buffer_fts_bytes: 0,
            pending_updates: Vec::new(),
            pending_deletes: Vec::new(),
        }
    }

    /// The number of buffered batches.
    pub fn buffered_batches(&self) -> (n: usize)
        ensures
            n == self.buffer.len(),
    {
        self.buffer.len()
    }

    /// The bytes of the buffered rows: scalar columns and vectors.
    pub fn buffered_bytes(&self) -> (n: usize)
        requires
            self.well_formed(),
        ensures
            n == self.held_bytes(),
    {
        self.buffer_scalar_bytes + self.buffer_vector_bytes
    }

    /// Commits the buffered rows. `reserve` asks for the memory of the build and
    /// `build` builds and publishes; unless both succeed the rows stay buffered.
    pub fn commit_appends_internal<R, F, E>(&mut self, reserve: R, build: F) -> (result: Result<
        (),
        FlushError<E>,
    >) where R: Fn(usize) -> bool, F: Fn(&Vec<B>) -> Result<(), E>
        requires
            old(self).well_formed(),
            forall|n: usize| call_requires(reserve, (n,)),
            forall|b: Vec<B>| call_requires(build, (&b,)),
        ensures
            final(self).well_formed(),
            final(self).options == old(self).options,
            final(self).pending_updates == old(self).pending_updates,
            final(self).pending_deletes == old(self).pending_deletes,
            flush_outcome(*old(self), *final(self), reserve, build, result),
    {
        if self.buffer.len() == 0 {
            return Ok(());
        }
        let estimate: usize = reserve_build_scratch(
            self.buffer_scalar_bytes,
            self.buffer_vector_bytes,
            self.buffer_fts_bytes,
        );
        if !reserve(estimate) {
            return Err(FlushError::OverBudget);
        }
        let mut taken: Vec<B> = Vec::new();
        std::mem::swap(&mut taken, &mut self.buffer);
        let scalar: usize = self.buffer_scalar_bytes;
        let vector: usize = self.buffer_vector_bytes;
        let fts: usize = self.buffer_fts_bytes;
        self.buffer_scalar_bytes = 0;
        self.buffer_vector_bytes = 0;
        self.buffer_fts_bytes = 0;
        let built = build(&taken);
        assert(call_ensures(build, (&old(self).buffer,), built));
        match built {
            Ok(_) => Ok(()),
            Err(e) => {
                self.buffer = taken;
                self.buffer_scalar_bytes = scalar;
                self.buffer_vector_bytes = vector;
                self.buffer_fts_bytes = fts;
                Err(FlushError::Build(e))
            },
        }
    }
}

// ---------------------------------------------------------------------------
// Appends
// ---------------------------------------------------------------------------

/// The buffer size from which on rows are committed by themselves; 0 turns that
/// off.
pub open spec fn commit_threshold(options: WriterOptions) -> int {
    capped(
        1024 * capped(options.commit_threshold_size_mb * 1024, usize::MAX as int),
        usize::MAX as int,
    )
}

/// Why a batch was not appended.
#[derive(Debug)]
pub enum AppendError<E> {
    /// The batch does not fit the table; nothing was buffered.
    InvalidBatch(String),
    /// The batch was buffered, but the commit that it set off failed.
    Flush(FlushError<E>),
}

impl<B> SupertableWriter<B> {
    /// The buffer size from which on rows are committed by themselves.
    pub open spec fn threshold(self) -> int {
        commit_threshold(self.options)
    }

    /// The buffer has this batch besides what it had.
    pub open spec fn holds_also(self, before: SupertableWriter<B>, batch: B, bytes: BatchBytes) -> bool {
        &&& self.buffer@ == before.buffer@.push(batch)
        &&& self.buffer_scalar_bytes == before.buffer_scalar_bytes + bytes.scalar
        &&& self.buffer_vector_bytes == before.buffer_vector_bytes + bytes.vector
        &&& self.buffer_fts_bytes == before.buffer_fts_bytes + bytes.fts
        &&& self.options == before.options
    }

    /// Adds a batch to the buffer, and commits the buffer when it has reached
    /// its threshold.
    pub fn append<R, F, E>(&mut self, batch: Result<B, String>, bytes: BatchBytes, reserve: R, build: F) -> (result:
        Result<(), AppendError<E>>) where R: Fn(usize) -> bool, F: Fn(&Vec<B>) -> Result<(), E>
        requires
            old(self).well_formed(),
            old(self).held_bytes() + bytes.scalar + bytes.vector <= usize::MAX,
            old(self).buffer_fts_bytes + bytes.fts <= usize::MAX,
            forall|n: usize| call_requires(reserve, (n,)),
            forall|b: Vec<B>| call_requires(build, (&b,)),
        ensures
            final(self).well_formed(),
            final(self).options == old(self).options,
            final(self).pending_updates == old(self).pending_updates,
            final(self).pending_deletes == old(self).pending_deletes,
            match batch {
                Err(e) => {
                    &&& result == Err::<(), AppendError<E>>(AppendError::InvalidBatch(e))
                    &&& final(self).same_buffer(*old(self))
                },
                Ok(b) => exists|mid: SupertableWriter<B>| #[trigger]
                    mid.holds_also(*old(self), b, bytes) && if mid.threshold() > 0 && mid.held_bytes()
                        >= mid.threshold() {
                        match result {
                            Ok(_) => flush_outcome(
                                mid,
                                *final(self),
                                reserve,
                                build,
                                Ok::<(), FlushError<E>>(()),
                            ),
                            Err(AppendError::Flush(e)) => flush_outcome(
                                mid,
                                *final(self),
                                reserve,
                                build,
                                Err::<(), FlushError<E>>(e),
                            ),
                            Err(AppendError::InvalidBatch(_)) => false,
                        }
                    } else {
                        result is Ok && final(self).same_buffer(mid)
                    },
            },
    {
        let b = match batch {
            Ok(b) => b,
            Err(e) => {
                return Err(AppendError::InvalidBatch(e));
            },
        };
        self.buffer.push(b);
        self.buffer_scalar_bytes = self.buffer_scalar_bytes + bytes.scalar;
        self.buffer_vector_bytes = self.buffer_vector_bytes + bytes.vector;
        self.buffer_fts_bytes = self.buffer_fts_bytes + bytes.fts;
        let ghost mid = *self;
        assert(mid.holds_also(*old(self), b, bytes));
        let threshold: usize = saturating_mul_usize(
            saturating_mul_usize(self.options.commit_threshold_size_mb, 1024),
            1024,
        );
        if threshold > 0 && self.buffered_bytes() >= threshold {
            let flushed = self.commit_appends_internal(reserve, build);
            match flushed {
                Ok(_) => Ok(()),
                Err(e) => Err(AppendError::Flush(e)),
            }
        } else {
            Ok(())
        }
    }
}

// ---------------------------------------------------------------------------
// Deletes and updates
// ---------------------------------------------------------------------------

/// What a delete came to, whatever the two calls gave.
pub open spec fn delete_outcome<B, F, G>(
    before: SupertableWriter<B>,
    after: SupertableWriter<B>,
    resolve: F,
    mint: G,
    result: Result<PendingMatch, MutationError>,
) -> bool where F: Fn() -> Result<Vec<i128>, ResolveError>, G: Fn() -> i128 {
    if !before.options.has_storage {
        result == Err::<PendingMatch, MutationError>(MutationError::NoStorageAttached) && after == before
    } else {
        exists|found: Result<Vec<i128>, ResolveError>| #[trigger]
            call_ensures(resolve, (), found) && match found {
                Err(e) => result == Err::<PendingMatch, MutationError>(resolve_failure(e)) && after
                    == before,
                Ok(ids) => if ids.len() > before.options.max_targets {
                    &&& result == Err::<PendingMatch, MutationError>(
                        MutationError::MatchCountExceedsCap {
                            matched: ids.len(),
                            cap: before.options.max_targets,
                        },
                    )
                    &&& after == before
                } else {
                    &&& result == Ok::<PendingMatch, MutationError>(PendingMatch { matched: ids.len() })
                    &&& after.same_buffer(before)
                    &&& after.options == before.options
                    &&& after.pending_updates == before.pending_updates
                    &&& exists|wal_id: i128| #[trigger]
                        call_ensures(mint, (), wal_id) && after.pending_deletes@
                            == before.pending_deletes@.push(
                            PendingDeleteEntry { wal_id, target_ids: ids },
                        )
                },
            }
    }
}

/// What is set aside for the new rows of an update.
#[derive(Debug)]
pub struct ReservedIds {
    pub wal_id: i128,
    pub spans: Vec<IdSpan>,
    pub superfile_id: u128,
}

/// The new rows of an update, as far as they were looked at.
#[derive(Debug)]
pub struct NewRows {
    pub schema_matches: bool,
    /// The vectors fit the table.
    pub vectors: Result<(), String>,
    pub n_rows: usize,
}

/// What an update came to, whatever the three calls gave.
pub open spec fn update_outcome<B, F, G, H>(
    before: SupertableWriter<B>,
    after: SupertableWriter<B>,
    rows: NewRows,
    resolve: F,
    reserve_ids: G,
    encode: H,
    result: Result<PendingMatch, MutationError>,
) -> bool where
    F: Fn() -> Result<Vec<i128>, ResolveError>,
    G: Fn(u32) -> ReservedIds,
    H: Fn() -> Result<Vec<u8>, String>,
 {
    if !before.options.has_storage {
        result == Err::<PendingMatch, MutationError>(MutationError::NoStorageAttached) && after == before
    } else if !rows.schema_matches {
        result == Err::<PendingMatch, MutationError>(MutationError::SchemaMismatch) && after == before
    } else if let Err(e) = rows.vectors {
        result == Err::<PendingMatch, MutationError>(MutationError::InvalidNewRows(e)) && after == before
    } else {
        exists|found: Result<Vec<i128>, ResolveError>| #[trigger]
            call_ensures(resolve, (), found) && match found {
                Err(e) => result == Err::<PendingMatch, MutationError>(resolve_failure(e)) && after
                    == before,
                Ok(ids) => if ids.len() > before.options.max_targets {
                    &&& result == Err::<PendingMatch, MutationError>(
                        MutationError::MatchCountExceedsCap {
                            matched: ids.len(),
                            cap: before.options.max_targets,
                        },
                    )
                    &&& after == before
                } else if ids.len() != rows.n_rows {
                    &&& result == Err::<PendingMatch, MutationError>(
                        MutationError::CardinalityMismatch {
                            matched: ids.len(),
                            new_rows: rows.n_rows,
                        },
                    )
                    &&& after == before
                } else if ids.len() == 0 {
                    result == Ok::<PendingMatch, MutationError>(PendingMatch { matched: 0 }) && after
                        == before
                } else {
                    exists|ids_for: ReservedIds, bytes: Result<Vec<u8>, String>|
                        {
                            &&& #[trigger] call_ensures(reserve_ids, (ids.len() as u32,), ids_for)
                            &&& #[trigger] call_ensures(encode, (), bytes)
                            &&& match bytes {
                                Err(e) => result == Err::<PendingMatch, MutationError>(
                                    MutationError::Storage(e),
                                ) && after == before,
                                Ok(ipc) => {
                                    &&& result == Ok::<PendingMatch, MutationError>(
                                        PendingMatch { matched: ids.len() },
                                    )
                                    &&& after.same_buffer(before)
                                    &&& after.options == before.options
                                    &&& after.pending_deletes == before.pending_deletes
                                    &&& after.pending_updates.len() == before.pending_updates.len() + 1
                                    &&& after.pending_updates@.drop_last() == before.pending_updates@
                                    &&& is_update_of(after.pending_updates@.last(), ids, ids_for, ipc)
                                },
                            }
                        }
                },
            }
    }
}

/// The buffered update of these rows: the ids that were set aside for it, and
/// the bytes of the new rows with their hash.
pub open spec fn is_update_of(
    entry: PendingUpdateEntry,
    ids: Vec<i128>,
    reserved: ReservedIds,
    ipc: Vec<u8>,
) -> bool {
    &&& entry.wal_id == reserved.wal_id
    &&& entry.target_ids == ids
    &&& entry.preallocated_superfile_id == reserved.superfile_id
    &&& entry.minted_id_spans == reserved.spans
    &&& entry.new_row_count == ids.len()
    &&& entry.new_row_content_hash@ == hex_of(blake3_digest(ipc@))
    &&& entry.ipc_bytes == ipc
}

impl<B> SupertableWriter<B> {
    /// Buffers a delete. `resolve` finds the rows in the latest manifest, and
    /// `mint` makes an id for the log. Only the rows found now are deleted.
    pub fn delete<F, G>(&mut self, resolve: F, mint: G) -> (result: Result<PendingMatch, MutationError>) where
        F: Fn() -> Result<Vec<i128>, ResolveError>,
        G: Fn() -> i128,

        requires
            call_requires(resolve, ()),
            call_requires(mint, ()),
        ensures
            delete_outcome(*old(self), *final(self), resolve, mint, result),
    {
        if !self.options.has_storage {
            return Err(MutationError::NoStorageAttached);
        }
        let found = resolve();
        assert(call_ensures(resolve, (), found));
        let target_ids = match found {
            Ok(ids) => ids,
            Err(e) => {
                return Err(target_resolve_err(e));
            },
        };
        let matched: usize = target_ids.len();
        if matched > self.options.max_targets {
            return Err(
                MutationError::MatchCountExceedsCap { matched, cap: self.options.max_targets },
            );
        }
        let wal_id: i128 = mint();
        assert(call_ensures(mint, (), wal_id));
        self.pending_deletes.push(PendingDeleteEntry { wal_id, target_ids });
        Ok(PendingMatch { matched })
    }

    /// Buffers an update: one new row for each row that matches. `resolve` finds
    /// the rows in the latest manifest, `reserve_ids` sets ids aside and
    /// `encode` writes the new rows out. Nothing is buffered when no row
    /// matches.
    pub fn update<F, G, H>(&mut self, rows: NewRows, resolve: F, reserve_ids: G, encode: H) -> (result: Result<
        PendingMatch,
        MutationError,
    >) where
        F: Fn() -> Result<Vec<i128>, ResolveError>,
        G: Fn(u32) -> ReservedIds,
        H: Fn() -> Result<Vec<u8>, String>,

        requires
            old(self).options.max_targets <= u32::MAX,
            call_requires(resolve, ()),
            forall|n: u32| call_requires(reserve_ids, (n,)),
            call_requires(encode, ()),
        ensures
            update_outcome(*old(self), *final(self), rows, resolve, reserve_ids, encode, result),
    {
        if !self.options.has_storage {
            return Err(MutationError::NoStorageAttached);
        }
        if !rows.schema_matches {
            return Err(MutationError::SchemaMismatch);
        }
        if let Err(e) = rows.vectors {
            return Err(MutationError::InvalidNewRows(e));
        }
        let found = resolve();
        assert(call_ensures(resolve, (), found));
        let target_ids = match found {
            Ok(ids) => ids,
            Err(e) => {
                return Err(target_resolve_err(e));
            },
        };
        let matched: usize = target_ids.len();
        if matched > self.options.max_targets {
            return Err(
                MutationError::MatchCountExceedsCap { matched, cap: self.options.max_targets },
            );
        }
        if matched != rows.n_rows {
            return Err(MutationError::CardinalityMismatch { matched, new_rows: rows.n_rows });
        }
        if matched == 0 {
            return Ok(PendingMatch { matched: 0 });
        }
        let reserved = reserve_ids(matched as u32);
        assert(call_ensures(reserve_ids, (target_ids.len() as u32,), reserved));
        let encoded = encode();
        assert(call_ensures(encode, (), encoded));
        let ghost encoded_value = encoded;
        let ipc_bytes = match encoded {
            Ok(bytes) => bytes,
            Err(e) => {
                return Err(MutationError::Storage(e));
            },
        };
        let content_hash = blake3_hash_hex(ipc_bytes.as_slice());
        let ghost before = self.pending_updates@;
        let ghost reserved_value = reserved;
        let ghost ids = target_ids;
        self.pending_updates.push(
            PendingUpdateEntry {
                wal_id: reserved.wal_id,
                target_ids,
                preallocated_superfile_id: reserved.superfile_id,
                minted_id_spans: reserved.spans,
                new_row_count: matched as u32,
                new_row_content_hash: content_hash,
                ipc_bytes,
            },
        );
        proof {
            assert(self.pending_updates@.drop_last() =~= before);
            assert(is_update_of(self.pending_updates@.last(), ids, reserved_value, encoded_value->Ok_0));
            assert(call_ensures(reserve_ids, (ids.len() as u32,), reserved_value));
            assert(call_ensures(encode, (), encoded_value));
        }
        Ok(PendingMatch { matched })
    }
}

// ---------------------------------------------------------------------------
// Commits
// ---------------------------------------------------------------------------

/// The first mutations, each with what carrying it out gave.
pub open spec fn carried_out<M, D>(drive: D, entries: Seq<M>, outcomes: Seq<MutationStats>, from: int) -> bool where
    D: Fn(&M) -> Result<MutationStats, MutationError>,
 {
    forall|i: int|
        0 <= i < entries.len() && from + i < outcomes.len() ==> call_ensures(
            drive,
            (&#[trigger] entries[i],),
            Ok::<MutationStats, MutationError>(outcomes[from + i]),
        )
}

/// The ids in the log, one for each outcome.
pub open spec fn log_ids(outcomes: Seq<MutationStats>) -> Seq<i128> {
    Seq::new(outcomes.len(), |i: int| outcomes[i].wal_id)
}

/// What a commit came to, whatever the calls gave. The rows go first; then the
/// updates and the deletes, each kind in the order in which they were buffered.
/// The first that fails ends the commit: it is dropped, and those after it stay.
pub open spec fn commit_outcome<B, R, F, E, U, D>(
    before: SupertableWriter<B>,
    after: SupertableWriter<B>,
    reserve: R,
    build: F,
    drive_update: U,
    drive_delete: D,
    result: Result<CommitResult, CommitError<E>>,
) -> bool where
    R: Fn(usize) -> bool,
    F: Fn(&Vec<B>) -> Result<(), E>,
    U: Fn(&PendingUpdateEntry) -> Result<MutationStats, MutationError>,
    D: Fn(&PendingDeleteEntry) -> Result<MutationStats, MutationError>,
 {
    let updates = before.pending_updates@;
    let deletes = before.pending_deletes@;
    match result {
        Err(CommitError::AppendFlush(e)) => {
            &&& flush_outcome(before, after, reserve, build, Err::<(), FlushError<E>>(e))
            &&& after.pending_updates == before.pending_updates
            &&& after.pending_deletes == before.pending_deletes
        },
        Ok(done) => {
            &&& flush_outcome(before, after, reserve, build, Ok::<(), FlushError<E>>(()))
            &&& after.pending_updates.len() == 0
            &&& after.pending_deletes.len() == 0
            &&& done.outcomes.len() == updates.len() + deletes.len()
            &&& done.wal_ids@ == log_ids(done.outcomes@)
            &&& carried_out(drive_update, updates, done.outcomes@, 0)
            &&& carried_out(drive_delete, deletes, done.outcomes@, updates.len() as int)
        },
        Err(CommitError::PartialCommit { committed_wal_ids, committed, total, cause }) => {
            &&& flush_outcome(before, after, reserve, build, Ok::<(), FlushError<E>>(()))
            &&& committed < total
            &&& total == updates.len() + deletes.len()
            &&& exists|outcomes: Seq<MutationStats>|
                {
                    &&& outcomes.len() == committed
                    &&& committed_wal_ids@ == #[trigger] log_ids(outcomes)
                    &&& carried_out(drive_update, updates, outcomes, 0)
                    &&& carried_out(drive_delete, deletes, outcomes, updates.len() as int)
                }
            &&& if committed < updates.len() {
                &&& call_ensures(
                    drive_update,
                    (&updates[committed as int],),
                    Err::<MutationStats, MutationError>(cause),
                )
                &&& after.pending_updates@ == updates.skip(committed + 1)
                &&& after.pending_deletes@ == deletes
            } else {
                &&& call_ensures(
                    drive_delete,
                    (&deletes[committed - updates.len()],),
                    Err::<MutationStats, MutationError>(cause),
                )
                &&& after.pending_updates.len() == 0
                &&& after.pending_deletes@ == deletes.skip(committed - updates.len() + 1)
            }
        },
    }
}

impl<B> SupertableWriter<B> {
    /// Commits all that is buffered: the rows, then the updates, then the
    /// deletes.
    #[verifier::loop_isolation(false)]
    pub fn commit<R, F, E, U, D>(&mut self, reserve: R, build: F, drive_update: U, drive_delete: D) -> (result:
        Result<CommitResult, CommitError<E>>) where
        R: Fn(usize) -> bool,
        F: Fn(&Vec<B>) -> Result<(), E>,
        U: Fn(&PendingUpdateEntry) -> Result<MutationStats, MutationError>,
        D: Fn(&PendingDeleteEntry) -> Result<MutationStats, MutationError>,

        requires
            old(self).well_formed(),
            old(self).pending_updates.len() + old(self).pending_deletes.len() <= usize::MAX,
            forall|n: usize| call_requires(reserve, (n,)),
            forall|b: Vec<B>| call_requires(build, (&b,)),
            forall|e: PendingUpdateEntry| call_requires(drive_update, (&e,)),
            forall|e: PendingDeleteEntry| call_requires(drive_delete, (&e,)),
        ensures
            final(self).well_formed(),
            final(self).options == old(self).options,
            commit_outcome(*old(self), *final(self), reserve, build, drive_update, drive_delete, result),
    {
        let ghost updates = self.pending_updates@;
        let ghost deletes = self.pending_deletes@;
        let flushed = self.commit_appends_internal(reserve, build);
        if let Err(e) = flushed {
            return Err(CommitError::AppendFlush(e));
        }
        assert(flush_outcome(*old(self), *self, reserve, build, Ok::<(), FlushError<E>>(())));
        let total: usize = self.pending_updates.len() + self.pending_deletes.len();
        let mut committed_wal_ids: Vec<i128> = Vec::new();
        let mut outcomes: Vec<MutationStats> = Vec::new();
        let mut updates_to_run: Vec<PendingUpdateEntry> = Vec::new();
        std::mem::swap(&mut updates_to_run, &mut self.pending_updates);
        let ghost flushed_writer = *self;
        let mut u: usize = 0;
        while u < updates_to_run.len()
            invariant
                u <= updates_to_run.len(),
                *self == flushed_writer,
                updates_to_run@ == updates,
                outcomes.len() == u,
                committed_wal_ids@ == log_ids(outcomes@),
                carried_out(drive_update, updates, outcomes@, 0),
            decreases updates_to_run.len() - u,
        {
            let ghost so_far = outcomes@;
            let driven = drive_update(&updates_to_run[u]);
            assert(call_ensures(drive_update, (&updates[u as int],), driven));
            match driven {
                Ok(stats) => {
                    committed_wal_ids.push(stats.wal_id);
                    outcomes.push(stats);
                    proof {
                        assert(committed_wal_ids@ =~= log_ids(outcomes@));
                        assert forall|i: int| 0 <= i < updates.len() && 0 + i < outcomes.len() implies call_ensures(
                            drive_update,
                            (&#[trigger] updates[i],),
                            Ok::<MutationStats, MutationError>(outcomes@[0 + i]),
                        ) by {
                            if i < u {
                                assert(outcomes@[0 + i] == so_far[0 + i]);
                            }
                        }
                    }
                    u = u + 1;
                },
                Err(cause) => {
                    let remaining = updates_to_run.split_off(u + 1);
                    self.pending_updates = remaining;
                    proof {
                        assert(self.pending_updates@ =~= updates.skip(u + 1));
                        assert(carried_out(drive_delete, deletes, outcomes@, updates.len() as int));
                        assert(committed_wal_ids@ == log_ids(outcomes@));
                    }
                    return Err(
                        CommitError::PartialCommit {
                            committed_wal_ids,
                            committed: outcomes.len(),
                            total,
                            cause,
                        },
                    );
                },
            }
        }
        let mut deletes_to_run: Vec<PendingDeleteEntry> = Vec::new();
        std::mem::swap(&mut deletes_to_run, &mut self.pending_deletes);
        let ghost updated_writer = *self;
        let ghost first = updates.len() as int;
        let mut d: usize = 0;
        while d < deletes_to_run.len()
            invariant
                d <= deletes_to_run.len(),
                *self == updated_writer,
                deletes_to_run@ == deletes,
                outcomes.len() == first + d,
                committed_wal_ids@ == log_ids(outcomes@),
                carried_out(drive_update, updates, outcomes@, 0),
                carried_out(drive_delete, deletes, outcomes@, first),
            decreases deletes_to_run.len() - d,
        {
            let ghost so_far = outcomes@;
            let driven = drive_delete(&deletes_to_run[d]);
            assert(call_ensures(drive_delete, (&deletes[d as int],), driven));
            match driven {
                Ok(stats) => {
                    committed_wal_ids.push(stats.wal_id);
                    outcomes.push(stats);
                    proof {
                        assert(committed_wal_ids@ =~= log_ids(outcomes@));
                        assert forall|i: int| 0 <= i < updates.len() && 0 + i < outcomes.len() implies call_ensures(
                            drive_update,
                            (&#[trigger] updates[i],),
                            Ok::<MutationStats, MutationError>(outcomes@[0 + i]),
                        ) by {
                            assert(outcomes@[0 + i] == so_far[0 + i]);
                        }
                        assert forall|i: int| 0 <= i < deletes.len() && first + i < outcomes.len() implies call_ensures(
                            drive_delete,
                            (&#[trigger] deletes[i],),
                            Ok::<MutationStats, MutationError>(outcomes@[first + i]),
                        ) by {
                            if i < d {
                                assert(outcomes@[first + i] == so_far[first + i]);
                            }
                        }
                    }
                    d = d + 1;
                },
                Err(cause) => {
                    let remaining = deletes_to_run.split_off(d + 1);
                    self.pending_deletes = remaining;
                    proof {
                        assert(self.pending_deletes@ =~= deletes.skip(d + 1));
                        assert(committed_wal_ids@ == log_ids(outcomes@));
                    }
                    return Err(
                        CommitError::PartialCommit {
                            committed_wal_ids,
                            committed: outcomes.len(),
                            total,
                            cause,
                        },
                    );
                },
            }
        }
        Ok(CommitResult { wal_ids: committed_wal_ids, outcomes })
    }
}

// ---------------------------------------------------------------------------
// The table
// ---------------------------------------------------------------------------

/// Why there is no writer to be had.
#[derive(Clone, Copy, PartialEq, Eq, Structural, Debug)]
pub enum WriterRefused {
    /// The handle was opened for reading only.
    ConsumerMemoryMode,
    /// Another writer is outstanding.
    SupertableInUse,
}

/// Why a call on the table failed.
#[derive(Debug)]
pub enum TableError<E> {
    Writer(WriterRefused),
    Append(AppendError<E>),
    Mutation(MutationError),
    Commit(CommitError<E>),
    /// A commit gave no outcome for its mutation.
    NoOutcome,
}

/// A handle of a table, of which one writer at most is outstanding.
#[derive(Debug)]
pub struct Supertable {
    pub options: WriterOptions,
    pub writer_outstanding: bool,
}

/// A writer with nothing in it.
pub open spec fn is_fresh<B>(w: SupertableWriter<B>, options: WriterOptions) -> bool {
    &&& w.well_formed()
    &&& w.options == options
    &&& w.buffer.len() == 0
    &&& w.held_bytes() == 0
    &&& w.buffer_fts_bytes == 0
    &&& w.pending_updates.len() == 0
    &&& w.pending_deletes.len() == 0
}

/// What asking for the writer gives.
pub open spec fn writer_refusal(table: Supertable) -> Option<WriterRefused> {
    if table.options.consumer_memory_mode {
        Some(WriterRefused::ConsumerMemoryMode)
    } else if table.writer_outstanding {
        Some(WriterRefused::SupertableInUse)
    } else {
        None
    }
}

/// A batch by itself is committed as soon as it is buffered.
pub open spec fn commits_at_once(options: WriterOptions, bytes: BatchBytes) -> bool {
    let threshold = commit_threshold(options);
    threshold > 0 && bytes.scalar + bytes.vector >= threshold
}

/// A batch by itself was not committed: its memory was refused, or it had its
/// memory and its build failed.
pub open spec fn flush_refused<B, R, F, E>(batch: B, bytes: BatchBytes, reserve: R, build: F, e: FlushError<E>) -> bool where
    R: Fn(usize) -> bool,
    F: Fn(&Vec<B>) -> Result<(), E>,
 {
    match e {
        FlushError::OverBudget => call_ensures(
            reserve,
            (build_scratch(bytes.scalar as int, bytes.vector as int, bytes.fts as int) as usize,),
            false,
        ),
        FlushError::Build(e) => {
            &&& call_ensures(
                reserve,
                (build_scratch(bytes.scalar as int, bytes.vector as int, bytes.fts as int) as usize,),
                true,
            )
            &&& exists|rows: Vec<B>|
                rows@ == seq![batch] && #[trigger] call_ensures(build, (&rows,), Err::<(), E>(e))
        },
    }
}

impl Supertable {
    /// A table of which no writer is outstanding.
    pub fn new(options: WriterOptions) -> (t: Supertable)
        ensures
            t.options == options,
            !t.writer_outstanding,
    {
        Supertable { options, writer_outstanding: false }
    }

    /// Takes the writer of the table.
    pub fn writer<B>(&mut self) -> (result: Result<SupertableWriter<B>, WriterRefused>)
        ensures
            final(self).options == old(self).options,
            match writer_refusal(*old(self)) {
                Some(refused) => {
                    &&& result == Err::<SupertableWriter<B>, WriterRefused>(refused)
                    &&& *final(self) == *old(self)
                },
                None => {
                    &&& result is Ok
                    &&& is_fresh(result->Ok_0, old(self).options)
                    &&& final(self).writer_outstanding
                },
            },
    {
        if self.options.consumer_memory_mode {
            return Err(WriterRefused::ConsumerMemoryMode);
        }
        if self.writer_outstanding {
            return Err(WriterRefused::SupertableInUse);
        }
        self.writer_outstanding = true;
        Ok(SupertableWriter::new(self.options))
    }

    /// Gives the writer back. What it had buffered is lost.
    pub fn release_writer<B>(&mut self, writer: SupertableWriter<B>)
        ensures
            final(self).options == old(self).options,
            !final(self).writer_outstanding,
    {
        self.writer_outstanding = false;
    }

    /// Appends a batch and commits it.
    pub fn append<B, R, F, E>(&mut self, batch: Result<B, String>, bytes: BatchBytes, reserve: R, build: F) -> (result:
        Result<(), TableError<E>>) where
        R: Fn(usize) -> bool + Copy,
        F: Fn(&Vec<B>) -> Result<(), E> + Copy,

        requires
            bytes.scalar + bytes.vector <= usize::MAX,
            forall|n: usize| call_requires(reserve, (n,)),
            forall|b: Vec<B>| call_requires(build, (&b,)),
        ensures
            *final(self) == *old(self),
            match writer_refusal(*old(self)) {
                Some(refused) => result == Err::<(), TableError<E>>(TableError::Writer(refused)),
                None => match batch {
                    Err(e) => result == Err::<(), TableError<E>>(
                        TableError::Append(AppendError::InvalidBatch(e)),
                    ),
                    Ok(b) => match result {
                        // The batch was built, by itself.
                        Ok(_) => {
                            &&& call_ensures(
                                reserve,
                                (build_scratch(
                                    bytes.scalar as int,
                                    bytes.vector as int,
                                    bytes.fts as int,
                                ) as usize,),
                                true,
                            )
                            &&& exists|rows: Vec<B>, r: Result<(), E>|
                                {
                                    &&& rows@ == seq![b]
                                    &&& r is Ok
                                    &&& #[trigger] call_ensures(build, (&rows,), r)
                                }
                        },
                        Err(TableError::Append(AppendError::Flush(e))) => {
                            &&& commits_at_once(old(self).options, bytes)
                            &&& flush_refused(b, bytes, reserve, build, e)
                        },
                        Err(TableError::Commit(CommitError::AppendFlush(e))) => {
                            &&& !commits_at_once(old(self).options, bytes)
                            &&& flush_refused(b, bytes, reserve, build, e)
                        },
                        Err(_) => false,
                    },
                },
            },
    {
        let mut w: SupertableWriter<B> = match self.writer() {
            Ok(w) => w,
            Err(refused) => {
                return Err(TableError::Writer(refused));
            },
        };
        let ghost fresh = w;
        let ghost given = batch;
        let appended = w.append(batch, bytes, reserve, build);
        if let Err(e) = appended {
            proof {
                if given is Ok {
                    let b = given->Ok_0;
                    let mid = choose|mid: SupertableWriter<B>| #[trigger]
                        mid.holds_also(fresh, b, bytes) && mid.threshold() > 0 && mid.held_bytes()
                            >= mid.threshold() && flush_outcome(
                            mid,
                            w,
                            reserve,
                            build,
                            Err::<(), FlushError<E>>(e->Flush_0),
                        );
                    assert(mid.buffer@ =~= seq![b]);
                    assert(flush_refused(b, bytes, reserve, build, e->Flush_0));
                }
            }
            self.release_writer(w);
            return Err(TableError::Append(e));
        }
        let ghost buffered = w;
        let flushed = w.commit_appends_internal(reserve, build);
        proof {
            if given is Ok {
                let b = given->Ok_0;
                let mid = choose|mid: SupertableWriter<B>| #[trigger]
                    mid.holds_also(fresh, b, bytes) && if mid.threshold() > 0 && mid.held_bytes()
                        >= mid.threshold() {
                        flush_outcome(mid, buffered, reserve, build, Ok::<(), FlushError<E>>(()))
                    } else {
                        buffered.same_buffer(mid)
                    };
                assert(mid.buffer@ =~= seq![b]);
                if buffered.buffer.len() == 0 {
                    let r = choose|r: Result<(), E>|
                        r is Ok && #[trigger] call_ensures(build, (&mid.buffer,), r);
                    assert(call_ensures(build, (&mid.buffer,), r));
                } else if flushed is Ok {
                    assert(buffered.buffer == mid.buffer);
                    let r = choose|r: Result<(), E>|
                        r is Ok && #[trigger] call_ensures(build, (&buffered.buffer,), r);
                    assert(call_ensures(build, (&mid.buffer,), r));
                } else {
                    assert(buffered.buffer == mid.buffer);
                    assert(flush_refused(b, bytes, reserve, build, flushed->Err_0));
                }
            }
        }
        self.release_writer(w);
        match flushed {
            Ok(_) => Ok(()),
            Err(e) => Err(TableError::Commit(CommitError::AppendFlush(e))),
        }
    }

    /// Deletes the rows that match and commits.
    pub fn delete<B, R, F, E, G, H, U, D>(
        &mut self,
        resolve: G,
        mint: H,
        reserve: R,
        build: F,
        drive_update: U,
        drive_delete: D,
    ) -> (result: Result<MutationStats, TableError<E>>) where
        R: Fn(usize) -> bool,
        F: Fn(&Vec<B>) -> Result<(), E>,
        G: Fn() -> Result<Vec<i128>, ResolveError>,
        H: Fn() -> i128,
        U: Fn(&PendingUpdateEntry) -> Result<MutationStats, MutationError>,
        D: Fn(&PendingDeleteEntry) -> Result<MutationStats, MutationError>,

        requires
            call_requires(resolve, ()),
            call_requires(mint, ()),
            forall|n: usize| call_requires(reserve, (n,)),
            forall|b: Vec<B>| call_requires(build, (&b,)),
            forall|e: PendingUpdateEntry| call_requires(drive_update, (&e,)),
            forall|e: PendingDeleteEntry| call_requires(drive_delete, (&e,)),
        ensures
            *final(self) == *old(self),
            match writer_refusal(*old(self)) {
                Some(refused) => result == Err::<MutationStats, TableError<E>>(TableError::Writer(refused)),
                None => exists|
                    fresh: SupertableWriter<B>,
                    buffered: SupertableWriter<B>,
                    pending: Result<PendingMatch, MutationError>,
                |
                    {
                        &&& is_fresh(fresh, old(self).options)
                        &&& #[trigger] delete_outcome(fresh, buffered, resolve, mint, pending)
                        &&& match pending {
                            Err(e) => result == Err::<MutationStats, TableError<E>>(
                                TableError::Mutation(e),
                            ),
                            Ok(_) => mutation_outcome(
                                buffered,
                                reserve,
                                build,
                                drive_update,
                                drive_delete,
                                result,
                            ),
                        }
                    },
            },
    {
        let mut w: SupertableWriter<B> = match self.writer() {
            Ok(w) => w,
            Err(refused) => {
                return Err(TableError::Writer(refused));
            },
        };
        let ghost fresh = w;
        let pending = w.delete(resolve, mint);
        let ghost buffered = w;
        let ghost pending_value = pending;
        assert(delete_outcome(fresh, buffered, resolve, mint, pending_value));
        if let Err(e) = pending {
            self.release_writer(w);
            return Err(TableError::Mutation(e));
        }
        let committed = w.commit(reserve, build, drive_update, drive_delete);
        let ghost after = w;
        let ghost committed_value = committed;
        assert(commit_outcome(
            buffered,
            after,
            reserve,
            build,
            drive_update,
            drive_delete,
            committed_value,
        ));
        self.release_writer(w);
        outcome_of(committed)
    }

    /// Replaces the rows that match and commits. An update that matches no rows
    /// does nothing.
    pub fn update<B, R, F, E, G, H, K, U, D>(
        &mut self,
        rows: NewRows,
        resolve: G,
        reserve_ids: H,
        encode: K,
        reserve: R,
        build: F,
        drive_update: U,
        drive_delete: D,
    ) -> (result: Result<MutationStats, TableError<E>>) where
        R: Fn(usize) -> bool,
        F: Fn(&Vec<B>) -> Result<(), E>,
        G: Fn() -> Result<Vec<i128>, ResolveError>,
        H: Fn(u32) -> ReservedIds,
        K: Fn() -> Result<Vec<u8>, String>,
        U: Fn(&PendingUpdateEntry) -> Result<MutationStats, MutationError>,
        D: Fn(&PendingDeleteEntry) -> Result<MutationStats, MutationError>,

        requires
            old(self).options.max_targets <= u32::MAX,
            call_requires(resolve, ()),
            forall|n: u32| call_requires(reserve_ids, (n,)),
            call_requires(encode, ()),
            forall|n: usize| call_requires(reserve, (n,)),
            forall|b: Vec<B>| call_requires(build, (&b,)),
            forall|e: PendingUpdateEntry| call_requires(drive_update, (&e,)),
            forall|e: PendingDeleteEntry| call_requires(drive_delete, (&e,)),
        ensures
            *final(self) == *old(self),
            match writer_refusal(*old(self)) {
                Some(refused) => result == Err::<MutationStats, TableError<E>>(TableError::Writer(refused)),
                None => exists|
                    fresh: SupertableWriter<B>,
                    buffered: SupertableWriter<B>,
                    pending: Result<PendingMatch, MutationError>,
                |
                    {
                        &&& is_fresh(fresh, old(self).options)
                        &&& #[trigger] update_outcome(
                            fresh,
                            buffered,
                            rows,
                            resolve,
                            reserve_ids,
                            encode,
                            pending,
                        )
                        &&& match pending {
                            Err(e) => result == Err::<MutationStats, TableError<E>>(
                                TableError::Mutation(e),
                            ),
                            Ok(p) => if p.matched == 0 {
                                result == Ok::<MutationStats, TableError<E>>(
                                    MutationStats {
                                        wal_id: 0,
                                        matched: 0,
                                        n_tombstoned: 0,
                                        n_not_found: 0,
                                    },
                                )
                            } else {
                                mutation_outcome(
                                    buffered,
                                    reserve,
                                    build,
                                    drive_update,
                                    drive_delete,
                                    result,
                                )
                            },
                        }
                    },
            },
    {
        let mut w: SupertableWriter<B> = match self.writer() {
            Ok(w) => w,
            Err(refused) => {
                return Err(TableError::Writer(refused));
            },
        };
        let ghost fresh = w;
        let pending = w.update(rows, resolve, reserve_ids, encode);
        let ghost buffered = w;
        let ghost pending_value = pending;
        assert(update_outcome(fresh, buffered, rows, resolve, reserve_ids, encode, pending_value));
        match pending {
            Err(e) => {
                self.release_writer(w);
                return Err(TableError::Mutation(e));
            },
            Ok(p) => {
                if p.matched == 0 {
                    self.release_writer(w);
                    return Ok(MutationStats::empty());
                }
            },
        }
        let committed = w.commit(reserve, build, drive_update, drive_delete);
        let ghost after = w;
        let ghost committed_value = committed;
        assert(commit_outcome(
            buffered,
            after,
            reserve,
            build,
            drive_update,
            drive_delete,
            committed_value,
        ));
        self.release_writer(w);
        outcome_of(committed)
    }
}

/// What committing a single buffered mutation comes to for the caller.
pub open spec fn mutation_outcome<B, R, F, E, U, D>(
    buffered: SupertableWriter<B>,
    reserve: R,
    build: F,
    drive_update: U,
    drive_delete: D,
    result: Result<MutationStats, TableError<E>>,
) -> bool where
    R: Fn(usize) -> bool,
    F: Fn(&Vec<B>) -> Result<(), E>,
    U: Fn(&PendingUpdateEntry) -> Result<MutationStats, MutationError>,
    D: Fn(&PendingDeleteEntry) -> Result<MutationStats, MutationError>,
 {
    exists|after: SupertableWriter<B>, committed: Result<CommitResult, CommitError<E>>|
        {
            &&& #[trigger] commit_outcome(
                buffered,
                after,
                reserve,
                build,
                drive_update,
                drive_delete,
                committed,
            )
            &&& result == first_outcome(committed)
        }
}

/// The first outcome of a commit.
pub open spec fn first_outcome<E>(committed: Result<CommitResult, CommitError<E>>) -> Result<
    MutationStats,
    TableError<E>,
> {
    match committed {
        Err(e) => Err(TableError::Commit(e)),
        Ok(done) => if done.outcomes.len() > 0 {
            Ok(done.outcomes@[0])
        } else {
            Err(TableError::NoOutcome)
        },
    }
}

fn outcome_of<E>(committed: Result<CommitResult, CommitError<E>>) -> (result: Result<MutationStats, TableError<E>>)
    ensures
        result == first_outcome(committed),
{
    match committed {
        Err(e) => Err(TableError::Commit(e)),
        Ok(done) => match single_outcome(&done) {
            Some(stats) => Ok(stats),
            None => Err(TableError::NoOutcome),
        },
    }
}

/// A delete that was taken in and committed is reported by its own outcome: the
/// drive of a document with exactly the rows that were found.
pub proof fn committed_delete_has_its_outcome<B, R, F, E, G, H, U, D>(
    fresh: SupertableWriter<B>,
    buffered: SupertableWriter<B>,
    after: SupertableWriter<B>,
    options: WriterOptions,
    resolve: G,
    mint: H,
    reserve: R,
    build: F,
    drive_update: U,
    drive_delete: D,
    pending: PendingMatch,
    done: CommitResult,
) where
    R: Fn(usize) -> bool,
    F: Fn(&Vec<B>) -> Result<(), E>,
    G: Fn() -> Result<Vec<i128>, ResolveError>,
    H: Fn() -> i128,
    U: Fn(&PendingUpdateEntry) -> Result<MutationStats, MutationError>,
    D: Fn(&PendingDeleteEntry) -> Result<MutationStats, MutationError>,

    requires
        is_fresh(fresh, options),
        delete_outcome(fresh, buffered, resolve, mint, Ok::<PendingMatch, MutationError>(pending)),
        commit_outcome(
            buffered,
            after,
            reserve,
            build,
            drive_update,
            drive_delete,
            Ok::<CommitResult, CommitError<E>>(done),
        ),
    ensures
        done.outcomes.len() == 1,
        exists|ids: Vec<i128>, wal_id: i128|
            {
                &&& #[trigger] call_ensures(
                    resolve,
                    (),
                    Ok::<Vec<i128>, ResolveError>(ids),
                )
                &&& ids.len() == pending.matched
                &&& #[trigger] call_ensures(mint, (), wal_id)
                &&& call_ensures(
                    drive_delete,
                    (&PendingDeleteEntry { wal_id, target_ids: ids },),
                    Ok::<MutationStats, MutationError>(done.outcomes@[0]),
                )
            },
{
    let found = choose|found: Result<Vec<i128>, ResolveError>| #[trigger]
        call_ensures(resolve, (), found) && match found {
            Err(e) => false,
            Ok(ids) => {
                &&& ids.len() <= fresh.options.max_targets
                &&& pending.matched == ids.len()
                &&& exists|wal_id: i128| #[trigger]
                    call_ensures(mint, (), wal_id) && buffered.pending_deletes@
                        == fresh.pending_deletes@.push(PendingDeleteEntry { wal_id, target_ids: ids })
            },
        };
    let ids = found->Ok_0;
    let wal_id = choose|wal_id: i128| #[trigger]
        call_ensures(mint, (), wal_id) && buffered.pending_deletes@ == fresh.pending_deletes@.push(
            PendingDeleteEntry { wal_id, target_ids: ids },
        );
    assert(buffered.pending_deletes@[0] == (PendingDeleteEntry { wal_id, target_ids: ids }));
    assert(buffered.pending_updates.len() == 0);
    assert(call_ensures(
        drive_delete,
        (&buffered.pending_deletes@[0],),
        Ok::<MutationStats, MutationError>(done.outcomes@[0int + 0int]),
    ));
}

} // verus!
