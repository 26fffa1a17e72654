//! What a publication does: which rows and files it takes, where their bytes go,
//! how long it waits, and how a population is told from another.
use vstd::prelude::*;

use core::ops::Range;

use crate::open_ranges::{BlobFormats, FooterFields};
use crate::publish::{
    backoff_base, backoff_millis, landed, last_error, still_pending, walked, CommitListMetadata,
    HeadReply, ManifestStamps, WriteReply, DRAIN_READ_CONCURRENCY_CAP,
    SUPERFILE_MULTIPART_PART_BYTES,
};
use crate::serving::{
    fnv1a, greatest_id, least_id, population_bytes, population_key, same_stamp, total_docs,
    RowRange, SlowStamp,
};
use crate::shared_bytes::buffer_bytes;
use crate::slow_state::are_stripes;
use crate::superfile::{
    all_ids, are_writes, assigned_to, disposition_of, entries_of, first_fault, for_cache,
    for_storage, for_store, is_prepared, locates_vectors, prepare_fault, present, shards_with_rows,
    training_rows, BatchVectors, BytePlaces, OpenedSuperfile, PrepareFault, PreparedSuperfile,
    ShardOutput, SuperfileEntry, SuperfileName,
};
use crate::wire::{le16_bytes, le8_bytes};

verus! {

// ---------------------------------------------------------------------------
// Rows
// ---------------------------------------------------------------------------

/// All rows of the batches that have vectors are trained on, when each of these
/// batches has a whole vector for every row.
pub proof fn training_takes_every_vector(batches: Seq<BatchVectors>, batch: BatchVectors, dim: int)
    ensures
        training_rows(Seq::empty(), dim) == Some(0int),
        batch.values is None ==> training_rows(batches.push(batch), dim) == training_rows(batches, dim),
        (batch.values matches Some(v) && v < batch.rows * dim) ==> training_rows(batches.push(batch), dim) is None,
        (batch.values matches Some(v) && v >= batch.rows * dim) ==> match training_rows(batches, dim) {
            Some(n) => training_rows(batches.push(batch), dim) == Some(n + batch.rows),
            None => training_rows(batches.push(batch), dim) is None,
        },
        training_rows(batches, dim) is None ==> training_rows(batches.push(batch), dim) is None,
{
    assert(batches.push(batch).drop_last() =~= batches);
}

/// A cell is assigned so many rows as name it.
pub proof fn assigned_rows_name_the_cell(assignments: Seq<u32>, cell: int)
    ensures
        assigned_to(assignments, cell) == assignments.filter(|c: u32| c == cell).len(),
    decreases assignments.len(),
{
    reveal(Seq::filter);
    if assignments.len() > 0 {
        assigned_rows_name_the_cell(assignments.drop_last(), cell);
    }
}

/// The ids of all batches, one batch after another.
pub proof fn ids_of_all_batches(batches: Seq<Vec<i128>>, batch: Vec<i128>)
    ensures
        all_ids(Seq::empty()).len() == 0,
        all_ids(batches.push(batch)) == all_ids(batches) + batch@,
{
    assert(batches.push(batch).drop_last() =~= batches);
}

// ---------------------------------------------------------------------------
// Files
// ---------------------------------------------------------------------------

/// Bytes stay in memory unless a cache stands before storage; they go to storage
/// when there is some, and into the cache beside it when it is to be filled ahead.
pub proof fn bytes_go_where_they_are_served(places: BytePlaces)
    ensures
        disposition_of(places).storage <==> places.has_storage,
        disposition_of(places).store <==> !places.has_storage || !places.has_cache,
        disposition_of(places).cache <==> places.prepopulate && places.has_storage && places.has_cache,
{
}

/// A shard without rows cannot fail. One with rows fails when its file cannot be
/// opened, or when it is a cell's file whose footer does not say where the vectors
/// are.
pub proof fn what_can_go_wrong_with_a_shard<S, M>(
    shard: ShardOutput<S>,
    opened: Result<OpenedSuperfile<M>, String>,
)
    ensures
        shard.n_docs == 0 ==> prepare_fault(shard, opened) is None,
        shard.n_docs > 0 && opened is Err ==> prepare_fault(shard, opened) == Some(PrepareFault::Open(opened->Err_0)),
        shard.n_docs > 0 && opened is Ok ==> (prepare_fault(shard, opened) is Some
            <==> opened->Ok_0.vector_layout is CellPosting && !locates_vectors(opened->Ok_0.footer)),
        shard.n_docs > 0 && opened is Ok && prepare_fault(shard, opened) is Some ==> prepare_fault(shard, opened)->0
            is MissingVectorOffsets,
{
}

/// A footer locates its vectors when it gives their place and a length that is not
/// zero.
pub proof fn vectors_are_located_by_place_and_length(footer: FooterFields)
    ensures
        !locates_vectors(None),
        locates_vectors(Some(footer)) <==> footer.vec_offset is Some && footer.vec_length is Some
            && footer.vec_length->0 != 0,
{
}

/// The fault that is reported is that of the first shard that has one.
pub proof fn the_first_fault_is_reported<S, M>(
    outputs: Seq<ShardOutput<S>>,
    opened: Seq<Result<OpenedSuperfile<M>, String>>,
    from: int,
)
    requires
        0 <= from <= outputs.len(),
    ensures
        match first_fault(outputs, opened, from) {
            Some(f) => exists|i: int|
                {
                    &&& from <= i < outputs.len()
                    &&& prepare_fault(#[trigger] outputs[i], opened[i]) == Some(f)
                    &&& forall|k: int|
                        from <= k < i ==> prepare_fault(#[trigger] outputs[k], opened[k]) is None
                },
            None => forall|k: int|
                from <= k < outputs.len() ==> prepare_fault(#[trigger] outputs[k], opened[k]) is None,
        },
    decreases outputs.len() - from,
{
    if from < outputs.len() {
        if prepare_fault(outputs[from], opened[from]) is None {
            the_first_fault_is_reported(outputs, opened, from + 1);
            if let Some(f) = first_fault(outputs, opened, from + 1) {
                let i = choose|i: int|
                    {
                        &&& from + 1 <= i < outputs.len()
                        &&& prepare_fault(#[trigger] outputs[i], opened[i]) == Some(f)
                        &&& forall|k: int|
                            from + 1 <= k < i ==> prepare_fault(#[trigger] outputs[k], opened[k]) is None
                    };
                assert(prepare_fault(outputs[i], opened[i]) == Some(f));
                assert forall|k: int| from <= k < i implies prepare_fault(#[trigger] outputs[k], opened[k]) is None by {
                }
            }
        }
    }
}

/// The shards that have rows, in order.
pub proof fn shards_with_rows_keep_their_order<S>(outputs: Seq<ShardOutput<S>>)
    ensures
        shards_with_rows(outputs).len() == outputs.filter(|o: ShardOutput<S>| o.n_docs != 0).len(),
        forall|i: int|
            0 <= i < shards_with_rows(outputs).len() ==> 0 <= (#[trigger] shards_with_rows(outputs)[i])
                < outputs.len() && outputs[shards_with_rows(outputs)[i]].n_docs != 0,
        forall|i: int, j: int|
            0 <= i < j < shards_with_rows(outputs).len() ==> (#[trigger] shards_with_rows(outputs)[i]) < (
            #[trigger] shards_with_rows(outputs)[j]),
    decreases outputs.len(),
{
    reveal(Seq::filter);
    if outputs.len() > 0 {
        let less = outputs.drop_last();
        shards_with_rows_keep_their_order(less);
        let before = shards_with_rows(less);
        let after = shards_with_rows(outputs);
        let n = outputs.len() - 1;
        assert(outputs.last() == outputs[n]);
        assert forall|i: int| 0 <= i < before.len() implies outputs[#[trigger] before[i]].n_docs != 0 by {
            assert(less[before[i]] == outputs[before[i]]);
        }
        assert forall|i: int| 0 <= i < after.len() implies 0 <= (#[trigger] after[i]) < outputs.len()
            && outputs[after[i]].n_docs != 0 by {
            if i < before.len() {
                assert(after[i] == before[i]);
            }
        }
    }
}

/// Of prepared files the entries are all published, and the bytes that are there
/// are all written, in order.
pub proof fn prepared_files_are_all_taken<E, T>(s: Seq<PreparedSuperfile<E, T>>, list: Seq<Option<T>>, i: int)
    requires
        0 <= i < s.len(),
    ensures
        entries_of(s).len() == s.len(),
        entries_of(s)[i] == s[i].entry,
        for_store(s).len() == s.len(),
        for_store(s)[i] == s[i].bytes_for_store,
        for_storage(s).len() == s.len(),
        for_storage(s)[i] == s[i].bytes_for_storage,
        for_cache(s).len() == s.len(),
        for_cache(s)[i] == s[i].bytes_for_cache,
        present(list) == list.filter(|t: Option<T>| t is Some).map_values(|t: Option<T>| t->0),
    decreases list.len(),
{
    reveal(Seq::filter);
    if list.len() > 0 {
        prepared_files_are_all_taken(s, list.drop_last(), i);
    }
    assert(present(list) =~= list.filter(|t: Option<T>| t is Some).map_values(|t: Option<T>| t->0));
}

// ---------------------------------------------------------------------------
// Commits
// ---------------------------------------------------------------------------

/// What a commit names stands in the manifest, what it does not name stays, and
/// superseded cells are added to those that were.
pub proof fn stamps_put_what_they_name<P: Copy, G: Copy, R: Copy>(
    m: CommitListMetadata<P, G, R>,
    base: ManifestStamps<P, G, R>,
    out: ManifestStamps<P, G, R>,
)
    requires
        m.stamped(base, out),
    ensures
        m.partition_strategy matches Some(p) ==> out.partition_strategy == p,
        m.partition_strategy is None ==> out.partition_strategy == base.partition_strategy,
        m.global_vector_index is Some ==> out.global_vector_index == m.global_vector_index,
        m.global_vector_index is None ==> out.global_vector_index == base.global_vector_index,
        m.drained_ranges matches Some(d) ==> out.drained_ranges@ == d@,
        m.drained_ranges is None ==> out.drained_ranges@ == base.drained_ranges@,
        m.superseded_cells_additions matches Some(s) ==> forall|p: crate::superseded::FileCell|
            #[trigger] out.superseded_cells@.contains(p) <==> base.superseded_cells@.contains(p) || s@.contains(p),
        m.superseded_cells_additions is None ==> out.superseded_cells@ == base.superseded_cells@,
        m.graph_ref matches Some(r) ==> out.graph_ref == r,
        m.graph_ref is None ==> out.graph_ref == base.graph_ref,
{
}

/// The wait starts at ten milliseconds, doubles with every attempt, and ends at a
/// second.
pub proof fn the_wait_doubles_up_to_a_second(attempt: int)
    requires
        0 <= attempt,
    ensures
        backoff_base(0) == 10,
        backoff_base(attempt + 1) == if backoff_base(attempt) * 2 < 1000 {
            backoff_base(attempt) * 2
        } else {
            1000
        },
{
    vstd::arithmetic::power2::lemma_pow2(0);
    vstd::arithmetic::power2::lemma2_to64();
    vstd::arithmetic::power2::lemma_pow2_unfold((attempt + 1) as nat);
    assert((attempt + 1) as nat - 1 == attempt as nat);
    vstd::arithmetic::power2::lemma_pow2_pos(attempt as nat);
}

/// The clock moves the wait by up to thirty percent in either direction, one
/// percent a nanosecond, rounded towards the middle.
pub proof fn the_clock_moves_the_wait(attempt: int, nanos: int)
    requires
        0 <= attempt,
        0 <= nanos,
    ensures
        ({
            let base = backoff_base(attempt);
            let wait = backoff_millis(attempt, nanos);
            let percent = nanos % 61 - 30;
            &&& -30 <= percent <= 30
            &&& percent >= 0 ==> 100 * (wait - base) <= base * percent < 100 * (wait - base) + 100
            &&& percent < 0 ==> 100 * (base - wait) <= base * (0 - percent) < 100 * (base - wait) + 100
            &&& base * 70 <= wait * 100 <= base * 130
        }),
{
    let base = backoff_base(attempt);
    let percent = nanos % 61 - 30;
    vstd::arithmetic::power2::lemma_pow2_pos(attempt as nat);
    assert(base >= 0);
    let x = if percent >= 0 {
        base * percent
    } else {
        base * (0 - percent)
    };
    assert(0 <= x <= base * 30) by (nonlinear_arith)
        requires
            base >= 0,
            -30 <= percent <= 30,
            x == if percent >= 0 {
                base * percent
            } else {
                base * (0 - percent)
            },
    ;
    vstd::arithmetic::div_mod::lemma_fundamental_div_mod(x, 100);
}

/// A walk over orphaned commits goes on while ids are found taken, for at most
/// thirty-two of them; the first other reply ends it.
pub proof fn a_walk_ends_at_the_first_free_id(attempted: u64, replies: Seq<HeadReply>, reply: HeadReply)
    requires
        attempted <= u64::MAX - 32,
    ensures
        walked(attempted, Seq::empty()).next == attempted,
        walked(attempted, Seq::empty()).open,
        ({
            let before = walked(attempted, replies);
            let after = walked(attempted, replies.push(reply));
            if before.open && before.next < attempted + 32 {
                &&& reply is Found ==> after.next == before.next + 1 && after.open
                &&& !(reply is Found) ==> after.next == before.next && !after.open
            } else {
                after.next == before.next && after.open == before.open
            }
        }),
        walked(attempted, replies).next <= attempted + 32,
    decreases replies.len(),
{
    assert(replies.push(reply).drop_last() =~= replies);
    walk_starts_where_it_did(attempted, replies);
    if replies.len() > 0 {
        let init = replies.drop_last();
        walk_starts_where_it_did(attempted, init);
        a_walk_ends_at_the_first_free_id(attempted, init, replies.last());
    }
}

proof fn walk_starts_where_it_did(attempted: u64, replies: Seq<HeadReply>)
    ensures
        walked(attempted, replies).attempted == attempted,
    decreases replies.len(),
{
    if replies.len() > 0 {
        walk_starts_where_it_did(attempted, replies.drop_last());
    }
}

/// The error that stands is that of the last reply that has one.
pub proof fn the_last_error_stands<E>(replies: Seq<WriteReply<E>>, reply: WriteReply<E>)
    ensures
        last_error(Seq::<WriteReply<E>>::empty()) is None,
        reply.result matches Err(e) ==> last_error(replies.push(reply)) == Some(e),
        reply.result is Ok ==> last_error(replies.push(reply)) == last_error(replies),
{
    assert(replies.push(reply).drop_last() =~= replies);
}

/// What is still to be written is what has not landed, in order.
pub proof fn what_has_not_landed_is_written_again<T, E>(pending: Seq<T>, replies: Seq<WriteReply<E>>, i: int)
    requires
        0 <= i <= pending.len(),
    ensures
        i == pending.len() ==> still_pending(pending, replies, i).len() == 0,
        i < pending.len() && (exists|k: int|
            0 <= k < replies.len() && (#[trigger] replies[k]).index == i && replies[k].result is Ok)
            ==> still_pending(pending, replies, i) == still_pending(pending, replies, i + 1),
        i < pending.len() && !(exists|k: int|
            0 <= k < replies.len() && (#[trigger] replies[k]).index == i && replies[k].result is Ok)
            ==> still_pending(pending, replies, i) == seq![pending[i]] + still_pending(pending, replies, i + 1),
{
    assert(landed(replies, i) <==> exists|k: int|
        0 <= k < replies.len() && (#[trigger] replies[k]).index == i && replies[k].result is Ok);
}

// ---------------------------------------------------------------------------
// Populations
// ---------------------------------------------------------------------------

/// Rows are added up over all files.
pub proof fn rows_are_added_up(entries: Seq<RowRange>, entry: RowRange)
    ensures
        total_docs(Seq::empty()) == 0,
        total_docs(entries.push(entry)) == total_docs(entries) + entry.n_docs,
        least_id(Seq::empty()) == 0,
        greatest_id(Seq::empty()) == 0,
{
    assert(entries.push(entry).drop_last() =~= entries);
}

/// The hash starts at the offset basis; every byte is mixed in and the whole
/// multiplied by the prime.
pub proof fn bytes_are_mixed_in_one_by_one(bytes: Seq<u8>, byte: u8)
    ensures
        fnv1a(Seq::empty()) == 14695981039346656037,
        fnv1a(bytes.push(byte)) == ((fnv1a(bytes) ^ (byte as u64)) * 1099511628211) % 18446744073709551616,
{
    assert(bytes.push(byte).drop_last() =~= bytes);
}

/// A population is told by its rows, its least and its greatest id, and its deleted
/// rows, hashed in this order; none deleted is as an empty bitmap.
pub proof fn a_population_is_told_by_four_things(entries: Seq<RowRange>, deleted: &[u8])
    ensures
        population_key(entries, Some(deleted)) == fnv1a(
            le8_bytes(total_docs(entries)) + le16_bytes(least_id(entries)) + le16_bytes(greatest_id(entries))
                + deleted@,
        ),
        population_key(entries, None) == fnv1a(
            le8_bytes(total_docs(entries)) + le16_bytes(least_id(entries)) + le16_bytes(greatest_id(entries)),
        ),
{
    let head = le8_bytes(total_docs(entries)) + le16_bytes(least_id(entries)) + le16_bytes(
        greatest_id(entries),
    );
    assert(population_bytes(total_docs(entries), least_id(entries), greatest_id(entries), Seq::<u8>::empty()) =~= head);
}

/// Two stamps are the same when paths and hashes are, those of the state and those
/// of the centroids.
pub proof fn stamps_are_told_by_paths_and_hashes(a: SlowStamp, b: SlowStamp)
    ensures
        same_stamp(a, b) <==> !(a.uri@ != b.uri@ || a.centroids_uri@ != b.centroids_uri@ || a.content_hash.bytes@
            != b.content_hash.bytes@ || a.centroids_hash.bytes@ != b.centroids_hash.bytes@),
{
}

// ---------------------------------------------------------------------------
// What is published
// ---------------------------------------------------------------------------

/// A prepared file is published under its name, with the rows and ids of its shard
/// and what was found on opening it; its bytes go, whole and under its path, to each
/// place that they are for, and to no other.
pub proof fn a_file_is_published_as_it_was_built<S, M>(
    prepared: PreparedSuperfile<SuperfileEntry<S, M>, (u128, bytes::Bytes)>,
    shard: ShardOutput<S>,
    name: SuperfileName,
    opened: OpenedSuperfile<M>,
    hint: Option<u32>,
    formats: BlobFormats,
    places: BytePlaces,
)
    requires
        is_prepared(prepared, shard, name, opened, hint, formats, places),
    ensures
        prepared.entry.superfile_id == name.superfile_id,
        prepared.entry.uri == name.uri,
        prepared.entry.birth_version == 0,
        prepared.entry.n_docs == shard.n_docs,
        prepared.entry.id_min == shard.id_min,
        prepared.entry.id_max == shard.id_max,
        prepared.entry.scalar_stats == shard.scalar_stats,
        prepared.entry.summary == opened.summary,
        prepared.entry.partition_hint == hint,
        prepared.entry.vector_layout == opened.vector_layout,
        prepared.bytes_for_store is Some <==> !places.has_storage || !places.has_cache,
        prepared.bytes_for_storage is Some <==> places.has_storage,
        prepared.bytes_for_cache is Some <==> places.has_storage && places.has_cache && places.prepopulate,
        prepared.bytes_for_store matches Some(w) ==> w.0 == name.uri && buffer_bytes(w.1) == buffer_bytes(shard.bytes),
        prepared.bytes_for_storage matches Some(w) ==> w.0 == name.uri && buffer_bytes(w.1) == buffer_bytes(
            shard.bytes,
        ),
        prepared.bytes_for_cache matches Some(w) ==> w.0 == name.uri && buffer_bytes(w.1) == buffer_bytes(shard.bytes),
{
}

/// Where bytes go, those of every shard that is kept do, in order and under its own
/// path; else none do.
pub proof fn all_kept_bytes_are_written<S>(
    writes: Seq<(u128, bytes::Bytes)>,
    goes: bool,
    outputs: Seq<ShardOutput<S>>,
    names: Seq<SuperfileName>,
    kept: Seq<int>,
    k: int,
)
    requires
        are_writes(writes, goes, outputs, names, kept),
    ensures
        !goes ==> writes.len() == 0,
        goes ==> writes.len() == kept.len(),
        goes && 0 <= k < kept.len() ==> writes[k].0 == names[kept[k]].uri && buffer_bytes(writes[k].1)
            == buffer_bytes(outputs[kept[k]].bytes),
{
}

/// A large file is uploaded in parts of eight mebibytes that follow each other; the
/// last has what is left. At most sixty-four sources are read at a time.
pub proof fn parts_are_eight_mebibytes(parts: Seq<Range<u64>>, len: u64, i: int)
    requires
        are_stripes(parts, len, SUPERFILE_MULTIPART_PART_BYTES),
        0 <= i < parts.len(),
    ensures
        parts[i].start == i * 8388608,
        i + 1 < parts.len() ==> parts[i].end == (i + 1) * 8388608,
        i + 1 == parts.len() ==> parts[i].end == len,
        DRAIN_READ_CONCURRENCY_CAP == 64,
{
    crate::state_laws::stripes_follow_each_other(parts, len, SUPERFILE_MULTIPART_PART_BYTES, i);
    assert(parts[i].start == i * SUPERFILE_MULTIPART_PART_BYTES);
}

} // verus!
