//! Planning a drain: which user superfiles it moves, in which batches, and
//! whether a checkpoint that was left behind can be taken up again.
use vstd::prelude::*;

use std::collections::{HashMap, HashSet};

use vstd::utf8::encode_utf8;

use crate::hashing::{
    blake3_digest, blake3_hash_hex, parse_uuid, uuid_text, uuid_text_is_unique, uuid_text_round_trip,
    uuid_to_text,
};
use crate::order::{sorted_by, stable_order, SortKey};
use crate::text::hex_of;
use crate::wire::{le4_bytes, le8_bytes, push_bytes, push_u32_le, push_u64_le};

verus! {

broadcast use vstd::std_specs::hash::group_hash_axioms;

/// Version of the checkpoint format.
pub const DRAIN_CHECKPOINT_SCHEMA: u32 = 1;

/// Tag of the pin that a bulk repack puts in the checkpoint's place.
pub const REPACK_CHECKPOINT_SCHEMA: u32 = 1380993841;

/// How a drain makes a cell's index from the rows that go there.
#[derive(Clone, Copy, PartialEq, Eq, Structural, Debug)]
pub enum DrainConsolidate {
    Kmeans,
    Splice,
}

/// A user superfile.
#[derive(Clone, Copy, PartialEq, Eq, Structural, Debug)]
pub struct SourceFile {
    pub superfile_id: u128,
    pub uri: u128,
    pub birth_version: u64,
}

/// A source as a checkpoint names it.
#[derive(Debug)]
pub struct DrainCheckpointSource {
    pub superfile_id: String,
    pub uri: String,
    pub birth_version: u64,
}

/// A shard that a drain has uploaded, with the rows that it put in each cell.
#[derive(Debug)]
pub struct DrainRemoteShard {
    pub shard_id: u32,
    pub superfile_id: String,
    pub cell_counts: Vec<(u32, u32)>,
}

/// What a drain leaves on storage for a restart on any machine.
#[derive(Debug)]
pub struct DrainRemoteCheckpoint {
    pub schema: u32,
    pub epoch_id: String,
    pub options_hash: String,
    pub sources: Vec<DrainCheckpointSource>,
    pub batch_layout: Vec<Vec<u64>>,
    pub shard_count: usize,
    pub completed_shards: Vec<DrainRemoteShard>,
}

/// One batch of sources, and the versions that they were born in.
#[derive(Debug)]
pub struct DrainBatch {
    pub versions: Vec<u64>,
    pub sources: Vec<SourceFile>,
}

/// Why a checkpoint cannot be taken up.
#[derive(Debug)]
pub enum CheckpointFault {
    /// The checkpoint could not be decoded.
    Decode(String),
    /// It has another schema than this one.
    Schema { schema: u32 },
    /// It does not list as many shards as there are uploaded entries.
    EntryCount { entries: usize, shards: usize },
    /// It lists a shard that has no uploaded entry.
    MissingEntry,
    /// It was made with another number of shards.
    ShardCount { checkpoint: usize },
    /// It was made with other options.
    OptionsHash,
    /// Some of its sources are drained and some are not.
    PartiallyCommitted,
    /// One of its sources is no longer in the table.
    SourceMissing { index: usize },
    /// One of its sources is another file or version now.
    SourceChanged { index: usize },
    /// Its sources fall into other batches now.
    BatchLayout,
    /// It does not have the id that its contents call for.
    EpochHash,
}

// ---------------------------------------------------------------------------
// Batches
// ---------------------------------------------------------------------------

pub open spec fn source_keys(sources: Seq<SourceFile>) -> Seq<SortKey> {
    Seq::new(sources.len(), |i: int| (sources[i].birth_version as i128, 0u128))
}

/// The sources by birth version, those of one version in the order they came.
pub open spec fn by_version(sources: Seq<SourceFile>) -> Seq<SourceFile> {
    sorted_by(sources, source_keys(sources))
}

/// The end of the run of sources from `j` on that were born in `version`.
pub open spec fn run_end(s: Seq<SourceFile>, version: u64, j: int) -> int
    decreases s.len() - j,
{
    if 0 <= j < s.len() && s[j].birth_version == version {
        run_end(s, version, j + 1)
    } else {
        j
    }
}

/// The end of the batch that starts at `start` and reaches at least to `end`:
/// it takes further versions, each whole, while it stays within the budget.
pub open spec fn batch_end(s: Seq<SourceFile>, start: int, end: int, budget: int) -> int
    decreases s.len() - end,
{
    let next = run_end(s, s[end].birth_version, end);
    if 0 <= end < next <= s.len() && next - start <= budget {
        batch_end(s, start, next, budget)
    } else {
        end
    }
}

/// The end of the batch that starts at `start`. A batch has at least one whole
/// version, whatever the budget.
pub open spec fn first_batch_end(s: Seq<SourceFile>, start: int, budget: int) -> int {
    batch_end(s, start, run_end(s, s[start].birth_version, start), budget)
}

/// The batches of the sources from `start` on.
pub open spec fn batches_from(s: Seq<SourceFile>, start: int, budget: int) -> Seq<Seq<SourceFile>>
    decreases s.len() - start,
{
    let end = first_batch_end(s, start, budget);
    if 0 <= start < end <= s.len() {
        seq![s.subrange(start, end)] + batches_from(s, end, budget)
    } else {
        Seq::empty()
    }
}

/// The batches in which the sources are drained.
pub open spec fn drain_batches(sources: Seq<SourceFile>, budget: int) -> Seq<Seq<SourceFile>> {
    batches_from(by_version(sources), 0, budget)
}

/// The versions of the sources, each once where it first occurs in a row.
pub open spec fn versions_of(batch: Seq<SourceFile>) -> Seq<u64>
    decreases batch.len(),
{
    if batch.len() == 0 {
        Seq::empty()
    } else {
        let before = versions_of(batch.drop_last());
        if before.len() > 0 && before.last() == batch.last().birth_version {
            before
        } else {
            before.push(batch.last().birth_version)
        }
    }
}

pub open spec fn are_batches(batches: Seq<DrainBatch>, wanted: Seq<Seq<SourceFile>>) -> bool {
    &&& batches.len() == wanted.len()
    &&& forall|i: int|
        0 <= i < batches.len() ==> (#[trigger] batches[i]).sources@ == wanted[i] && batches[i].versions@
            == versions_of(wanted[i])
}

proof fn run_end_bounds(s: Seq<SourceFile>, version: u64, j: int)
    requires
        0 <= j <= s.len(),
    ensures
        j <= run_end(s, version, j) <= s.len(),
        j < s.len() && s[j].birth_version == version ==> j < run_end(s, version, j),
    decreases s.len() - j,
{
    if j < s.len() && s[j].birth_version == version {
        run_end_bounds(s, version, j + 1);
    }
}

proof fn batch_end_bounds(s: Seq<SourceFile>, start: int, end: int, budget: int)
    requires
        0 <= start <= end <= s.len(),
    ensures
        end <= batch_end(s, start, end, budget) <= s.len(),
    decreases s.len() - end,
{
    if end < s.len() {
        run_end_bounds(s, s[end].birth_version, end);
        let next = run_end(s, s[end].birth_version, end);
        if next - start <= budget && next > end {
            batch_end_bounds(s, start, next, budget);
        }
    }
}

proof fn first_batch_bounds(s: Seq<SourceFile>, start: int, budget: int)
    requires
        0 <= start < s.len(),
    ensures
        start < first_batch_end(s, start, budget) <= s.len(),
{
    run_end_bounds(s, s[start].birth_version, start);
    batch_end_bounds(s, start, run_end(s, s[start].birth_version, start), budget);
}

fn find_run_end(s: &Vec<SourceFile>, from: usize) -> (end: usize)
    requires
        from < s.len(),
    ensures
        end == run_end(s@, s@[from as int].birth_version, from as int),
        from < end <= s.len(),
{
    let version: u64 = s[from].birth_version;
    let mut j: usize = from;
    while j < s.len() && s[j].birth_version == version
        invariant
            from <= j <= s.len(),
            version == s@[from as int].birth_version,
            run_end(s@, version, from as int) == run_end(s@, version, j as int),
            j == from ==> s@[j as int].birth_version == version,
        decreases s.len() - j,
    {
        j = j + 1;
    }
    j
}

/// The sources in the order of their versions.
fn sort_by_version(sources: &Vec<SourceFile>) -> (sorted: Vec<SourceFile>)
    ensures
        sorted@ == by_version(sources@),
        sorted.len() == sources.len(),
{
    let mut keys: Vec<SortKey> = Vec::new();
    let mut i: usize = 0;
    while i < sources.len()
        invariant
            i <= sources.len(),
            keys@ == source_keys(sources@).take(i as int),
        decreases sources.len() - i,
    {
        keys.push((sources[i].birth_version as i128, 0));
        i = i + 1;
        assert(keys@ =~= source_keys(sources@).take(i as int));
    }
    assert(keys@ =~= source_keys(sources@));
    let order = stable_order(&keys);
    let mut sorted: Vec<SourceFile> = Vec::new();
    let mut k: usize = 0;
    while k < order.len()
        invariant
            k <= order.len(),
            keys@ == source_keys(sources@),
            crate::order::is_stable_order(keys@, order@),
            order@ == crate::order::the_order(keys@),
            sorted@ == by_version(sources@).take(k as int),
        decreases order.len() - k,
    {
        sorted.push(sources[order[k]]);
        k = k + 1;
        assert(sorted@ =~= by_version(sources@).take(k as int));
    }
    assert(sorted@ =~= by_version(sources@));
    sorted
}

/// Divides the sources into batches of at most `budget` files. Sources of one
/// version stay together, so that a version with more files than the budget is a
/// batch of its own.
pub fn make_drain_batches(sources: &Vec<SourceFile>, budget: usize) -> (batches: Vec<DrainBatch>)
    ensures
        are_batches(batches@, drain_batches(sources@, budget as int)),
{
    let s = sort_by_version(sources);
    let ghost wanted = drain_batches(sources@, budget as int);
    let mut batches: Vec<DrainBatch> = Vec::new();
    let mut start: usize = 0;
    assert(wanted.take(0) + batches_from(s@, 0, budget as int) =~= wanted);
    while start < s.len()
        invariant
            start <= s.len(),
            s@ == by_version(sources@),
            wanted == drain_batches(sources@, budget as int),
            batches.len() <= wanted.len(),
            wanted == wanted.take(batches.len() as int) + batches_from(s@, start as int, budget as int),
            are_batches(batches@, wanted.take(batches.len() as int)),
        decreases s.len() - start,
    {
        let mut end: usize = find_run_end(&s, start);
        proof {
            first_batch_bounds(s@, start as int, budget as int);
        }
        let mut open: bool = true;
        while open
            invariant
                start < end <= s.len(),
                batch_end(
                    s@,
                    start as int,
                    run_end(s@, s@[start as int].birth_version, start as int),
                    budget as int,
                ) == batch_end(s@, start as int, end as int, budget as int),
                !open ==> batch_end(s@, start as int, end as int, budget as int) == end,
            decreases s.len() - end, (if open { 1int } else { 0 }),
        {
            if end < s.len() {
                let next: usize = find_run_end(&s, end);
                if next - start <= budget {
                    end = next;
                } else {
                    open = false;
                }
            } else {
                open = false;
            }
        }
        let mut files: Vec<SourceFile> = Vec::new();
        let mut versions: Vec<u64> = Vec::new();
        let mut i: usize = start;
        let ghost here = s@.subrange(start as int, end as int);
        assert(here.take(0) =~= Seq::<SourceFile>::empty());
        while i < end
            invariant
                start <= i <= end <= s.len(),
                here == s@.subrange(start as int, end as int),
                files@ == here.take(i - start),
                versions@ == versions_of(here.take(i - start)),
            decreases end - i,
        {
            let file: SourceFile = s[i];
            proof {
                assert(here.take(i + 1 - start).drop_last() =~= here.take(i - start));
                assert(here.take(i + 1 - start).last() == file);
            }
            files.push(file);
            let n: usize = versions.len();
            if n == 0 || versions[n - 1] != file.birth_version {
                versions.push(file.birth_version);
            }
            i = i + 1;
            assert(files@ =~= here.take(i - start));
        }
        assert(here.take(end - start) =~= here);
        let ghost n = batches.len() as int;
        let ghost before = batches@;
        proof {
            let tail = batches_from(s@, start as int, budget as int);
            let rest = batches_from(s@, end as int, budget as int);
            assert(tail =~= seq![here] + rest);
            assert(wanted[n] == here) by {
                assert((wanted.take(n) + tail)[n] == tail[0]);
            }
            assert(wanted.take(n + 1) =~= wanted.take(n).push(here));
            assert(wanted =~= wanted.take(n + 1) + rest);
        }
        batches.push(DrainBatch { versions, sources: files });
        proof {
            assert forall|k: int| 0 <= k < batches.len() implies (#[trigger] batches@[k]).sources@
                == wanted.take(n + 1)[k] && batches@[k].versions@ == versions_of(wanted.take(n + 1)[k]) by {
                if k < n {
                    assert(batches@[k] == before[k]);
                    assert(before[k].sources@ == wanted.take(n)[k]);
                    assert(wanted.take(n)[k] == wanted.take(n + 1)[k]);
                }
            }
        }
        start = end;
    }
    assert(batches_from(s@, start as int, budget as int) =~= Seq::<Seq<SourceFile>>::empty());
    assert(wanted.take(batches.len() as int) =~= wanted);
    batches
}

/// Joined batches.
pub open spec fn joined_sources(batches: Seq<Seq<SourceFile>>) -> Seq<SourceFile>
    decreases batches.len(),
{
    if batches.len() == 0 {
        Seq::empty()
    } else {
        batches.first() + joined_sources(batches.drop_first())
    }
}

proof fn joined_batches_from(s: Seq<SourceFile>, start: int, budget: int)
    requires
        0 <= start <= s.len(),
    ensures
        joined_sources(batches_from(s, start, budget)) == s.skip(start),
    decreases s.len() - start,
{
    if start < s.len() {
        first_batch_bounds(s, start, budget);
        let e = first_batch_end(s, start, budget);
        joined_batches_from(s, e, budget);
        let all = batches_from(s, start, budget);
        assert(all.drop_first() =~= batches_from(s, e, budget));
        assert(s.subrange(start, e) + s.skip(e) =~= s.skip(start));
    } else {
        assert(s.skip(start) =~= Seq::<SourceFile>::empty());
    }
}

/// The batches hold every source once, in the order of their versions.
pub proof fn batches_hold_every_source(sources: Seq<SourceFile>, budget: int)
    requires
        sources.len() <= usize::MAX,
    ensures
        joined_sources(drain_batches(sources, budget)) == by_version(sources),
        by_version(sources).len() == sources.len(),
        forall|f: SourceFile| by_version(sources).contains(f) == sources.contains(f),
{
    let s = by_version(sources);
    joined_batches_from(s, 0, budget);
    assert(s.skip(0) =~= s);
    crate::order::sorted_by_keeps_items(sources, source_keys(sources));
}

proof fn run_is_one_version(s: Seq<SourceFile>, version: u64, j: int)
    requires
        0 <= j <= s.len(),
    ensures
        forall|k: int| j <= k < run_end(s, version, j) ==> (#[trigger] s[k]).birth_version == version,
        run_end(s, version, j) < s.len() ==> s[run_end(s, version, j)].birth_version != version,
    decreases s.len() - j,
{
    if j < s.len() && s[j].birth_version == version {
        run_end_bounds(s, version, j + 1);
        run_is_one_version(s, version, j + 1);
    }
}

proof fn batch_end_stops_at_version(s: Seq<SourceFile>, start: int, end: int, budget: int)
    requires
        0 <= start < end <= s.len(),
        end < s.len() ==> s[end - 1].birth_version != s[end].birth_version,
    ensures
        ({
            let e = batch_end(s, start, end, budget);
            &&& e < s.len() ==> s[e - 1].birth_version != s[e].birth_version
            &&& e == end || e - start <= budget
        }),
    decreases s.len() - end,
{
    if end < s.len() {
        run_end_bounds(s, s[end].birth_version, end);
        run_is_one_version(s, s[end].birth_version, end);
        let next = run_end(s, s[end].birth_version, end);
        if next - start <= budget && next > end {
            assert(s[next - 1].birth_version == s[end].birth_version);
            batch_end_stops_at_version(s, start, next, budget);
        }
    }
}

/// A batch ends where a version ends, so that no version is split over two; and
/// it exceeds the budget only where it is a single version.
pub proof fn batch_keeps_versions_whole(s: Seq<SourceFile>, start: int, budget: int)
    requires
        0 <= start < s.len(),
    ensures
        ({
            let e = first_batch_end(s, start, budget);
            &&& start < e <= s.len()
            &&& e < s.len() ==> s[e - 1].birth_version != s[e].birth_version
            &&& e - start <= budget || forall|k: int|
                start <= k < e ==> (#[trigger] s[k]).birth_version == s[start].birth_version
        }),
{
    let v = s[start].birth_version;
    first_batch_bounds(s, start, budget);
    run_end_bounds(s, v, start);
    run_is_one_version(s, v, start);
    let r = run_end(s, v, start);
    assert(s[r - 1].birth_version == v);
    batch_end_stops_at_version(s, start, r, budget);
}

/// The versions of each batch.
pub open spec fn layout_of(batches: Seq<Seq<SourceFile>>) -> Seq<Seq<u64>> {
    Seq::new(batches.len(), |i: int| versions_of(batches[i]))
}

pub open spec fn layout_view(layout: Seq<Vec<u64>>) -> Seq<Seq<u64>> {
    Seq::new(layout.len(), |i: int| layout[i]@)
}

fn copy_versions(v: &Vec<u64>) -> (out: Vec<u64>)
    ensures
        out@ == v@,
{
    let mut out: Vec<u64> = Vec::new();
    let mut i: usize = 0;
    while i < v.len()
        invariant
            i <= v.len(),
            out@ == v@.take(i as int),
        decreases v.len() - i,
    {
        out.push(v[i]);
        i = i + 1;
        assert(out@ =~= v@.take(i as int));
    }
    assert(out@ =~= v@);
    out
}

/// The versions of each batch.
pub fn drain_batch_layout(batches: &Vec<DrainBatch>) -> (layout: Vec<Vec<u64>>)
    ensures
        layout.len() == batches.len(),
        forall|i: int| 0 <= i < layout.len() ==> (#[trigger] layout@[i])@ == batches@[i].versions@,
{
    let mut layout: Vec<Vec<u64>> = Vec::new();
    let mut i: usize = 0;
    while i < batches.len()
        invariant
            i <= batches.len(),
            layout.len() == i,
            forall|k: int| 0 <= k < i ==> (#[trigger] layout@[k])@ == batches@[k].versions@,
        decreases batches.len() - i,
    {
        layout.push(copy_versions(&batches[i].versions));
        i = i + 1;
    }
    layout
}

fn same_layout(a: &Vec<Vec<u64>>, b: &Vec<Vec<u64>>) -> (same: bool)
    ensures
        same == (layout_view(a@) == layout_view(b@)),
{
    if a.len() != b.len() {
        assert(layout_view(a@).len() != layout_view(b@).len());
        return false;
    }
    let mut i: usize = 0;
    while i < a.len()
        invariant
            i <= a.len(),
            a.len() == b.len(),
            forall|k: int| 0 <= k < i ==> (#[trigger] a@[k])@ == b@[k]@,
        decreases a.len() - i,
    {
        let x = &a[i];
        let y = &b[i];
        let mut same: bool = x.len() == y.len();
        let mut j: usize = 0;
        while same && j < x.len()
            invariant
                j <= x.len(),
                same ==> x.len() == y.len() && forall|k: int| 0 <= k < j ==> x@[k] == y@[k],
                !same ==> x@ != y@,
            decreases x.len() - j, (if same { 1int } else { 0 }),
        {
            if x[j] != y[j] {
                same = false;
            } else {
                j = j + 1;
            }
        }
        if !same {
            assert(layout_view(a@)[i as int] != layout_view(b@)[i as int]);
            return false;
        }
        assert(x@ =~= y@);
        i = i + 1;
    }
    assert(layout_view(a@) =~= layout_view(b@));
    true
}

// ---------------------------------------------------------------------------
// The epoch
// ---------------------------------------------------------------------------

/// A source as the checkpoint names it, as text and numbers.
#[verifier::ext_equal]
pub struct SourceName {
    pub superfile_id: Seq<char>,
    pub uri: Seq<char>,
    pub birth_version: u64,
}

pub open spec fn source_name(source: DrainCheckpointSource) -> SourceName {
    SourceName {
        superfile_id: source.superfile_id@,
        uri: source.uri@,
        birth_version: source.birth_version,
    }
}

pub open spec fn source_names(sources: Seq<DrainCheckpointSource>) -> Seq<SourceName> {
    Seq::new(sources.len(), |i: int| source_name(sources[i]))
}

/// The name of a file in a checkpoint.
pub open spec fn name_of(file: SourceFile) -> SourceName {
    SourceName {
        superfile_id: uuid_text(file.superfile_id),
        uri: uuid_text(file.uri),
        birth_version: file.birth_version,
    }
}

pub open spec fn names_of(files: Seq<SourceFile>) -> Seq<SourceName> {
    Seq::new(files.len(), |i: int| name_of(files[i]))
}

/// How a checkpoint names a file.
pub fn drain_checkpoint_source(file: &SourceFile) -> (source: DrainCheckpointSource)
    ensures
        source_name(source) == name_of(*file),
{
    DrainCheckpointSource {
        superfile_id: uuid_to_text(file.superfile_id),
        uri: uuid_to_text(file.uri),
        birth_version: file.birth_version,
    }
}

pub open spec fn mode_bytes(consolidate: DrainConsolidate) -> Seq<u8> {
    match consolidate {
        DrainConsolidate::Kmeans => seq![107u8, 109, 101, 97, 110, 115],
        DrainConsolidate::Splice => seq![115u8, 112, 108, 105, 99, 101],
    }
}

pub open spec fn source_bytes(sources: Seq<SourceName>) -> Seq<u8>
    decreases sources.len(),
{
    if sources.len() == 0 {
        Seq::empty()
    } else {
        source_bytes(sources.drop_last()) + encode_utf8(sources.last().superfile_id) + encode_utf8(
            sources.last().uri,
        ) + le8_bytes(sources.last().birth_version as int)
    }
}

pub open spec fn version_bytes(versions: Seq<u64>) -> Seq<u8>
    decreases versions.len(),
{
    if versions.len() == 0 {
        Seq::empty()
    } else {
        version_bytes(versions.drop_last()) + le8_bytes(versions.last() as int)
    }
}

pub open spec fn layout_bytes(layout: Seq<Seq<u64>>) -> Seq<u8>
    decreases layout.len(),
{
    if layout.len() == 0 {
        Seq::empty()
    } else {
        layout_bytes(layout.drop_last()) + le8_bytes(layout.last().len() as int) + version_bytes(
            layout.last(),
        )
    }
}

/// What identifies a drain: the format, the number of shards, the options, the
/// mode, the sources and their batches.
pub open spec fn epoch_bytes(
    options_hash: Seq<char>,
    sources: Seq<SourceName>,
    layout: Seq<Seq<u64>>,
    shard_count: usize,
    consolidate: DrainConsolidate,
) -> Seq<u8> {
    le4_bytes(DRAIN_CHECKPOINT_SCHEMA as int) + le8_bytes(shard_count as int) + encode_utf8(options_hash)
        + mode_bytes(consolidate) + source_bytes(sources) + layout_bytes(layout)
}

/// The id of a drain.
pub open spec fn epoch_id_of(
    options_hash: Seq<char>,
    sources: Seq<SourceName>,
    layout: Seq<Seq<u64>>,
    shard_count: usize,
    consolidate: DrainConsolidate,
) -> Seq<char> {
    hex_of(blake3_digest(epoch_bytes(options_hash, sources, layout, shard_count, consolidate)))
}

/// What identifies a drain, as bytes.
pub fn drain_epoch_bytes(
    options_hash: &str,
    sources: &Vec<DrainCheckpointSource>,
    batch_layout: &Vec<Vec<u64>>,
    shard_count: usize,
    consolidate: DrainConsolidate,
) -> (out: Vec<u8>)
    ensures
        out@ == epoch_bytes(
            options_hash@,
            source_names(sources@),
            layout_view(batch_layout@),
            shard_count,
            consolidate,
        ),
{
    let mut out: Vec<u8> = Vec::new();
    push_u32_le(&mut out, DRAIN_CHECKPOINT_SCHEMA);
    assert(out@ =~= le4_bytes(DRAIN_CHECKPOINT_SCHEMA as int));
    push_u64_le(&mut out, shard_count as u64);
    push_bytes(&mut out, options_hash.as_bytes());
    let ghost head = out@;
    match consolidate {
        DrainConsolidate::Kmeans => {
            out.push(107);
            out.push(109);
            out.push(101);
            out.push(97);
            out.push(110);
            out.push(115);
        },
        DrainConsolidate::Splice => {
            out.push(115);
            out.push(112);
            out.push(108);
            out.push(105);
            out.push(99);
            out.push(101);
        },
    }
    assert(out@ =~= head + mode_bytes(consolidate));
    let ghost head = out@;
    let ghost names = source_names(sources@);
    let mut i: usize = 0;
    assert(names.take(0) =~= Seq::<SourceName>::empty());
    assert(out@ =~= head + source_bytes(names.take(0)));
    while i < sources.len()
        invariant
            i <= sources.len(),
            names == source_names(sources@),
            out@ == head + source_bytes(names.take(i as int)),
        decreases sources.len() - i,
    {
        proof {
            assert(names.take(i + 1).drop_last() =~= names.take(i as int));
            assert(names.take(i + 1).last() == source_name(sources@[i as int]));
        }
        push_bytes(&mut out, sources[i].superfile_id.as_str().as_bytes());
        push_bytes(&mut out, sources[i].uri.as_str().as_bytes());
        push_u64_le(&mut out, sources[i].birth_version);
        i = i + 1;
        assert(out@ =~= head + source_bytes(names.take(i as int)));
    }
    assert(names.take(i as int) =~= names);
    let ghost head = out@;
    let ghost layout = layout_view(batch_layout@);
    let mut b: usize = 0;
    assert(layout.take(0) =~= Seq::<Seq<u64>>::empty());
    assert(out@ =~= head + layout_bytes(layout.take(0)));
    while b < batch_layout.len()
        invariant
            b <= batch_layout.len(),
            layout == layout_view(batch_layout@),
            out@ == head + layout_bytes(layout.take(b as int)),
        decreases batch_layout.len() - b,
    {
        let versions: &Vec<u64> = &batch_layout[b];
        proof {
            assert(layout.take(b + 1).drop_last() =~= layout.take(b as int));
            assert(layout.take(b + 1).last() == versions@);
        }
        push_u64_le(&mut out, versions.len() as u64);
        let ghost upto = out@;
        let mut v: usize = 0;
        assert(versions@.take(0) =~= Seq::<u64>::empty());
        assert(out@ =~= upto + version_bytes(versions@.take(0)));
        while v < versions.len()
            invariant
                v <= versions.len(),
                out@ == upto + version_bytes(versions@.take(v as int)),
            decreases versions.len() - v,
        {
            proof {
                assert(versions@.take(v + 1).drop_last() =~= versions@.take(v as int));
            }
            push_u64_le(&mut out, versions[v]);
            v = v + 1;
            assert(out@ =~= upto + version_bytes(versions@.take(v as int)));
        }
        assert(versions@.take(v as int) =~= versions@);
        b = b + 1;
        assert(out@ =~= head + layout_bytes(layout.take(b as int)));
    }
    assert(layout.take(b as int) =~= layout);
    out
}

/// The id of a drain: the hash of what identifies it.
pub fn drain_epoch_id(
    options_hash: &str,
    sources: &Vec<DrainCheckpointSource>,
    batch_layout: &Vec<Vec<u64>>,
    shard_count: usize,
    consolidate: DrainConsolidate,
) -> (id: String)
    ensures
        id@ == epoch_id_of(
            options_hash@,
            source_names(sources@),
            layout_view(batch_layout@),
            shard_count,
            consolidate,
        ),
{
    let bytes = drain_epoch_bytes(options_hash, sources, batch_layout, shard_count, consolidate);
    blake3_hash_hex(bytes.as_slice())
}

// ---------------------------------------------------------------------------
// Ids in texts
// ---------------------------------------------------------------------------

/// The id that a text is the hyphenated form of.
pub(crate) fn id_of_text(text: &String) -> (id: Option<u128>)
    ensures
        match id {
            Some(v) => text@ == uuid_text(v) && forall|w: u128| text@ == #[trigger] uuid_text(w) ==> w == v,
            None => forall|w: u128| text@ != #[trigger] uuid_text(w),
        },
{
    proof {
        assert forall|w: u128| text@ == #[trigger] uuid_text(w) implies crate::hashing::uuid_of_text(text@)
            == Some(w) by {
            uuid_text_round_trip(w);
        }
    }
    match parse_uuid(text.as_str()) {
        Some(v) => {
            let back = uuid_to_text(v);
            if back == *text {
                Some(v)
            } else {
                assert forall|w: u128| text@ != #[trigger] uuid_text(w) by {
                    if text@ == uuid_text(w) {
                        assert(Some(v) == Some(w));
                    }
                }
                None
            }
        },
        None => None,
    }
}

/// The text names one of the ids.
pub open spec fn names_one_of(text: Seq<char>, ids: Seq<u128>) -> bool {
    exists|i: int| 0 <= i < ids.len() && text == uuid_text(#[trigger] ids[i])
}

fn id_set(ids: &Vec<u128>) -> (set: HashSet<u128>)
    ensures
        forall|v: u128| set@.contains(v) == ids@.contains(v),
{
    let mut set: HashSet<u128> = HashSet::new();
    let mut i: usize = 0;
    while i < ids.len()
        invariant
            i <= ids.len(),
            forall|v: u128| set@.contains(v) == ids@.take(i as int).contains(v),
        decreases ids.len() - i,
    {
        let ghost before = set@;
        set.insert(ids[i]);
        proof {
            let less = ids@.take(i as int);
            let more = ids@.take(i + 1);
            assert forall|v: u128| set@.contains(v) == more.contains(v) by {
                assert(before.contains(v) == less.contains(v));
                if less.contains(v) {
                    let k = choose|k: int| 0 <= k < less.len() && less[k] == v;
                    assert(more[k] == v);
                }
                if v == ids@[i as int] {
                    assert(more[i as int] == v);
                }
                if more.contains(v) && v != ids@[i as int] {
                    let k = choose|k: int| 0 <= k < more.len() && more[k] == v;
                    assert(less[k] == v);
                }
            }
        }
        i = i + 1;
    }
    assert(ids@.take(i as int) =~= ids@);
    set
}

// ---------------------------------------------------------------------------
// The checkpoint on storage
// ---------------------------------------------------------------------------

/// What the slow state holds in a checkpoint's place: the schema tag of its
/// metadata, what the metadata decodes to, and the uploaded entries.
pub struct PendingCheckpoint {
    pub schema_tag: Option<u32>,
    pub decoded: Result<DrainRemoteCheckpoint, String>,
    pub entry_ids: Vec<u128>,
}

/// Every shard of the checkpoint has an uploaded entry.
pub open spec fn shards_have_entries(shards: Seq<DrainRemoteShard>, ids: Seq<u128>) -> bool {
    forall|i: int| 0 <= i < shards.len() ==> names_one_of((#[trigger] shards[i]).superfile_id@, ids)
}

/// The checkpoint that a drain takes up. A repack's pin in its place is no
/// checkpoint and is passed over.
#[verifier::loop_isolation(false)]
pub fn load_drain_remote_checkpoint(pending: Option<PendingCheckpoint>) -> (result: Result<
    Option<DrainRemoteCheckpoint>,
    CheckpointFault,
>)
    ensures
        match pending {
            None => result == Ok::<Option<DrainRemoteCheckpoint>, CheckpointFault>(None),
            Some(p) => if p.schema_tag == Some(REPACK_CHECKPOINT_SCHEMA) {
                result == Ok::<Option<DrainRemoteCheckpoint>, CheckpointFault>(None)
            } else {
                match p.decoded {
                    Err(e) => result is Err && result->Err_0 is Decode && result->Err_0->Decode_0 == e,
                    Ok(c) => if c.schema != DRAIN_CHECKPOINT_SCHEMA {
                        result matches Err(CheckpointFault::Schema { schema }) && schema == c.schema
                    } else if p.entry_ids.len() != c.completed_shards.len() {
                        result matches Err(CheckpointFault::EntryCount { entries, shards }) && entries
                            == p.entry_ids.len() && shards == c.completed_shards.len()
                    } else if !shards_have_entries(c.completed_shards@, p.entry_ids@) {
                        result is Err && result->Err_0 is MissingEntry
                    } else {
                        result == Ok::<Option<DrainRemoteCheckpoint>, CheckpointFault>(Some(c))
                    },
                }
            },
        },
{
    let p = match pending {
        None => {
            return Ok(None);
        },
        Some(p) => p,
    };
    if let Some(tag) = p.schema_tag {
        if tag == REPACK_CHECKPOINT_SCHEMA {
            return Ok(None);
        }
    }
    let checkpoint = match p.decoded {
        Ok(c) => c,
        Err(e) => {
            return Err(CheckpointFault::Decode(e));
        },
    };
    if checkpoint.schema != DRAIN_CHECKPOINT_SCHEMA {
        return Err(CheckpointFault::Schema { schema: checkpoint.schema });
    }
    if p.entry_ids.len() != checkpoint.completed_shards.len() {
        return Err(
            CheckpointFault::EntryCount {
                entries: p.entry_ids.len(),
                shards: checkpoint.completed_shards.len(),
            },
        );
    }
    let known = id_set(&p.entry_ids);
    let mut i: usize = 0;
    while i < checkpoint.completed_shards.len()
        invariant
            i <= checkpoint.completed_shards.len(),
            forall|v: u128| known@.contains(v) == p.entry_ids@.contains(v),
            forall|k: int|
                0 <= k < i ==> names_one_of(
                    (#[trigger] checkpoint.completed_shards@[k]).superfile_id@,
                    p.entry_ids@,
                ),
        decreases checkpoint.completed_shards.len() - i,
    {
        let text = &checkpoint.completed_shards[i].superfile_id;
        let found: bool = match id_of_text(text) {
            Some(id) => known.contains(&id),
            None => false,
        };
        proof {
            assert(found == names_one_of(text@, p.entry_ids@)) by {
                if names_one_of(text@, p.entry_ids@) {
                    let k = choose|k: int|
                        0 <= k < p.entry_ids.len() && text@ == uuid_text(#[trigger] p.entry_ids@[k]);
                    assert(p.entry_ids@.contains(p.entry_ids@[k]));
                }
            }
        }
        if !found {
            assert(!names_one_of(checkpoint.completed_shards@[i as int].superfile_id@, p.entry_ids@));
            return Err(CheckpointFault::MissingEntry);
        }
        i = i + 1;
    }
    Ok(Some(checkpoint))
}

// ---------------------------------------------------------------------------
// Taking a drain up, or starting one
// ---------------------------------------------------------------------------

/// The version is in one of the drained ranges, which hold both their ends.
pub open spec fn is_drained(drained: Seq<(u64, u64)>, version: u64) -> bool {
    exists|i: int| 0 <= i < drained.len() && (#[trigger] drained[i]).0 <= version <= drained[i].1
}

fn version_is_drained(drained: &Vec<(u64, u64)>, version: u64) -> (r: bool)
    ensures
        r == is_drained(drained@, version),
{
    let mut i: usize = 0;
    while i < drained.len()
        invariant
            i <= drained.len(),
            forall|k: int| 0 <= k < i ==> !((#[trigger] drained@[k]).0 <= version <= drained@[k].1),
        decreases drained.len() - i,
    {
        if drained[i].0 <= version && version <= drained[i].1 {
            assert(drained@[i as int].0 <= version <= drained@[i as int].1);
            return true;
        }
        i = i + 1;
    }
    false
}

/// How many of the sources are drained.
pub open spec fn count_drained(sources: Seq<DrainCheckpointSource>, drained: Seq<(u64, u64)>) -> int
    decreases sources.len(),
{
    if sources.len() == 0 {
        0
    } else {
        count_drained(sources.drop_last(), drained) + if is_drained(
            drained,
            sources.last().birth_version,
        ) {
            1int
        } else {
            0
        }
    }
}

/// The file of the table that a checkpoint's source is: the last one with its
/// id.
pub open spec fn file_of_source(files: Seq<SourceFile>, name: SourceName) -> Option<SourceFile>
    decreases files.len(),
{
    if files.len() == 0 {
        None
    } else if uuid_text(files.last().superfile_id) == name.superfile_id {
        Some(files.last())
    } else {
        file_of_source(files.drop_last(), name)
    }
}

/// The source is a file of the table, unchanged.
pub open spec fn source_stands(files: Seq<SourceFile>, name: SourceName) -> bool {
    file_of_source(files, name) matches Some(f) && name_of(f) == name
}

/// The files of the sources.
pub open spec fn files_of_sources(files: Seq<SourceFile>, names: Seq<SourceName>) -> Seq<SourceFile> {
    Seq::new(names.len(), |i: int| file_of_source(files, names[i])->0)
}

/// What a checkpoint comes to.
#[derive(Debug)]
pub enum ResumePlan {
    /// Its drain was committed; what is left is to clean up.
    AlreadyDrained,
    /// Its drain goes on with these batches.
    Batches(Vec<DrainBatch>),
}

/// Indexes the files by id, the last of each.
fn index_files(files: &Vec<SourceFile>) -> (index: HashMap<u128, usize>)
    ensures
        forall|id: u128| #[trigger]
            index@.contains_key(id) ==> index@[id] < files.len() && files@[index@[id] as int].superfile_id
                == id,
        forall|id: u128|
            !#[trigger] index@.contains_key(id) ==> forall|k: int|
                0 <= k < files.len() ==> (#[trigger] files@[k]).superfile_id != id,
        forall|id: u128, k: int|
            #![trigger index@.contains_key(id), files@[k]]
            index@.contains_key(id) && index@[id] < k < files.len() ==> files@[k].superfile_id != id,
{
    let mut index: HashMap<u128, usize> = HashMap::new();
    let mut i: usize = 0;
    while i < files.len()
        invariant
            i <= files.len(),
            forall|id: u128| #[trigger]
                index@.contains_key(id) ==> index@[id] < i && files@[index@[id] as int].superfile_id == id,
            forall|id: u128|
                !#[trigger] index@.contains_key(id) ==> forall|k: int|
                    0 <= k < i ==> (#[trigger] files@[k]).superfile_id != id,
            forall|id: u128, k: int|
                #![trigger index@.contains_key(id), files@[k]]
                index@.contains_key(id) && index@[id] < k < i ==> files@[k].superfile_id != id,
        decreases files.len() - i,
    {
        index.insert(files[i].superfile_id, i);
        i = i + 1;
    }
    index
}

proof fn file_of_source_at(files: Seq<SourceFile>, name: SourceName, id: u128, k: int)
    requires
        0 <= k < files.len(),
        name.superfile_id == uuid_text(id),
        forall|w: u128| name.superfile_id == #[trigger] uuid_text(w) ==> w == id,
        files[k].superfile_id == id,
        forall|q: int| k < q < files.len() ==> (#[trigger] files[q]).superfile_id != id,
    ensures
        file_of_source(files, name) == Some(files[k]),
    decreases files.len(),
{
    if k < files.len() - 1 {
        assert(files.last() == files[files.len() - 1]);
        let w = files.last().superfile_id;
        assert(uuid_text(w) != name.superfile_id);
        file_of_source_at(files.drop_last(), name, id, k);
    }
}

proof fn file_of_source_none(files: Seq<SourceFile>, name: SourceName)
    requires
        forall|q: int|
            0 <= q < files.len() ==> uuid_text((#[trigger] files[q]).superfile_id) != name.superfile_id,
    ensures
        file_of_source(files, name) is None,
    decreases files.len(),
{
    if files.len() > 0 {
        assert(files.last() == files[files.len() - 1]);
        file_of_source_none(files.drop_last(), name);
    }
}

/// Looks a checkpoint's source up.
fn find_source(files: &Vec<SourceFile>, index: &HashMap<u128, usize>, source: &DrainCheckpointSource) -> (found: Option<
    SourceFile,
>)
    requires
        forall|id: u128| #[trigger]
            index@.contains_key(id) ==> index@[id] < files.len() && files@[index@[id] as int].superfile_id
                == id,
        forall|id: u128|
            !#[trigger] index@.contains_key(id) ==> forall|k: int|
                0 <= k < files.len() ==> (#[trigger] files@[k]).superfile_id != id,
        forall|id: u128, k: int|
            #![trigger index@.contains_key(id), files@[k]]
            index@.contains_key(id) && index@[id] < k < files.len() ==> files@[k].superfile_id != id,
    ensures
        found == file_of_source(files@, source_name(*source)),
{
    let ghost name = source_name(*source);
    match id_of_text(&source.superfile_id) {
        None => {
            proof {
                file_of_source_none(files@, name);
            }
            None
        },
        Some(id) => match index.get(&id) {
            Some(at) => {
                proof {
                    assert(index@.contains_key(id));
                    file_of_source_at(files@, name, id, *at as int);
                }
                Some(files[*at])
            },
            None => {
                proof {
                    assert(!index@.contains_key(id));
                    assert forall|q: int| 0 <= q < files.len() implies uuid_text(
                        (#[trigger] files@[q]).superfile_id,
                    ) != name.superfile_id by {
                        let w = files@[q].superfile_id;
                        if uuid_text(w) == name.superfile_id {
                            assert(w == id);
                        }
                    }
                    file_of_source_none(files@, name);
                }
                None
            },
        },
    }
}

/// Holds a checkpoint to the table and the configuration that it is taken up
/// with. The first thing that does not fit is reported.
#[verifier::loop_isolation(false)]
pub fn resume_drain(
    checkpoint: &DrainRemoteCheckpoint,
    files: &Vec<SourceFile>,
    drained: &Vec<(u64, u64)>,
    options_hash: &String,
    shard_count: usize,
    budget: usize,
    consolidate: DrainConsolidate,
) -> (result: Result<ResumePlan, CheckpointFault>)
    ensures
        ({
            let names = source_names(checkpoint.sources@);
            let n_drained = count_drained(checkpoint.sources@, drained@);
            let wanted = drain_batches(files_of_sources(files@, names), budget as int);
            if checkpoint.shard_count != shard_count {
                result matches Err(CheckpointFault::ShardCount { checkpoint: c }) && c
                    == checkpoint.shard_count
            } else if checkpoint.options_hash@ != options_hash@ {
                result is Err && result->Err_0 is OptionsHash
            } else if n_drained == checkpoint.sources.len() {
                result is Ok && result->Ok_0 is AlreadyDrained
            } else if n_drained != 0 {
                result is Err && result->Err_0 is PartiallyCommitted
            } else if !(forall|i: int| 0 <= i < names.len() ==> source_stands(files@, #[trigger] names[i])) {
                &&& result is Err
                &&& result->Err_0 matches CheckpointFault::SourceMissing { index } ==> index < names.len()
                    && file_of_source(files@, names[index as int]) is None && forall|i: int|
                    0 <= i < index ==> source_stands(files@, #[trigger] names[i])
                &&& result->Err_0 matches CheckpointFault::SourceChanged { index } ==> index < names.len()
                    && file_of_source(files@, names[index as int]) is Some && !source_stands(
                    files@,
                    names[index as int],
                ) && forall|i: int| 0 <= i < index ==> source_stands(files@, #[trigger] names[i])
                &&& result->Err_0 is SourceMissing || result->Err_0 is SourceChanged
            } else if layout_of(wanted) != layout_view(checkpoint.batch_layout@) {
                result is Err && result->Err_0 is BatchLayout
            } else if checkpoint.epoch_id@ != epoch_id_of(
                options_hash@,
                names,
                layout_of(wanted),
                shard_count,
                consolidate,
            ) {
                result is Err && result->Err_0 is EpochHash
            } else {
                result is Ok && result->Ok_0 is Batches && are_batches(result->Ok_0->Batches_0@, wanted)
            }
        }),
{
    if checkpoint.shard_count != shard_count {
        return Err(CheckpointFault::ShardCount { checkpoint: checkpoint.shard_count });
    }
    if checkpoint.options_hash != *options_hash {
        return Err(CheckpointFault::OptionsHash);
    }
    let n: usize = checkpoint.sources.len();
    let mut n_drained: usize = 0;
    let mut i: usize = 0;
    assert(checkpoint.sources@.take(0) =~= Seq::<DrainCheckpointSource>::empty());
    while i < n
        invariant
            i <= n,
            n == checkpoint.sources.len(),
            n_drained <= i,
            n_drained == count_drained(checkpoint.sources@.take(i as int), drained@),
        decreases n - i,
    {
        proof {
            assert(checkpoint.sources@.take(i + 1).drop_last() =~= checkpoint.sources@.take(i as int));
        }
        if version_is_drained(drained, checkpoint.sources[i].birth_version) {
            n_drained = n_drained + 1;
        }
        i = i + 1;
    }
    assert(checkpoint.sources@.take(i as int) =~= checkpoint.sources@);
    if n_drained == n {
        return Ok(ResumePlan::AlreadyDrained);
    }
    if n_drained != 0 {
        return Err(CheckpointFault::PartiallyCommitted);
    }
    let ghost names = source_names(checkpoint.sources@);
    let index = index_files(files);
    let mut selected: Vec<SourceFile> = Vec::new();
    let mut k: usize = 0;
    while k < n
        invariant
            k <= n,
            n == checkpoint.sources.len(),
            names == source_names(checkpoint.sources@),
            forall|id: u128| #[trigger]
                index@.contains_key(id) ==> index@[id] < files.len() && files@[index@[id] as int].superfile_id
                    == id,
            forall|id: u128|
                !#[trigger] index@.contains_key(id) ==> forall|q: int|
                    0 <= q < files.len() ==> (#[trigger] files@[q]).superfile_id != id,
            forall|id: u128, q: int|
                #![trigger index@.contains_key(id), files@[q]]
                index@.contains_key(id) && index@[id] < q < files.len() ==> files@[q].superfile_id != id,
            selected@ == files_of_sources(files@, names).take(k as int),
            forall|q: int| 0 <= q < k ==> source_stands(files@, #[trigger] names[q]),
        decreases n - k,
    {
        let source = &checkpoint.sources[k];
        match find_source(files, &index, source) {
            None => {
                assert(!source_stands(files@, names[k as int]));
                return Err(CheckpointFault::SourceMissing { index: k });
            },
            Some(file) => {
                let uri = uuid_to_text(file.uri);
                if uri != source.uri || file.birth_version != source.birth_version {
                    assert(!source_stands(files@, names[k as int]));
                    return Err(CheckpointFault::SourceChanged { index: k });
                }
                proof {
                    file_of_source_has_id(files@, names[k as int]);
                    assert(name_of(file) =~= names[k as int]);
                }
                selected.push(file);
            },
        }
        k = k + 1;
        assert(selected@ =~= files_of_sources(files@, names).take(k as int));
    }
    assert(selected@ =~= files_of_sources(files@, names));
    let batches = make_drain_batches(&selected, budget);
    let layout = drain_batch_layout(&batches);
    proof {
        assert(layout_view(layout@) =~= layout_of(drain_batches(selected@, budget as int)));
    }
    if !same_layout(&layout, &checkpoint.batch_layout) {
        return Err(CheckpointFault::BatchLayout);
    }
    let epoch = drain_epoch_id(
        options_hash.as_str(),
        &checkpoint.sources,
        &layout,
        shard_count,
        consolidate,
    );
    if epoch != checkpoint.epoch_id {
        return Err(CheckpointFault::EpochHash);
    }
    Ok(ResumePlan::Batches(batches))
}

proof fn file_of_source_has_id(files: Seq<SourceFile>, name: SourceName)
    ensures
        file_of_source(files, name) matches Some(f) ==> uuid_text(f.superfile_id) == name.superfile_id,
    decreases files.len(),
{
    if files.len() > 0 {
        file_of_source_has_id(files.drop_last(), name);
    }
}

/// The files that are not drained yet, in order.
pub open spec fn undrained(files: Seq<SourceFile>, drained: Seq<(u64, u64)>) -> Seq<SourceFile>
    decreases files.len(),
{
    if files.len() == 0 {
        Seq::empty()
    } else if is_drained(drained, files.last().birth_version) {
        undrained(files.drop_last(), drained)
    } else {
        undrained(files.drop_last(), drained).push(files.last())
    }
}

pub open spec fn selection_keys(files: Seq<SourceFile>) -> Seq<SortKey> {
    Seq::new(files.len(), |i: int| (files[i].birth_version as i128, files[i].superfile_id))
}

/// The files that a new drain moves: those not drained yet, by version and then
/// by id.
pub open spec fn selection(files: Seq<SourceFile>, drained: Seq<(u64, u64)>) -> Seq<SourceFile> {
    sorted_by(undrained(files, drained), selection_keys(undrained(files, drained)))
}

/// Starts a drain of the files that are not drained yet: its batches, and the
/// checkpoint that it begins with. `None` when there is nothing to drain.
pub fn start_drain(
    files: &Vec<SourceFile>,
    drained: &Vec<(u64, u64)>,
    options_hash: &String,
    shard_count: usize,
    budget: usize,
    consolidate: DrainConsolidate,
) -> (plan: Option<(Vec<DrainBatch>, DrainRemoteCheckpoint)>)
    ensures
        ({
            let chosen = selection(files@, drained@);
            let wanted = drain_batches(chosen, budget as int);
            match plan {
                None => undrained(files@, drained@).len() == 0,
                Some((batches, checkpoint)) => {
                    &&& undrained(files@, drained@).len() > 0
                    &&& are_batches(batches@, wanted)
                    &&& checkpoint.schema == DRAIN_CHECKPOINT_SCHEMA
                    &&& checkpoint.options_hash@ == options_hash@
                    &&& source_names(checkpoint.sources@) == names_of(chosen)
                    &&& layout_view(checkpoint.batch_layout@) == layout_of(wanted)
                    &&& checkpoint.shard_count == shard_count
                    &&& checkpoint.completed_shards.len() == 0
                    &&& checkpoint.epoch_id@ == epoch_id_of(
                        options_hash@,
                        names_of(chosen),
                        layout_of(wanted),
                        shard_count,
                        consolidate,
                    )
                },
            }
        }),
{
    let ghost chosen = selection(files@, drained@);
    let mut open: Vec<SourceFile> = Vec::new();
    let mut keys: Vec<SortKey> = Vec::new();
    let mut i: usize = 0;
    assert(files@.take(0) =~= Seq::<SourceFile>::empty());
    while i < files.len()
        invariant
            i <= files.len(),
            open@ == undrained(files@.take(i as int), drained@),
            keys@ == selection_keys(open@),
        decreases files.len() - i,
    {
        proof {
            assert(files@.take(i + 1).drop_last() =~= files@.take(i as int));
        }
        let file: SourceFile = files[i];
        if !version_is_drained(drained, file.birth_version) {
            open.push(file);
            keys.push((file.birth_version as i128, file.superfile_id));
            assert(keys@ =~= selection_keys(open@));
        }
        i = i + 1;
    }
    assert(files@.take(i as int) =~= files@);
    if open.len() == 0 {
        return None;
    }
    let order = stable_order(&keys);
    let mut selected: Vec<SourceFile> = Vec::new();
    let mut sources: Vec<DrainCheckpointSource> = Vec::new();
    let mut k: usize = 0;
    while k < order.len()
        invariant
            k <= order.len(),
            keys@ == selection_keys(open@),
            open@ == undrained(files@, drained@),
            chosen == selection(files@, drained@),
            crate::order::is_stable_order(keys@, order@),
            order@ == crate::order::the_order(keys@),
            selected@ == chosen.take(k as int),
            source_names(sources@) == names_of(chosen).take(k as int),
        decreases order.len() - k,
    {
        let file: SourceFile = open[order[k]];
        let ghost before = sources@;
        selected.push(file);
        sources.push(drain_checkpoint_source(&file));
        k = k + 1;
        assert(selected@ =~= chosen.take(k as int));
        assert(source_names(sources@) =~= source_names(before).push(name_of(file)));
        assert(names_of(chosen).take(k as int) =~= names_of(chosen).take(k - 1).push(name_of(file)));
    }
    assert(selected@ =~= chosen);
    assert(source_names(sources@) =~= names_of(chosen));
    let batches = make_drain_batches(&selected, budget);
    let layout = drain_batch_layout(&batches);
    proof {
        assert(layout_view(layout@) =~= layout_of(drain_batches(chosen, budget as int)));
    }
    let epoch_id = drain_epoch_id(options_hash.as_str(), &sources, &layout, shard_count, consolidate);
    Some(
        (
            batches,
            DrainRemoteCheckpoint {
                schema: DRAIN_CHECKPOINT_SCHEMA,
                epoch_id,
                options_hash: options_hash.clone(),
                sources,
                batch_layout: layout,
                shard_count,
                completed_shards: Vec::new(),
            },
        ),
    )
}

/// No two files have the same id.
pub open spec fn ids_distinct(files: Seq<SourceFile>) -> bool {
    forall|i: int, j: int|
        0 <= i < j < files.len() ==> (#[trigger] files[i]).superfile_id != (#[trigger] files[j]).superfile_id
}

proof fn undrained_files(files: Seq<SourceFile>, drained: Seq<(u64, u64)>)
    ensures
        undrained(files, drained).len() <= files.len(),
        forall|f: SourceFile| #[trigger]
            undrained(files, drained).contains(f) ==> files.contains(f) && !is_drained(
                drained,
                f.birth_version,
            ),
    decreases files.len(),
{
    if files.len() > 0 {
        undrained_files(files.drop_last(), drained);
        let before = undrained(files.drop_last(), drained);
        assert forall|f: SourceFile| #[trigger] undrained(files, drained).contains(f) implies files.contains(f)
            && !is_drained(drained, f.birth_version) by {
            if before.contains(f) {
                assert(files.drop_last().contains(f));
                let k = files.drop_last().index_of(f);
                assert(files[k] == f);
            } else {
                let k = undrained(files, drained).index_of(f);
                if k < before.len() {
                    assert(before[k] == f);
                }
                assert(f == files.last());
            }
        }
    }
}

proof fn none_drained(sources: Seq<DrainCheckpointSource>, drained: Seq<(u64, u64)>)
    requires
        forall|i: int|
            0 <= i < sources.len() ==> !is_drained(drained, (#[trigger] sources[i]).birth_version),
    ensures
        count_drained(sources, drained) == 0,
    decreases sources.len(),
{
    if sources.len() > 0 {
        assert(sources.last() == sources[sources.len() - 1]);
        none_drained(sources.drop_last(), drained);
    }
}

/// A drain that was started is taken up again with the same batches as long as
/// the table and the configuration stay: none of its sources counts as drained,
/// every one is found unchanged, and they fall into the batches that its
/// checkpoint was made with.
pub proof fn started_drain_resumes(
    files: Seq<SourceFile>,
    drained: Seq<(u64, u64)>,
    sources: Seq<DrainCheckpointSource>,
)
    requires
        files.len() <= usize::MAX,
        ids_distinct(files),
        source_names(sources) == names_of(selection(files, drained)),
    ensures
        count_drained(sources, drained) == 0,
        forall|i: int|
            0 <= i < sources.len() ==> source_stands(files, #[trigger] source_names(sources)[i]),
        files_of_sources(files, source_names(sources)) == selection(files, drained),
{
    let open = undrained(files, drained);
    let chosen = selection(files, drained);
    let names = source_names(sources);
    undrained_files(files, drained);
    crate::order::sorted_by_keeps_items(open, selection_keys(open));
    assert(names.len() == chosen.len());
    assert forall|i: int| 0 <= i < chosen.len() implies files.contains(#[trigger] chosen[i]) && !is_drained(
        drained,
        chosen[i].birth_version,
    ) && file_of_source(files, names[i]) == Some(chosen[i]) && names[i] == name_of(chosen[i]) by {
        let f = chosen[i];
        assert(chosen.contains(f));
        assert(open.contains(f));
        assert(names[i] == names_of(chosen)[i]);
        let k = files.index_of(f);
        assert forall|w: u128| names[i].superfile_id == #[trigger] uuid_text(w) implies w == f.superfile_id by {
            uuid_text_is_unique(w, f.superfile_id);
        }
        file_of_source_at(files, names[i], f.superfile_id, k);
    }
    assert forall|i: int| 0 <= i < sources.len() implies !is_drained(
        drained,
        (#[trigger] sources[i]).birth_version,
    ) by {
        assert(names[i] == name_of(chosen[i]));
        assert(names[i].birth_version == sources[i].birth_version);
        assert(files.contains(chosen[i]));
    }
    none_drained(sources, drained);
    assert forall|i: int| 0 <= i < sources.len() implies source_stands(files, #[trigger] names[i]) by {
        assert(files.contains(chosen[i]));
    }
    assert(files_of_sources(files, names) =~= chosen) by {
        assert forall|i: int| 0 <= i < chosen.len() implies files_of_sources(files, names)[i] == chosen[i] by {
            assert(files.contains(chosen[i]));
        }
    }
}

/// The number of files in a batch that the configuration allows: none when a
/// drain is switched off, no limit when it is negative.
pub fn drain_budget(batch_superfiles: i64) -> (budget: Option<usize>)
    ensures
        batch_superfiles == 0 ==> budget is None,
        batch_superfiles < 0 ==> budget == Some(usize::MAX),
        0 < batch_superfiles <= usize::MAX ==> budget is Some && budget->0 == batch_superfiles,
        batch_superfiles > usize::MAX ==> budget == Some(usize::MAX),
{
    if batch_superfiles == 0 {
        None
    } else if batch_superfiles < 0 || batch_superfiles as u64 > usize::MAX as u64 {
        Some(usize::MAX)
    } else {
        Some(batch_superfiles as usize)
    }
}

// ---------------------------------------------------------------------------
// What a plan is
// ---------------------------------------------------------------------------

/// Only files of drained versions are left out of a drain.
pub proof fn only_drained_files_are_left_out(files: Seq<SourceFile>, drained: Seq<(u64, u64)>)
    ensures
        undrained(files, drained) == files.filter(
            |f: SourceFile|
                !(exists|i: int|
                    0 <= i < drained.len() && (#[trigger] drained[i]).0 <= f.birth_version <= drained[i].1),
        ),
    decreases files.len(),
{
    reveal(Seq::filter);
    if files.len() > 0 {
        only_drained_files_are_left_out(files.drop_last(), drained);
    }
}

/// A drain takes every file that is left, once, the oldest version first and the
/// files of a version by their ids.
pub proof fn selection_is_the_oldest_first(files: Seq<SourceFile>, drained: Seq<(u64, u64)>)
    requires
        files.len() <= usize::MAX,
    ensures
        selection(files, drained).to_multiset() =~= undrained(files, drained).to_multiset(),
        forall|i: int, j: int|
            0 <= i < j < selection(files, drained).len() ==> {
                let a = #[trigger] selection(files, drained)[i];
                let b = #[trigger] selection(files, drained)[j];
                a.birth_version < b.birth_version || (a.birth_version == b.birth_version && a.superfile_id
                    <= b.superfile_id)
            },
{
    let left = undrained(files, drained);
    let keys = selection_keys(left);
    only_drained_files_are_left_out(files, drained);
    files.lemma_filter_len(
        |f: SourceFile|
            !(exists|i: int|
                0 <= i < drained.len() && (#[trigger] drained[i]).0 <= f.birth_version <= drained[i].1),
    );
    crate::order::sorted_by_keeps_items(left, keys);
    crate::order::stable_order_exists(keys);
    let order = crate::order::the_order(keys);
    let out = selection(files, drained);
    assert forall|i: int, j: int| 0 <= i < j < out.len() implies {
        let a = #[trigger] out[i];
        let b = #[trigger] out[j];
        a.birth_version < b.birth_version || (a.birth_version == b.birth_version && a.superfile_id
            <= b.superfile_id)
    } by {
        assert(crate::order::comes_before(keys, order[i] as int, order[j] as int));
        assert(out[i] == left[order[i] as int] && out[j] == left[order[j] as int]);
        assert(keys[order[i] as int] == (out[i].birth_version as i128, out[i].superfile_id));
        assert(keys[order[j] as int] == (out[j].birth_version as i128, out[j].superfile_id));
    }
}

/// Batches are cut from the sources by version, which stay in the order that they
/// had within one.
pub proof fn batches_go_by_version(sources: Seq<SourceFile>)
    requires
        sources.len() <= usize::MAX,
    ensures
        by_version(sources).to_multiset() =~= sources.to_multiset(),
        forall|i: int, j: int|
            0 <= i < j < by_version(sources).len() ==> (#[trigger] by_version(sources)[i]).birth_version <= (
            #[trigger] by_version(sources)[j]).birth_version,
{
    let keys = source_keys(sources);
    crate::order::sorted_by_keeps_items(sources, keys);
    crate::order::stable_order_exists(keys);
    let order = crate::order::the_order(keys);
    let out = by_version(sources);
    assert forall|i: int, j: int| 0 <= i < j < out.len() implies (#[trigger] out[i]).birth_version <= (
    #[trigger] out[j]).birth_version by {
        assert(crate::order::comes_before(keys, order[i] as int, order[j] as int));
        assert(keys[order[i] as int] == (out[i].birth_version as i128, 0u128));
        assert(keys[order[j] as int] == (out[j].birth_version as i128, 0u128));
    }
}

/// The sources of batches one after another.
pub proof fn batches_list_their_sources(batch: Seq<SourceFile>, rest: Seq<Seq<SourceFile>>)
    ensures
        joined_sources(Seq::<Seq<SourceFile>>::empty()).len() == 0,
        joined_sources(seq![batch] + rest) == batch + joined_sources(rest),
{
    assert((seq![batch] + rest).drop_first() =~= rest);
    assert((seq![batch] + rest).first() == batch);
}

proof fn batch_end_is_full(s: Seq<SourceFile>, start: int, end: int, budget: int)
    requires
        0 <= start <= end <= s.len(),
    ensures
        ({
            let e = batch_end(s, start, end, budget);
            e < s.len() ==> run_end(s, s[e].birth_version, e) - start > budget
        }),
    decreases s.len() - end,
{
    if end < s.len() {
        run_end_bounds(s, s[end].birth_version, end);
        let next = run_end(s, s[end].birth_version, end);
        if next - start <= budget && next > end {
            batch_end_is_full(s, start, next, budget);
        }
    }
}

/// No batch is empty. One that holds more than the budget is of a single version.
/// A version is never split over two batches, and the versions ascend. A batch is
/// closed only when the next version as a whole would take it over the budget:
/// the next batch starts with `run` sources of that version.
pub proof fn batches_are_as_full_as_they_may_be(
    sources: Seq<SourceFile>,
    budget: int,
    i: int,
    run: int,
)
    requires
        sources.len() <= usize::MAX,
        0 <= i < drain_batches(sources, budget).len(),
    ensures
        ({
            let batches = drain_batches(sources, budget);
            let batch = batches[i];
            &&& batch.len() > 0
            &&& batch.len() <= budget || forall|k: int|
                0 <= k < batch.len() ==> (#[trigger] batch[k]).birth_version == batch[0].birth_version
            &&& i + 1 < batches.len() ==> batches[i + 1].len() > 0 && batch.last().birth_version
                < batches[i + 1][0].birth_version
            &&& i + 1 < batches.len() && 0 < run <= batches[i + 1].len() && (forall|k: int|
                0 <= k < run ==> (#[trigger] batches[i + 1][k]).birth_version
                    == batches[i + 1][0].birth_version) && (run == batches[i + 1].len() || batches[i
                + 1][run].birth_version != batches[i + 1][0].birth_version) ==> batch.len() + run > budget
        }),
{
    batches_go_by_version(sources);
    batches_from_are_full(by_version(sources), 0, budget, i, run);
}

proof fn batches_from_are_full(s: Seq<SourceFile>, start: int, budget: int, i: int, run: int)
    requires
        0 <= start <= s.len(),
        forall|a: int, b: int|
            0 <= a < b < s.len() ==> (#[trigger] s[a]).birth_version <= (#[trigger] s[b]).birth_version,
        0 <= i < batches_from(s, start, budget).len(),
    ensures
        ({
            let batches = batches_from(s, start, budget);
            let batch = batches[i];
            &&& batch.len() > 0
            &&& batch.len() <= budget || forall|k: int|
                0 <= k < batch.len() ==> (#[trigger] batch[k]).birth_version == batch[0].birth_version
            &&& i + 1 < batches.len() ==> batches[i + 1].len() > 0 && batch.last().birth_version
                < batches[i + 1][0].birth_version
            &&& i + 1 < batches.len() && 0 < run <= batches[i + 1].len() && (forall|k: int|
                0 <= k < run ==> (#[trigger] batches[i + 1][k]).birth_version
                    == batches[i + 1][0].birth_version) && (run == batches[i + 1].len() || batches[i
                + 1][run].birth_version != batches[i + 1][0].birth_version) ==> batch.len() + run > budget
        }),
    decreases i,
{
    let batches = batches_from(s, start, budget);
    let e = first_batch_end(s, start, budget);
    let rest = batches_from(s, e, budget);
    assert(batches =~= seq![s.subrange(start, e)] + rest);
    if i > 0 {
        batches_from_are_full(s, e, budget, i - 1, run);
        assert(batches[i] == rest[i - 1]);
        if i + 1 < batches.len() {
            assert(batches[i + 1] == rest[i]);
        }
    } else {
        batch_keeps_versions_whole(s, start, budget);
        let batch = s.subrange(start, e);
        assert(batches[0] == batch);
        if batch.len() > budget {
            assert forall|k: int| 0 <= k < batch.len() implies (#[trigger] batch[k]).birth_version
                == batch[0].birth_version by {
                assert(batch[k] == s[start + k]);
            }
        }
        if rest.len() > 0 {
            first_batch_bounds(s, e, budget);
            let f = first_batch_end(s, e, budget);
            assert(batches[1] == rest[0]);
            assert(rest[0] == s.subrange(e, f));
            assert(rest[0][0] == s[e]);
            assert(batch.last() == s[e - 1]);
            assert(s[e - 1].birth_version <= s[e].birth_version);
            let v = s[e].birth_version;
            run_end_bounds(s, s[start].birth_version, start);
            batch_end_is_full(s, start, run_end(s, s[start].birth_version, start), budget);
            run_end_bounds(s, v, e);
            run_is_one_version(s, v, e);
            let r = run_end(s, v, e);
            assert(r - start > budget);
            batch_keeps_versions_whole(s, e, budget);
            batch_end_bounds(s, e, r, budget);
            assert(f >= r);
            if 0 < run <= rest[0].len() && (forall|k: int|
                0 <= k < run ==> (#[trigger] batches[1][k]).birth_version == batches[1][0].birth_version) && (run
                == batches[1].len() || batches[1][run].birth_version != batches[1][0].birth_version) {
                if e + run < r {
                    assert(run < rest[0].len());
                    assert(batches[1][run] == s[e + run]);
                    assert(s[e + run].birth_version == v);
                }
            }
        }
    }
}

/// The versions of a batch are those of its sources, each once, the oldest first.
pub proof fn batch_versions_are_those_of_its_sources(batch: Seq<SourceFile>, version: u64)
    requires
        forall|a: int, b: int|
            0 <= a < b < batch.len() ==> (#[trigger] batch[a]).birth_version <= (#[trigger] batch[b]).birth_version,
    ensures
        versions_of(batch).contains(version) <==> exists|k: int|
            0 <= k < batch.len() && (#[trigger] batch[k]).birth_version == version,
        forall|i: int, j: int|
            0 <= i < j < versions_of(batch).len() ==> (#[trigger] versions_of(batch)[i]) < (
            #[trigger] versions_of(batch)[j]),
        batch.len() > 0 ==> versions_of(batch).len() > 0 && versions_of(batch).last()
            == batch.last().birth_version,
    decreases batch.len(),
{
    if batch.len() > 0 {
        let less = batch.drop_last();
        let before = versions_of(less);
        let after = versions_of(batch);
        let n = batch.len() - 1;
        assert forall|a: int, b: int| 0 <= a < b < less.len() implies (#[trigger] less[a]).birth_version <= (
        #[trigger] less[b]).birth_version by {
            assert(less[a] == batch[a] && less[b] == batch[b]);
        }
        batch_versions_are_those_of_its_sources(less, version);
        assert(after[after.len() - 1] == batch[n].birth_version);
        if less.len() > 0 {
            assert(batch[n - 1].birth_version <= batch[n].birth_version);
            assert(less.last() == batch[n - 1]);
        }
        if exists|k: int| 0 <= k < batch.len() && (#[trigger] batch[k]).birth_version == version {
            let k = choose|k: int| 0 <= k < batch.len() && (#[trigger] batch[k]).birth_version == version;
            if k < n {
                assert(less[k] == batch[k]);
                assert(before.contains(version));
                let p = choose|p: int| 0 <= p < before.len() && before[p] == version;
                assert(after[p] == version);
            }
        }
        if after.contains(version) {
            let p = choose|p: int| 0 <= p < after.len() && after[p] == version;
            if p < before.len() {
                assert(before[p] == version);
                assert(before.contains(version));
                let k = choose|k: int| 0 <= k < less.len() && (#[trigger] less[k]).birth_version == version;
                assert(batch[k] == less[k]);
            } else {
                assert(batch[n].birth_version == version);
            }
        }
    }
}

/// A drain's id is the hash of the schema, the shards, the options, the way of
/// consolidation, and then each source and each batch in order.
pub proof fn epoch_is_made_of_its_parts(
    options_hash: Seq<char>,
    sources: Seq<SourceName>,
    source: SourceName,
    layout: Seq<Seq<u64>>,
    versions: Seq<u64>,
    version: u64,
    shard_count: usize,
)
    ensures
        epoch_bytes(options_hash, Seq::empty(), Seq::empty(), shard_count, DrainConsolidate::Kmeans) =~= le4_bytes(
            1,
        ) + le8_bytes(shard_count as int) + encode_utf8(options_hash) + seq![107u8, 109, 101, 97, 110, 115],
        epoch_bytes(options_hash, Seq::empty(), Seq::empty(), shard_count, DrainConsolidate::Splice) =~= le4_bytes(
            1,
        ) + le8_bytes(shard_count as int) + encode_utf8(options_hash) + seq![115u8, 112, 108, 105, 99, 101],
        forall|mode: DrainConsolidate|
            epoch_bytes(options_hash, sources.push(source), Seq::empty(), shard_count, mode)
                =~= #[trigger] epoch_bytes(options_hash, sources, Seq::empty(), shard_count, mode) + encode_utf8(
                source.superfile_id,
            ) + encode_utf8(source.uri) + le8_bytes(source.birth_version as int),
        forall|mode: DrainConsolidate|
            epoch_bytes(options_hash, sources, layout.push(Seq::empty()), shard_count, mode)
                =~= #[trigger] epoch_bytes(options_hash, sources, layout, shard_count, mode) + le8_bytes(0),
        version_bytes(versions.push(version)) =~= version_bytes(versions) + le8_bytes(version as int),
        layout_bytes(layout.push(versions)) =~= layout_bytes(layout) + le8_bytes(versions.len() as int)
            + version_bytes(versions),
        forall|mode: DrainConsolidate| #[trigger]
            epoch_id_of(options_hash, sources, layout, shard_count, mode) == hex_of(
                blake3_digest(epoch_bytes(options_hash, sources, layout, shard_count, mode)),
            ),
{
    assert(sources.push(source).drop_last() =~= sources);
    assert(layout.push(versions).drop_last() =~= layout);
    assert(layout.push(Seq::empty()).drop_last() =~= layout);
    assert(layout.push(Seq::empty()).last() =~= Seq::<u64>::empty());
    assert(versions.push(version).drop_last() =~= versions);
}

/// Of a checkpoint's sources so many are drained as have a drained version.
pub proof fn drained_sources_are_counted(sources: Seq<DrainCheckpointSource>, drained: Seq<(u64, u64)>)
    ensures
        count_drained(sources, drained) == sources.filter(
            |s: DrainCheckpointSource|
                exists|i: int|
                    0 <= i < drained.len() && (#[trigger] drained[i]).0 <= s.birth_version <= drained[i].1,
        ).len(),
    decreases sources.len(),
{
    reveal(Seq::filter);
    if sources.len() > 0 {
        drained_sources_are_counted(sources.drop_last(), drained);
    }
}

/// The file of a source has the id that the source names, and no file behind it
/// has; a source without a file names no file's id. A source stands when that file
/// also has its path and its version.
pub proof fn source_file_has_the_id(files: Seq<SourceFile>, name: SourceName)
    ensures
        match file_of_source(files, name) {
            Some(f) => exists|i: int|
                {
                    &&& 0 <= i < files.len()
                    &&& #[trigger] files[i] == f
                    &&& uuid_text(f.superfile_id) == name.superfile_id
                    &&& forall|k: int|
                        i < k < files.len() ==> uuid_text((#[trigger] files[k]).superfile_id) != name.superfile_id
                },
            None => forall|k: int|
                0 <= k < files.len() ==> uuid_text((#[trigger] files[k]).superfile_id) != name.superfile_id,
        },
        source_stands(files, name) <==> file_of_source(files, name) is Some && uuid_text(
            file_of_source(files, name)->0.uri,
        ) == name.uri && file_of_source(files, name)->0.birth_version == name.birth_version,
    decreases files.len(),
{
    if files.len() > 0 {
        let less = files.drop_last();
        let n = files.len() - 1;
        source_file_has_the_id(less, name);
        if uuid_text(files[n].superfile_id) == name.superfile_id {
            assert(files[n] == files.last());
        } else if let Some(f) = file_of_source(less, name) {
            let i = choose|i: int|
                {
                    &&& 0 <= i < less.len()
                    &&& #[trigger] less[i] == f
                    &&& uuid_text(f.superfile_id) == name.superfile_id
                    &&& forall|k: int|
                        i < k < less.len() ==> uuid_text((#[trigger] less[k]).superfile_id) != name.superfile_id
                };
            assert(files[i] == f);
            assert forall|k: int| i < k < files.len() implies uuid_text((#[trigger] files[k]).superfile_id)
                != name.superfile_id by {
                if k < n {
                    assert(less[k] == files[k]);
                }
            }
        } else {
            assert forall|k: int| 0 <= k < files.len() implies uuid_text((#[trigger] files[k]).superfile_id)
                != name.superfile_id by {
                if k < n {
                    assert(less[k] == files[k]);
                }
            }
        }
    }
}

} // verus!
