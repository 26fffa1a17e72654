//! Running a drain: what it has built and uploaded so far, what a restart
//! takes over, and what the last commit publishes.
use vstd::prelude::*;

use crate::arith::capped;
use crate::cell_map::{has_key, lists, place_of, CellMap};
use crate::cells::{
    closest_first, group_cells_by_packed_shard, is_shard_grouping, packed_cell_shard, shard_of,
    sort_candidates, ReplicaCandidate, STABLE_ID_BYTES,
};
use crate::drain::{
    are_batches, batches_hold_every_source, by_version, drain_batches, id_of_text, is_drained,
    joined_sources, selection, selection_keys, undrained, versions_of, DrainBatch, DrainConsolidate,
    DrainRemoteCheckpoint, DrainRemoteShard, SourceFile, DRAIN_CHECKPOINT_SCHEMA,
};
use crate::hashing::{uuid_text, uuid_to_text};

verus! {

// ---------------------------------------------------------------------------
// What is kept on the machine
// ---------------------------------------------------------------------------

/// The rows of a cell on local disk, as far as they are written.
#[derive(Clone, Copy, PartialEq, Eq, Structural, Debug)]
pub struct DrainLocalSpill {
    pub n_rows: u32,
    pub n_quants: u32,
    pub dim: usize,
    pub rabitq_len: usize,
    pub rerank_codec_id: u8,
}

/// A finished cell on local disk.
#[derive(Clone, Copy, PartialEq, Eq, Structural, Debug)]
pub struct DrainLocalCell {
    pub n_docs: u32,
    pub subsection_len: u64,
    pub rerank_codec_id: u8,
}

/// What a drain leaves on the machine's disk for a restart there.
#[derive(Debug)]
pub struct DrainLocalCheckpoint {
    pub schema: u32,
    pub epoch_id: String,
    pub batches_done: usize,
    pub spills: CellMap<DrainLocalSpill>,
    pub built_cells: CellMap<DrainLocalCell>,
    pub added_per_cell: CellMap<u32>,
}

impl DrainLocalCheckpoint {
    /// The checkpoint of an epoch of which nothing is done.
    pub fn new(epoch_id: String) -> (c: DrainLocalCheckpoint)
        ensures
            c.schema == DRAIN_CHECKPOINT_SCHEMA,
            c.epoch_id == epoch_id,
            c.batches_done == 0,
            c.spills@ == Map::<u32, DrainLocalSpill>::empty(),
            c.built_cells@ == Map::<u32, DrainLocalCell>::empty(),
            c.added_per_cell@ == Map::<u32, u32>::empty(),
    {
        DrainLocalCheckpoint {
            schema: DRAIN_CHECKPOINT_SCHEMA,
            epoch_id,
            batches_done: 0,
            spills: CellMap::new(),
            built_cells: CellMap::new(),
            added_per_cell: CellMap::new(),
        }
    }
}

/// A local checkpoint that belongs to something else.
#[derive(Debug)]
pub struct IncompatibleCheckpoint {
    pub schema: u32,
    pub epoch_id: String,
}

/// Accepts the checkpoint that was found on disk for an epoch, if one was.
pub fn load_drain_local_checkpoint(found: Option<DrainLocalCheckpoint>, epoch_id: &String) -> (result: Result<
    Option<DrainLocalCheckpoint>,
    IncompatibleCheckpoint,
>)
    ensures
        match found {
            None => result == Ok::<Option<DrainLocalCheckpoint>, IncompatibleCheckpoint>(None),
            Some(c) => if c.schema == DRAIN_CHECKPOINT_SCHEMA && c.epoch_id@ == epoch_id@ {
                result == Ok::<Option<DrainLocalCheckpoint>, IncompatibleCheckpoint>(Some(c))
            } else {
                result matches Err(e) && e.schema == c.schema && e.epoch_id == c.epoch_id
            },
        },
{
    match found {
        None => Ok(None),
        Some(c) => {
            if c.schema != DRAIN_CHECKPOINT_SCHEMA || c.epoch_id != *epoch_id {
                Err(IncompatibleCheckpoint { schema: c.schema, epoch_id: c.epoch_id })
            } else {
                Ok(Some(c))
            }
        },
    }
}

// ---------------------------------------------------------------------------
// The state of a drain
// ---------------------------------------------------------------------------

/// A superfile that a drain has uploaded.
#[derive(Clone, Copy, PartialEq, Eq, Structural, Debug)]
pub struct PendingEntry {
    pub superfile_id: u128,
    pub partition_hint: Option<u32>,
}

/// A cell whose index is on local disk.
#[derive(Clone, Copy, PartialEq, Eq, Structural, Debug)]
pub struct PackedCell {
    pub cell_id: u32,
    pub n_docs: u32,
    pub subsection_len: u64,
    pub rerank_codec_id: u8,
}

/// Why a drain cannot go on.
#[allow(inconsistent_fields)]
#[derive(Debug)]
pub enum RunFault {
    BatchesDone { done: usize, batches: usize },
    RepeatedShard { shard: u32 },
    MissingEntry { shard: u32 },
    WrongHint { shard: u32, hint: Option<u32> },
    CellCount { cell: u32, count: u32, existing: u32 },
    UnknownCodec { cell: u32, codec_id: u8 },
    SubsectionMetadata { cell: u32, detail: String },
    SubsectionLength { cell: u32, expected: u64, found: u64 },
    IdsMetadata { cell: u32, detail: String },
    IdsLength { cell: u32, expected: u64, found: u64 },
    SpillsInSplice,
    NoSources,
    TooManyShards { made: usize, shards: usize },
    NoHint { superfile_id: u128 },
    NoCellCounts { shard: u32 },
    ShardTotal { completed: usize, expected: usize },
}

/// A drain under way.
#[derive(Debug)]
pub struct DrainRun {
    pub shard_count: usize,
    pub n_batches: usize,
    pub local: DrainLocalCheckpoint,
    /// The shards on storage, each with its superfile.
    pub completed: CellMap<u128>,
    /// The rows that the drain puts in each cell.
    pub added: CellMap<u32>,
    /// The superfiles that the drain publishes, as they came.
    pub new_entries: Vec<u128>,
    /// The finished cells of the shards that are not on storage yet.
    pub packed: Vec<PackedCell>,
}

/// A cell of the list has this id.
pub open spec fn has_cell(packed: Seq<PackedCell>, cell: u32) -> bool {
    exists|i: int| 0 <= i < packed.len() && (#[trigger] packed[i]).cell_id == cell
}

impl DrainRun {
    /// The cell's shard is on storage.
    pub open spec fn is_done(self, cell: u32) -> bool {
        self.completed@.contains_key(shard_of(cell, self.shard_count as int) as u32)
    }

    pub open spec fn well_formed(self) -> bool {
        &&& 0 < self.shard_count <= u32::MAX
        &&& self.local.batches_done <= self.n_batches
        &&& forall|i: int, j: int|
            0 <= i < j < self.packed.len() ==> (#[trigger] self.packed@[i]).cell_id != (
            #[trigger] self.packed@[j]).cell_id
    }

    fn cell_is_done(&self, cell: u32) -> (done: bool)
        requires
            self.shard_count > 0,
        ensures
            done == self.is_done(cell),
    {
        self.completed.get(packed_cell_shard(cell, self.shard_count) as u32).is_some()
    }

    /// Starts from what the machine has.
    pub fn begin(local: DrainLocalCheckpoint, n_batches: usize, shard_count: usize) -> (result: Result<
        DrainRun,
        RunFault,
    >)
        requires
            0 < shard_count <= u32::MAX,
        ensures
            match result {
                Ok(run) => {
                    &&& local.batches_done <= n_batches
                    &&& run.well_formed()
                    &&& run.shard_count == shard_count
                    &&& run.n_batches == n_batches
                    &&& run.local == local
                    &&& run.completed@ == Map::<u32, u128>::empty()
                    &&& run.added@ == local.added_per_cell@
                    &&& run.new_entries.len() == 0
                    &&& run.packed.len() == 0
                },
                Err(e) => local.batches_done > n_batches && e == (RunFault::BatchesDone {
                    done: local.batches_done,
                    batches: n_batches,
                }),
            },
    {
        if local.batches_done > n_batches {
            return Err(RunFault::BatchesDone { done: local.batches_done, batches: n_batches });
        }
        let added = local.added_per_cell.duplicate();
        Ok(
            DrainRun {
                shard_count,
                n_batches,
                local,
                completed: CellMap::new(),
                added,
                new_entries: Vec::new(),
                packed: Vec::new(),
            },
        )
    }
}

// ---------------------------------------------------------------------------
// Shards that are on storage already
// ---------------------------------------------------------------------------

/// The entry that a text names: the last one with that id.
pub open spec fn entry_named(entries: Seq<PendingEntry>, text: Seq<char>) -> Option<int>
    decreases entries.len(),
{
    if entries.len() == 0 {
        None
    } else if uuid_text(entries.last().superfile_id) == text {
        Some(entries.len() - 1)
    } else {
        entry_named(entries.drop_last(), text)
    }
}

fn find_entry(entries: &Vec<PendingEntry>, text: &String) -> (at: Option<usize>)
    ensures
        match at {
            Some(i) => i < entries.len() && entry_named(entries@, text@) == Some(i as int),
            None => entry_named(entries@, text@) is None,
        },
{
    let id = id_of_text(text);
    let mut n: usize = entries.len();
    assert(entries@.take(n as int) =~= entries@);
    while n > 0
        invariant
            n <= entries.len(),
            entry_named(entries@, text@) == entry_named(entries@.take(n as int), text@),
            match id {
                Some(v) => text@ == uuid_text(v) && forall|w: u128|
                    text@ == #[trigger] uuid_text(w) ==> w == v,
                None => forall|w: u128| text@ != #[trigger] uuid_text(w),
            },
        decreases n,
    {
        proof {
            assert(entries@.take(n as int).drop_last() =~= entries@.take(n - 1));
            assert(entries@.take(n as int).last() == entries@[n - 1]);
        }
        let named: bool = match id {
            Some(v) => entries[n - 1].superfile_id == v,
            None => false,
        };
        assert(named == (uuid_text(entries@[n - 1].superfile_id) == text@));
        if named {
            return Some(n - 1);
        }
        n = n - 1;
    }
    None
}

/// The counts put into the map one after another.
pub open spec fn with_counts(m: Map<u32, u32>, counts: Seq<(u32, u32)>) -> Map<u32, u32>
    decreases counts.len(),
{
    if counts.len() == 0 {
        m
    } else {
        with_counts(m, counts.drop_last()).insert(counts.last().0, counts.last().1)
    }
}

/// The count at `i` differs from what is there when its turn comes.
pub open spec fn count_clashes(m: Map<u32, u32>, counts: Seq<(u32, u32)>, i: int) -> bool {
    let before = with_counts(m, counts.take(i));
    before.contains_key(counts[i].0) && before[counts[i].0] != counts[i].1
}

impl DrainRun {
    /// Finds the entry of a shard that a checkpoint calls uploaded.
    pub fn resolve_shard(&self, shard: &DrainRemoteShard, entries: &Vec<PendingEntry>) -> (result: Result<
        usize,
        RunFault,
    >)
        ensures
            ({
                let at = entry_named(entries@, shard.superfile_id@);
                if self.completed@.contains_key(shard.shard_id) {
                    result == Err::<usize, RunFault>(RunFault::RepeatedShard { shard: shard.shard_id })
                } else if at is None {
                    result == Err::<usize, RunFault>(RunFault::MissingEntry { shard: shard.shard_id })
                } else if entries@[at->0].partition_hint != Some(shard.shard_id) {
                    result == Err::<usize, RunFault>(
                        RunFault::WrongHint {
                            shard: shard.shard_id,
                            hint: entries@[at->0].partition_hint,
                        },
                    )
                } else {
                    result is Ok && result->Ok_0 == at->0 && result->Ok_0 < entries.len()
                }
            }),
    {
        if self.completed.get(shard.shard_id).is_some() {
            return Err(RunFault::RepeatedShard { shard: shard.shard_id });
        }
        let at: usize = match find_entry(entries, &shard.superfile_id) {
            Some(at) => at,
            None => {
                return Err(RunFault::MissingEntry { shard: shard.shard_id });
            },
        };
        let hint = entries[at].partition_hint;
        let fits: bool = match hint {
            Some(h) => h == shard.shard_id,
            None => false,
        };
        if !fits {
            return Err(RunFault::WrongHint { shard: shard.shard_id, hint });
        }
        Ok(at)
    }

    /// Takes over a shard whose object is on storage. Its counts must agree
    /// with those that are known.
    pub fn adopt_shard(&mut self, shard: &DrainRemoteShard, superfile_id: u128) -> (result: Result<(), RunFault>)
        requires
            old(self).well_formed(),
        ensures
            final(self).well_formed(),
            final(self).shard_count == old(self).shard_count,
            final(self).n_batches == old(self).n_batches,
            final(self).local == old(self).local,
            final(self).packed == old(self).packed,
            match result {
                Ok(_) => {
                    &&& forall|i: int|
                        0 <= i < shard.cell_counts.len() ==> !#[trigger] count_clashes(
                            old(self).added@,
                            shard.cell_counts@,
                            i,
                        )
                    &&& final(self).added@ == with_counts(old(self).added@, shard.cell_counts@)
                    &&& final(self).completed@ == old(self).completed@.insert(shard.shard_id, superfile_id)
                    &&& final(self).new_entries@ == old(self).new_entries@.push(superfile_id)
                },
                Err(e) => {
                    &&& final(self).completed@ == old(self).completed@
                    &&& final(self).new_entries@ == old(self).new_entries@
                    &&& exists|i: int|
                        {
                            &&& 0 <= i < shard.cell_counts.len()
                            &&& #[trigger] count_clashes(old(self).added@, shard.cell_counts@, i)
                            &&& forall|k: int|
                                0 <= k < i ==> !#[trigger] count_clashes(
                                    old(self).added@,
                                    shard.cell_counts@,
                                    k,
                                )
                            &&& e == (RunFault::CellCount {
                                cell: shard.cell_counts@[i].0,
                                count: shard.cell_counts@[i].1,
                                existing: with_counts(old(self).added@, shard.cell_counts@.take(i))[
                                    shard.cell_counts@[i].0],
                            })
                        }
                },
            },
    {
        let ghost before = self.added@;
        let ghost was = *self;
        let mut i: usize = 0;
        assert(shard.cell_counts@.take(0) =~= Seq::<(u32, u32)>::empty());
        while i < shard.cell_counts.len()
            invariant
                i <= shard.cell_counts.len(),
                self.well_formed(),
                self.shard_count == was.shard_count,
                self.n_batches == was.n_batches,
                self.local == was.local,
                self.packed == was.packed,
                self.completed == was.completed,
                self.new_entries == was.new_entries,
                was == *old(self),
                before == was.added@,
                self.added@ == with_counts(before, shard.cell_counts@.take(i as int)),
                forall|k: int| 0 <= k < i ==> !#[trigger] count_clashes(before, shard.cell_counts@, k),
            decreases shard.cell_counts.len() - i,
        {
            let cell: u32 = shard.cell_counts[i].0;
            let count: u32 = shard.cell_counts[i].1;
            let clash: Option<u32> = match self.added.get(cell) {
                Some(existing) => if *existing != count {
                    Some(*existing)
                } else {
                    None
                },
                None => None,
            };
            if let Some(existing) = clash {
                assert(count_clashes(before, shard.cell_counts@, i as int));
                return Err(RunFault::CellCount { cell, count, existing });
            }
            assert(!count_clashes(before, shard.cell_counts@, i as int));
            proof {
                assert(shard.cell_counts@.take(i + 1).drop_last() =~= shard.cell_counts@.take(i as int));
            }
            self.added.insert(cell, count);
            i = i + 1;
        }
        assert(shard.cell_counts@.take(i as int) =~= shard.cell_counts@);
        self.completed.insert(shard.shard_id, superfile_id);
        self.new_entries.push(superfile_id);
        Ok(())
    }

    /// Nothing was taken over, so what the drain samples is the whole stream.
    pub fn is_clean(&self) -> (clean: bool)
        ensures
            clean == (self.local.batches_done == 0 && self.completed@ == Map::<u32, u128>::empty()
                && self.local.spills@ == Map::<u32, DrainLocalSpill>::empty()),
    {
        let shards = self.completed.pairs();
        let spills = self.local.spills.pairs();
        proof {
            empty_list(shards@, self.completed@);
            empty_list(spills@, self.local.spills@);
        }
        self.local.batches_done == 0 && shards.len() == 0 && spills.len() == 0
    }
}

proof fn empty_list<V>(s: Seq<(u32, V)>, m: Map<u32, V>)
    requires
        lists(s, m),
    ensures
        s.len() == 0 <==> m == Map::<u32, V>::empty(),
{
    if s.len() == 0 {
        assert forall|cell: u32| !m.contains_key(cell) by {
            if m.contains_key(cell) {
                assert(has_key(s, cell));
            }
        }
        assert(m =~= Map::<u32, V>::empty());
    } else {
        assert(m.contains_key(s[0].0));
    }
}

// ---------------------------------------------------------------------------
// Cells that are on local disk already
// ---------------------------------------------------------------------------

/// The pairs of a list whose cells belong to shards that are not on storage.
pub open spec fn unfinished<V>(run: DrainRun, s: Seq<(u32, V)>) -> Seq<(u32, V)>
    decreases s.len(),
{
    if s.len() == 0 {
        Seq::empty()
    } else if run.is_done(s.last().0) {
        unfinished(run, s.drop_last())
    } else {
        unfinished(run, s.drop_last()).push(s.last())
    }
}

/// The codec is one that the index can read.
pub open spec fn codec_known(codecs: Seq<u8>, codec_id: u8) -> bool {
    codecs.contains(codec_id)
}

fn knows_codec(codecs: &Vec<u8>, codec_id: u8) -> (known: bool)
    ensures
        known == codec_known(codecs@, codec_id),
{
    let mut i: usize = 0;
    while i < codecs.len()
        invariant
            i <= codecs.len(),
            forall|k: int| 0 <= k < i ==> codecs@[k] != codec_id,
        decreases codecs.len() - i,
    {
        if codecs[i] == codec_id {
            assert(codecs@[i as int] == codec_id);
            return true;
        }
        i = i + 1;
    }
    false
}

/// Holds a finished cell's files to what the checkpoint says of them.
pub fn restore_spilled_packed_cell(
    cell_id: u32,
    state: &DrainLocalCell,
    codecs: &Vec<u8>,
    subsection_size: Result<u64, String>,
    ids_size: Result<u64, String>,
) -> (result: Result<PackedCell, RunFault>)
    ensures
        ({
            let ids_expected = state.n_docs * STABLE_ID_BYTES;
            if !codec_known(codecs@, state.rerank_codec_id) {
                result == Err::<PackedCell, RunFault>(
                    RunFault::UnknownCodec { cell: cell_id, codec_id: state.rerank_codec_id },
                )
            } else if let Err(detail) = subsection_size {
                result == Err::<PackedCell, RunFault>(
                    RunFault::SubsectionMetadata { cell: cell_id, detail },
                )
            } else if subsection_size->Ok_0 != state.subsection_len {
                result == Err::<PackedCell, RunFault>(
                    RunFault::SubsectionLength {
                        cell: cell_id,
                        expected: state.subsection_len,
                        found: subsection_size->Ok_0,
                    },
                )
            } else if let Err(detail) = ids_size {
                result == Err::<PackedCell, RunFault>(RunFault::IdsMetadata { cell: cell_id, detail })
            } else if ids_size->Ok_0 != ids_expected {
                result == Err::<PackedCell, RunFault>(
                    RunFault::IdsLength {
                        cell: cell_id,
                        expected: ids_expected as u64,
                        found: ids_size->Ok_0,
                    },
                )
            } else {
                result == Ok::<PackedCell, RunFault>(
                    PackedCell {
                        cell_id,
                        n_docs: state.n_docs,
                        subsection_len: state.subsection_len,
                        rerank_codec_id: state.rerank_codec_id,
                    },
                )
            }
        }),
{
    if !knows_codec(codecs, state.rerank_codec_id) {
        return Err(RunFault::UnknownCodec { cell: cell_id, codec_id: state.rerank_codec_id });
    }
    let subsection_found: u64 = match subsection_size {
        Ok(n) => n,
        Err(detail) => {
            return Err(RunFault::SubsectionMetadata { cell: cell_id, detail });
        },
    };
    if subsection_found != state.subsection_len {
        return Err(
            RunFault::SubsectionLength {
                cell: cell_id,
                expected: state.subsection_len,
                found: subsection_found,
            },
        );
    }
    let ids_found: u64 = match ids_size {
        Ok(n) => n,
        Err(detail) => {
            return Err(RunFault::IdsMetadata { cell: cell_id, detail });
        },
    };
    let ids_expected: u64 = state.n_docs as u64 * STABLE_ID_BYTES as u64;
    if ids_found != ids_expected {
        return Err(RunFault::IdsLength { cell: cell_id, expected: ids_expected, found: ids_found });
    }
    Ok(
        PackedCell {
            cell_id,
            n_docs: state.n_docs,
            subsection_len: state.subsection_len,
            rerank_codec_id: state.rerank_codec_id,
        },
    )
}

impl DrainRun {
    /// The row spills that a restart goes on with: those of the shards that are
    /// not on storage. Each must have a codec that the index can read.
    pub fn spills_to_resume(&self, codecs: &Vec<u8>) -> (result: Result<
        Vec<(u32, DrainLocalSpill)>,
        RunFault,
    >)
        requires
            self.shard_count > 0,
        ensures
            exists|s: Seq<(u32, DrainLocalSpill)>| #[trigger]
                lists(s, self.local.spills@) && {
                    let wanted = unfinished(*self, s);
                    match result {
                        Ok(out) => out@ == wanted && forall|i: int|
                            0 <= i < wanted.len() ==> codec_known(
                                codecs@,
                                (#[trigger] wanted[i]).1.rerank_codec_id,
                            ),
                        Err(e) => exists|i: int|
                            {
                                &&& 0 <= i < wanted.len()
                                &&& !codec_known(codecs@, (#[trigger] wanted[i]).1.rerank_codec_id)
                                &&& forall|k: int|
                                    0 <= k < i ==> codec_known(
                                        codecs@,
                                        (#[trigger] wanted[k]).1.rerank_codec_id,
                                    )
                                &&& e == (RunFault::UnknownCodec {
                                    cell: wanted[i].0,
                                    codec_id: wanted[i].1.rerank_codec_id,
                                })
                            },
                    }
                },
    {
        let s = self.local.spills.pairs();
        let mut out: Vec<(u32, DrainLocalSpill)> = Vec::new();
        let mut i: usize = 0;
        assert(s@.take(0) =~= Seq::<(u32, DrainLocalSpill)>::empty());
        while i < s.len()
            invariant
                i <= s.len(),
                self.shard_count > 0,
                lists(s@, self.local.spills@),
                out@ == unfinished(*self, s@.take(i as int)),
                forall|k: int|
                    0 <= k < out.len() ==> codec_known(codecs@, (#[trigger] out@[k]).1.rerank_codec_id),
            decreases s.len() - i,
        {
            proof {
                assert(s@.take(i + 1).drop_last() =~= s@.take(i as int));
            }
            let cell: u32 = s[i].0;
            let spill: DrainLocalSpill = s[i].1;
            if !self.cell_is_done(cell) {
                if !knows_codec(codecs, spill.rerank_codec_id) {
                    proof {
                        let wanted = unfinished(*self, s@);
                        unfinished_prefix(*self, s@, i + 1);
                        let so_far = unfinished(*self, s@.take(i + 1));
                        assert(so_far == out@.push((cell, spill)));
                        assert(wanted[out@.len() as int] == so_far[out@.len() as int]);
                        assert forall|k: int| 0 <= k < out.len() implies codec_known(
                            codecs@,
                            (#[trigger] wanted[k]).1.rerank_codec_id,
                        ) by {
                            assert(wanted[k] == so_far[k]);
                            assert(so_far[k] == out@[k]);
                        }
                    }
                    return Err(
                        RunFault::UnknownCodec { cell, codec_id: spill.rerank_codec_id },
                    );
                }
                out.push((cell, spill));
            }
            i = i + 1;
        }
        assert(s@.take(i as int) =~= s@);
        Ok(out)
    }

    /// The finished cells that a restart goes on with.
    pub fn cells_to_restore(&self) -> (out: Vec<(u32, DrainLocalCell)>)
        requires
            self.shard_count > 0,
        ensures
            exists|s: Seq<(u32, DrainLocalCell)>| #[trigger]
                lists(s, self.local.built_cells@) && out@ == unfinished(*self, s),
    {
        let s = self.local.built_cells.pairs();
        let mut out: Vec<(u32, DrainLocalCell)> = Vec::new();
        let mut i: usize = 0;
        assert(s@.take(0) =~= Seq::<(u32, DrainLocalCell)>::empty());
        while i < s.len()
            invariant
                i <= s.len(),
                self.shard_count > 0,
                out@ == unfinished(*self, s@.take(i as int)),
            decreases s.len() - i,
        {
            proof {
                assert(s@.take(i + 1).drop_last() =~= s@.take(i as int));
            }
            if !self.cell_is_done(s[i].0) {
                out.push(s[i]);
            }
            i = i + 1;
        }
        assert(s@.take(i as int) =~= s@);
        out
    }

    /// Takes a restored cell over. A cell is restored once.
    pub fn add_restored(&mut self, cell: PackedCell)
        requires
            old(self).well_formed(),
            !has_cell(old(self).packed@, cell.cell_id),
        ensures
            final(self).well_formed(),
            final(self).packed@ == old(self).packed@.push(cell),
            final(self).shard_count == old(self).shard_count,
            final(self).n_batches == old(self).n_batches,
            final(self).local == old(self).local,
            final(self).completed == old(self).completed,
            final(self).added == old(self).added,
            final(self).new_entries == old(self).new_entries,
    {
        self.packed.push(cell);
    }
}

proof fn unfinished_prefix<V>(run: DrainRun, s: Seq<(u32, V)>, n: int)
    requires
        0 <= n <= s.len(),
    ensures
        unfinished(run, s.take(n)).len() <= unfinished(run, s).len(),
        forall|i: int|
            0 <= i < unfinished(run, s.take(n)).len() ==> unfinished(run, s)[i] == #[trigger] unfinished(
                run,
                s.take(n),
            )[i],
    decreases s.len(),
{
    if n == s.len() {
        assert(s.take(n) =~= s);
    } else {
        assert(s.drop_last().take(n) =~= s.take(n));
        unfinished_prefix(run, s.drop_last(), n);
    }
}

// ---------------------------------------------------------------------------
// Rows
// ---------------------------------------------------------------------------

/// A row of a batch and a cell that it goes to.
#[derive(Clone, Copy, PartialEq, Eq, Structural, Debug)]
pub struct Placement {
    pub row: usize,
    pub cell: u32,
}

/// Each row in the cell that is given for it.
pub open spec fn one_each(cells: Seq<u32>) -> Seq<Placement> {
    Seq::new(cells.len(), |i: int| Placement { row: i as usize, cell: cells[i] })
}

/// The copies that the budget allows, the closest first.
pub open spec fn copies(candidates: Seq<ReplicaCandidate>, budget: int) -> Seq<Placement> {
    let chosen = closest_first(candidates).take(capped(candidates.len() as int, budget));
    Seq::new(chosen.len(), |i: int| Placement { row: chosen[i].0, cell: chosen[i].1 })
}

/// Where a batch's rows go. With files that were laid out by the same grid and
/// no copies to add, each row stays in its own cluster's cell. Else the copies
/// within the budget come first, then each row in its own cell.
pub open spec fn batch_placements(
    aligned: bool,
    budget: int,
    clusters: Seq<u32>,
    primaries: Seq<u32>,
    candidates: Seq<ReplicaCandidate>,
) -> Seq<Placement> {
    if aligned && budget == 0 {
        one_each(clusters)
    } else {
        copies(candidates, budget) + one_each(primaries)
    }
}

/// The rows can stay where their files have them.
pub fn keeps_ingest_cells(aligned: bool, budget: usize) -> (keeps: bool)
    ensures
        keeps == (aligned && budget == 0),
{
    aligned && budget == 0
}

/// The files' own clusters are the cells of the grid only while the grid is the
/// one they were laid out by: until the first drain has landed.
pub fn clusters_are_cells(grid_drained: bool, global_centroids: bool) -> (aligned: bool)
    ensures
        aligned == (!grid_drained && global_centroids),
{
    !grid_drained && global_centroids
}

/// Puts each row in the cell that is given for it.
pub fn place_each(cells: &Vec<u32>) -> (out: Vec<Placement>)
    ensures
        out@ == one_each(cells@),
{
    let mut out: Vec<Placement> = Vec::new();
    let mut i: usize = 0;
    while i < cells.len()
        invariant
            i <= cells.len(),
            out@ == one_each(cells@).take(i as int),
        decreases cells.len() - i,
    {
        out.push(Placement { row: i, cell: cells[i] });
        i = i + 1;
        assert(out@ =~= one_each(cells@).take(i as int));
    }
    assert(out@ =~= one_each(cells@));
    out
}

/// Puts copies and rows in their cells. The candidates are the copies that could
/// be made.
pub fn place_with_replicas(primaries: &Vec<u32>, candidates: &Vec<ReplicaCandidate>, budget: usize) -> (out: Vec<
    Placement,
>)
    requires
        forall|i: int| 0 <= i < candidates.len() ==> (#[trigger] candidates@[i]).row < primaries.len(),
    ensures
        forall|clusters: Seq<u32>|
            out@ == #[trigger] batch_placements(false, budget as int, clusters, primaries@, candidates@),
{
    let replicas = sort_candidates(candidates, primaries.len());
    let mut out: Vec<Placement> = Vec::new();
    let n: usize = if budget < replicas.len() {
        budget
    } else {
        replicas.len()
    };
    let mut i: usize = 0;
    while i < n
        invariant
            i <= n <= replicas.len(),
            n == capped(candidates.len() as int, budget as int),
            replicas@ == closest_first(candidates@),
            out@ == copies(candidates@, budget as int).take(i as int),
        decreases n - i,
    {
        out.push(Placement { row: replicas[i].0, cell: replicas[i].1 });
        i = i + 1;
        assert(out@ =~= copies(candidates@, budget as int).take(i as int));
    }
    assert(out@ =~= copies(candidates@, budget as int));
    let mut own = place_each(primaries);
    out.append(&mut own);
    out
}

/// The placements of the shards that are not on storage.
pub open spec fn open_placements(run: DrainRun, s: Seq<Placement>) -> Seq<Placement>
    decreases s.len(),
{
    if s.len() == 0 {
        Seq::empty()
    } else if run.is_done(s.last().cell) {
        open_placements(run, s.drop_last())
    } else {
        open_placements(run, s.drop_last()).push(s.last())
    }
}

/// One more row in a cell; a count that is full stays full.
pub open spec fn one_more(m: Map<u32, u32>, cell: u32) -> Map<u32, u32> {
    m.insert(
        cell,
        capped(
            if m.contains_key(cell) {
                m[cell] + 1
            } else {
                1
            },
            u32::MAX as int,
        ) as u32,
    )
}

/// The counts after the rows are placed.
pub open spec fn tally(m: Map<u32, u32>, s: Seq<Placement>) -> Map<u32, u32>
    decreases s.len(),
{
    if s.len() == 0 {
        m
    } else {
        one_more(tally(m, s.drop_last()), s.last().cell)
    }
}

/// How many rows go to a cell.
pub open spec fn placed_in(s: Seq<Placement>, cell: u32) -> int
    decreases s.len(),
{
    if s.len() == 0 {
        0
    } else {
        placed_in(s.drop_last(), cell) + if s.last().cell == cell {
            1int
        } else {
            0
        }
    }
}

/// The counts grow by exactly the rows that were placed, up to the largest
/// count there is, and no cell appears without a row.
pub proof fn tally_counts_rows(m: Map<u32, u32>, s: Seq<Placement>, cell: u32)
    ensures
        placed_in(s, cell) >= 0,
        tally(m, s).contains_key(cell) <==> m.contains_key(cell) || placed_in(s, cell) > 0,
        tally(m, s).contains_key(cell) ==> tally(m, s)[cell] == capped(
            if m.contains_key(cell) {
                m[cell] + placed_in(s, cell)
            } else {
                placed_in(s, cell)
            },
            u32::MAX as int,
        ),
    decreases s.len(),
{
    if s.len() > 0 {
        tally_counts_rows(m, s.drop_last(), cell);
    }
}

impl DrainRun {
    /// Places a batch's rows: those of shards on storage are left out, the
    /// others are counted and handed back to be written.
    pub fn place_rows(&mut self, placements: &Vec<Placement>) -> (kept: Vec<Placement>)
        requires
            old(self).well_formed(),
        ensures
            final(self).well_formed(),
            kept@ == open_placements(*old(self), placements@),
            final(self).added@ == tally(old(self).added@, kept@),
            final(self).shard_count == old(self).shard_count,
            final(self).n_batches == old(self).n_batches,
            final(self).local == old(self).local,
            final(self).completed == old(self).completed,
            final(self).new_entries == old(self).new_entries,
            final(self).packed == old(self).packed,
    {
        let ghost was = *self;
        let mut kept: Vec<Placement> = Vec::new();
        let mut i: usize = 0;
        assert(placements@.take(0) =~= Seq::<Placement>::empty());
        while i < placements.len()
            invariant
                i <= placements.len(),
                was == *old(self),
                self.well_formed(),
                self.shard_count == was.shard_count,
                self.n_batches == was.n_batches,
                self.local == was.local,
                self.completed == was.completed,
                self.new_entries == was.new_entries,
                self.packed == was.packed,
                kept@ == open_placements(was, placements@.take(i as int)),
                self.added@ == tally(was.added@, kept@),
            decreases placements.len() - i,
        {
            proof {
                assert(placements@.take(i + 1).drop_last() =~= placements@.take(i as int));
            }
            let p: Placement = placements[i];
            let done: bool = self.cell_is_done(p.cell);
            assert(done == was.is_done(p.cell));
            if !done {
                let count: u32 = match self.added.get(p.cell) {
                    Some(n) => n.saturating_add(1),
                    None => 1,
                };
                let ghost before = kept@;
                self.added.insert(p.cell, count);
                kept.push(p);
                assert(kept@.drop_last() =~= before);
            }
            i = i + 1;
        }
        assert(placements@.take(i as int) =~= placements@);
        kept
    }

    /// The batch that comes next.
    pub fn next_batch(&self) -> (next: Option<usize>)
        requires
            self.well_formed(),
        ensures
            next == if self.local.batches_done < self.n_batches {
                Some(self.local.batches_done)
            } else {
                None
            },
    {
        if self.local.batches_done < self.n_batches {
            Some(self.local.batches_done)
        } else {
            None
        }
    }

    /// A batch is done: what its rows came to goes into the local checkpoint.
    pub fn end_batch(&mut self, spills: Option<CellMap<DrainLocalSpill>>)
        requires
            old(self).well_formed(),
            old(self).local.batches_done < old(self).n_batches,
        ensures
            final(self).well_formed(),
            final(self).local.batches_done == old(self).local.batches_done + 1,
            final(self).local.added_per_cell@ == old(self).added@,
            final(self).local.spills == match spills {
                Some(s) => s,
                None => old(self).local.spills,
            },
            final(self).local.built_cells == old(self).local.built_cells,
            final(self).local.schema == old(self).local.schema,
            final(self).local.epoch_id == old(self).local.epoch_id,
            final(self).shard_count == old(self).shard_count,
            final(self).n_batches == old(self).n_batches,
            final(self).completed == old(self).completed,
            final(self).added == old(self).added,
            final(self).new_entries == old(self).new_entries,
            final(self).packed == old(self).packed,
    {
        if let Some(s) = spills {
            self.local.spills = s;
        }
        self.local.batches_done = self.local.batches_done + 1;
        self.local.added_per_cell = self.added.duplicate();
    }
}

// ---------------------------------------------------------------------------
// Cells that are joined cluster by cluster
// ---------------------------------------------------------------------------

/// What is to be done with the clusters that a batch routes to a cell.
#[derive(Clone, Copy, PartialEq, Eq, Structural, Debug)]
pub enum SpliceStep {
    /// The cell's shard is on storage: nothing.
    Skip,
    /// They are the cell so far.
    Fresh,
    /// They are joined to the cell on disk.
    Join(PackedCell),
}

impl DrainRun {
    /// Takes the cell out that the new clusters are joined to.
    pub fn begin_splice(&mut self, cell: u32) -> (step: SpliceStep)
        requires
            old(self).well_formed(),
        ensures
            final(self).well_formed(),
            final(self).shard_count == old(self).shard_count,
            final(self).n_batches == old(self).n_batches,
            final(self).completed == old(self).completed,
            final(self).added == old(self).added,
            final(self).new_entries == old(self).new_entries,
            final(self).local.batches_done == old(self).local.batches_done,
            final(self).local.spills == old(self).local.spills,
            final(self).local.added_per_cell == old(self).local.added_per_cell,
            final(self).local.schema == old(self).local.schema,
            final(self).local.epoch_id == old(self).local.epoch_id,
            match step {
                SpliceStep::Skip => old(self).is_done(cell) && *final(self) == *old(self),
                SpliceStep::Fresh => !old(self).is_done(cell) && !has_cell(old(self).packed@, cell)
                    && *final(self) == *old(self),
                SpliceStep::Join(p) => {
                    &&& !old(self).is_done(cell)
                    &&& p.cell_id == cell
                    &&& old(self).packed@.contains(p)
                    &&& final(self).packed@.to_multiset() == old(self).packed@.to_multiset().remove(p)
                    &&& final(self).local.built_cells@ == old(self).local.built_cells@.remove(cell)
                    &&& !has_cell(final(self).packed@, cell)
                },
            },
    {
        if self.cell_is_done(cell) {
            return SpliceStep::Skip;
        }
        let ghost before = self.packed@;
        let mut i: usize = 0;
        while i < self.packed.len()
            invariant
                i <= self.packed.len(),
                *self == *old(self),
                self.packed@ == before,
                self.well_formed(),
                !self.is_done(cell),
                forall|k: int| 0 <= k < i ==> (#[trigger] self.packed@[k]).cell_id != cell,
            decreases self.packed.len() - i,
        {
            if self.packed[i].cell_id == cell {
                let p = self.packed.remove(i);
                let removed = self.local.built_cells.remove(cell);
                proof {
                    assert(before[i as int] == p);
                    before.to_multiset_ensures();
                    assert(self.packed@ =~= before.remove(i as int));
                    assert forall|k: int| 0 <= k < self.packed.len() implies (
                    #[trigger] self.packed@[k]).cell_id != cell by {
                        let q = if k < i {
                            k
                        } else {
                            k + 1
                        };
                        assert(self.packed@[k] == before[q]);
                        if q < i {
                            assert(before[q].cell_id != before[i as int].cell_id);
                        } else {
                            assert(before[i as int].cell_id != before[q].cell_id);
                        }
                    }
                    assert forall|a: int, b: int| 0 <= a < b < self.packed.len() implies (
                    #[trigger] self.packed@[a]).cell_id != (#[trigger] self.packed@[b]).cell_id by {
                        let qa = if a < i {
                            a
                        } else {
                            a + 1
                        };
                        let qb = if b < i {
                            b
                        } else {
                            b + 1
                        };
                        assert(self.packed@[a] == before[qa]);
                        assert(self.packed@[b] == before[qb]);
                    }
                }
                return SpliceStep::Join(p);
            }
            i = i + 1;
        }
        SpliceStep::Fresh
    }

    /// The cell is on disk with the new clusters in it.
    pub fn end_splice(&mut self, cell: PackedCell)
        requires
            old(self).well_formed(),
            !has_cell(old(self).packed@, cell.cell_id),
        ensures
            final(self).well_formed(),
            final(self).packed@ == old(self).packed@.push(cell),
            final(self).added@ == old(self).added@.insert(cell.cell_id, cell.n_docs),
            final(self).local.built_cells@ == old(self).local.built_cells@.insert(
                cell.cell_id,
                DrainLocalCell {
                    n_docs: cell.n_docs,
                    subsection_len: cell.subsection_len,
                    rerank_codec_id: cell.rerank_codec_id,
                },
            ),
            final(self).shard_count == old(self).shard_count,
            final(self).n_batches == old(self).n_batches,
            final(self).completed == old(self).completed,
            final(self).new_entries == old(self).new_entries,
            final(self).local.batches_done == old(self).local.batches_done,
            final(self).local.spills == old(self).local.spills,
            final(self).local.added_per_cell == old(self).local.added_per_cell,
            final(self).local.schema == old(self).local.schema,
            final(self).local.epoch_id == old(self).local.epoch_id,
    {
        self.local.built_cells.insert(
            cell.cell_id,
            DrainLocalCell {
                n_docs: cell.n_docs,
                subsection_len: cell.subsection_len,
                rerank_codec_id: cell.rerank_codec_id,
            },
        );
        self.packed.push(cell);
        self.added.insert(cell.cell_id, cell.n_docs);
    }
}

// ---------------------------------------------------------------------------
// Shards
// ---------------------------------------------------------------------------

/// Where a shard's cell comes from.
#[derive(Clone, Copy, PartialEq, Eq, Structural, Debug)]
pub enum DrainCellSource {
    /// A finished cell on disk.
    Packed(PackedCell),
    /// Rows on disk, of which the cell is still to be built.
    Rows,
}

/// The cells that are to be packed, finished ones first.
pub open spec fn cell_sources(packed: Seq<PackedCell>, spilled: Seq<u32>) -> Seq<(u32, DrainCellSource)> {
    Seq::new(packed.len(), |i: int| (packed[i].cell_id, DrainCellSource::Packed(packed[i]))) + Seq::new(
        spilled.len(),
        |i: int| (spilled[i], DrainCellSource::Rows),
    )
}

/// The counts of the cells of one shard, in the order of the cells.
pub open spec fn counts_of_shard(s: Seq<(u32, u32)>, shard_count: int, shard: int) -> Seq<(u32, u32)>
    decreases s.len(),
{
    if s.len() == 0 {
        Seq::empty()
    } else if shard_of(s.last().0, shard_count) == shard {
        counts_of_shard(s.drop_last(), shard_count, shard).push(s.last())
    } else {
        counts_of_shard(s.drop_last(), shard_count, shard)
    }
}

/// The shards that the cells of the map make up.
pub open spec fn shards_in_use(m: Map<u32, u32>, shard_count: int) -> Set<int> {
    m.dom().map(|cell: u32| shard_of(cell, shard_count))
}

/// The shards come in ascending order.
pub open spec fn shards_ascend(shards: Seq<DrainRemoteShard>) -> bool {
    forall|i: int, j: int|
        0 <= i < j < shards.len() ==> (#[trigger] shards[i]).shard_id <= (#[trigger] shards[j]).shard_id
}

impl DrainRun {
    /// The cells that are still to be packed, by shard. A drain that joins
    /// cells has no rows on disk, and one that has counted rows has cells.
    pub fn plan_pack(&self, consolidate: DrainConsolidate, spilled: &Vec<u32>) -> (result: Result<
        Vec<(u32, Vec<(u32, DrainCellSource)>)>,
        RunFault,
    >)
        requires
            self.well_formed(),
        ensures
            if consolidate is Splice && spilled.len() > 0 {
                result is Err && result->Err_0 is SpillsInSplice
            } else if self.packed.len() == 0 && spilled.len() == 0 && self.added@ != Map::<
                u32,
                u32,
            >::empty() {
                result is Err && result->Err_0 is NoSources
            } else {
                result is Ok && is_shard_grouping(
                    result->Ok_0@,
                    unfinished(*self, cell_sources(self.packed@, spilled@)),
                    self.shard_count as int,
                )
            },
    {
        let splice: bool = match consolidate {
            DrainConsolidate::Splice => true,
            DrainConsolidate::Kmeans => false,
        };
        if splice && spilled.len() > 0 {
            return Err(RunFault::SpillsInSplice);
        }
        let counted = self.added.pairs();
        proof {
            empty_list(counted@, self.added@);
        }
        if self.packed.len() == 0 && spilled.len() == 0 && counted.len() > 0 {
            return Err(RunFault::NoSources);
        }
        let ghost all = cell_sources(self.packed@, spilled@);
        let mut open: Vec<(u32, DrainCellSource)> = Vec::new();
        let mut i: usize = 0;
        assert(all.take(0) =~= Seq::<(u32, DrainCellSource)>::empty());
        while i < self.packed.len()
            invariant
                i <= self.packed.len(),
                self.well_formed(),
                all == cell_sources(self.packed@, spilled@),
                open@ == unfinished(*self, all.take(i as int)),
            decreases self.packed.len() - i,
        {
            proof {
                assert(all.take(i + 1).drop_last() =~= all.take(i as int));
            }
            let p: PackedCell = self.packed[i];
            if !self.cell_is_done(p.cell_id) {
                open.push((p.cell_id, DrainCellSource::Packed(p)));
            }
            i = i + 1;
        }
        let n: usize = self.packed.len();
        let mut k: usize = 0;
        while k < spilled.len()
            invariant
                k <= spilled.len(),
                n == self.packed.len(),
                self.well_formed(),
                all == cell_sources(self.packed@, spilled@),
                open@ == unfinished(*self, all.take(n + k)),
            decreases spilled.len() - k,
        {
            proof {
                assert(all.take(n + k + 1).drop_last() =~= all.take(n + k));
            }
            if !self.cell_is_done(spilled[k]) {
                open.push((spilled[k], DrainCellSource::Rows));
            }
            k = k + 1;
        }
        assert(all.take(n + k) =~= all);
        Ok(group_cells_by_packed_shard(open, self.shard_count))
    }

    /// A cell was built from its rows.
    pub fn record_built(&mut self, cell: u32, state: DrainLocalCell)
        requires
            old(self).well_formed(),
        ensures
            final(self).well_formed(),
            final(self).local.spills@ == old(self).local.spills@.remove(cell),
            final(self).local.built_cells@ == old(self).local.built_cells@.insert(cell, state),
            final(self).local.batches_done == old(self).local.batches_done,
            final(self).local.added_per_cell == old(self).local.added_per_cell,
            final(self).local.schema == old(self).local.schema,
            final(self).local.epoch_id == old(self).local.epoch_id,
            final(self).shard_count == old(self).shard_count,
            final(self).n_batches == old(self).n_batches,
            final(self).completed == old(self).completed,
            final(self).added == old(self).added,
            final(self).new_entries == old(self).new_entries,
            final(self).packed == old(self).packed,
    {
        let gone = self.local.spills.remove(cell);
        self.local.built_cells.insert(cell, state);
    }

    /// No more shards than there are workers.
    pub fn check_shard_total(&self, prepared: usize) -> (result: Result<(), RunFault>)
        ensures
            exists|s: Seq<(u32, u128)>| #[trigger]
                lists(s, self.completed@) && result == if prepared + s.len() <= self.shard_count {
                    Ok::<(), RunFault>(())
                } else {
                    Err(
                        RunFault::TooManyShards {
                            made: capped(prepared + s.len(), usize::MAX as int) as usize,
                            shards: self.shard_count,
                        },
                    )
                },
    {
        let shards = self.completed.pairs();
        let made: usize = prepared.saturating_add(shards.len());
        let over: bool = prepared > self.shard_count || shards.len() > self.shard_count - prepared;
        assert(over == (prepared + shards@.len() > self.shard_count));
        assert(made == capped(prepared + shards@.len(), usize::MAX as int));
        if over {
            Err(RunFault::TooManyShards { made, shards: self.shard_count })
        } else {
            Ok(())
        }
    }

    /// The rows that the drain puts in each cell of a shard.
    pub fn shard_counts(&self, shard: u32) -> (counts: Vec<(u32, u32)>)
        requires
            self.shard_count > 0,
        ensures
            exists|s: Seq<(u32, u32)>| #[trigger]
                lists(s, self.added@) && counts@ == counts_of_shard(
                    s,
                    self.shard_count as int,
                    shard as int,
                ),
    {
        let s = self.added.pairs();
        let mut out: Vec<(u32, u32)> = Vec::new();
        let mut i: usize = 0;
        assert(s@.take(0) =~= Seq::<(u32, u32)>::empty());
        while i < s.len()
            invariant
                i <= s.len(),
                self.shard_count > 0,
                out@ == counts_of_shard(s@.take(i as int), self.shard_count as int, shard as int),
            decreases s.len() - i,
        {
            proof {
                assert(s@.take(i + 1).drop_last() =~= s@.take(i as int));
            }
            if packed_cell_shard(s[i].0, self.shard_count) == shard as usize {
                out.push(s[i]);
            }
            i = i + 1;
        }
        assert(s@.take(i as int) =~= s@);
        out
    }

    /// A shard is on storage: it goes into the remote checkpoint, and what the
    /// machine kept for its cells is no longer needed. The counts of its cells
    /// are handed back.
    pub fn record_upload(&mut self, remote: &mut DrainRemoteCheckpoint, entry: &PendingEntry) -> (result: Result<
        Vec<(u32, u32)>,
        RunFault,
    >)
        requires
            old(self).well_formed(),
        ensures
            final(self).well_formed(),
            final(self).shard_count == old(self).shard_count,
            final(self).n_batches == old(self).n_batches,
            final(self).added == old(self).added,
            final(self).packed == old(self).packed,
            final(self).local.batches_done == old(self).local.batches_done,
            final(self).local.added_per_cell == old(self).local.added_per_cell,
            final(self).local.schema == old(self).local.schema,
            final(self).local.epoch_id == old(self).local.epoch_id,
            final(remote).schema == old(remote).schema,
            final(remote).epoch_id == old(remote).epoch_id,
            final(remote).options_hash == old(remote).options_hash,
            final(remote).sources == old(remote).sources,
            final(remote).batch_layout == old(remote).batch_layout,
            final(remote).shard_count == old(remote).shard_count,
            exists|s: Seq<(u32, u32)>| #[trigger]
                lists(s, old(self).added@) && {
                    let shard = entry.partition_hint->0;
                    let counts = counts_of_shard(s, old(self).shard_count as int, shard as int);
                    if entry.partition_hint is None {
                        &&& result == Err::<Vec<(u32, u32)>, RunFault>(
                            RunFault::NoHint { superfile_id: entry.superfile_id },
                        )
                        &&& *final(self) == *old(self)
                        &&& *final(remote) == *old(remote)
                    } else if counts.len() == 0 {
                        &&& result == Err::<Vec<(u32, u32)>, RunFault>(RunFault::NoCellCounts { shard })
                        &&& *final(self) == *old(self)
                        &&& *final(remote) == *old(remote)
                    } else {
                        &&& result is Ok
                        &&& result->Ok_0@ == counts
                        &&& final(self).completed@ == old(self).completed@.insert(
                            shard,
                            entry.superfile_id,
                        )
                        &&& final(self).new_entries@ == old(self).new_entries@.push(entry.superfile_id)
                        &&& final(self).local.spills@ == old(self).local.spills@.remove_keys(
                            cells_in(counts),
                        )
                        &&& final(self).local.built_cells@ == old(self).local.built_cells@.remove_keys(
                            cells_in(counts),
                        )
                        &&& shards_ascend(final(remote).completed_shards@)
                        &&& exists|added: DrainRemoteShard|
                            {
                                &&& added.shard_id == shard
                                &&& added.superfile_id@ == uuid_text(entry.superfile_id)
                                &&& added.cell_counts@ == counts
                                &&& final(remote).completed_shards@.to_multiset() == #[trigger] old(
                                    remote,
                                ).completed_shards@.to_multiset().insert(added)
                            }
                    }
                },
    {
        let shard: u32 = match entry.partition_hint {
            Some(shard) => shard,
            None => {
                let s = self.added.pairs();
                assert(lists(s@, self.added@));
                return Err(RunFault::NoHint { superfile_id: entry.superfile_id });
            },
        };
        let counts = self.shard_counts(shard);
        let ghost s = choose|s: Seq<(u32, u32)>| #[trigger]
            lists(s, self.added@) && counts@ == counts_of_shard(s, self.shard_count as int, shard as int);
        if counts.len() == 0 {
            return Err(RunFault::NoCellCounts { shard });
        }
        let noted = copy_counts(&counts);
        let added = DrainRemoteShard {
            shard_id: shard,
            superfile_id: uuid_to_text(entry.superfile_id),
            cell_counts: noted,
        };
        let ghost noted_shard = added;
        let ghost was = *self;
        insert_shard(&mut remote.completed_shards, added);
        self.completed.insert(shard, entry.superfile_id);
        self.new_entries.push(entry.superfile_id);
        let mut i: usize = 0;
        assert(counts@.take(0) =~= Seq::<(u32, u32)>::empty());
        assert(self.local.spills@ =~= was.local.spills@.remove_keys(cells_in(counts@.take(0))));
        assert(self.local.built_cells@ =~= was.local.built_cells@.remove_keys(cells_in(counts@.take(0))));
        while i < counts.len()
            invariant
                i <= counts.len(),
                self.well_formed(),
                self.shard_count == was.shard_count,
                self.n_batches == was.n_batches,
                self.added == was.added,
                self.packed == was.packed,
                self.local.batches_done == was.local.batches_done,
                self.local.added_per_cell == was.local.added_per_cell,
                self.local.schema == was.local.schema,
                self.local.epoch_id == was.local.epoch_id,
                self.completed@ == was.completed@.insert(shard, entry.superfile_id),
                self.new_entries@ == was.new_entries@.push(entry.superfile_id),
                self.local.spills@ == was.local.spills@.remove_keys(cells_in(counts@.take(i as int))),
                self.local.built_cells@ == was.local.built_cells@.remove_keys(
                    cells_in(counts@.take(i as int)),
                ),
            decreases counts.len() - i,
        {
            let cell: u32 = counts[i].0;
            proof {
                cells_in_step(counts@, i as int);
            }
            let gone_spill = self.local.spills.remove(cell);
            let gone_cell = self.local.built_cells.remove(cell);
            i = i + 1;
            assert(self.local.spills@ =~= was.local.spills@.remove_keys(cells_in(counts@.take(i as int))));
            assert(self.local.built_cells@ =~= was.local.built_cells@.remove_keys(
                cells_in(counts@.take(i as int)),
            ));
        }
        assert(counts@.take(i as int) =~= counts@);
        proof {
            assert(lists(s, old(self).added@));
            assert(remote.completed_shards@.to_multiset() == old(
                remote,
            ).completed_shards@.to_multiset().insert(noted_shard));
        }
        Ok(counts)
    }
}

/// The cells that the counts are of.
pub open spec fn cells_in(counts: Seq<(u32, u32)>) -> Set<u32> {
    Set::new(|cell: u32| has_key(counts, cell))
}

proof fn cells_in_step(counts: Seq<(u32, u32)>, i: int)
    requires
        0 <= i < counts.len(),
    ensures
        cells_in(counts.take(i + 1)) == cells_in(counts.take(i)).insert(counts[i].0),
{
    let less = counts.take(i);
    let more = counts.take(i + 1);
    assert forall|cell: u32| cells_in(more).contains(cell) == cells_in(less).insert(counts[i].0).contains(
        cell,
    ) by {
        if has_key(more, cell) {
            let k = place_of(more, cell);
            assert(more[k].0 == cell);
            if k < i {
                assert(less[k].0 == cell);
            }
        }
        if has_key(less, cell) {
            let k = place_of(less, cell);
            assert(less[k].0 == cell);
            assert(more[k].0 == cell);
        }
        if cell == counts[i].0 {
            assert(more[i].0 == cell);
        }
    }
    assert(cells_in(more) =~= cells_in(less).insert(counts[i].0));
}

fn copy_counts(counts: &Vec<(u32, u32)>) -> (out: Vec<(u32, u32)>)
    ensures
        out@ == counts@,
{
    let mut out: Vec<(u32, u32)> = Vec::new();
    let mut i: usize = 0;
    while i < counts.len()
        invariant
            i <= counts.len(),
            out@ == counts@.take(i as int),
        decreases counts.len() - i,
    {
        out.push(counts[i]);
        i = i + 1;
        assert(out@ =~= counts@.take(i as int));
    }
    assert(out@ =~= counts@);
    out
}

fn insert_in_order(shards: &mut Vec<DrainRemoteShard>, shard: DrainRemoteShard)
    requires
        shards_ascend(old(shards)@),
    ensures
        shards_ascend(final(shards)@),
        final(shards)@.to_multiset() == old(shards)@.to_multiset().insert(shard),
{
    let ghost before = shards@;
    let mut at: usize = shards.len();
    while at > 0 && shards[at - 1].shard_id > shard.shard_id
        invariant
            at <= shards.len(),
            shards@ == before,
            shards_ascend(before),
            forall|k: int| at <= k < shards.len() ==> (#[trigger] shards@[k]).shard_id > shard.shard_id,
        decreases at,
    {
        at = at - 1;
    }
    proof {
        vstd::seq_lib::to_multiset_insert(before, at as int, shard);
    }
    shards.insert(at, shard);
    assert forall|i: int, j: int| 0 <= i < j < shards.len() implies (#[trigger] shards@[i]).shard_id <= (
    #[trigger] shards@[j]).shard_id by {
        let a = if i < at {
            i
        } else {
            i - 1
        };
        let b = if j < at {
            j
        } else {
            j - 1
        };
        if i != at && j != at {
            assert(shards@[i] == before[a] && shards@[j] == before[b]);
        } else if i == at {
            assert(shards@[j] == before[b]);
        } else {
            assert(shards@[i] == before[i]);
            if i < at - 1 {
                assert(before[i].shard_id <= before[at - 1].shard_id);
            }
        }
    }
}

proof fn no_shards(s: Seq<DrainRemoteShard>)
    requires
        s.len() == 0,
    ensures
        s.to_multiset() == vstd::multiset::Multiset::<DrainRemoteShard>::empty(),
{
    vstd::seq_lib::to_multiset_len(s);
    vstd::multiset::lemma_multiset_empty_len(s.to_multiset());
}

/// Puts a shard in and brings the list into order.
fn insert_shard(shards: &mut Vec<DrainRemoteShard>, shard: DrainRemoteShard)
    ensures
        shards_ascend(final(shards)@),
        final(shards)@.to_multiset() == old(shards)@.to_multiset().insert(shard),
{
    let ghost before = shards@;
    let mut sorted: Vec<DrainRemoteShard> = Vec::new();
    proof {
        vstd::seq_lib::to_multiset_build(before, shard);
        no_shards(sorted@);
    }
    shards.push(shard);
    let ghost all = shards@.to_multiset();
    assert(sorted@.to_multiset().add(shards@.to_multiset()) =~= all);
    while shards.len() > 0
        invariant
            shards_ascend(sorted@),
            sorted@.to_multiset().add(shards@.to_multiset()) == all,
        decreases shards.len(),
    {
        let ghost rest = shards@;
        let ghost done = sorted@.to_multiset();
        let next = shards.pop();
        if let Some(x) = next {
            proof {
                assert(rest =~= shards@.push(x));
                vstd::seq_lib::to_multiset_build(shards@, x);
            }
            insert_in_order(&mut sorted, x);
            assert(sorted@.to_multiset().add(shards@.to_multiset()) =~= done.add(rest.to_multiset()));
        }
    }
    proof {
        no_shards(shards@);
        assert(sorted@.to_multiset() =~= all);
    }
    *shards = sorted;
}

// ---------------------------------------------------------------------------
// What the last commit publishes
// ---------------------------------------------------------------------------

proof fn shards_step(m: Map<u32, u32>, s: Seq<(u32, u32)>, n: int, i: int)
    requires
        0 <= i < s.len(),
    ensures
        shard_set(s.take(i + 1), n) == shard_set(s.take(i), n).insert(shard_of(s[i].0, n)),
{
    assert(s.take(i + 1).drop_last() =~= s.take(i));
}

/// The shards of the cells in a list.
spec fn shard_set(s: Seq<(u32, u32)>, n: int) -> Set<int>
    decreases s.len(),
{
    if s.len() == 0 {
        Set::empty()
    } else {
        shard_set(s.drop_last(), n).insert(shard_of(s.last().0, n))
    }
}

proof fn shard_set_holds(s: Seq<(u32, u32)>, n: int)
    ensures
        shard_set(s, n).finite(),
        forall|i: int| 0 <= i < s.len() ==> shard_set(s, n).contains(shard_of((#[trigger] s[i]).0, n)),
        forall|x: int| #[trigger]
            shard_set(s, n).contains(x) ==> exists|i: int|
                0 <= i < s.len() && shard_of((#[trigger] s[i]).0, n) == x,
    decreases s.len(),
{
    if s.len() > 0 {
        let t = s.drop_last();
        shard_set_holds(t, n);
        assert forall|i: int| 0 <= i < s.len() implies shard_set(s, n).contains(
            shard_of((#[trigger] s[i]).0, n),
        ) by {
            if i < t.len() {
                assert(t[i] == s[i]);
            }
        }
        assert forall|x: int| #[trigger] shard_set(s, n).contains(x) implies exists|i: int|
            0 <= i < s.len() && shard_of((#[trigger] s[i]).0, n) == x by {
            if shard_set(t, n).contains(x) {
                let i = choose|i: int| 0 <= i < t.len() && shard_of((#[trigger] t[i]).0, n) == x;
                assert(s[i] == t[i]);
            } else {
                assert(s[s.len() - 1] == s.last());
            }
        }
    }
}

proof fn shard_set_is_in_use(s: Seq<(u32, u32)>, m: Map<u32, u32>, n: int)
    requires
        lists(s, m),
    ensures
        shard_set(s, n) == shards_in_use(m, n),
        shards_in_use(m, n).finite(),
{
    shard_set_holds(s, n);
    let f = |cell: u32| shard_of(cell, n);
    assert forall|x: int| shard_set(s, n).contains(x) == shards_in_use(m, n).contains(x) by {
        if shard_set(s, n).contains(x) {
            let i = choose|i: int| 0 <= i < s.len() && shard_of((#[trigger] s[i]).0, n) == x;
            assert(m.dom().contains(s[i].0) && f(s[i].0) == x);
        }
        if shards_in_use(m, n).contains(x) {
            let cell = choose|cell: u32| m.dom().contains(cell) && #[trigger] f(cell) == x;
            assert(has_key(s, cell));
            let i = place_of(s, cell);
            assert(s[i].0 == cell);
        }
    }
    assert(shard_set(s, n) =~= shards_in_use(m, n));
}

impl DrainRun {
    /// How many shards the counted cells make up.
    pub fn expected_shards(&self) -> (n: usize)
        requires
            self.well_formed(),
        ensures
            n == shards_in_use(self.added@, self.shard_count as int).len(),
    {
        let s = self.added.pairs();
        let ghost width = self.shard_count as int;
        let mut seen: CellMap<bool> = CellMap::new();
        let mut n: usize = 0;
        let mut i: usize = 0;
        assert(s@.take(0) =~= Seq::<(u32, u32)>::empty());
        while i < s.len()
            invariant
                i <= s.len(),
                n <= i,
                self.well_formed(),
                width == self.shard_count,
                lists(s@, self.added@),
                n == shard_set(s@.take(i as int), width).len(),
                shard_set(s@.take(i as int), width).finite(),
                forall|x: u32|
                    seen@.contains_key(x) == shard_set(s@.take(i as int), width).contains(x as int),
                forall|x: int|
                    shard_set(s@.take(i as int), width).contains(x) ==> 0 <= x < self.shard_count,
            decreases s.len() - i,
        {
            let shard: u32 = packed_cell_shard(s[i].0, self.shard_count) as u32;
            proof {
                shards_step(self.added@, s@, width, i as int);
            }
            if seen.get(shard).is_none() {
                seen.insert(shard, true);
                n = n + 1;
            } else {
                assert(shard_set(s@.take(i as int), width).insert(shard as int) =~= shard_set(
                    s@.take(i as int),
                    width,
                ));
            }
            i = i + 1;
        }
        proof {
            assert(s@.take(i as int) =~= s@);
            shard_set_is_in_use(s@, self.added@, width);
        }
        n
    }

    /// Every shard that the cells make up is on storage.
    pub fn check_complete(&self) -> (result: Result<(), RunFault>)
        requires
            self.well_formed(),
        ensures
            ({
                let expected = shards_in_use(self.added@, self.shard_count as int).len();
                match result {
                    Ok(_) => self.new_entries.len() == expected,
                    Err(e) => self.new_entries.len() != expected && e == (RunFault::ShardTotal {
                        completed: self.new_entries.len(),
                        expected: expected as usize,
                    }),
                }
            }),
    {
        let expected: usize = self.expected_shards();
        if self.new_entries.len() != expected {
            Err(RunFault::ShardTotal { completed: self.new_entries.len(), expected })
        } else {
            Ok(())
        }
    }

    /// The counts of the grid with the drained rows in them. They tell an empty
    /// cell from a populated one, and stop at the largest count there is.
    pub fn cell_updates(&self, base: &Vec<u32>) -> (updates: CellMap<u32>)
        ensures
            updates@.dom() == self.added@.dom(),
            forall|cell: u32| #[trigger]
                updates@.contains_key(cell) ==> updates@[cell] == capped(
                    self.added@[cell] + if cell < base.len() {
                        base@[cell as int] as int
                    } else {
                        0
                    },
                    u32::MAX as int,
                ),
    {
        let s = self.added.pairs();
        let mut updates: CellMap<u32> = CellMap::new();
        let mut i: usize = 0;
        while i < s.len()
            invariant
                i <= s.len(),
                lists(s@, self.added@),
                forall|cell: u32|
                    updates@.contains_key(cell) == has_key(s@.take(i as int), cell),
                forall|cell: u32| #[trigger]
                    updates@.contains_key(cell) ==> self.added@.contains_key(cell) && updates@[cell]
                        == capped(
                        self.added@[cell] + if cell < base.len() {
                            base@[cell as int] as int
                        } else {
                            0
                        },
                        u32::MAX as int,
                    ),
            decreases s.len() - i,
        {
            let cell: u32 = s[i].0;
            let start: u32 = if (cell as usize) < base.len() {
                base[cell as usize]
            } else {
                0
            };
            proof {
                assert(self.added@.contains_key(s@[i as int].0));
                assert forall|c: u32| has_key(s@.take(i + 1), c) == (has_key(s@.take(i as int), c) || c
                    == cell) by {
                    cells_in_step(s@, i as int);
                    assert(cells_in(s@.take(i + 1)).contains(c) == has_key(s@.take(i + 1), c));
                    assert(cells_in(s@.take(i as int)).contains(c) == has_key(s@.take(i as int), c));
                }
            }
            let ghost before = updates@;
            updates.insert(cell, start.saturating_add(s[i].1));
            i = i + 1;
            assert forall|c: u32| updates@.contains_key(c) == has_key(s@.take(i as int), c) by {
                assert(before.contains_key(c) == has_key(s@.take(i - 1), c));
            }
        }
        proof {
            assert(s@.take(i as int) =~= s@);
            assert forall|cell: u32| updates@.contains_key(cell) == self.added@.contains_key(cell) by {
                if has_key(s@, cell) {
                    let k = place_of(s@, cell);
                    assert(s@[k].0 == cell);
                }
            }
            assert(updates@.dom() =~= self.added@.dom());
        }
        updates
    }
}

/// A drain whose shards are all there has every cell on storage: each shard in
/// use is among the completed ones, when those are only shards in use and each
/// gave one superfile.
pub proof fn complete_drain_leaves_no_cell(run: DrainRun, cell: u32)
    requires
        run.well_formed(),
        forall|x: u32| #[trigger]
            run.completed@.contains_key(x) ==> shards_in_use(run.added@, run.shard_count as int).contains(
                x as int,
            ),
        run.completed@.dom().finite(),
        shards_in_use(run.added@, run.shard_count as int).finite(),
        run.new_entries.len() == run.completed@.dom().len(),
        run.new_entries.len() == shards_in_use(run.added@, run.shard_count as int).len(),
        run.added@.contains_key(cell),
    ensures
        run.is_done(cell),
{
    let n = run.shard_count as int;
    let used = shards_in_use(run.added@, n);
    let done = run.completed@.dom();
    let f = |x: u32| x as int;
    let image = done.map(f);
    done.lemma_map_finite(f);
    assert(image.finite());
    vstd::set_lib::lemma_map_size(done, image, f);
    assert forall|x: int| #[trigger] image.contains(x) implies used.contains(x) by {
        let y = choose|y: u32| done.contains(y) && #[trigger] f(y) == x;
        assert(run.completed@.contains_key(y));
    }
    assert(image.subset_of(used));
    vstd::set_lib::lemma_subset_equality(image, used);
    let g = |c: u32| shard_of(c, n);
    let shard = shard_of(cell, n);
    assert(run.added@.dom().contains(cell) && g(cell) == shard);
    assert(used.contains(shard));
    let y = choose|y: u32| done.contains(y) && #[trigger] f(y) == shard;
    assert(y == shard as u32);
    assert(run.completed@.contains_key(y));
}

/// The newest version in the batches.
pub open spec fn newest_version(batches: Seq<DrainBatch>, newest: u64) -> bool {
    &&& forall|i: int, k: int|
        0 <= i < batches.len() && 0 <= k < batches[i].versions.len() ==> #[trigger] batches[i].versions@[k]
            <= newest
    &&& newest == 0 || exists|i: int, k: int|
        0 <= i < batches.len() && 0 <= k < batches[i].versions.len() && #[trigger] batches[i].versions@[k]
            == newest
}

/// The range of versions that a finished drain marks as drained: from the end
/// of what is drained without a gap up to the newest version it moved.
pub fn drained_watermark(prefix_end: Option<u64>, batches: &Vec<DrainBatch>) -> (range: (u64, u64))
    requires
        prefix_end matches Some(end) ==> end < u64::MAX,
    ensures
        is_watermark(range, prefix_end, batches@),
{
    let mut newest: u64 = 0;
    let mut i: usize = 0;
    while i < batches.len()
        invariant
            i <= batches.len(),
            newest_version(batches@.take(i as int), newest),
        decreases batches.len() - i,
    {
        let ghost shorter = batches@.take(i as int);
        let ghost longer = batches@.take(i + 1);
        let ghost before = newest;
        let mut k: usize = 0;
        while k < batches[i].versions.len()
            invariant
                i < batches.len(),
                k <= batches@[i as int].versions.len(),
                newest >= before,
                forall|q: int| 0 <= q < k ==> #[trigger] batches@[i as int].versions@[q] <= newest,
                newest == before || exists|q: int|
                    0 <= q < k && #[trigger] batches@[i as int].versions@[q] == newest,
            decreases batches@[i as int].versions.len() - k,
        {
            let v: u64 = batches[i].versions[k];
            if v > newest {
                newest = v;
            }
            k = k + 1;
        }
        proof {
            assert forall|a: int, q: int|
                0 <= a < longer.len() && 0 <= q < longer[a].versions.len() implies #[trigger] longer[a].versions@[q]
                <= newest by {
                if a < i {
                    assert(shorter[a] == longer[a]);
                    assert(shorter[a].versions@[q] <= before);
                }
            }
            if newest == before {
                if newest != 0 {
                    let (a, q) = choose|a: int, q: int|
                        0 <= a < shorter.len() && 0 <= q < shorter[a].versions.len()
                            && #[trigger] shorter[a].versions@[q] == newest;
                    assert(longer[a].versions@[q] == newest);
                }
            } else {
                let q = choose|q: int|
                    0 <= q < batches@[i as int].versions.len() && #[trigger] batches@[i as int].versions@[q]
                        == newest;
                assert(longer[i as int].versions@[q] == newest);
            }
        }
        i = i + 1;
    }
    assert(batches@.take(i as int) =~= batches@);
    let lo: u64 = match prefix_end {
        Some(end) => end + 1,
        None => 0,
    };
    if lo < newest {
        (lo, newest)
    } else {
        (newest, newest)
    }
}

/// The range that a finished drain marks as drained.
pub open spec fn is_watermark(range: (u64, u64), prefix_end: Option<u64>, batches: Seq<DrainBatch>) -> bool {
    let lo = match prefix_end {
        Some(end) => end + 1,
        None => 0,
    };
    &&& newest_version(batches, range.1)
    &&& range.0 == if lo < range.1 {
        lo
    } else {
        range.1 as int
    }
}

proof fn undrained_holds(files: Seq<SourceFile>, drained: Seq<(u64, u64)>, i: int)
    requires
        0 <= i < files.len(),
        !is_drained(drained, files[i].birth_version),
    ensures
        undrained(files, drained).contains(files[i]),
    decreases files.len(),
{
    let init = files.drop_last();
    let all = undrained(files, drained);
    if i < init.len() {
        undrained_holds(init, drained, i);
        let less = undrained(init, drained);
        let k = choose|k: int| 0 <= k < less.len() && less[k] == init[i];
        assert(all[k] == files[i]);
    } else {
        assert(all[all.len() - 1] == files[i]);
    }
}

proof fn all_are_drained(files: Seq<SourceFile>, drained: Seq<(u64, u64)>)
    requires
        forall|i: int| 0 <= i < files.len() ==> is_drained(drained, (#[trigger] files[i]).birth_version),
    ensures
        undrained(files, drained).len() == 0,
    decreases files.len(),
{
    if files.len() > 0 {
        let init = files.drop_last();
        assert forall|i: int| 0 <= i < init.len() implies is_drained(
            drained,
            (#[trigger] init[i]).birth_version,
        ) by {
            assert(init[i] == files[i]);
        }
        all_are_drained(init, drained);
        assert(is_drained(drained, files[files.len() - 1].birth_version));
    }
}

proof fn undrained_is_no_longer(files: Seq<SourceFile>, drained: Seq<(u64, u64)>)
    ensures
        undrained(files, drained).len() <= files.len(),
    decreases files.len(),
{
    if files.len() > 0 {
        undrained_is_no_longer(files.drop_last(), drained);
    }
}

proof fn source_is_in_a_batch(batches: Seq<Seq<SourceFile>>, f: SourceFile) -> (i: int)
    requires
        joined_sources(batches).contains(f),
    ensures
        0 <= i < batches.len(),
        batches[i].contains(f),
    decreases batches.len(),
{
    let all = joined_sources(batches);
    let k = choose|k: int| 0 <= k < all.len() && all[k] == f;
    if batches.len() == 0 {
        0
    } else {
        let rest = joined_sources(batches.drop_first());
        if k < batches.first().len() {
            assert(batches[0][k] == f);
            0
        } else {
            assert(rest[k - batches.first().len()] == f);
            let i = source_is_in_a_batch(batches.drop_first(), f);
            assert(batches.drop_first()[i] == batches[i + 1]);
            i + 1
        }
    }
}

proof fn version_is_listed(batch: Seq<SourceFile>, k: int)
    requires
        0 <= k < batch.len(),
    ensures
        versions_of(batch).contains(batch[k].birth_version),
    decreases batch.len(),
{
    let init = batch.drop_last();
    let all = versions_of(batch);
    let less = versions_of(init);
    if k < init.len() {
        version_is_listed(init, k);
        let q = choose|q: int| 0 <= q < less.len() && less[q] == init[k].birth_version;
        assert(all[q] == batch[k].birth_version);
    } else {
        assert(all[all.len() - 1] == batch[k].birth_version);
    }
}

/// Once a finished drain has marked what it moved, there is nothing to drain:
/// a second drain of the same files selects none of them.
pub proof fn second_drain_selects_nothing(
    files: Seq<SourceFile>,
    drained: Seq<(u64, u64)>,
    prefix_end: Option<u64>,
    budget: int,
    batches: Seq<DrainBatch>,
    range: (u64, u64),
)
    requires
        files.len() <= usize::MAX,
        are_batches(batches, drain_batches(selection(files, drained), budget)),
        prefix_end matches Some(end) ==> forall|v: u64| v <= end ==> is_drained(drained, v),
        is_watermark(range, prefix_end, batches),
    ensures
        undrained(files, drained.push(range)).len() == 0,
{
    let after = drained.push(range);
    let open = undrained(files, drained);
    let chosen = selection(files, drained);
    let wanted = drain_batches(chosen, budget);
    undrained_is_no_longer(files, drained);
    crate::order::sorted_by_keeps_items(open, selection_keys(open));
    batches_hold_every_source(chosen, budget);
    assert forall|i: int| 0 <= i < files.len() implies is_drained(
        after,
        (#[trigger] files[i]).birth_version,
    ) by {
        let v = files[i].birth_version;
        if is_drained(drained, v) {
            let k = choose|k: int| 0 <= k < drained.len() && (#[trigger] drained[k]).0 <= v <= drained[k].1;
            assert(after[k] == drained[k]);
        } else {
            undrained_holds(files, drained, i);
            assert(open.contains(files[i]));
            assert(chosen.contains(files[i]));
            assert(by_version(chosen).contains(files[i]));
            let b = source_is_in_a_batch(wanted, files[i]);
            let q = choose|q: int| 0 <= q < wanted[b].len() && wanted[b][q] == files[i];
            version_is_listed(wanted[b], q);
            assert(batches[b].versions@ == versions_of(wanted[b]));
            let w = choose|w: int|
                0 <= w < versions_of(wanted[b]).len() && versions_of(wanted[b])[w] == v;
            assert(batches[b].versions@[w] <= range.1);
            assert(after[drained.len() as int] == range);
        }
    }
    all_are_drained(files, after);
}

/// Each of the two that is the larger; what only one has stays.
pub open spec fn widened(law: Seq<u32>, measured: Seq<u32>) -> Seq<u32> {
    Seq::new(
        law.len(),
        |i: int|
            if i < measured.len() && measured[i] > law[i] {
                measured[i]
            } else {
                law[i]
            },
    )
}

/// Widens a probe law by a measurement. A drain measures only the rows that it
/// moves, so it never narrows the law.
pub fn widen_law(law: &mut Vec<u32>, measured: &Vec<u32>)
    ensures
        final(law)@ == widened(old(law)@, measured@),
{
    let ghost before = law@;
    let mut i: usize = 0;
    while i < law.len() && i < measured.len()
        invariant
            i <= law.len(),
            i <= measured.len(),
            law.len() == before.len(),
            forall|k: int| 0 <= k < i ==> law@[k] == widened(before, measured@)[k],
            forall|k: int| i <= k < law.len() ==> law@[k] == before[k],
        decreases law.len() - i,
    {
        if measured[i] > law[i] {
            law.set(i, measured[i]);
        }
        i = i + 1;
    }
    assert(law@ =~= widened(before, measured@));
}

/// A widened law is at least as wide as what it came from, and widening it once
/// more by the same measurement changes nothing.
pub proof fn law_only_widens(law: Seq<u32>, measured: Seq<u32>)
    ensures
        widened(law, measured).len() == law.len(),
        forall|i: int| 0 <= i < law.len() ==> #[trigger] widened(law, measured)[i] >= law[i],
        forall|i: int|
            0 <= i < law.len() && i < measured.len() ==> #[trigger] widened(law, measured)[i]
                >= measured[i],
        widened(widened(law, measured), measured) == widened(law, measured),
{
    assert(widened(widened(law, measured), measured) =~= widened(law, measured));
}

} // verus!
