//! Packed cells: their files on local disk, and the shards that they are
//! assembled into.
use vstd::prelude::*;

use crate::cells::{
    assign_cells, assigned_members, flat_members, group_cells_by_packed_shard, groups_ascend, is_id_range,
    is_shard_grouping, shard_id_range, AssignedCellGroup, ReplicaCandidate,
};
use crate::drain_run::PackedCell;
use crate::open_ranges::field_inside;
use crate::order::{sorted_by, stable_order, SortKey};
use crate::wire::{
    i128_at, le16, le16_bytes, le16_of_same_bytes, le16_round_trip, le4, le8, push_i128_le, signed128,
    u32_at, u64_at,
};

verus! {

/// How many ids go into one record batch of a shard.
pub const DRAIN_ID_BATCH_ROWS: usize = 65536;

// ---------------------------------------------------------------------------
// The id file of a cell
// ---------------------------------------------------------------------------

/// The ids one after another, each in its 16 bytes.
pub open spec fn id_bytes(ids: Seq<i128>) -> Seq<u8>
    decreases ids.len(),
{
    if ids.len() == 0 {
        Seq::empty()
    } else {
        id_bytes(ids.drop_last()) + le16_bytes(ids.last())
    }
}

/// The first `n` ids of an id file.
pub open spec fn ids_in(bytes: Seq<u8>, n: int) -> Seq<i128> {
    Seq::new(n as nat, |i: int| signed128(le16(bytes, i * 16)) as i128)
}

/// Writes the id file of a cell.
pub fn encode_stable_ids(ids: &Vec<i128>) -> (bytes: Vec<u8>)
    ensures
        bytes@ == id_bytes(ids@),
{
    let mut bytes: Vec<u8> = Vec::new();
    let mut i: usize = 0;
    assert(ids@.take(0) =~= Seq::<i128>::empty());
    while i < ids.len()
        invariant
            i <= ids.len(),
            bytes@ == id_bytes(ids@.take(i as int)),
        decreases ids.len() - i,
    {
        proof {
            assert(ids@.take(i + 1).drop_last() =~= ids@.take(i as int));
        }
        push_i128_le(&mut bytes, ids[i]);
        i = i + 1;
    }
    assert(ids@.take(i as int) =~= ids@);
    bytes
}

/// Reads the ids of a cell's `n_docs` rows. A file that ends too early has
/// none.
pub fn read_spilled_stable_ids(bytes: &[u8], n_docs: u32) -> (ids: Option<Vec<i128>>)
    ensures
        match ids {
            Some(ids) => n_docs * 16 <= bytes@.len() && ids@ == ids_in(bytes@, n_docs as int),
            None => n_docs * 16 > bytes@.len(),
        },
{
    if (n_docs as u64) * 16 > bytes.len() as u64 {
        return None;
    }
    let mut ids: Vec<i128> = Vec::new();
    let mut i: u32 = 0;
    let mut at: usize = 0;
    assert(n_docs * 16 <= bytes.len());
    while i < n_docs
        invariant
            n_docs * 16 <= usize::MAX,
            i <= n_docs,
            at == i * 16,
            n_docs * 16 <= bytes@.len(),
            ids@ == ids_in(bytes@, i as int),
        decreases n_docs - i,
    {
        ids.push(i128_at(bytes, at));
        i = i + 1;
        at = at + 16;
        assert(ids@ =~= ids_in(bytes@, i as int));
    }
    Some(ids)
}

proof fn id_bytes_len(ids: Seq<i128>)
    ensures
        id_bytes(ids).len() == ids.len() * 16,
    decreases ids.len(),
{
    if ids.len() > 0 {
        id_bytes_len(ids.drop_last());
        assert(le16_bytes(ids.last()).len() == 16);
    }
}

/// An id file gives back the ids that it was written from.
pub proof fn id_file_round_trip(ids: Seq<i128>)
    ensures
        id_bytes(ids).len() == ids.len() * 16,
        ids_in(id_bytes(ids), ids.len() as int) == ids,
    decreases ids.len(),
{
    id_bytes_len(ids);
    if ids.len() == 0 {
        assert(ids_in(id_bytes(ids), 0) =~= ids);
    } else {
        let init = ids.drop_last();
        id_file_round_trip(init);
        let whole = id_bytes(ids);
        let n = init.len() as int;
        let tail = le16_bytes(ids.last());
        id_bytes_len(init);
        le16_round_trip(ids.last());
        assert(whole == id_bytes(init) + tail);
        assert forall|i: int| 0 <= i < ids.len() implies ids_in(whole, ids.len() as int)[i] == ids[i] by {
            if i < n {
                le16_of_same_bytes(whole, i * 16, id_bytes(init), i * 16);
                assert(ids_in(id_bytes(init), n)[i] == init[i]);
            } else {
                le16_of_same_bytes(whole, n * 16, tail, 0);
            }
        }
        assert(ids_in(whole, ids.len() as int) =~= ids);
    }
}

// ---------------------------------------------------------------------------
// A cell on disk
// ---------------------------------------------------------------------------

/// The number of ids differs from the number of rows.
#[derive(Clone, Copy, PartialEq, Eq, Structural, Debug)]
pub struct IdCountMismatch {
    pub cell: u32,
    pub ids: usize,
    pub n_docs: u32,
}

/// A finished cell and the contents of its id file.
pub fn spill_packed_cell(
    cell_id: u32,
    n_docs: u32,
    subsection_len: u64,
    rerank_codec_id: u8,
    stable_ids: &Vec<i128>,
) -> (result: Result<(PackedCell, Vec<u8>), IdCountMismatch>)
    ensures
        if stable_ids.len() == n_docs {
            &&& result is Ok
            &&& (result->Ok_0).0 == (PackedCell { cell_id, n_docs, subsection_len, rerank_codec_id })
            &&& (result->Ok_0).1@ == id_bytes(stable_ids@)
        } else {
            result == Err::<(PackedCell, Vec<u8>), IdCountMismatch>(
                IdCountMismatch { cell: cell_id, ids: stable_ids.len(), n_docs },
            )
        },
{
    if stable_ids.len() as u64 != n_docs as u64 {
        return Err(IdCountMismatch { cell: cell_id, ids: stable_ids.len(), n_docs });
    }
    Ok((PackedCell { cell_id, n_docs, subsection_len, rerank_codec_id }, encode_stable_ids(stable_ids)))
}

/// Where the fields of a cell's header are.
#[derive(Clone, Copy, Debug)]
pub struct CellFormat {
    pub header_size: u64,
    pub crc_bytes: u64,
    pub centroids_off: u64,
    pub cluster_idx_off: u64,
    pub summary_off: u64,
    pub codec_meta_size_off: u64,
    pub cluster_idx_entry_bytes: u64,
}

impl CellFormat {
    /// The fields lie in the header, which is at most 64 KiB long.
    pub open spec fn well_formed(self) -> bool {
        &&& self.header_size <= 0x1_0000
        &&& self.crc_bytes <= 0x1_0000
        &&& self.centroids_off + 8 <= self.header_size
        &&& self.cluster_idx_off + 8 <= self.header_size
        &&& self.summary_off + 8 <= self.header_size
        &&& self.codec_meta_size_off + 4 <= self.header_size
    }

    /// Tells whether the fields lie in the header.
    pub fn holds_together(&self) -> (yes: bool)
        ensures
            yes == self.well_formed(),
    {
        let most: u64 = 0x1_0000;
        self.header_size <= most && self.crc_bytes <= most && field_inside(
            self.centroids_off,
            8,
            self.header_size,
        ) && field_inside(self.cluster_idx_off, 8, self.header_size) && field_inside(
            self.summary_off,
            8,
            self.header_size,
        ) && field_inside(self.codec_meta_size_off, 4, self.header_size)
    }
}

/// What the header of a cell on disk says.
#[derive(Clone, Copy, PartialEq, Eq, Structural, Debug)]
pub struct MergedLayout {
    pub n_cent: u64,
    pub summary_offset: u64,
    pub codec_meta_offset: u64,
    pub codec_meta_size: u32,
}

/// Why a cell on disk cannot be read.
#[allow(inconsistent_fields)]
#[derive(Clone, Copy, PartialEq, Eq, Structural, Debug)]
pub enum SpilledCellFault {
    Length { cell: u32, expected: u64, found: u64 },
    TooShort { cell: u32 },
    CentroidRegion { cell: u32 },
    /// The cluster index would end past the largest offset.
    OffsetOverflow { cell: u32 },
    Ids { cell: u32 },
}

/// What the header of a cell says about its regions, with vectors of `dim`
/// components of four bytes.
pub open spec fn header_layout(
    cell: PackedCell,
    bytes: Seq<u8>,
    dim: int,
    format: CellFormat,
) -> Result<MergedLayout, SpilledCellFault> {
    let centroids = le8(bytes, format.centroids_off as int);
    let index = le8(bytes, format.cluster_idx_off as int);
    let meta_size = le4(bytes, format.codec_meta_size_off as int);
    let n_cent = (index - centroids) / (dim * 4);
    let meta = index + n_cent * format.cluster_idx_entry_bytes;
    if bytes.len() != cell.subsection_len {
        Err(
            SpilledCellFault::Length {
                cell: cell.cell_id,
                expected: cell.subsection_len,
                found: bytes.len() as u64,
            },
        )
    } else if bytes.len() < format.header_size + format.crc_bytes {
        Err(SpilledCellFault::TooShort { cell: cell.cell_id })
    } else if index < centroids || (index - centroids) % (dim * 4) != 0 {
        Err(SpilledCellFault::CentroidRegion { cell: cell.cell_id })
    } else if meta > u64::MAX {
        Err(SpilledCellFault::OffsetOverflow { cell: cell.cell_id })
    } else {
        Ok(
            MergedLayout {
                n_cent: n_cent as u64,
                summary_offset: le8(bytes, format.summary_off as int) as u64,
                codec_meta_offset: if meta_size == 0 {
                    0
                } else {
                    meta as u64
                },
                codec_meta_size: meta_size as u32,
            },
        )
    }
}

/// Reads a cell's layout and ids back from its two files.
pub fn load_merged_from_spilled(
    cell: &PackedCell,
    bytes: &[u8],
    ids: &[u8],
    dim: usize,
    format: &CellFormat,
) -> (result: Result<(MergedLayout, Vec<i128>), SpilledCellFault>)
    requires
        format.well_formed(),
        0 < dim,
        dim * 4 <= usize::MAX,
    ensures
        match header_layout(*cell, bytes@, dim as int, *format) {
            Err(e) => result == Err::<(MergedLayout, Vec<i128>), SpilledCellFault>(e),
            Ok(layout) => if ids@.len() < cell.n_docs * 16 {
                result == Err::<(MergedLayout, Vec<i128>), SpilledCellFault>(
                    SpilledCellFault::Ids { cell: cell.cell_id },
                )
            } else {
                &&& result is Ok
                &&& (result->Ok_0).0 == layout
                &&& (result->Ok_0).1@ == ids_in(ids@, cell.n_docs as int)
            },
        },
{
    let found: u64 = bytes.len() as u64;
    if found != cell.subsection_len {
        return Err(
            SpilledCellFault::Length { cell: cell.cell_id, expected: cell.subsection_len, found },
        );
    }
    if found < format.header_size + format.crc_bytes {
        return Err(SpilledCellFault::TooShort { cell: cell.cell_id });
    }
    let centroids: u64 = u64_at(bytes, format.centroids_off as usize);
    let index: u64 = u64_at(bytes, format.cluster_idx_off as usize);
    let summary_offset: u64 = u64_at(bytes, format.summary_off as usize);
    let codec_meta_size: u32 = u32_at(bytes, format.codec_meta_size_off as usize);
    let stride: u64 = dim as u64 * 4;
    if index < centroids || (index - centroids) % stride != 0 {
        return Err(SpilledCellFault::CentroidRegion { cell: cell.cell_id });
    }
    let n_cent: u64 = (index - centroids) / stride;
    let index_len: u64 = match n_cent.checked_mul(format.cluster_idx_entry_bytes) {
        Some(n) => n,
        None => {
            return Err(SpilledCellFault::OffsetOverflow { cell: cell.cell_id });
        },
    };
    let meta: u64 = match index.checked_add(index_len) {
        Some(n) => n,
        None => {
            return Err(SpilledCellFault::OffsetOverflow { cell: cell.cell_id });
        },
    };
    let layout = MergedLayout {
        n_cent,
        summary_offset,
        codec_meta_offset: if codec_meta_size == 0 {
            0
        } else {
            meta
        },
        codec_meta_size,
    };
    match read_spilled_stable_ids(ids, cell.n_docs) {
        None => Err(SpilledCellFault::Ids { cell: cell.cell_id }),
        Some(list) => Ok((layout, list)),
    }
}

// ---------------------------------------------------------------------------
// A shard of packed cells
// ---------------------------------------------------------------------------

/// A cell and its ids.
#[derive(Debug)]
pub struct ShardCell {
    pub cell_id: u32,
    pub n_docs: u32,
    pub stable_ids: Vec<i128>,
}

/// The id column of a shard.
#[derive(Debug)]
pub struct ShardIds {
    /// The cells in the order that they stand in the shard.
    pub order: Vec<usize>,
    pub ids: Vec<i128>,
    pub id_min: i128,
    pub id_max: i128,
}

/// Why a shard cannot be assembled.
#[derive(Clone, Copy, PartialEq, Eq, Structural, Debug)]
pub enum ShardFault {
    NoDocsToBuild,
    IdCount(IdCountMismatch),
}

pub open spec fn shard_cell_keys(cells: Seq<ShardCell>) -> Seq<SortKey> {
    Seq::new(cells.len(), |i: int| (cells[i].cell_id as i128, 0u128))
}

/// The cells by id.
pub open spec fn cells_in_order(cells: Seq<ShardCell>) -> Seq<ShardCell> {
    sorted_by(cells, shard_cell_keys(cells))
}

/// The ids of the cells one after another.
pub open spec fn joined_ids(cells: Seq<ShardCell>) -> Seq<i128>
    decreases cells.len(),
{
    if cells.len() == 0 {
        Seq::empty()
    } else {
        joined_ids(cells.drop_last()) + cells.last().stable_ids@
    }
}

/// The cell has one id for each row.
pub open spec fn ids_complete(cell: ShardCell) -> bool {
    cell.stable_ids.len() == cell.n_docs
}

/// Assembles the id column of a shard: the cells by id, and in each its rows in
/// their order. The cells' own regions stand in the same order, so that a row's
/// place in the id column is its place in the index.
pub fn assemble_shard_ids(cells: &Vec<ShardCell>) -> (result: Result<ShardIds, ShardFault>)
    ensures
        ({
            let sorted = cells_in_order(cells@);
            if cells.len() == 0 {
                result == Err::<ShardIds, ShardFault>(ShardFault::NoDocsToBuild)
            } else if forall|i: int| 0 <= i < sorted.len() ==> ids_complete(#[trigger] sorted[i]) {
                &&& result is Ok
                &&& result->Ok_0.order@ == crate::order::the_order(shard_cell_keys(cells@))
                &&& result->Ok_0.ids@ == joined_ids(sorted)
                &&& is_id_range((result->Ok_0.id_min, result->Ok_0.id_max), joined_ids(sorted))
            } else {
                exists|i: int|
                    {
                        &&& 0 <= i < sorted.len()
                        &&& !ids_complete(#[trigger] sorted[i])
                        &&& forall|k: int| 0 <= k < i ==> ids_complete(#[trigger] sorted[k])
                        &&& result == Err::<ShardIds, ShardFault>(
                            ShardFault::IdCount(
                                IdCountMismatch {
                                    cell: sorted[i].cell_id,
                                    ids: sorted[i].stable_ids.len(),
                                    n_docs: sorted[i].n_docs,
                                },
                            ),
                        )
                    }
            }
        }),
{
    if cells.len() == 0 {
        return Err(ShardFault::NoDocsToBuild);
    }
    let mut keys: Vec<SortKey> = Vec::new();
    let mut i: usize = 0;
    while i < cells.len()
        invariant
            i <= cells.len(),
            keys@ == shard_cell_keys(cells@).take(i as int),
        decreases cells.len() - i,
    {
        keys.push((cells[i].cell_id as i128, 0u128));
        i = i + 1;
        assert(keys@ =~= shard_cell_keys(cells@).take(i as int));
    }
    assert(keys@ =~= shard_cell_keys(cells@));
    let order = stable_order(&keys);
    let ghost sorted = cells_in_order(cells@);
    let mut ids: Vec<i128> = Vec::new();
    let mut k: usize = 0;
    assert(sorted.take(0) =~= Seq::<ShardCell>::empty());
    while k < order.len()
        invariant
            k <= order.len(),
            cells.len() > 0,
            keys@ == shard_cell_keys(cells@),
            sorted == cells_in_order(cells@),
            crate::order::is_stable_order(keys@, order@),
            order@ == crate::order::the_order(keys@),
            ids@ == joined_ids(sorted.take(k as int)),
            forall|q: int| 0 <= q < k ==> ids_complete(#[trigger] sorted[q]),
        decreases order.len() - k,
    {
        let cell = &cells[order[k]];
        assert(*cell == sorted[k as int]);
        if cell.stable_ids.len() as u64 != cell.n_docs as u64 {
            assert(!ids_complete(sorted[k as int]));
            return Err(
                ShardFault::IdCount(
                    IdCountMismatch {
                        cell: cell.cell_id,
                        ids: cell.stable_ids.len(),
                        n_docs: cell.n_docs,
                    },
                ),
            );
        }
        proof {
            assert(sorted.take(k + 1).drop_last() =~= sorted.take(k as int));
        }
        push_ids(&mut ids, &cell.stable_ids);
        k = k + 1;
    }
    assert(sorted.take(k as int) =~= sorted);
    let range = shard_id_range(&ids);
    Ok(ShardIds { order, ids, id_min: range.0, id_max: range.1 })
}

fn push_ids(out: &mut Vec<i128>, ids: &Vec<i128>)
    ensures
        final(out)@ == old(out)@ + ids@,
{
    let ghost before = out@;
    let mut i: usize = 0;
    while i < ids.len()
        invariant
            i <= ids.len(),
            out@ == before + ids@.take(i as int),
        decreases ids.len() - i,
    {
        out.push(ids[i]);
        i = i + 1;
        assert(out@ =~= before + ids@.take(i as int));
    }
    assert(out@ =~= before + ids@);
}

/// The batches that a cell's ids are read in: full ones, and what is left.
pub fn id_batches(n_docs: u32) -> (sizes: Vec<usize>)
    ensures
        sizes.len() == (n_docs + DRAIN_ID_BATCH_ROWS - 1) / DRAIN_ID_BATCH_ROWS as int,
        forall|i: int|
            0 <= i < sizes.len() ==> #[trigger] sizes@[i] == if (i + 1) * DRAIN_ID_BATCH_ROWS <= n_docs {
                DRAIN_ID_BATCH_ROWS as int
            } else {
                n_docs - i * DRAIN_ID_BATCH_ROWS
            },
{
    let mut sizes: Vec<usize> = Vec::new();
    let mut remaining: usize = n_docs as usize;
    while remaining > 0
        invariant
            remaining <= n_docs,
            remaining == 0 || remaining == n_docs - sizes.len() * 65536,
            remaining == 0 ==> sizes.len() == (n_docs + 65535) / 65536,
            forall|i: int|
                0 <= i < sizes.len() ==> #[trigger] sizes@[i] == if (i + 1) * 65536 <= n_docs {
                    65536
                } else {
                    n_docs - i * 65536
                },
        decreases remaining,
    {
        let take: usize = if remaining < DRAIN_ID_BATCH_ROWS {
            remaining
        } else {
            DRAIN_ID_BATCH_ROWS
        };
        sizes.push(take);
        remaining = remaining - take;
    }
    sizes
}

// ---------------------------------------------------------------------------
// The shards of a commit
// ---------------------------------------------------------------------------

/// Why a commit's rows cannot be put into cells.
#[allow(inconsistent_fields)]
#[derive(Clone, Copy, PartialEq, Eq, Structural, Debug)]
pub enum CommitRowsFault {
    Dim { dim: usize, grid_dim: usize },
    VectorRows { vectors: usize, ids: usize },
}

/// Holds a commit's vectors to the grid and to its ids. Says whether there are
/// rows.
pub fn check_commit_rows(dim: usize, grid_dim: usize, n_ids: usize, n_vectors: usize) -> (result: Result<
    bool,
    CommitRowsFault,
>)
    ensures
        result == if dim != grid_dim {
            Err::<bool, CommitRowsFault>(CommitRowsFault::Dim { dim, grid_dim })
        } else if n_ids == 0 {
            Ok(false)
        } else if n_vectors != n_ids {
            Err(CommitRowsFault::VectorRows { vectors: n_vectors, ids: n_ids })
        } else {
            Ok(true)
        },
{
    if dim != grid_dim {
        return Err(CommitRowsFault::Dim { dim, grid_dim });
    }
    if n_ids == 0 {
        return Ok(false);
    }
    if n_vectors != n_ids {
        return Err(CommitRowsFault::VectorRows { vectors: n_vectors, ids: n_ids });
    }
    Ok(true)
}

/// The groups, each under its cell.
pub open spec fn keyed_groups(groups: Seq<AssignedCellGroup>) -> Seq<(u32, AssignedCellGroup)> {
    Seq::new(groups.len(), |i: int| (groups[i].cell_id, groups[i]))
}

/// Puts the rows of a commit into cells and the cells into shards.
pub fn plan_commit_shards(
    stable_ids: &Vec<i128>,
    primaries: &Vec<u32>,
    candidates: &Vec<ReplicaCandidate>,
    replica_budget: usize,
    shard_count: usize,
) -> (shards: Vec<(u32, Vec<(u32, AssignedCellGroup)>)>)
    requires
        primaries.len() == stable_ids.len(),
        forall|i: int| 0 <= i < candidates.len() ==> (#[trigger] candidates@[i]).row < stable_ids.len(),
        0 < shard_count <= u32::MAX,
    ensures
        exists|groups: Seq<AssignedCellGroup>|
            {
                &&& groups_ascend(groups)
                &&& #[trigger] flat_members(groups) == assigned_members(
                    stable_ids@,
                    primaries@,
                    candidates@,
                    replica_budget as int,
                )
                &&& is_shard_grouping(shards@, keyed_groups(groups), shard_count as int)
            },
{
    let mut groups = assign_cells(stable_ids, primaries, candidates, replica_budget);
    let ghost all = groups@;
    let mut reversed: Vec<(u32, AssignedCellGroup)> = Vec::new();
    while groups.len() > 0
        invariant
            groups.len() + reversed.len() == all.len(),
            groups@ == all.take(groups.len() as int),
            forall|i: int|
                0 <= i < reversed.len() ==> #[trigger] reversed@[i] == keyed_groups(all)[all.len() - 1 - i],
        decreases groups.len(),
    {
        let next = groups.pop();
        if let Some(g) = next {
            assert(g == all[groups.len() as int]);
            reversed.push((g.cell_id, g));
        }
        assert(groups@ =~= all.take(groups.len() as int));
    }
    let mut keyed: Vec<(u32, AssignedCellGroup)> = Vec::new();
    while reversed.len() > 0
        invariant
            keyed.len() + reversed.len() == all.len(),
            forall|i: int|
                0 <= i < reversed.len() ==> #[trigger] reversed@[i] == keyed_groups(all)[all.len() - 1 - i],
            forall|i: int| 0 <= i < keyed.len() ==> #[trigger] keyed@[i] == keyed_groups(all)[i],
        decreases reversed.len(),
    {
        let next = reversed.pop();
        if let Some(g) = next {
            keyed.push(g);
        }
    }
    assert(keyed@ =~= keyed_groups(all));
    group_cells_by_packed_shard(keyed, shard_count)
}

/// The shards that have a file, in order.
pub open spec fn built_shards<T>(shards: Seq<Option<(u32, T)>>) -> Seq<(u32, T)>
    decreases shards.len(),
{
    if shards.len() == 0 {
        Seq::empty()
    } else {
        match shards.last() {
            Some(s) => built_shards(shards.drop_last()).push(s),
            None => built_shards(shards.drop_last()),
        }
    }
}

pub open spec fn files_of<T>(shards: Seq<(u32, T)>) -> Seq<T> {
    Seq::new(shards.len(), |i: int| shards[i].1)
}

pub open spec fn hints_of<T>(shards: Seq<(u32, T)>) -> Seq<Option<u32>> {
    Seq::new(shards.len(), |i: int| Some(shards[i].0))
}

/// Parts the built shards into files and partition hints. A shard without rows
/// of its own has no file.
pub fn collect_commit_shards<T>(shards: Vec<Option<(u32, T)>>) -> (out: (Vec<T>, Vec<Option<u32>>))
    ensures
        out.0@ == files_of(built_shards(shards@)),
        out.1@ == hints_of(built_shards(shards@)),
{
    let ghost all = shards@;
    let ghost wanted = built_shards(all);
    let mut rest = shards;
    let mut files_back: Vec<T> = Vec::new();
    let mut hints_back: Vec<Option<u32>> = Vec::new();
    while rest.len() > 0
        invariant
            rest@ == all.take(rest.len() as int),
            rest.len() <= all.len(),
            wanted == built_shards(all),
            files_back.len() == hints_back.len(),
            built_shards(rest@).len() + files_back.len() == wanted.len(),
            forall|i: int|
                0 <= i < built_shards(rest@).len() ==> #[trigger] built_shards(rest@)[i] == wanted[i],
            forall|i: int|
                0 <= i < files_back.len() ==> #[trigger] files_back@[i] == wanted[wanted.len() - 1 - i].1
                    && hints_back@[i] == Some(wanted[wanted.len() - 1 - i].0),
        decreases rest.len(),
    {
        let ghost before = rest@;
        let next = rest.pop();
        assert(rest@ =~= before.drop_last());
        assert(rest@ =~= all.take(rest.len() as int));
        if let Some(Some(s)) = next {
            proof {
                assert(before.last() == Some(s));
                let b = built_shards(before);
                assert(b[b.len() - 1] == s);
                assert(wanted[b.len() - 1] == b[b.len() - 1]);
                assert forall|i: int| 0 <= i < built_shards(rest@).len() implies
                    #[trigger] built_shards(rest@)[i] == wanted[i] by {
                    assert(b[i] == built_shards(rest@)[i]);
                }
            }
            hints_back.push(Some(s.0));
            files_back.push(s.1);
        }
    }
    let mut files: Vec<T> = Vec::new();
    let mut hints: Vec<Option<u32>> = Vec::new();
    while files_back.len() > 0
        invariant
            files_back.len() == hints_back.len(),
            files.len() == hints.len(),
            files.len() + files_back.len() == wanted.len(),
            forall|i: int|
                0 <= i < files_back.len() ==> #[trigger] files_back@[i] == wanted[wanted.len() - 1 - i].1
                    && hints_back@[i] == Some(wanted[wanted.len() - 1 - i].0),
            forall|i: int|
                0 <= i < files.len() ==> #[trigger] files@[i] == wanted[i].1 && hints@[i] == Some(wanted[i].0),
        decreases files_back.len(),
    {
        let ghost fb = files_back@;
        let ghost hb = hints_back@;
        let ghost done = files.len();
        let file = files_back.pop();
        let hint = hints_back.pop();
        if let Some(f) = file {
            if let Some(h) = hint {
                proof {
                    let last = fb.len() - 1;
                    assert(fb[last] == wanted[wanted.len() - 1 - last].1 && hb[last] == Some(
                        wanted[wanted.len() - 1 - last].0,
                    ));
                    assert(wanted.len() - 1 - last == done);
                }
                files.push(f);
                hints.push(h);
            }
        }
        proof {
            assert(files_back@ =~= fb.drop_last());
            assert(hints_back@ =~= hb.drop_last());
            assert forall|i: int| 0 <= i < files_back.len() implies (#[trigger] files_back@[i])
                == wanted[wanted.len() - 1 - i].1 && hints_back@[i] == Some(wanted[wanted.len() - 1 - i].0) by {
                assert(files_back@[i] == fb[i]);
                assert(hints_back@[i] == hb[i]);
            }
        }
    }
    assert(files@ =~= files_of(wanted));
    assert forall|i: int| 0 <= i < hints.len() implies #[trigger] hints@[i] == hints_of(wanted)[i] by {
        assert(files@[i] == wanted[i].1);
    }
    assert(hints@ =~= hints_of(wanted));
    (files, hints)
}

// ---------------------------------------------------------------------------
// The rows of a cell
// ---------------------------------------------------------------------------

/// A hidden superfile's cells, as its reader shows them.
#[derive(Debug)]
pub enum EntryCells {
    /// The cells of a packed file; one whose rows cannot be counted has none.
    Packed(Vec<(u32, Option<u32>)>),
    /// A file that is one cell.
    Single { partition_hint: Option<u32>, n_docs: u64 },
}

/// The cells that are counted, without the superseded ones.
pub open spec fn live_cells(cells: Seq<(u32, Option<u32>)>, superseded: Set<u32>) -> Seq<(u32, u32)>
    decreases cells.len(),
{
    if cells.len() == 0 {
        Seq::empty()
    } else {
        let rest = live_cells(cells.drop_last(), superseded);
        if superseded.contains(cells.last().0) {
            rest
        } else {
            match cells.last().1 {
                Some(n) => rest.push((cells.last().0, n)),
                None => rest,
            }
        }
    }
}

fn is_among(list: &Vec<u32>, cell: u32) -> (found: bool)
    ensures
        found == list@.contains(cell),
{
    let mut i: usize = 0;
    while i < list.len()
        invariant
            i <= list.len(),
            forall|k: int| 0 <= k < i ==> list@[k] != cell,
        decreases list.len() - i,
    {
        if list[i] == cell {
            assert(list@[i as int] == cell);
            return true;
        }
        i = i + 1;
    }
    false
}

/// The rows of each cell of a superfile. A superseded cell's blocks are dead:
/// its rows live in other cells and are counted there. Of the rows of a file
/// that is one cell the low 32 bits count.
pub fn cell_doc_counts(entry: &EntryCells, superseded: &Vec<u32>) -> (counts: Vec<(u32, u32)>)
    ensures
        match *entry {
            EntryCells::Packed(cells) => counts@ == live_cells(cells@, superseded@.to_set()),
            EntryCells::Single { partition_hint, n_docs } => {
                let cell = match partition_hint {
                    Some(h) => h,
                    None => 0,
                };
                counts@ == if superseded@.contains(cell) {
                    Seq::<(u32, u32)>::empty()
                } else {
                    seq![(cell, (n_docs % 0x1_0000_0000) as u32)]
                }
            },
        },
{
    let mut counts: Vec<(u32, u32)> = Vec::new();
    match entry {
        EntryCells::Packed(cells) => {
            let mut i: usize = 0;
            assert(cells@.take(0) =~= Seq::<(u32, Option<u32>)>::empty());
            while i < cells.len()
                invariant
                    i <= cells.len(),
                    counts@ == live_cells(cells@.take(i as int), superseded@.to_set()),
                decreases cells.len() - i,
            {
                proof {
                    assert(cells@.take(i + 1).drop_last() =~= cells@.take(i as int));
                }
                let cell: u32 = cells[i].0;
                if !is_among(superseded, cell) {
                    if let Some(n) = cells[i].1 {
                        counts.push((cell, n));
                    }
                }
                i = i + 1;
            }
            assert(cells@.take(i as int) =~= cells@);
        },
        EntryCells::Single { partition_hint, n_docs } => {
            let cell: u32 = match partition_hint {
                Some(h) => *h,
                None => 0,
            };
            if !is_among(superseded, cell) {
                let rows: u32 = (*n_docs % 0x1_0000_0000) as u32;
                counts.push((cell, rows));
                assert(counts@ =~= seq![(cell, rows)]);
            }
        },
    }
    counts
}

} // verus!
