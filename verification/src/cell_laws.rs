//! What the cells of a table hold: which rows go where, in which order, and how
//! they are packed.
use vstd::prelude::*;

use crate::arith::ceil_div;
use crate::cells::{
    all_known, all_members, assigned_members, closest_first, fine_runs, flat_members, is_id_range,
    locals_by_id, margin_keys, member_key, member_keys, primary_ids, row_stride, rows_of_ids,
    shard_of, shard_primary_ids, AssignedCellGroup, CellMember, ReplicaCandidate,
};
use crate::drain_run::PackedCell;
use crate::order::{comes_before, sorted_by, stable_order_exists, the_order};
use crate::packed::{
    built_shards, cells_in_order, files_of, header_layout, hints_of, id_bytes, ids_complete,
    joined_ids, keyed_groups, live_cells, shard_cell_keys, CellFormat, ShardCell, SpilledCellFault,
    DRAIN_ID_BATCH_ROWS,
};
use crate::wire::{le16_bytes, le4, le8};

verus! {

// ---------------------------------------------------------------------------
// Numbers
// ---------------------------------------------------------------------------

/// A quotient that is rounded up is the least number of parts that hold the whole.
pub proof fn rounded_up_is_the_least_that_holds(a: int, b: int)
    requires
        0 <= a,
        0 < b,
    ensures
        (ceil_div(a, b) - 1) * b < a <= ceil_div(a, b) * b,
{
    vstd::arithmetic::div_mod::lemma_fundamental_div_mod(a, b);
    vstd::arithmetic::div_mod::lemma_mod_bound(a, b);
    let q = a / b;
    let r = a % b;
    assert(q * b == b * q) by (nonlinear_arith);
    assert((q - 1) * b == q * b - b) by (nonlinear_arith);
    assert((q + 1) * b == q * b + b) by (nonlinear_arith);
}

/// A cell belongs to the shard that is left over when the shards are dealt out to
/// the cells in turn.
pub proof fn cells_are_dealt_out_in_turn(cell: u32, shard_count: int)
    requires
        0 < shard_count,
    ensures
        0 <= shard_of(cell, shard_count) < shard_count,
        cell < shard_count ==> shard_of(cell, shard_count) == cell,
        cell >= shard_count && shard_count <= u32::MAX ==> shard_of(cell, shard_count) == shard_of(
            (cell - shard_count) as u32,
            shard_count,
        ),
{
    vstd::arithmetic::div_mod::lemma_mod_bound(cell as int, shard_count);
    if cell < shard_count {
        vstd::arithmetic::div_mod::lemma_small_mod(cell as nat, shard_count as nat);
    } else {
        vstd::arithmetic::div_mod::lemma_mod_sub_multiples_vanish(cell as int, shard_count);
        assert((cell - shard_count) % shard_count == (-shard_count + cell as int) % shard_count);
    }
}

/// A row takes a bit a value, its number, its reranking bytes, its stable id, and a
/// correction of four bytes.
pub proof fn a_row_takes_its_parts(dim: int, doc_id_bytes: int, rerank_bytes: int, code: int)
    requires
        0 <= dim,
        (code - 1) * 8 < dim <= code * 8,
    ensures
        row_stride(dim, doc_id_bytes, rerank_bytes) == code + doc_id_bytes + rerank_bytes + 20,
{
    rounded_up_is_the_least_that_holds(dim, 8);
}

/// A cell is cut into the fewest runs of about two mebibytes, at least one row
/// each.
pub proof fn runs_are_about_two_mebibytes(n_rows: int, stride: int, per_run: int)
    requires
        0 < n_rows,
        0 < stride,
        0 < per_run,
        per_run * stride <= 2097152 < (per_run + 1) * stride || (per_run == 1 && stride > 2097152),
    ensures
        (fine_runs(n_rows, stride) - 1) * per_run < n_rows <= fine_runs(n_rows, stride) * per_run,
        1 <= fine_runs(n_rows, stride) <= n_rows,
{
    let target = 2097152int;
    vstd::arithmetic::div_mod::lemma_fundamental_div_mod(target, stride);
    vstd::arithmetic::div_mod::lemma_mod_bound(target, stride);
    let f = target / stride;
    if stride > target {
        vstd::arithmetic::div_mod::lemma_basic_div(target, stride);
        assert(per_run * stride >= stride) by (nonlinear_arith)
            requires
                stride > 0,
                per_run > 0,
        ;
    } else {
        assert(f == per_run) by (nonlinear_arith)
            requires
                per_run * stride <= target < (per_run + 1) * stride,
                target == stride * f + target % stride,
                0 <= target % stride < stride,
                stride > 0,
        ;
    }
    rounded_up_is_the_least_that_holds(n_rows, per_run);
    let runs = ceil_div(n_rows, per_run);
    assert(1 <= runs) by (nonlinear_arith)
        requires
            n_rows <= runs * per_run,
            n_rows > 0,
            per_run > 0,
    ;
    assert(runs <= n_rows) by (nonlinear_arith)
        requires
            (runs - 1) * per_run < n_rows,
            per_run > 0,
            n_rows > 0,
    ;
}

// ---------------------------------------------------------------------------
// Which rows a cell has
// ---------------------------------------------------------------------------

/// A batch gives a cell the copies that the budget admits, and every row its home.
/// Both carry the row's own stable id.
pub proof fn members_are_copies_and_every_row(
    stable_ids: Seq<i128>,
    primaries: Seq<u32>,
    replicas: Seq<(usize, u32)>,
    budget: int,
    i: int,
    row: int,
)
    requires
        0 <= budget,
        primaries.len() == stable_ids.len(),
        stable_ids.len() <= usize::MAX,
        0 <= i < replicas.len(),
        0 <= row < stable_ids.len(),
    ensures
        ({
            let all = all_members(stable_ids, primaries, replicas, budget);
            let copies = if replicas.len() < budget {
                replicas.len() as int
            } else {
                budget
            };
            &&& all.len() == copies + stable_ids.len()
            &&& i < copies ==> {
                let m = all[i];
                &&& m.0 == replicas[i].1
                &&& m.1.row == replicas[i].0
                &&& !m.1.is_primary
                &&& m.1.stable_id == stable_ids[replicas[i].0 as int]
            }
            &&& all[copies + row].0 == primaries[row]
            &&& all[copies + row].1.is_primary
            &&& all[copies + row].1.row == row
            &&& all[copies + row].1.stable_id == stable_ids[row]
        }),
{
}

/// Copies are made of the closest rows: no copy that comes later has a smaller
/// margin, and every candidate is there.
pub proof fn the_closest_rows_are_copied_first(candidates: Seq<ReplicaCandidate>)
    requires
        candidates.len() <= usize::MAX,
    ensures
        closest_first(candidates).len() == candidates.len(),
        exists|order: Seq<usize>|
            {
                &&& #[trigger] order.no_duplicates()
                &&& order.len() == candidates.len()
                &&& forall|i: int| 0 <= i < order.len() ==> (#[trigger] order[i]) < candidates.len()
                &&& forall|i: int|
                    0 <= i < order.len() ==> (#[trigger] closest_first(candidates)[i]) == (
                        candidates[order[i] as int].row,
                        candidates[order[i] as int].cell,
                    )
                &&& forall|i: int, j: int|
                    0 <= i < j < order.len() ==> {
                        let a = candidates[#[trigger] order[i] as int].margin;
                        let b = candidates[#[trigger] order[j] as int].margin;
                        a < b || (a == b && order[i] < order[j])
                    }
            },
{
    let keys = margin_keys(candidates);
    crate::order::sorting_is_stable(candidates, keys);
    let order = choose|order: Seq<usize>|
        {
            &&& #[trigger] order.no_duplicates()
            &&& order.len() == candidates.len()
            &&& forall|i: int| 0 <= i < order.len() ==> (#[trigger] order[i]) < candidates.len()
            &&& forall|i: int|
                0 <= i < order.len() ==> (#[trigger] sorted_by(candidates, keys)[i])
                    == candidates[order[i] as int]
            &&& forall|i: int, j: int|
                0 <= i < j < order.len() ==> {
                    let a = keys[#[trigger] order[i] as int];
                    let b = keys[#[trigger] order[j] as int];
                    a.0 < b.0 || (a.0 == b.0 && (a.1 < b.1 || (a.1 == b.1 && order[i] < order[j])))
                }
        };
    assert(order.no_duplicates());
    assert forall|i: int| 0 <= i < order.len() implies (#[trigger] closest_first(candidates)[i]) == (
        candidates[order[i] as int].row,
        candidates[order[i] as int].cell,
    ) by {
        assert(sorted_by(candidates, keys)[i] == candidates[order[i] as int]);
    }
    assert forall|i: int, j: int| 0 <= i < j < order.len() implies {
        let a = candidates[#[trigger] order[i] as int].margin;
        let b = candidates[#[trigger] order[j] as int].margin;
        a < b || (a == b && order[i] < order[j])
    } by {
        let ka = keys[order[i] as int];
        let kb = keys[order[j] as int];
        assert(ka.0 < kb.0 || (ka.0 == kb.0 && (ka.1 < kb.1 || (ka.1 == kb.1 && order[i] < order[j]))));
        assert(ka == (candidates[order[i] as int].margin as i128, 0u128));
        assert(kb == (candidates[order[j] as int].margin as i128, 0u128));
    }
}

/// Members stand by their cells, within a cell the rows at home before the copies,
/// and within those by their stable ids. None is lost and none is added.
pub proof fn members_stand_by_cell_and_id(
    stable_ids: Seq<i128>,
    primaries: Seq<u32>,
    candidates: Seq<ReplicaCandidate>,
    budget: int,
    i: int,
    j: int,
)
    requires
        primaries.len() == stable_ids.len(),
        0 <= budget,
        stable_ids.len() + candidates.len() <= usize::MAX,
        0 <= i < j < assigned_members(stable_ids, primaries, candidates, budget).len(),
    ensures
        assigned_members(stable_ids, primaries, candidates, budget).to_multiset() =~= all_members(
            stable_ids,
            primaries,
            closest_first(candidates),
            budget,
        ).to_multiset(),
        ({
            let a = assigned_members(stable_ids, primaries, candidates, budget)[i];
            let b = assigned_members(stable_ids, primaries, candidates, budget)[j];
            ||| a.0 < b.0
            ||| a.0 == b.0 && a.1.is_primary && !b.1.is_primary
            ||| a.0 == b.0 && a.1.is_primary == b.1.is_primary && a.1.stable_id <= b.1.stable_id
        }),
{
    let all = all_members(stable_ids, primaries, closest_first(candidates), budget);
    let keys = member_keys(all);
    crate::order::sorted_by_keeps_items(all, keys);
    stable_order_exists(keys);
    let order = the_order(keys);
    let out = assigned_members(stable_ids, primaries, candidates, budget);
    assert(comes_before(keys, order[i] as int, order[j] as int));
    assert(out[i] == all[order[i] as int] && out[j] == all[order[j] as int]);
    assert(keys[order[i] as int] == member_key(out[i]));
    assert(keys[order[j] as int] == member_key(out[j]));
}

/// The members of groups one after another, each with the cell of its group.
pub proof fn groups_list_their_members(groups: Seq<AssignedCellGroup>, group: AssignedCellGroup)
    ensures
        flat_members(Seq::empty()).len() == 0,
        flat_members(groups.push(group)) == flat_members(groups) + group.members@.map_values(
            |m: CellMember| (group.cell_id, m),
        ),
        keyed_groups(groups.push(group)) == keyed_groups(groups).push((group.cell_id, group)),
{
    assert(groups.push(group).drop_last() =~= groups);
    assert(flat_members(groups.push(group)) =~= flat_members(groups) + group.members@.map_values(
        |m: CellMember| (group.cell_id, m),
    ));
    assert(keyed_groups(groups.push(group)) =~= keyed_groups(groups).push((group.cell_id, group)));
}

/// Every stable id is found at the last row that has it, and no other id is.
pub proof fn an_id_is_found_at_its_last_row(stable_ids: Seq<i128>, id: i128)
    requires
        stable_ids.len() <= u32::MAX,
    ensures
        locals_by_id(stable_ids).contains_key(id) <==> stable_ids.contains(id),
        locals_by_id(stable_ids).contains_key(id) ==> {
            let row = locals_by_id(stable_ids)[id] as int;
            &&& row < stable_ids.len()
            &&& stable_ids[row] == id
            &&& forall|k: int| row < k < stable_ids.len() ==> (#[trigger] stable_ids[k]) != id
        },
    decreases stable_ids.len(),
{
    if stable_ids.len() > 0 {
        let less = stable_ids.drop_last();
        let n = stable_ids.len() - 1;
        an_id_is_found_at_its_last_row(less, id);
        assert(stable_ids.last() == stable_ids[n]);
        if stable_ids.contains(id) && stable_ids[n] != id {
            let k = choose|k: int| 0 <= k < stable_ids.len() && stable_ids[k] == id;
            assert(less[k] == id);
        }
        if less.contains(id) {
            let k = choose|k: int| 0 <= k < less.len() && less[k] == id;
            assert(stable_ids[k] == id);
        }
        if stable_ids[n] != id && less.contains(id) {
            let row = locals_by_id(less)[id] as int;
            assert(less[row] == stable_ids[row]);
            assert forall|k: int| row < k < stable_ids.len() implies (#[trigger] stable_ids[k]) != id by {
                if k < n {
                    assert(less[k] == stable_ids[k]);
                }
            }
        }
    }
}

/// A shard has the rows whose home is in one of its cells, one cell after another;
/// each is looked up by its id.
pub proof fn a_shard_has_the_rows_at_home(
    members: Seq<CellMember>,
    cells: Seq<(u32, AssignedCellGroup)>,
    cell: (u32, AssignedCellGroup),
    ids: Seq<i128>,
    index: Map<i128, u32>,
    i: int,
)
    ensures
        primary_ids(members) == members.filter(|m: CellMember| m.is_primary).map_values(
            |m: CellMember| m.stable_id,
        ),
        shard_primary_ids(Seq::empty()).len() == 0,
        shard_primary_ids(cells.push(cell)) == shard_primary_ids(cells) + primary_ids(cell.1.members@),
        rows_of_ids(ids, index).len() == ids.len(),
        0 <= i < ids.len() ==> rows_of_ids(ids, index)[i] == index[ids[i]],
    decreases members.len(),
{
    reveal(Seq::filter);
    assert(cells.push(cell).drop_last() =~= cells);
    if members.len() > 0 {
        a_shard_has_the_rows_at_home(members.drop_last(), cells, cell, ids, index, i);
    }
    assert(primary_ids(members) =~= members.filter(|m: CellMember| m.is_primary).map_values(
        |m: CellMember| m.stable_id,
    ));
}

// ---------------------------------------------------------------------------
// How cells are packed
// ---------------------------------------------------------------------------

/// The cells of a shard stand by their numbers, and so do their ids: all ids of a
/// cell before those of the next.
pub proof fn packed_cells_stand_by_number(cells: Seq<ShardCell>, cell: ShardCell)
    requires
        cells.len() <= usize::MAX,
    ensures
        cells_in_order(cells).to_multiset() =~= cells.to_multiset(),
        forall|i: int, j: int|
            0 <= i < j < cells.len() ==> (#[trigger] cells_in_order(cells)[i]).cell_id <= (
            #[trigger] cells_in_order(cells)[j]).cell_id,
        joined_ids(Seq::empty()).len() == 0,
        joined_ids(cells.push(cell)) == joined_ids(cells) + cell.stable_ids@,
{
    assert(cells.push(cell).drop_last() =~= cells);
    let keys = shard_cell_keys(cells);
    crate::order::sorted_by_keeps_items(cells, keys);
    stable_order_exists(keys);
    let order = the_order(keys);
    let out = cells_in_order(cells);
    assert forall|i: int, j: int| 0 <= i < j < cells.len() implies (#[trigger] out[i]).cell_id <= (
    #[trigger] out[j]).cell_id by {
        assert(comes_before(keys, order[i] as int, order[j] as int));
        assert(keys[order[i] as int] == (out[i].cell_id as i128, 0u128));
        assert(keys[order[j] as int] == (out[j].cell_id as i128, 0u128));
    }
}

/// Ids are written one after another.
pub proof fn ids_are_written_one_after_another(ids: Seq<i128>, id: i128)
    ensures
        id_bytes(Seq::empty()).len() == 0,
        id_bytes(ids.push(id)) == id_bytes(ids) + le16_bytes(id),
{
    assert(ids.push(id).drop_last() =~= ids);
}

/// A shard that was not built has no file; the others keep their order, and each
/// file is placed in its own shard.
pub proof fn only_built_shards_have_a_file<T>(shards: Seq<Option<(u32, T)>>, built: Seq<(u32, T)>, i: int)
    ensures
        built_shards(shards) == shards.filter(|s: Option<(u32, T)>| s is Some).map_values(
            |s: Option<(u32, T)>| s->0,
        ),
        files_of(built).len() == built.len(),
        hints_of(built).len() == built.len(),
        0 <= i < built.len() ==> files_of(built)[i] == built[i].1 && hints_of(built)[i] == Some(built[i].0),
    decreases shards.len(),
{
    reveal(Seq::filter);
    if shards.len() > 0 {
        only_built_shards_have_a_file(shards.drop_last(), built, i);
    }
    assert(built_shards(shards) =~= shards.filter(|s: Option<(u32, T)>| s is Some).map_values(
        |s: Option<(u32, T)>| s->0,
    ));
}

/// A file's cells are counted unless they are superseded or have no count.
pub proof fn live_cells_are_counted(cells: Seq<(u32, Option<u32>)>, superseded: Set<u32>)
    ensures
        live_cells(cells, superseded) == cells.filter(
            |c: (u32, Option<u32>)| c.1 is Some && !superseded.contains(c.0),
        ).map_values(|c: (u32, Option<u32>)| (c.0, c.1->0)),
    decreases cells.len(),
{
    reveal(Seq::filter);
    if cells.len() > 0 {
        live_cells_are_counted(cells.drop_last(), superseded);
    }
    assert(live_cells(cells, superseded) =~= cells.filter(
        |c: (u32, Option<u32>)| c.1 is Some && !superseded.contains(c.0),
    ).map_values(|c: (u32, Option<u32>)| (c.0, c.1->0)));
}

/// A packed cell is read when it is as long as was noted and its centroids are
/// whole: they fill the bytes up to the index. Behind the index stands what the
/// codec noted, if it did.
pub proof fn header_tells_where_the_parts_are(cell: PackedCell, bytes: Seq<u8>, dim: int, format: CellFormat)
    requires
        0 < dim,
    ensures
        match header_layout(cell, bytes, dim, format) {
            Ok(l) => {
                let centroids = le8(bytes, format.centroids_off as int);
                let index = le8(bytes, format.cluster_idx_off as int);
                let size = le4(bytes, format.codec_meta_size_off as int);
                let count = (index - centroids) / (dim * 4);
                &&& bytes.len() == cell.subsection_len
                &&& format.header_size + format.crc_bytes <= bytes.len()
                &&& count * (dim * 4) + centroids == index
                &&& l.n_cent == count as u64
                &&& l.summary_offset == le8(bytes, format.summary_off as int) as u64
                &&& l.codec_meta_size == size as u32
                &&& size == 0 ==> l.codec_meta_offset == 0
                &&& size != 0 ==> l.codec_meta_offset == (index + count * format.cluster_idx_entry_bytes) as u64
                &&& index + count * format.cluster_idx_entry_bytes <= u64::MAX
            },
            Err(SpilledCellFault::Length { cell: c, expected, found }) => {
                &&& bytes.len() != cell.subsection_len
                &&& c == cell.cell_id && expected == cell.subsection_len && found == bytes.len() as u64
            },
            Err(SpilledCellFault::TooShort { cell: c }) => {
                &&& bytes.len() == cell.subsection_len
                &&& bytes.len() - format.header_size < format.crc_bytes
                &&& c == cell.cell_id
            },
            Err(SpilledCellFault::CentroidRegion { cell: c }) => {
                let span = le8(bytes, format.cluster_idx_off as int) - le8(bytes, format.centroids_off as int);
                &&& bytes.len() == cell.subsection_len
                &&& c == cell.cell_id
                &&& span < 0 || forall|k: int| #[trigger] (k * (dim * 4)) != span
            },
            Err(SpilledCellFault::OffsetOverflow { cell: c }) => {
                let centroids = le8(bytes, format.centroids_off as int);
                let index = le8(bytes, format.cluster_idx_off as int);
                &&& c == cell.cell_id
                &&& index + (index - centroids) / (dim * 4) * format.cluster_idx_entry_bytes > u64::MAX
            },
            Err(_) => false,
        },
{
    let span = le8(bytes, format.cluster_idx_off as int) - le8(bytes, format.centroids_off as int);
    let w = dim * 4;
    vstd::arithmetic::div_mod::lemma_fundamental_div_mod(span, w);
    assert(w * (span / w) == (span / w) * w) by (nonlinear_arith);
    if span % w != 0 {
        assert forall|k: int| #[trigger] (k * (dim * 4)) != span by {
            vstd::arithmetic::div_mod::lemma_mod_multiples_basic(k, w);
        }
    }
}

/// A range of ids is their least and their greatest; without ids it is zero.
pub proof fn an_id_range_is_the_least_and_the_greatest(range: (i128, i128), ids: Seq<i128>, i: int)
    requires
        is_id_range(range, ids),
    ensures
        ids.len() == 0 ==> range.0 == 0 && range.1 == 0,
        0 <= i < ids.len() ==> range.0 <= ids[i] && ids[i] <= range.1,
        ids.len() > 0 ==> (exists|k: int| 0 <= k < ids.len() && #[trigger] ids[k] == range.0) && (exists|k: int|
            0 <= k < ids.len() && #[trigger] ids[k] == range.1),
{
}

/// Ids are known when the index has each of them; a cell is complete with an id for
/// every row.
pub proof fn ids_are_known_one_by_one(ids: Seq<i128>, id: i128, index: Map<i128, u32>, cell: ShardCell)
    ensures
        all_known(Seq::empty(), index),
        all_known(ids.push(id), index) <==> all_known(ids, index) && index.contains_key(id),
        ids_complete(cell) <==> cell.stable_ids@.len() == cell.n_docs,
{
    let more = ids.push(id);
    if all_known(more, index) {
        assert forall|i: int| 0 <= i < ids.len() implies index.contains_key(#[trigger] ids[i]) by {
            assert(more[i] == ids[i]);
        }
        assert(more[ids.len() as int] == id);
    }
    if all_known(ids, index) && index.contains_key(id) {
        assert forall|i: int| 0 <= i < more.len() implies index.contains_key(#[trigger] more[i]) by {
            if i < ids.len() {
                assert(more[i] == ids[i]);
            }
        }
    }
}

/// Ids are written in batches of 65536 rows.
pub proof fn ids_are_written_in_batches(n_docs: int, batches: int)
    requires
        0 <= n_docs,
        batches == (n_docs + DRAIN_ID_BATCH_ROWS - 1) / DRAIN_ID_BATCH_ROWS as int,
    ensures
        (batches - 1) * 65536 < n_docs <= batches * 65536,
{
}

} // verus!
