//! Rows in cells, and cells in shards.
//!
//! A commit assigns every row to its home cell, and a limited number of rows
//! near a border to a second cell as replicas. Whole cells then go to shards,
//! each cell to the shard that its number leaves as remainder.
use vstd::prelude::*;

use std::collections::HashMap;

use crate::arith::{capped, ceil_div, div_ceil_usize, saturating_mul_usize};
use crate::order::{is_stable_order, sorted_by, stable_order, the_order, SortKey};

verus! {

broadcast use vstd::std_specs::hash::group_hash_axioms;

/// Bytes that one fine run of a cell is meant to have.
pub const DRAIN_FINE_RUN_TARGET_BYTES: usize = 2097152;

/// Bytes of a stable id.
pub const STABLE_ID_BYTES: usize = 16;

// ---------------------------------------------------------------------------
// Shards
// ---------------------------------------------------------------------------

/// The number of shards: one for each thread of the pool, at least one.
pub fn packed_cell_shard_count(pool_threads: usize) -> (n: usize)
    ensures
        n == if pool_threads == 0 {
            1
        } else {
            pool_threads
        },
{
    if pool_threads == 0 {
        1
    } else {
        pool_threads
    }
}

/// The shard that a cell goes to.
pub open spec fn shard_of(cell: u32, shard_count: int) -> int {
    cell as int % shard_count
}

/// The shard that a cell goes to.
pub fn packed_cell_shard(cell: u32, shard_count: usize) -> (shard: usize)
    requires
        shard_count > 0,
    ensures
        shard == shard_of(cell, shard_count as int),
        shard < shard_count,
        shard <= cell,
{
    proof {
        vstd::arithmetic::div_mod::lemma_mod_decreases(cell as nat, shard_count as nat);
    }
    (cell as usize) % shard_count
}

/// The cells of one shard, in the order they came.
pub open spec fn cells_of_shard<T>(cells: Seq<(u32, T)>, shard_count: int, shard: int) -> Seq<(u32, T)>
    decreases cells.len(),
{
    if cells.len() == 0 {
        Seq::empty()
    } else {
        let rest = cells_of_shard(cells.drop_first(), shard_count, shard);
        if shard_of(cells.first().0, shard_count) == shard {
            rest.insert(0, cells.first())
        } else {
            rest
        }
    }
}

/// No cell stands before a smaller one.
pub open spec fn cells_ascend<T>(cells: Seq<(u32, T)>) -> bool {
    forall|i: int, j: int| 0 <= i < j < cells.len() ==> (#[trigger] cells[i]).0 <= (#[trigger] cells[j]).0
}

/// The shards that have cells, in ascending order, each with exactly its cells
/// in ascending order.
pub open spec fn is_shard_grouping<T>(
    groups: Seq<(u32, Vec<(u32, T)>)>,
    cells: Seq<(u32, T)>,
    shard_count: int,
) -> bool {
    &&& forall|i: int| 0 <= i < groups.len() ==> {
        &&& (#[trigger] groups[i]).0 < shard_count
        &&& groups[i].1.len() > 0
        &&& cells_ascend(groups[i].1@)
        &&& groups[i].1@.to_multiset() == cells_of_shard(
            cells,
            shard_count,
            groups[i].0 as int,
        ).to_multiset()
    }
    &&& forall|i: int, j: int|
        0 <= i < j < groups.len() ==> (#[trigger] groups[i]).0 < (#[trigger] groups[j]).0
    &&& forall|s: int|
        0 <= s < shard_count && (#[trigger] cells_of_shard(cells, shard_count, s)).len() > 0 ==> exists|
            i: int,
        |
            0 <= i < groups.len() && (#[trigger] groups[i]).0 == s
}

fn insert_ascending<T>(cells: &mut Vec<(u32, T)>, item: (u32, T))
    requires
        cells_ascend(old(cells)@),
    ensures
        cells_ascend(final(cells)@),
        final(cells)@.to_multiset() == old(cells)@.to_multiset().insert(item),
        final(cells).len() == old(cells).len() + 1,
{
    let ghost before = cells@;
    let mut at: usize = cells.len();
    while at > 0 && cells[at - 1].0 > item.0
        invariant
            at <= cells.len(),
            cells@ == before,
            forall|k: int| at <= k < cells.len() ==> (#[trigger] cells@[k]).0 > item.0,
        decreases at,
    {
        at = at - 1;
    }
    proof {
        vstd::seq_lib::to_multiset_insert(before, at as int, item);
    }
    cells.insert(at, item);
    assert forall|i: int, j: int| 0 <= i < j < cells.len() implies (#[trigger] cells@[i]).0 <= (
    #[trigger] cells@[j]).0 by {
        let a = if i < at {
            i
        } else {
            i - 1
        };
        let b = if j < at {
            j
        } else {
            j - 1
        };
        if i != at && j != at {
            assert(cells@[i] == before[a] && cells@[j] == before[b]);
        } else if i == at {
            assert(cells@[j] == before[b]);
        } else {
            assert(cells@[i] == before[i]);
            if i < at - 1 {
                assert(before[i].0 <= before[at - 1].0);
            }
        }
    }
}

/// Groups cells by shard.
pub fn group_cells_by_packed_shard<T>(cells: Vec<(u32, T)>, shard_count: usize) -> (groups: Vec<
    (u32, Vec<(u32, T)>),
>)
    requires
        0 < shard_count <= u32::MAX,
    ensures
        is_shard_grouping(groups@, cells@, shard_count as int),
{
    let ghost all = cells@;
    let mut buckets: Vec<Vec<(u32, T)>> = Vec::new();
    let mut s: usize = 0;
    while s < shard_count
        invariant
            s <= shard_count,
            buckets.len() == s,
            forall|q: int| 0 <= q < s ==> (#[trigger] buckets@[q])@ == Seq::<(u32, T)>::empty(),
        decreases shard_count - s,
    {
        let empty: Vec<(u32, T)> = Vec::new();
        buckets.push(empty);
        s = s + 1;
    }
    let mut rest = cells;
    proof {
        assert(all.skip(all.len() as int) =~= Seq::<(u32, T)>::empty());
    }
    while rest.len() > 0
        invariant
            0 < shard_count <= u32::MAX,
            buckets.len() == shard_count,
            rest.len() <= all.len(),
            rest@ == all.take(rest.len() as int),
            forall|q: int|
                0 <= q < shard_count ==> cells_ascend((#[trigger] buckets@[q])@) && buckets@[q]@.to_multiset()
                    == cells_of_shard(
                    all.skip(rest.len() as int),
                    shard_count as int,
                    q,
                ).to_multiset(),
        decreases rest.len(),
    {
        let ghost upto = rest.len();
        let ghost before = buckets@;
        match rest.pop() {
            Some(item) => {
                let shard: usize = packed_cell_shard(item.0, shard_count);
                proof {
                    assert(all.skip(upto - 1).drop_first() =~= all.skip(upto as int));
                    assert(all.skip(upto - 1).first() == item);
                    assert(rest@ =~= all.take(upto - 1));
                }
                insert_ascending(&mut buckets[shard], item);
                assert forall|q: int| 0 <= q < shard_count implies cells_ascend((#[trigger] buckets@[q])@)
                    && buckets@[q]@.to_multiset() == cells_of_shard(
                    all.skip(upto - 1),
                    shard_count as int,
                    q,
                ).to_multiset() by {
                    let old_cells = cells_of_shard(all.skip(upto as int), shard_count as int, q);
                    assert(cells_ascend(before[q]@));
                    if q == shard {
                        vstd::seq_lib::to_multiset_insert(old_cells, 0, item);
                    }
                }
            },
            None => {},
        }
    }
    assert(all.skip(0) =~= all);
    let ghost filled = buckets@;
    let mut groups: Vec<(u32, Vec<(u32, T)>)> = Vec::new();
    let mut c: u32 = 0;
    let mut left = buckets;
    while left.len() > 0
        invariant
            filled.len() == shard_count,
            shard_count <= u32::MAX,
            c + left.len() == shard_count,
            left@ == filled.skip(c as int),
            forall|q: int|
                0 <= q < shard_count ==> cells_ascend((#[trigger] filled[q])@) && filled[q]@.to_multiset()
                    == cells_of_shard(all, shard_count as int, q).to_multiset(),
            forall|i: int| 0 <= i < groups.len() ==> {
                &&& (#[trigger] groups@[i]).0 < c
                &&& groups@[i].1.len() > 0
                &&& cells_ascend(groups@[i].1@)
                &&& groups@[i].1@.to_multiset() == cells_of_shard(
                    all,
                    shard_count as int,
                    groups@[i].0 as int,
                ).to_multiset()
            },
            forall|i: int, j: int|
                0 <= i < j < groups.len() ==> (#[trigger] groups@[i]).0 < (#[trigger] groups@[j]).0,
            forall|q: int|
                0 <= q < c && (#[trigger] cells_of_shard(all, shard_count as int, q)).len() > 0 ==> exists|
                    i: int,
                |
                    0 <= i < groups.len() && (#[trigger] groups@[i]).0 == q,
        decreases left.len(),
    {
        let ghost before = groups@;
        let bucket: Vec<(u32, T)> = left.remove(0);
        proof {
            assert(bucket == filled[c as int]);
            assert(left@ =~= filled.skip(c + 1));
            bucket@.to_multiset_ensures();
            cells_of_shard(all, shard_count as int, c as int).to_multiset_ensures();
        }
        if bucket.len() > 0 {
            groups.push((c, bucket));
            assert(groups@[before.len() as int].0 == c);
        }
        assert forall|q: int|
            0 <= q < c + 1 && (#[trigger] cells_of_shard(all, shard_count as int, q)).len() > 0 implies exists|
            i: int,
        |
            0 <= i < groups.len() && (#[trigger] groups@[i]).0 == q by {
            if q < c {
                let i = choose|i: int| 0 <= i < before.len() && (#[trigger] before[i]).0 == q;
                assert(groups@[i].0 == q);
            } else {
                assert(groups@[before.len() as int].0 == q);
            }
        }
        c = c + 1;
    }
    groups
}

// ---------------------------------------------------------------------------
// Assignment
// ---------------------------------------------------------------------------

/// One row in one cell. A primary is the row itself; any other member is a copy
/// that only the vector index holds.
#[derive(Clone, Copy, Debug, PartialEq, Eq, Structural)]
pub struct CellMember {
    pub stable_id: i128,
    pub is_primary: bool,
    /// The row's number in the commit.
    pub row: usize,
}

/// A cell and its members, primaries first, each kind by stable id.
#[derive(Debug)]
pub struct AssignedCellGroup {
    pub cell_id: u32,
    pub members: Vec<CellMember>,
}

/// The members of all cells, each with its cell: the replicas that the budget
/// admits, then every row in its home cell.
pub open spec fn all_members(
    stable_ids: Seq<i128>,
    primaries: Seq<u32>,
    replicas: Seq<(usize, u32)>,
    budget: int,
) -> Seq<(u32, CellMember)> {
    let admitted = replicas.take(capped(replicas.len() as int, budget));
    Seq::new(
        admitted.len(),
        |i: int|
            (
                admitted[i].1,
                CellMember {
                    stable_id: stable_ids[admitted[i].0 as int],
                    is_primary: false,
                    row: admitted[i].0,
                },
            ),
    ) + Seq::new(
        stable_ids.len(),
        |i: int|
            (
                primaries[i],
                CellMember { stable_id: stable_ids[i], is_primary: true, row: i as usize },
            ),
    )
}

/// The number of an id when ids are counted from the smallest one on.
pub open spec fn id_rank(id: i128) -> u128 {
    (id + 0x8000_0000_0000_0000_0000_0000_0000_0000) as u128
}

/// Members sort by cell, primaries before replicas, then by stable id.
pub open spec fn member_key(m: (u32, CellMember)) -> SortKey {
    (
        (m.0 * 2 + if m.1.is_primary {
            0int
        } else {
            1
        }) as i128,
        id_rank(m.1.stable_id),
    )
}

pub open spec fn member_keys(members: Seq<(u32, CellMember)>) -> Seq<SortKey> {
    Seq::new(members.len(), |i: int| member_key(members[i]))
}

/// The members of the groups, one group after the other, each with its cell.
pub open spec fn flat_members(groups: Seq<AssignedCellGroup>) -> Seq<(u32, CellMember)>
    decreases groups.len(),
{
    if groups.len() == 0 {
        Seq::empty()
    } else {
        flat_members(groups.drop_last()) + Seq::new(
            groups.last().members@.len(),
            |i: int| (groups.last().cell_id, groups.last().members@[i]),
        )
    }
}

/// Cells in ascending order, none without members.
pub open spec fn groups_ascend(groups: Seq<AssignedCellGroup>) -> bool {
    &&& forall|i: int| 0 <= i < groups.len() ==> (#[trigger] groups[i]).members.len() > 0
    &&& forall|i: int, j: int|
        0 <= i < j < groups.len() ==> (#[trigger] groups[i]).cell_id < (#[trigger] groups[j]).cell_id
}

fn rank_of_id(id: i128) -> (r: u128)
    ensures
        r == id_rank(id),
{
    if id >= 0 {
        0x8000_0000_0000_0000_0000_0000_0000_0000 + id as u128
    } else {
        ((id + 1) + i128::MAX) as u128
    }
}

/// A further cell for a row near a border.
#[derive(Clone, Copy, Debug, PartialEq, Eq, Structural)]
pub struct ReplicaCandidate {
    pub row: usize,
    pub cell: u32,
    /// How much farther the cell is than the row's home, as a number that orders
    /// as the distances do.
    pub margin: i32,
}

/// Candidates sort by their margin.
pub open spec fn margin_keys(candidates: Seq<ReplicaCandidate>) -> Seq<SortKey> {
    Seq::new(candidates.len(), |i: int| (candidates[i].margin as i128, 0u128))
}

/// The row and the cell of each candidate, the closest first, equally close ones
/// in their first order.
pub open spec fn closest_first(candidates: Seq<ReplicaCandidate>) -> Seq<(usize, u32)> {
    let sorted = sorted_by(candidates, margin_keys(candidates));
    Seq::new(candidates.len(), |i: int| (sorted[i].row, sorted[i].cell))
}

/// Sorts candidates by their margin.
pub(crate) fn sort_candidates(candidates: &Vec<ReplicaCandidate>, n_rows: usize) -> (replicas: Vec<(usize, u32)>)
    requires
        forall|i: int| 0 <= i < candidates.len() ==> (#[trigger] candidates@[i]).row < n_rows,
    ensures
        replicas@ == closest_first(candidates@),
        forall|i: int| 0 <= i < replicas.len() ==> (#[trigger] replicas@[i]).0 < n_rows,
{
    let mut keys: Vec<SortKey> = Vec::new();
    let mut i: usize = 0;
    while i < candidates.len()
        invariant
            i <= candidates.len(),
            keys@ == margin_keys(candidates@.take(i as int)),
        decreases candidates.len() - i,
    {
        keys.push((candidates[i].margin as i128, 0));
        i = i + 1;
        assert(keys@ =~= margin_keys(candidates@.take(i as int)));
    }
    assert(candidates@.take(i as int) =~= candidates@);
    let order = stable_order(&keys);
    let mut replicas: Vec<(usize, u32)> = Vec::new();
    let mut k: usize = 0;
    while k < order.len()
        invariant
            k <= order.len(),
            order.len() == candidates.len(),
            order@ == the_order(margin_keys(candidates@)),
            is_stable_order(margin_keys(candidates@), order@),
            forall|i: int| 0 <= i < candidates.len() ==> (#[trigger] candidates@[i]).row < n_rows,
            replicas.len() == k,
            forall|j: int|
                0 <= j < k ==> (#[trigger] replicas@[j]) == closest_first(candidates@)[j] && replicas@[j].0
                    < n_rows,
        decreases order.len() - k,
    {
        let at: usize = order[k];
        replicas.push((candidates[at].row, candidates[at].cell));
        k = k + 1;
    }
    assert(replicas@ =~= closest_first(candidates@));
    replicas
}

/// Puts the rows of a commit into cells. `primaries` has the home cell of every
/// row; the candidates name further cells for rows near a border, of which the
/// budget takes the closest.
pub fn assign_cells(
    stable_ids: &Vec<i128>,
    primaries: &Vec<u32>,
    candidates: &Vec<ReplicaCandidate>,
    replica_budget: usize,
) -> (groups: Vec<AssignedCellGroup>)
    requires
        primaries.len() == stable_ids.len(),
        forall|i: int| 0 <= i < candidates.len() ==> (#[trigger] candidates@[i]).row < stable_ids.len(),
    ensures
        groups_ascend(groups@),
        flat_members(groups@) == assigned_members(
            stable_ids@,
            primaries@,
            candidates@,
            replica_budget as int,
        ),
{
    let replicas = sort_candidates(candidates, stable_ids.len());
    place_members(stable_ids, primaries, &replicas, replica_budget)
}

/// The members of all cells in order, each with its cell.
pub open spec fn assigned_members(
    stable_ids: Seq<i128>,
    primaries: Seq<u32>,
    candidates: Seq<ReplicaCandidate>,
    budget: int,
) -> Seq<(u32, CellMember)> {
    let members = all_members(stable_ids, primaries, closest_first(candidates), budget);
    sorted_by(members, member_keys(members))
}

fn place_members(
    stable_ids: &Vec<i128>,
    primaries: &Vec<u32>,
    replicas: &Vec<(usize, u32)>,
    replica_budget: usize,
) -> (groups: Vec<AssignedCellGroup>)
    requires
        primaries.len() == stable_ids.len(),
        forall|i: int| 0 <= i < replicas.len() ==> (#[trigger] replicas@[i]).0 < stable_ids.len(),
    ensures
        groups_ascend(groups@),
        flat_members(groups@) == sorted_by(
            all_members(stable_ids@, primaries@, replicas@, replica_budget as int),
            member_keys(all_members(stable_ids@, primaries@, replicas@, replica_budget as int)),
        ),
{
    let ghost wanted = all_members(stable_ids@, primaries@, replicas@, replica_budget as int);
    let admitted: usize = if replicas.len() <= replica_budget {
        replicas.len()
    } else {
        replica_budget
    };
    let mut members: Vec<(u32, CellMember)> = Vec::new();
    let mut keys: Vec<SortKey> = Vec::new();
    let mut i: usize = 0;
    while i < admitted
        invariant
            i <= admitted <= replicas.len(),
            admitted == capped(replicas.len() as int, replica_budget as int),
            wanted == all_members(stable_ids@, primaries@, replicas@, replica_budget as int),
            forall|k: int| 0 <= k < replicas.len() ==> (#[trigger] replicas@[k]).0 < stable_ids.len(),
            members@ == wanted.take(i as int),
            keys@ == member_keys(members@),
        decreases admitted - i,
    {
        let row: usize = replicas[i].0;
        let member = CellMember { stable_id: stable_ids[row], is_primary: false, row };
        members.push((replicas[i].1, member));
        keys.push((replicas[i].1 as i128 * 2 + 1, rank_of_id(stable_ids[row])));
        i = i + 1;
        assert(members@ =~= wanted.take(i as int));
        assert(keys@ =~= member_keys(members@));
    }
    let mut row: usize = 0;
    while row < stable_ids.len()
        invariant
            row <= stable_ids.len(),
            primaries.len() == stable_ids.len(),
            admitted == capped(replicas.len() as int, replica_budget as int),
            wanted == all_members(stable_ids@, primaries@, replicas@, replica_budget as int),
            members@ == wanted.take(admitted + row),
            keys@ == member_keys(members@),
        decreases stable_ids.len() - row,
    {
        let member = CellMember { stable_id: stable_ids[row], is_primary: true, row };
        members.push((primaries[row], member));
        keys.push((primaries[row] as i128 * 2, rank_of_id(stable_ids[row])));
        row = row + 1;
        assert(members@ =~= wanted.take(admitted + row));
        assert(keys@ =~= member_keys(members@));
    }
    assert(members@ =~= wanted);
    let order = stable_order(&keys);
    let ghost sorted = sorted_by(wanted, keys@);
    let mut groups: Vec<AssignedCellGroup> = Vec::new();
    let mut k: usize = 0;
    assert(flat_members(groups@) =~= sorted.take(0));
    while k < order.len()
        invariant
            k <= order.len(),
            members@ == wanted,
            keys@ == member_keys(wanted),
            crate::order::is_stable_order(keys@, order@),
            order@ == crate::order::the_order(keys@),
            sorted == sorted_by(wanted, keys@),
            groups_ascend(groups@),
            flat_members(groups@) == sorted.take(k as int),
            k == 0 <==> groups.len() == 0,
            k > 0 ==> groups@.last().cell_id == sorted[k - 1].0,
        decreases order.len() - k,
    {
        let item: (u32, CellMember) = members[order[k]];
        assert(item == sorted[k as int]);
        let n: usize = groups.len();
        let ghost before = groups@;
        proof {
            if k > 0 {
                let a = order@[k - 1] as int;
                let b = order@[k as int] as int;
                assert(crate::order::comes_before(keys@, a, b));
                assert(member_key(wanted[a]) == keys@[a]);
                assert(member_key(wanted[b]) == keys@[b]);
                assert(sorted[k - 1].0 <= sorted[k as int].0);
            }
        }
        if n > 0 && groups[n - 1].cell_id == item.0 {
            groups[n - 1].members.push(item.1);
            proof {
                let g = groups@.last();
                let h = before.last();
                assert(groups@.drop_last() =~= before.drop_last());
                assert(g.members@ == h.members@.push(item.1));
                assert(flat_members(groups@) =~= flat_members(before).push(item));
                assert forall|i: int, j: int| 0 <= i < j < groups.len() implies (#[trigger] groups@[i]).cell_id
                    < (#[trigger] groups@[j]).cell_id by {
                    assert(before[i].cell_id < before[j].cell_id);
                }
            }
        } else {
            let mut first: Vec<CellMember> = Vec::new();
            first.push(item.1);
            groups.push(AssignedCellGroup { cell_id: item.0, members: first });
            proof {
                assert(groups@.drop_last() =~= before);
                assert(flat_members(groups@) =~= flat_members(before).push(item));
                assert forall|i: int, j: int| 0 <= i < j < groups.len() implies (#[trigger] groups@[i]).cell_id
                    < (#[trigger] groups@[j]).cell_id by {
                    if j == n {
                        if i < n - 1 {
                            assert(before[i].cell_id < before[n - 1].cell_id);
                        }
                    } else {
                        assert(before[i].cell_id < before[j].cell_id);
                    }
                }
            }
        }
        k = k + 1;
        assert(sorted.take(k as int) =~= sorted.take(k - 1).push(sorted[k - 1]));
    }
    assert(sorted.take(k as int) =~= sorted);
    groups
}

/// Every row is a primary member of exactly its home cell, whatever the
/// replicas: the members are the rows and the admitted replicas, rearranged.
pub proof fn every_row_has_its_home(
    stable_ids: Seq<i128>,
    primaries: Seq<u32>,
    candidates: Seq<ReplicaCandidate>,
    budget: int,
    groups: Seq<AssignedCellGroup>,
    row: int,
)
    requires
        primaries.len() == stable_ids.len(),
        budget >= 0,
        0 <= row < stable_ids.len(),
        stable_ids.len() + candidates.len() <= usize::MAX,
        flat_members(groups) == assigned_members(stable_ids, primaries, candidates, budget),
    ensures
        flat_members(groups).contains(
            (
                primaries[row],
                CellMember { stable_id: stable_ids[row], is_primary: true, row: row as usize },
            ),
        ),
        flat_members(groups).len() == stable_ids.len() + capped(candidates.len() as int, budget),
{
    let replicas = closest_first(candidates);
    let all = all_members(stable_ids, primaries, replicas, budget);
    let admitted = capped(replicas.len() as int, budget);
    crate::order::sorted_by_keeps_items(all, member_keys(all));
    assert(all[admitted + row] == (
        primaries[row],
        CellMember { stable_id: stable_ids[row], is_primary: true, row: row as usize },
    ));
    assert(all.contains(all[admitted + row]));
}

// ---------------------------------------------------------------------------
// Row order of a shard
// ---------------------------------------------------------------------------

/// The row that each stable id belongs to; of rows with the same id the last.
pub open spec fn locals_by_id(stable_ids: Seq<i128>) -> Map<i128, u32>
    decreases stable_ids.len(),
{
    if stable_ids.len() == 0 {
        Map::empty()
    } else {
        locals_by_id(stable_ids.drop_last()).insert(stable_ids.last(), (stable_ids.len() - 1) as u32)
    }
}

/// Indexes the commit's rows by stable id.
pub fn index_locals(stable_ids: &Vec<i128>) -> (index: HashMap<i128, u32>)
    requires
        stable_ids.len() <= u32::MAX,
    ensures
        index@ == locals_by_id(stable_ids@),
{
    let mut index: HashMap<i128, u32> = HashMap::new();
    let mut i: usize = 0;
    assert(index@ =~= locals_by_id(stable_ids@.take(0)));
    while i < stable_ids.len()
        invariant
            i <= stable_ids.len(),
            stable_ids.len() <= u32::MAX,
            index@ == locals_by_id(stable_ids@.take(i as int)),
        decreases stable_ids.len() - i,
    {
        proof {
            assert(stable_ids@.take(i + 1).drop_last() =~= stable_ids@.take(i as int));
        }
        index.insert(stable_ids[i], i as u32);
        i = i + 1;
    }
    assert(stable_ids@.take(i as int) =~= stable_ids@);
    index
}

/// The ids of the primary members, in order.
pub open spec fn primary_ids(members: Seq<CellMember>) -> Seq<i128>
    decreases members.len(),
{
    if members.len() == 0 {
        Seq::empty()
    } else if members.last().is_primary {
        primary_ids(members.drop_last()).push(members.last().stable_id)
    } else {
        primary_ids(members.drop_last())
    }
}

/// The ids of a shard's primary members, cell by cell.
pub open spec fn shard_primary_ids(cells: Seq<(u32, AssignedCellGroup)>) -> Seq<i128>
    decreases cells.len(),
{
    if cells.len() == 0 {
        Seq::empty()
    } else {
        shard_primary_ids(cells.drop_last()) + primary_ids(cells.last().1.members@)
    }
}

/// Every id is in the index.
pub open spec fn all_known(ids: Seq<i128>, index: Map<i128, u32>) -> bool {
    forall|i: int| 0 <= i < ids.len() ==> index.contains_key(#[trigger] ids[i])
}

/// The rows of the ids.
pub open spec fn rows_of_ids(ids: Seq<i128>, index: Map<i128, u32>) -> Seq<u32> {
    Seq::new(ids.len(), |i: int| index[ids[i]])
}

/// The rows that a shard's file holds, in the order of its vector index: the
/// primaries of its cells, cell by cell. `None` for a shard of replicas alone,
/// which makes no file. Fails with the first primary that is no row of the
/// commit.
pub fn shard_row_order(cells: &Vec<(u32, AssignedCellGroup)>, local_by_id: &HashMap<i128, u32>) -> (result: Result<
    Option<Vec<u32>>,
    i128,
>)
    ensures
        match result {
            Ok(Some(rows)) => all_known(shard_primary_ids(cells@), local_by_id@) && rows@ == rows_of_ids(
                shard_primary_ids(cells@),
                local_by_id@,
            ) && rows.len() > 0,
            Ok(None) => shard_primary_ids(cells@).len() == 0,
            Err(id) => exists|i: int|
                0 <= i < shard_primary_ids(cells@).len() && #[trigger] shard_primary_ids(cells@)[i] == id
                    && !local_by_id@.contains_key(id) && all_known(
                    shard_primary_ids(cells@).take(i),
                    local_by_id@,
                ),
        },
{
    let mut rows: Vec<u32> = Vec::new();
    let ghost ids = shard_primary_ids(cells@);
    let mut c: usize = 0;
    let ghost mut done: Seq<i128> = Seq::empty();
    assert(rows@ =~= rows_of_ids(done, local_by_id@));
    while c < cells.len()
        invariant
            c <= cells.len(),
            ids == shard_primary_ids(cells@),
            done == shard_primary_ids(cells@.take(c as int)),
            all_known(done, local_by_id@),
            rows@ == rows_of_ids(done, local_by_id@),
        decreases cells.len() - c,
    {
        let members: &Vec<CellMember> = &cells[c].1.members;
        let ghost base = done;
        let mut m: usize = 0;
        assert(base + primary_ids(members@.take(0)) =~= base);
        proof {
            assert(cells@.take(c + 1).drop_last() =~= cells@.take(c as int));
            assert(cells@.take(c + 1).last() == cells@[c as int]);
            shard_prefix(cells@, c + 1);
        }
        while m < members.len()
            invariant
                m <= members.len(),
                c < cells.len(),
                *members == cells@[c as int].1.members,
                ids == shard_primary_ids(cells@),
                base == shard_primary_ids(cells@.take(c as int)),
                base + primary_ids(members@) == shard_primary_ids(cells@.take(c + 1)),
                shard_primary_ids(cells@.take(c + 1)).len() <= ids.len(),
                ids.take(shard_primary_ids(cells@.take(c + 1)).len() as int) == shard_primary_ids(
                    cells@.take(c + 1),
                ),
                done == base + primary_ids(members@.take(m as int)),
                all_known(done, local_by_id@),
                rows@ == rows_of_ids(done, local_by_id@),
            decreases members.len() - m,
        {
            proof {
                assert(members@.take(m + 1).drop_last() =~= members@.take(m as int));
                assert(members@.take(m + 1).last() == members@[m as int]);
            }
            if members[m].is_primary {
                let id: i128 = members[m].stable_id;
                match local_by_id.get(&id) {
                    Some(row) => {
                        rows.push(*row);
                        proof {
                            done = done.push(id);
                            assert(base + primary_ids(members@.take(m + 1)) =~= done);
                            assert(rows@ =~= rows_of_ids(done, local_by_id@));
                        }
                    },
                    None => {
                        proof {
                            primary_prefix(members@, m + 1);
                            let upto = shard_primary_ids(cells@.take(c + 1));
                            let at = done.len() as int;
                            assert(base + primary_ids(members@.take(m + 1)) =~= done.push(id));
                            assert(upto[at] == id) by {
                                assert(primary_ids(members@)[at - base.len()] == primary_ids(
                                    members@.take(m + 1),
                                )[at - base.len()]);
                            }
                            assert(ids[at] == id) by {
                                assert(ids.take(upto.len() as int)[at] == ids[at]);
                            }
                            assert forall|k: int| 0 <= k < at implies #[trigger] ids.take(at)[k] == done[k] by {
                                assert(ids.take(upto.len() as int)[k] == ids[k]);
                                if k >= base.len() {
                                    assert(primary_ids(members@)[k - base.len()] == primary_ids(
                                        members@.take(m + 1),
                                    )[k - base.len()]);
                                }
                            }
                            assert(all_known(ids.take(at), local_by_id@));
                        }
                        return Err(id);
                    },
                }
            }
            m = m + 1;
        }
        assert(members@.take(m as int) =~= members@);
        c = c + 1;
    }
    assert(cells@.take(c as int) =~= cells@);
    if rows.len() == 0 {
        Ok(None)
    } else {
        Ok(Some(rows))
    }
}

proof fn primary_prefix(members: Seq<CellMember>, n: int)
    requires
        0 <= n <= members.len(),
    ensures
        primary_ids(members.take(n)).len() <= primary_ids(members).len(),
        primary_ids(members).take(primary_ids(members.take(n)).len() as int) == primary_ids(
            members.take(n),
        ),
        forall|k: int|
            0 <= k < primary_ids(members.take(n)).len() ==> primary_ids(members)[k] == #[trigger] primary_ids(
                members.take(n),
            )[k],
    decreases members.len(),
{
    if n == members.len() {
        assert(members.take(n) =~= members);
        assert(primary_ids(members).take(primary_ids(members).len() as int) =~= primary_ids(members));
    } else {
        let less = members.drop_last();
        primary_prefix(less, n);
        assert(less.take(n) =~= members.take(n));
        let short = primary_ids(members.take(n));
        assert forall|k: int| 0 <= k < short.len() implies primary_ids(members)[k] == #[trigger] short[k] by {
            assert(primary_ids(less)[k] == short[k]);
        }
        assert(primary_ids(members).take(short.len() as int) =~= short);
    }
}

proof fn shard_prefix(cells: Seq<(u32, AssignedCellGroup)>, n: int)
    requires
        0 <= n <= cells.len(),
    ensures
        shard_primary_ids(cells.take(n)).len() <= shard_primary_ids(cells).len(),
        shard_primary_ids(cells).take(shard_primary_ids(cells.take(n)).len() as int) == shard_primary_ids(
            cells.take(n),
        ),
    decreases cells.len(),
{
    if n == cells.len() {
        assert(cells.take(n) =~= cells);
        assert(shard_primary_ids(cells).take(shard_primary_ids(cells).len() as int)
            =~= shard_primary_ids(cells));
    } else {
        let less = cells.drop_last();
        shard_prefix(less, n);
        assert(less.take(n) =~= cells.take(n));
        let short = shard_primary_ids(cells.take(n));
        assert(shard_primary_ids(cells).take(short.len() as int) =~= short) by {
            assert forall|k: int| 0 <= k < short.len() implies shard_primary_ids(cells)[k] == #[trigger] short[k] by {
                assert(shard_primary_ids(less).take(short.len() as int)[k] == short[k]);
            }
        }
    }
}

// ---------------------------------------------------------------------------
// Fine runs
// ---------------------------------------------------------------------------

/// How a codec stores one vector for the exact rescoring.
#[derive(Clone, Copy, Debug, PartialEq, Eq, Structural)]
pub struct RerankCodecInfo {
    pub codec_id: u8,
    /// Cells in this codec can be merged without decoding them.
    pub ivf_mergeable: bool,
    pub per_vector_bytes: usize,
}

/// Bytes of one row in a packed cell: the one-bit code, the local id, the
/// rescoring bytes, the stable id and the norm.
pub open spec fn row_stride(dim: int, doc_id_bytes: int, rerank_bytes: int) -> int {
    ceil_div(dim, 8) + doc_id_bytes + rerank_bytes + STABLE_ID_BYTES + 4
}

/// The number of fine runs that `n_rows` rows of this stride make: so many that
/// a run has about the target's bytes, at least one and at most one for each
/// row.
pub open spec fn fine_runs(n_rows: int, stride: int) -> int {
    let fitting = DRAIN_FINE_RUN_TARGET_BYTES as int / stride;
    let rows_per_run = if fitting == 0 {
        1
    } else {
        fitting
    };
    let runs = ceil_div(n_rows, rows_per_run);
    if runs < 1 {
        1
    } else {
        capped(runs, n_rows)
    }
}

/// Tells whether the bytes of one row can be counted.
pub fn row_stride_fits(dim: usize, doc_id_bytes: usize, rerank_bytes: usize) -> (fits: bool)
    ensures
        fits == (row_stride(dim as int, doc_id_bytes as int, rerank_bytes as int) <= usize::MAX),
{
    let code: usize = div_ceil_usize(dim, 8);
    match code.checked_add(doc_id_bytes) {
        None => false,
        Some(n) => match n.checked_add(rerank_bytes) {
            None => false,
            Some(n) => n <= usize::MAX - STABLE_ID_BYTES - 4,
        },
    }
}

/// The codec of a cell and the number of its fine runs. A codec whose cells
/// cannot be merged gives way to `fallback`.
pub fn drain_cell_vector_config(
    dim: usize,
    codec: RerankCodecInfo,
    fallback: RerankCodecInfo,
    doc_id_bytes: usize,
    n_rows: usize,
) -> (config: (RerankCodecInfo, usize))
    requires
        n_rows > 0,
        row_stride(dim as int, doc_id_bytes as int, codec.per_vector_bytes as int) <= usize::MAX,
        row_stride(dim as int, doc_id_bytes as int, fallback.per_vector_bytes as int) <= usize::MAX,
    ensures
        config.0 == if codec.ivf_mergeable {
            codec
        } else {
            fallback
        },
        config.1 == fine_runs(
            n_rows as int,
            row_stride(dim as int, doc_id_bytes as int, config.0.per_vector_bytes as int),
        ),
{
    let used: RerankCodecInfo = if codec.ivf_mergeable {
        codec
    } else {
        fallback
    };
    let rabitq: usize = div_ceil_usize(dim, 8);
    let stride: usize = rabitq + doc_id_bytes + used.per_vector_bytes + STABLE_ID_BYTES + 4;
    let fitting: usize = DRAIN_FINE_RUN_TARGET_BYTES / stride;
    let rows_per_run: usize = if fitting == 0 {
        1
    } else {
        fitting
    };
    let runs: usize = div_ceil_usize(n_rows, rows_per_run);
    let n: usize = if runs < 1 {
        1
    } else if runs > n_rows {
        n_rows
    } else {
        runs
    };
    (used, n)
}

/// The smallest and the largest id; zeros when there is none.
pub open spec fn is_id_range(range: (i128, i128), ids: Seq<i128>) -> bool {
    if ids.len() == 0 {
        range == (0i128, 0i128)
    } else {
        &&& ids.contains(range.0)
        &&& ids.contains(range.1)
        &&& forall|i: int| 0 <= i < ids.len() ==> range.0 <= #[trigger] ids[i] <= range.1
    }
}

/// The smallest and the largest id of a shard.
pub fn shard_id_range(ids: &Vec<i128>) -> (range: (i128, i128))
    ensures
        is_id_range(range, ids@),
{
    if ids.len() == 0 {
        return (0, 0);
    }
    let mut min: i128 = ids[0];
    let mut max: i128 = ids[0];
    let mut i: usize = 1;
    assert(ids@.contains(ids@[0]));
    while i < ids.len()
        invariant
            1 <= i <= ids.len(),
            ids@.contains(min),
            ids@.contains(max),
            forall|k: int| 0 <= k < i ==> min <= #[trigger] ids@[k] <= max,
        decreases ids.len() - i,
    {
        let id: i128 = ids[i];
        assert(ids@.contains(ids@[i as int]));
        if id < min {
            min = id;
        }
        if id > max {
            max = id;
        }
        i = i + 1;
    }
    (min, max)
}

/// How many copies of rows a drain or a commit may add: what the target asks for
/// beyond one copy of each row, and at most so many for each row.
pub fn drain_replica_extra_budget(n_rows: usize, target_rows: usize, max_replicas: usize) -> (budget: usize)
    ensures
        budget == capped(
            if target_rows > n_rows {
                target_rows - n_rows
            } else {
                0
            },
            capped(n_rows * max_replicas, usize::MAX as int),
        ),
{
    let wanted: usize = target_rows.saturating_sub(n_rows);
    let most: usize = saturating_mul_usize(n_rows, max_replicas);
    if wanted <= most {
        wanted
    } else {
        most
    }
}

/// A cell without rows.
#[derive(Clone, Copy, PartialEq, Eq, Structural, Debug)]
pub struct EmptyBucket {
    pub cell: u32,
}

/// The ids of a cell's postings, in order. A cell that rows were assigned to is
/// not empty.
pub fn assigned_cell_ids(group: &AssignedCellGroup) -> (ids: Result<Vec<i128>, EmptyBucket>)
    ensures
        match ids {
            Ok(ids) => {
                &&& group.members.len() > 0
                &&& ids.len() == group.members.len()
                &&& forall|i: int| 0 <= i < ids.len() ==> #[trigger] ids@[i] == group.members@[i].stable_id
            },
            Err(e) => group.members.len() == 0 && e.cell == group.cell_id,
        },
{
    if group.members.len() == 0 {
        return Err(EmptyBucket { cell: group.cell_id });
    }
    let mut ids: Vec<i128> = Vec::new();
    let mut i: usize = 0;
    while i < group.members.len()
        invariant
            i <= group.members.len(),
            ids.len() == i,
            forall|k: int| 0 <= k < i ==> #[trigger] ids@[k] == group.members@[k].stable_id,
        decreases group.members.len() - i,
    {
        ids.push(group.members[i].stable_id);
        i = i + 1;
    }
    Ok(ids)
}

} // verus!
