//! What a drain does with rows, cells and shards, seen from outside.
use vstd::prelude::*;

use crate::arith::capped;
use crate::cells::{cells_of_shard, closest_first, is_shard_grouping, margin_keys, ReplicaCandidate};
use crate::drain::{shards_have_entries, DrainBatch, DrainRemoteShard};
use crate::drain_run::{
    batch_placements, cells_in, codec_known, copies, count_clashes, counts_of_shard, entry_named,
    has_cell, is_watermark, one_each, open_placements, shards_in_use, tally, unfinished,
    with_counts, DrainRun, PackedCell, PendingEntry, Placement,
};
use crate::hashing::uuid_text;
use crate::order::{sorted_by, sorting_is_stable};

verus! {

// ---------------------------------------------------------------------------
// Placing rows
// ---------------------------------------------------------------------------

/// Placing rows leaves out those whose shard is on storage, and nothing else: the
/// shard of a cell is what its number leaves when divided by the shards.
pub proof fn placing_skips_finished_shards_only(run: DrainRun, s: Seq<Placement>)
    requires
        run.shard_count > 0,
    ensures
        open_placements(run, s) == s.filter(
            |p: Placement|
                !run.completed@.contains_key((p.cell as int % run.shard_count as int) as u32),
        ),
    decreases s.len(),
{
    reveal(Seq::filter);
    if s.len() > 0 {
        placing_skips_finished_shards_only(run, s.drop_last());
    }
}

/// Every placement in a shard that is not on storage is kept, as often as it was
/// asked for; none in another shard is.
pub proof fn open_placements_are_all_kept(run: DrainRun, s: Seq<Placement>, p: Placement)
    requires
        run.shard_count > 0,
    ensures
        open_placements(run, s).to_multiset().count(p) == if run.completed@.contains_key(
            (p.cell as int % run.shard_count as int) as u32,
        ) {
            0
        } else {
            s.to_multiset().count(p)
        },
    decreases s.len(),
{
    broadcast use vstd::seq_lib::group_to_multiset_ensures;
    broadcast use vstd::multiset::group_multiset_axioms;

    if s.len() > 0 {
        let less = s.drop_last();
        open_placements_are_all_kept(run, less, p);
        assert(s =~= less.push(s.last()));
    }
}

/// What is kept of two batches is what is kept of the one and then of the other:
/// a placement stays or goes whatever the others are.
pub proof fn placements_do_not_disturb_each_other(run: DrainRun, a: Seq<Placement>, b: Seq<Placement>)
    ensures
        open_placements(run, a + b) == open_placements(run, a) + open_placements(run, b),
    decreases b.len(),
{
    if b.len() == 0 {
        assert(a + b =~= a);
    } else {
        assert((a + b).drop_last() =~= a + b.drop_last());
        assert((a + b).last() == b.last());
        placements_do_not_disturb_each_other(run, a, b.drop_last());
        assert(open_placements(run, a + b) =~= open_placements(run, a) + open_placements(run, b));
    }
}

/// The placements of a batch are the closest copies, as many as the budget
/// allows, and then every row in its home cell.
pub proof fn batch_places_copies_and_every_row(
    budget: int,
    clusters: Seq<u32>,
    primaries: Seq<u32>,
    candidates: Seq<ReplicaCandidate>,
)
    requires
        budget >= 0,
        primaries.len() <= usize::MAX,
        candidates.len() <= usize::MAX,
    ensures
        ({
            let out = batch_placements(false, budget, clusters, primaries, candidates);
            let n = if candidates.len() <= budget {
                candidates.len() as int
            } else {
                budget
            };
            &&& out.len() == n + primaries.len()
            &&& forall|r: int|
                0 <= r < primaries.len() ==> out[n + r] == (Placement {
                    row: r as usize,
                    cell: #[trigger] primaries[r],
                })
            &&& exists|order: Seq<usize>|
                {
                    &&& order.len() == candidates.len()
                    &&& #[trigger] order.no_duplicates()
                    &&& forall|i: int| 0 <= i < order.len() ==> (#[trigger] order[i]) < candidates.len()
                    &&& forall|i: int, j: int|
                        0 <= i < j < order.len() ==> {
                            let a = candidates[(#[trigger] order[i]) as int].margin;
                            let b = candidates[(#[trigger] order[j]) as int].margin;
                            a < b || (a == b && order[i] < order[j])
                        }
                    &&& forall|i: int|
                        0 <= i < n ==> out[i].row == candidates[(#[trigger] order[i]) as int].row && out[i].cell
                            == candidates[order[i] as int].cell
                }
        }),
        budget == 0 ==> batch_placements(true, budget, clusters, primaries, candidates).len() == clusters.len(),
        budget == 0 ==> forall|r: int|
            0 <= r < clusters.len() ==> batch_placements(true, budget, clusters, primaries, candidates)[r] == (
            Placement { row: r as usize, cell: #[trigger] clusters[r] }),
        budget > 0 ==> batch_placements(true, budget, clusters, primaries, candidates) == batch_placements(
            false,
            budget,
            clusters,
            primaries,
            candidates,
        ),
{
    let out = batch_placements(false, budget, clusters, primaries, candidates);
    let n = capped(candidates.len() as int, budget);
    let keys = margin_keys(candidates);
    sorting_is_stable(candidates, keys);
    let order = choose|order: Seq<usize>|
        {
            &&& order.len() == candidates.len()
            &&& #[trigger] order.no_duplicates()
            &&& forall|i: int| 0 <= i < order.len() ==> (#[trigger] order[i]) < candidates.len()
            &&& forall|i: int, j: int|
                0 <= i < j < order.len() ==> {
                    let a = keys[(#[trigger] order[i]) as int];
                    let b = keys[(#[trigger] order[j]) as int];
                    a.0 < b.0 || (a.0 == b.0 && (a.1 < b.1 || (a.1 == b.1 && order[i] < order[j])))
                }
            &&& forall|i: int|
                0 <= i < order.len() ==> sorted_by(candidates, keys)[i] == candidates[(
                #[trigger] order[i]) as int]
        };
    assert forall|i: int, j: int| 0 <= i < j < order.len() implies {
        let a = candidates[(#[trigger] order[i]) as int].margin;
        let b = candidates[(#[trigger] order[j]) as int].margin;
        a < b || (a == b && order[i] < order[j])
    } by {
        let (a, b) = (keys[order[i] as int], keys[order[j] as int]);
        assert(a == (candidates[order[i] as int].margin as i128, 0u128));
        assert(b == (candidates[order[j] as int].margin as i128, 0u128));
    }
    assert forall|i: int| 0 <= i < n implies out[i].row == candidates[(#[trigger] order[i]) as int].row
        && out[i].cell == candidates[order[i] as int].cell by {
        assert(closest_first(candidates)[i] == (
            sorted_by(candidates, keys)[i].row,
            sorted_by(candidates, keys)[i].cell,
        ));
        assert(out[i] == copies(candidates, budget)[i]);
    }
    assert forall|r: int| 0 <= r < primaries.len() implies out[n + r] == (Placement {
        row: r as usize,
        cell: #[trigger] primaries[r],
    }) by {
        assert(out[n + r] == one_each(primaries)[r]);
    }
}

/// Whatever copies are made, a row whose home cell is in a shard that is not on
/// storage is placed there.
pub proof fn every_row_reaches_its_home_cell(
    run: DrainRun,
    budget: int,
    clusters: Seq<u32>,
    primaries: Seq<u32>,
    candidates: Seq<ReplicaCandidate>,
    r: int,
)
    requires
        run.shard_count > 0,
        budget >= 0,
        primaries.len() <= usize::MAX,
        candidates.len() <= usize::MAX,
        0 <= r < primaries.len(),
        !run.completed@.contains_key((primaries[r] as int % run.shard_count as int) as u32),
    ensures
        open_placements(run, batch_placements(false, budget, clusters, primaries, candidates)).contains(
            Placement { row: r as usize, cell: primaries[r] },
        ),
{
    broadcast use vstd::seq_lib::group_to_multiset_ensures;

    let out = batch_placements(false, budget, clusters, primaries, candidates);
    let p = Placement { row: r as usize, cell: primaries[r] };
    batch_places_copies_and_every_row(budget, clusters, primaries, candidates);
    let n = if candidates.len() <= budget {
        candidates.len() as int
    } else {
        budget
    };
    assert(out[n + r] == p);
    assert(out.contains(p));
    open_placements_are_all_kept(run, out, p);
    assert(open_placements(run, out).to_multiset().count(p) > 0);
}

/// After rows were placed, a cell counts what it counted and the rows that went
/// to it, up to the largest number there is.
pub proof fn placed_rows_are_counted(m: Map<u32, u32>, s: Seq<Placement>, cell: u32)
    ensures
        ({
            let n = s.filter(|p: Placement| p.cell == cell).len();
            let before: int = if m.contains_key(cell) {
                m[cell] as int
            } else {
                0
            };
            &&& tally(m, s).contains_key(cell) <==> m.contains_key(cell) || n > 0
            &&& tally(m, s).contains_key(cell) ==> tally(m, s)[cell] == if before + n <= u32::MAX {
                before + n
            } else {
                u32::MAX as int
            }
        }),
    decreases s.len(),
{
    reveal(Seq::filter);
    if s.len() > 0 {
        placed_rows_are_counted(m, s.drop_last(), cell);
    }
}

// ---------------------------------------------------------------------------
// Resuming
// ---------------------------------------------------------------------------

/// What a restart takes over of the machine's cells is what lies in shards that
/// are not on storage, in the same order.
pub proof fn resuming_skips_finished_shards_only<V>(run: DrainRun, s: Seq<(u32, V)>)
    requires
        run.shard_count > 0,
    ensures
        unfinished(run, s) == s.filter(
            |p: (u32, V)| !run.completed@.contains_key((p.0 as int % run.shard_count as int) as u32),
        ),
    decreases s.len(),
{
    reveal(Seq::filter);
    if s.len() > 0 {
        resuming_skips_finished_shards_only(run, s.drop_last());
    }
}

/// The entry that a text names has the id that is written so, and no entry
/// behind it has. Where no entry is named, none has that id.
pub proof fn named_entry_has_the_id(entries: Seq<PendingEntry>, text: Seq<char>)
    ensures
        match entry_named(entries, text) {
            Some(i) => {
                &&& 0 <= i < entries.len()
                &&& uuid_text(entries[i].superfile_id) == text
                &&& forall|k: int| i < k < entries.len() ==> uuid_text((#[trigger] entries[k]).superfile_id) != text
            },
            None => forall|k: int|
                0 <= k < entries.len() ==> uuid_text((#[trigger] entries[k]).superfile_id) != text,
        },
    decreases entries.len(),
{
    if entries.len() > 0 {
        named_entry_has_the_id(entries.drop_last(), text);
        let less = entries.drop_last();
        assert(forall|k: int| 0 <= k < less.len() ==> less[k] == entries[k]);
        if entry_named(entries, text) is None {
            assert forall|k: int| 0 <= k < entries.len() implies uuid_text(
                (#[trigger] entries[k]).superfile_id,
            ) != text by {
                if k < less.len() {
                    assert(less[k] == entries[k]);
                }
            }
        } else {
            let i = entry_named(entries, text)->0;
            assert forall|k: int| i < k < entries.len() implies uuid_text(
                (#[trigger] entries[k]).superfile_id,
            ) != text by {
                if k < less.len() {
                    assert(less[k] == entries[k]);
                }
            }
        }
    }
}

/// After a shard's counts were taken over, each cell that it names has the last
/// count that it names for it, and every other cell what it had.
pub proof fn adopted_counts_replace(m: Map<u32, u32>, counts: Seq<(u32, u32)>, cell: u32)
    ensures
        ({
            let after = with_counts(m, counts);
            &&& (forall|k: int| 0 <= k < counts.len() ==> (#[trigger] counts[k]).0 != cell) ==> {
                &&& after.contains_key(cell) == m.contains_key(cell)
                &&& m.contains_key(cell) ==> after[cell] == m[cell]
            }
            &&& forall|i: int|
                0 <= i < counts.len() && (#[trigger] counts[i]).0 == cell && (forall|k: int|
                    i < k < counts.len() ==> (#[trigger] counts[k]).0 != cell) ==> {
                    &&& after.contains_key(cell)
                    &&& after[cell] == counts[i].1
                }
        }),
    decreases counts.len(),
{
    if counts.len() > 0 {
        let less = counts.drop_last();
        adopted_counts_replace(m, less, cell);
        let after = with_counts(m, counts);
        let n = counts.len() - 1;
        if forall|k: int| 0 <= k < counts.len() ==> (#[trigger] counts[k]).0 != cell {
            assert(counts[n].0 != cell);
            assert forall|k: int| 0 <= k < less.len() implies (#[trigger] less[k]).0 != cell by {
                assert(counts[k].0 != cell);
            }
        }
        assert forall|i: int|
            0 <= i < counts.len() && (#[trigger] counts[i]).0 == cell && (forall|k: int|
                i < k < counts.len() ==> (#[trigger] counts[k]).0 != cell) implies {
            &&& after.contains_key(cell)
            &&& after[cell] == counts[i].1
        } by {
            if i < n {
                assert(counts[n].0 != cell);
                assert(less[i] == counts[i]);
                assert forall|k: int| i < k < less.len() implies (#[trigger] less[k]).0 != cell by {
                    assert(counts[k].0 != cell);
                }
            }
        }
    }
}

/// The counts of a shard clash with what is known if and only if some cell would
/// have two different counts.
pub proof fn counts_clash_when_they_differ(m: Map<u32, u32>, counts: Seq<(u32, u32)>)
    ensures
        (forall|i: int| 0 <= i < counts.len() ==> !#[trigger] count_clashes(m, counts, i)) <==> ((forall|i: int|
            0 <= i < counts.len() && m.contains_key((#[trigger] counts[i]).0) ==> m[counts[i].0] == counts[i].1)
            && (forall|i: int, j: int|
            0 <= i < j < counts.len() && (#[trigger] counts[i]).0 == (#[trigger] counts[j]).0 ==> counts[i].1
                == counts[j].1)),
    decreases counts.len(),
{
    if counts.len() > 0 {
        let less = counts.drop_last();
        let n = counts.len() - 1;
        counts_clash_when_they_differ(m, less);
        assert forall|i: int| 0 <= i < n implies count_clashes(m, counts, i) == #[trigger] count_clashes(
            m,
            less,
            i,
        ) by {
            assert(less.take(i) =~= counts.take(i));
        }
        assert(counts.take(n) =~= less);
        let cell = counts[n].0;
        adopted_counts_replace(m, less, cell);
        let a = forall|i: int| 0 <= i < counts.len() ==> !#[trigger] count_clashes(m, counts, i);
        let b = forall|i: int|
            0 <= i < counts.len() && m.contains_key((#[trigger] counts[i]).0) ==> m[counts[i].0] == counts[i].1;
        let c = forall|i: int, j: int|
            0 <= i < j < counts.len() && (#[trigger] counts[i]).0 == (#[trigger] counts[j]).0 ==> counts[i].1
                == counts[j].1;
        let named = exists|k: int| 0 <= k < less.len() && (#[trigger] less[k]).0 == cell;
        if named {
            last_named(less, cell);
        }
        if a {
            assert(forall|i: int| 0 <= i < n ==> !#[trigger] count_clashes(m, less, i)) by {
                assert forall|i: int| 0 <= i < n implies !#[trigger] count_clashes(m, less, i) by {
                    assert(!count_clashes(m, counts, i));
                }
            }
            assert(!count_clashes(m, counts, n));
            assert forall|i: int, j: int|
                0 <= i < j < counts.len() && (#[trigger] counts[i]).0 == (#[trigger] counts[j]).0 implies counts[i].1
                == counts[j].1 by {
                assert(less[i] == counts[i]);
                if j < n {
                    assert(less[j] == counts[j]);
                } else {
                    let k = last_named(less, cell);
                    assert(with_counts(m, less)[cell] == less[k].1);
                    if i < k {
                        assert(less[i].1 == less[k].1);
                    }
                }
            }
            assert forall|i: int| 0 <= i < counts.len() && m.contains_key((#[trigger] counts[i]).0) implies m[counts[i].0]
                == counts[i].1 by {
                if i < n {
                    assert(less[i] == counts[i]);
                } else if named {
                    let k = last_named(less, cell);
                    assert(less[k] == counts[k]);
                    assert(m[less[k].0] == less[k].1);
                    assert(with_counts(m, less)[cell] == less[k].1);
                }
            }
        }
        if b && c {
            assert forall|i: int|
                0 <= i < less.len() && m.contains_key((#[trigger] less[i]).0) implies m[less[i].0]
                == less[i].1 by {
                assert(less[i] == counts[i]);
            }
            assert forall|i: int, j: int|
                0 <= i < j < less.len() && (#[trigger] less[i]).0 == (#[trigger] less[j]).0 implies less[i].1
                == less[j].1 by {
                assert(less[i] == counts[i] && less[j] == counts[j]);
            }
            assert(!count_clashes(m, counts, n)) by {
                if named {
                    let k = last_named(less, cell);
                    assert(counts[k] == less[k]);
                    assert(counts[k].0 == counts[n].0);
                    assert(with_counts(m, less)[cell] == less[k].1);
                } else {
                    assert(forall|k: int| 0 <= k < less.len() ==> (#[trigger] less[k]).0 != cell);
                    assert(m.contains_key(counts[n].0) ==> m[counts[n].0] == counts[n].1);
                }
            }
            assert forall|i: int| 0 <= i < counts.len() implies !#[trigger] count_clashes(m, counts, i) by {
                if i < n {
                    assert(!count_clashes(m, less, i));
                }
            }
        }
    }
}

proof fn last_named(counts: Seq<(u32, u32)>, cell: u32) -> (at: int)
    requires
        exists|k: int| 0 <= k < counts.len() && (#[trigger] counts[k]).0 == cell,
    ensures
        0 <= at < counts.len(),
        counts[at].0 == cell,
        forall|k: int| at < k < counts.len() ==> (#[trigger] counts[k]).0 != cell,
    decreases counts.len(),
{
    let n = counts.len() - 1;
    if counts[n].0 == cell {
        n
    } else {
        let less = counts.drop_last();
        let k = choose|k: int| 0 <= k < counts.len() && (#[trigger] counts[k]).0 == cell;
        assert(less[k].0 == cell);
        let at = last_named(less, cell);
        assert forall|q: int| at < q < counts.len() implies (#[trigger] counts[q]).0 != cell by {
            if q < n {
                assert(less[q].0 != cell);
            }
        }
        at
    }
}

// ---------------------------------------------------------------------------
// Shards
// ---------------------------------------------------------------------------

/// The counts of a shard are those of the cells that it holds, in order.
pub proof fn shard_counts_are_its_cells(s: Seq<(u32, u32)>, shard_count: int, shard: int)
    ensures
        counts_of_shard(s, shard_count, shard) == s.filter(
            |p: (u32, u32)| p.0 as int % shard_count == shard,
        ),
    decreases s.len(),
{
    reveal(Seq::filter);
    if s.len() > 0 {
        shard_counts_are_its_cells(s.drop_last(), shard_count, shard);
    }
}

/// Grouping cells by shard loses none and puts none in a wrong shard: a group
/// holds the cells whose number leaves the shard's when divided by the shards, as
/// often as they were there, the smallest first.
pub proof fn shard_groups_hold_every_cell<T>(
    groups: Seq<(u32, Vec<(u32, T)>)>,
    cells: Seq<(u32, T)>,
    shard_count: int,
)
    requires
        0 < shard_count <= u32::MAX,
        is_shard_grouping(groups, cells, shard_count),
    ensures
        forall|g: int|
            0 <= g < groups.len() ==> {
                let members = (#[trigger] groups[g]).1@;
                &&& members.len() > 0
                &&& members.to_multiset() == cells.filter(
                    |c: (u32, T)| c.0 as int % shard_count == groups[g].0,
                ).to_multiset()
                &&& forall|i: int, j: int|
                    0 <= i < j < members.len() ==> (#[trigger] members[i]).0 <= (#[trigger] members[j]).0
            },
        forall|g: int, h: int|
            0 <= g < h < groups.len() ==> (#[trigger] groups[g]).0 < (#[trigger] groups[h]).0,
{
    broadcast use vstd::seq_lib::group_to_multiset_ensures;

    assert forall|g: int| 0 <= g < groups.len() implies ({
        let members = (#[trigger] groups[g]).1@;
        &&& members.len() > 0
        &&& members.to_multiset() == cells.filter(
            |c: (u32, T)| c.0 as int % shard_count == groups[g].0,
        ).to_multiset()
        &&& forall|i: int, j: int|
            0 <= i < j < members.len() ==> (#[trigger] members[i]).0 <= (#[trigger] members[j]).0
    }) by {
        shard_cells_are_a_filter(cells, shard_count, groups[g].0 as int);
    }
}

/// A cell is in the group of its shard.
pub proof fn every_cell_is_in_its_shard<T>(
    groups: Seq<(u32, Vec<(u32, T)>)>,
    cells: Seq<(u32, T)>,
    shard_count: int,
    i: int,
)
    requires
        0 < shard_count <= u32::MAX,
        is_shard_grouping(groups, cells, shard_count),
        0 <= i < cells.len(),
    ensures
        exists|g: int|
            0 <= g < groups.len() && (#[trigger] groups[g]).0 == cells[i].0 as int % shard_count
                && groups[g].1@.contains(cells[i]),
{
    broadcast use vstd::seq_lib::group_to_multiset_ensures;

    let s = cells[i].0 as int % shard_count;
    shard_cells_are_a_filter(cells, shard_count, s);
    let held = cells_of_shard(cells, shard_count, s);
    cells.lemma_filter_contains(|c: (u32, T)| c.0 as int % shard_count == s, i);
    assert(held.contains(cells[i]));
    assert(held.len() > 0);
    let g = choose|g: int| 0 <= g < groups.len() && (#[trigger] groups[g]).0 == s;
    assert(groups[g].1@.to_multiset().count(cells[i]) > 0);
}

proof fn shard_cells_are_a_filter<T>(cells: Seq<(u32, T)>, shard_count: int, shard: int)
    ensures
        cells_of_shard(cells, shard_count, shard) == cells.filter(
            |c: (u32, T)| c.0 as int % shard_count == shard,
        ),
    decreases cells.len(),
{
    let keep = |c: (u32, T)| c.0 as int % shard_count == shard;
    if cells.len() == 0 {
        reveal(Seq::filter);
    } else {
        let first = seq![cells.first()];
        let rest = cells.drop_first();
        shard_cells_are_a_filter(rest, shard_count, shard);
        assert(cells =~= first + rest);
        Seq::filter_distributes_over_add(first, rest, keep);
        assert(first.drop_last() =~= Seq::<(u32, T)>::empty());
        reveal_with_fuel(Seq::filter, 2);
        assert(cells_of_shard(cells, shard_count, shard) =~= cells.filter(keep));
    }
}

/// The range that a drain marks ends at the newest version of its batches and starts
/// behind what was drained before, unless that is newer already.
pub proof fn a_drain_marks_up_to_its_newest_version(
    range: (u64, u64),
    prefix_end: Option<u64>,
    batches: Seq<DrainBatch>,
    i: int,
    k: int,
)
    requires
        is_watermark(range, prefix_end, batches),
    ensures
        0 <= i < batches.len() && 0 <= k < batches[i].versions.len() ==> batches[i].versions@[k] <= range.1,
        range.1 > 0 ==> exists|b: int, v: int|
            0 <= b < batches.len() && 0 <= v < batches[b].versions.len() && #[trigger] batches[b].versions@[v]
                == range.1,
        range.0 <= range.1,
        prefix_end is None ==> range.0 == 0,
        prefix_end matches Some(end) ==> (end < range.1 ==> range.0 == end + 1) && (end >= range.1 ==> range.0
            == range.1),
{
}

/// A cell is packed when one of the packed ones has its number, a codec known when
/// it is listed, and a shard in use when a cell with rows is in it. Every remote
/// shard must have its entry.
pub proof fn what_a_drain_knows(
    packed: Seq<PackedCell>,
    cell: u32,
    codecs: Seq<u8>,
    codec: u8,
    counts: Seq<(u32, u32)>,
    added: Map<u32, u32>,
    shard_count: int,
    shards: Seq<DrainRemoteShard>,
    ids: Seq<u128>,
    i: int,
)
    ensures
        has_cell(packed, cell) <==> exists|k: int| 0 <= k < packed.len() && (#[trigger] packed[k]).cell_id == cell,
        codec_known(codecs, codec) <==> codecs.contains(codec),
        cells_in(counts).contains(cell) <==> exists|k: int| 0 <= k < counts.len() && (#[trigger] counts[k]).0 == cell,
        added.contains_key(cell) ==> shards_in_use(added, shard_count).contains(cell as int % shard_count),
        forall|s: int| #[trigger]
            shards_in_use(added, shard_count).contains(s) ==> exists|c: u32| #[trigger]
                added.contains_key(c) && c as int % shard_count == s,
        shards_have_entries(shards, ids) && 0 <= i < shards.len() ==> exists|k: int|
            0 <= k < ids.len() && shards[i].superfile_id@ == crate::hashing::uuid_text(#[trigger] ids[k]),
{
    if shards_have_entries(shards, ids) && 0 <= i < shards.len() {
        assert(crate::drain::names_one_of(shards[i].superfile_id@, ids));
    }
    if added.contains_key(cell) {
        assert(added.dom().contains(cell));
        assert(shards_in_use(added, shard_count).contains(crate::cells::shard_of(cell, shard_count)));
    }
    assert forall|s: int| #[trigger] shards_in_use(added, shard_count).contains(s) implies exists|c: u32| #[trigger]
        added.contains_key(c) && c as int % shard_count == s by {
        let c = choose|c: u32| added.dom().contains(c) && s == crate::cells::shard_of(c, shard_count);
        assert(added.contains_key(c));
    }
}

} // verus!
