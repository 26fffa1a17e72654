//! What a split pass does with the cells of a table: which cells it picks, how it
//! shares out their rows, and what it reports of them.
use vstd::prelude::*;

use crate::families::{child_ids_from, counted, peopled, routed_children, CellFamily};
use crate::order::{comes_before, sorted_by, stable_order_exists, the_order};
use crate::split::{
    are_candidates, eligible, holders_of_cell, is_scan, is_wanted, live_holders, named_in_counts,
    resident_bytes, rows_in_counts, rows_of_cell, size_keys, take_in, wave_of, ScannedEntry,
    SplitRules, MAX_SPLITS_PER_OPTIMIZE, MIN_ROWS_TO_SPLIT_CELL, SPLIT_BATCH_FALLBACK_BUDGET_MIB,
};
use crate::split_pass::{
    cells_in_shard, child_counts, committed, counts_after, entries_of_cell, inside, new_entries,
    nothing_built, outside, put_counts, put_rows, result_view, rows_of_child, settled_children,
    shard_entries, split_path, split_step_after, splits_in, unsplittable_after, BuiltCellSplit,
    CellResult, SplitPass, SplitStep,
};
use crate::split_run::{
    is_built, left_alone, marked, new_ids, plan_children, plan_kinds, planned_order, too_small,
    unmarked, unmarked_places, CellPlan, ExtractedCell,
};
use crate::superseded::FileCell;

verus! {

// ---------------------------------------------------------------------------
// Which cells are split
// ---------------------------------------------------------------------------

/// A cell that is split takes seven bytes for every value of its rows, or the most
/// that can be stated.
pub proof fn seven_bytes_a_value_are_resident(rows: int, dim: int)
    requires
        0 <= rows,
        0 <= dim,
    ensures
        resident_bytes(rows, dim) == if rows * dim * 7 <= u64::MAX {
            rows * dim * 7
        } else {
            u64::MAX as int
        },
{
    assert(rows * dim >= 0) by (nonlinear_arith)
        requires
            0 <= rows,
            0 <= dim,
    ;
}

/// A cell can be split when it has enough rows, two at least, and has not been
/// found unsplittable.
pub proof fn large_cells_are_eligible(s: Seq<(u32, u64)>, unsplittable: Set<u32>, rules: SplitRules)
    ensures
        eligible(s, unsplittable, rules) == s.filter(
            |c: (u32, u64)| c.1 >= rules.candidate_floor && c.1 > 1 && !unsplittable.contains(c.0),
        ),
    decreases s.len(),
{
    reveal(Seq::filter);
    if s.len() > 0 {
        large_cells_are_eligible(s.drop_last(), unsplittable, rules);
    }
}

/// The cells that can be split come largest first, and equally large ones by their
/// numbers.
pub proof fn the_largest_cells_come_first(s: Seq<(u32, u64)>)
    requires
        s.len() <= usize::MAX,
    ensures
        sorted_by(s, size_keys(s)).to_multiset() =~= s.to_multiset(),
        forall|i: int, j: int|
            0 <= i < j < s.len() ==> {
                let a = #[trigger] sorted_by(s, size_keys(s))[i];
                let b = #[trigger] sorted_by(s, size_keys(s))[j];
                a.1 > b.1 || (a.1 == b.1 && a.0 <= b.0)
            },
{
    let keys = size_keys(s);
    crate::order::sorted_by_keeps_items(s, keys);
    stable_order_exists(keys);
    let order = the_order(keys);
    let out = sorted_by(s, keys);
    assert forall|i: int, j: int| 0 <= i < j < s.len() implies {
        let a = #[trigger] out[i];
        let b = #[trigger] out[j];
        a.1 > b.1 || (a.1 == b.1 && a.0 <= b.0)
    } by {
        assert(comes_before(keys, order[i] as int, order[j] as int));
        assert(out[i] == s[order[i] as int] && out[j] == s[order[j] as int]);
        assert(keys[order[i] as int] == ((0 - out[i].1) as i128, out[i].0 as u128));
        assert(keys[order[j] as int] == ((0 - out[j].1) as i128, out[j].0 as u128));
    }
}

/// A batch takes the next cell as long as it has room for one more cell and for its
/// bytes; into an empty batch any cell goes. A cell that does not fit is passed
/// over, and the batch is as it was.
pub proof fn a_batch_takes_what_fits(
    s: Seq<(u32, u64)>,
    next: (u32, u64),
    dim: int,
    budget: int,
    max_cells: int,
)
    requires
        0 <= dim,
        budget <= u64::MAX,
    ensures
        take_in(Seq::empty(), dim, budget, max_cells).cells.len() == 0,
        take_in(Seq::empty(), dim, budget, max_cells).bytes == 0,
        ({
            let before = take_in(s, dim, budget, max_cells);
            let after = take_in(s.push(next), dim, budget, max_cells);
            let cost = resident_bytes(next.1 as int, dim);
            let whole = before.bytes + cost;
            if before.cells.len() < max_cells && before.cells.len() == 0 {
                after.cells == before.cells.push(next.0)
            } else if before.cells.len() < max_cells && whole <= budget {
                after.cells == before.cells.push(next.0) && after.bytes == whole
            } else if before.cells.len() < max_cells && whole <= u64::MAX {
                after == before
            } else {
                before.cells.len() >= max_cells ==> after == before
            }
        }),
        take_in(seq![next], dim, budget, max_cells).bytes == if max_cells > 0 {
            resident_bytes(next.1 as int, dim)
        } else {
            0
        },
{
    assert(s.push(next).drop_last() =~= s);
    let one = seq![next];
    assert(one.drop_last() =~= Seq::<(u32, u64)>::empty());
    assert(one.last() == next && one.len() == 1);
    let none = take_in(one.drop_last(), dim, budget, max_cells);
    assert(none.bytes == 0 && none.cells.len() == 0);
    seven_bytes_a_value_are_resident(next.1 as int, dim);
    assert(next.1 * dim >= 0) by (nonlinear_arith)
        requires
            0 <= dim,
    ;
}

/// A wave leaves out the cells that the table has no centroid of. Of the others it
/// takes the first, and each further one whose bytes still fit; the rest waits. No
/// cell changes what was taken or left before it.
pub proof fn a_wave_takes_what_fits(
    queue: Seq<(u32, u64)>,
    next: (u32, u64),
    n_cent: int,
    dim: int,
    budget: int,
)
    requires
        0 <= dim,
        budget < u64::MAX,
    ensures
        ({
            let none = wave_of(Seq::empty(), n_cent, dim, budget);
            &&& none.cells.len() == 0 && none.deferred.len() == 0 && none.outside.len() == 0
            &&& none.bytes == 0
        }),
        ({
            let before = wave_of(queue, n_cent, dim, budget);
            let after = wave_of(queue.push(next), n_cent, dim, budget);
            let whole = before.bytes + resident_bytes(next.1 as int, dim);
            if next.0 >= n_cent {
                &&& after.outside == before.outside.push(next.0)
                &&& after.cells == before.cells && after.deferred == before.deferred
                &&& after.bytes == before.bytes
            } else if before.cells.len() == 0 || whole <= budget {
                &&& after.cells == before.cells.push(next)
                &&& after.deferred == before.deferred && after.outside == before.outside
                &&& whole <= u64::MAX ==> after.bytes == whole
            } else {
                &&& after.deferred == before.deferred.push(next)
                &&& after.cells == before.cells && after.outside == before.outside
                &&& after.bytes == before.bytes
            }
        }),
{
    assert(queue.push(next).drop_last() =~= queue);
}

// ---------------------------------------------------------------------------
// What the scan finds
// ---------------------------------------------------------------------------

/// The rows of a cell are added up over all its entries in all files, and each
/// entry names its file once more.
pub proof fn scan_adds_up_the_cell(
    entries: Seq<ScannedEntry>,
    entry: ScannedEntry,
    counts: Seq<(u32, u32)>,
    count: (u32, u32),
    cell: u32,
    id: u128,
)
    ensures
        rows_of_cell(Seq::empty(), cell) == 0,
        holders_of_cell(Seq::empty(), cell).len() == 0,
        rows_of_cell(entries.push(entry), cell) == rows_of_cell(entries, cell) + rows_in_counts(
            entry.counts@,
            cell,
        ),
        holders_of_cell(entries.push(entry), cell) == holders_of_cell(entries, cell) + Seq::new(
            entry.counts@.filter(|c: (u32, u32)| c.0 == cell).len(),
            |i: int| entry.superfile_id,
        ),
        rows_in_counts(Seq::empty(), cell) == 0,
        count.0 == cell ==> rows_in_counts(counts.push(count), cell) == rows_in_counts(counts, cell)
            + count.1,
        count.0 != cell ==> rows_in_counts(counts.push(count), cell) == rows_in_counts(counts, cell),
{
    assert(entries.push(entry).drop_last() =~= entries);
    assert(counts.push(count).drop_last() =~= counts);
    each_count_names_the_file(entry.counts@, cell, entry.superfile_id);
}

proof fn each_count_names_the_file(counts: Seq<(u32, u32)>, cell: u32, id: u128)
    ensures
        named_in_counts(counts, cell, id) =~= Seq::new(
            counts.filter(|c: (u32, u32)| c.0 == cell).len(),
            |i: int| id,
        ),
    decreases counts.len(),
{
    reveal(Seq::filter);
    if counts.len() > 0 {
        each_count_names_the_file(counts.drop_last(), cell, id);
    }
}

/// A file holds a cell as long as the two are not superseded together.
pub proof fn live_holders_are_not_superseded(holders: Seq<u128>, cell: u32, superseded: Set<FileCell>)
    ensures
        live_holders(holders, cell, superseded) == holders.filter(
            |id: u128| !superseded.contains((id, cell)),
        ),
    decreases holders.len(),
{
    reveal(Seq::filter);
    if holders.len() > 0 {
        live_holders_are_not_superseded(holders.drop_last(), cell, superseded);
    }
}

/// The cells below the number of centroids are inside the table, all others are not.
pub proof fn cells_with_a_centroid_are_inside(cells: Seq<u32>, n_cent: u32)
    ensures
        inside(cells, n_cent) == cells.filter(|c: u32| c < n_cent),
        outside(cells, n_cent) == cells.filter(|c: u32| !(c < n_cent)),
    decreases cells.len(),
{
    reveal(Seq::filter);
    if cells.len() > 0 {
        cells_with_a_centroid_are_inside(cells.drop_last(), n_cent);
    }
}

// ---------------------------------------------------------------------------
// How rows are shared out
// ---------------------------------------------------------------------------

/// A child gets the rows whose side is its place; the last child also gets those
/// whose side is past the last. Rows keep their order.
pub proof fn child_gets_the_rows_of_its_side(assign: Seq<u32>, n_children: int, child: int, row: usize)
    requires
        0 <= child < n_children,
        assign.len() <= usize::MAX,
    ensures
        rows_of_child(assign, n_children, child).contains(row) <==> row < assign.len() && (assign[row as int]
            == child || (assign[row as int] >= n_children && child == n_children - 1)),
        forall|i: int, j: int|
            0 <= i < j < rows_of_child(assign, n_children, child).len() ==> (#[trigger] rows_of_child(
                assign,
                n_children,
                child,
            )[i]) < (#[trigger] rows_of_child(assign, n_children, child)[j]),
        forall|i: int|
            0 <= i < rows_of_child(assign, n_children, child).len() ==> (#[trigger] rows_of_child(
                assign,
                n_children,
                child,
            )[i]) < assign.len(),
        rows_of_child(assign, n_children, child).len() == assign.filter(
            |side: u32| side == child || (side >= n_children && child == n_children - 1),
        ).len(),
    decreases assign.len(),
{
    reveal(Seq::filter);
    if assign.len() > 0 {
        let less = assign.drop_last();
        child_gets_the_rows_of_its_side(less, n_children, child, row);
        let before = rows_of_child(less, n_children, child);
        let after = rows_of_child(assign, n_children, child);
        let n = assign.len() - 1;
        let side = assign[n];
        assert(assign.last() == side);
        if row < n {
            assert(less[row as int] == assign[row as int]);
        }
        if after.len() > before.len() {
            assert(after == before.push(n as usize));
            assert(after[before.len() as int] == n);
            if before.contains(row) {
                let p = choose|p: int| 0 <= p < before.len() && before[p] == row;
                assert(after[p] == row);
            }
            if after.contains(row) && row != n {
                let p = choose|p: int| 0 <= p < after.len() && after[p] == row;
                assert(before[p] == row);
            }
        }
    }
}

/// Every child is reported with its own number and with as many rows as it got.
pub proof fn children_are_reported_with_their_rows(child_ids: Seq<u32>, assign: Seq<u32>, child: int)
    requires
        0 <= child < child_ids.len(),
        assign.len() <= u32::MAX,
        assign.len() <= usize::MAX,
    ensures
        routed_children(child_ids, assign).len() == child_ids.len(),
        routed_children(child_ids, assign)[child].0 == child_ids[child],
        routed_children(child_ids, assign)[child].1 == assign.filter(
            |side: u32| side == child || (side >= child_ids.len() && child == child_ids.len() - 1),
        ).len(),
{
    let n = child_ids.len() as int;
    child_gets_the_rows_of_its_side(assign, n, child, 0);
    assert((|side: u32| side == child || (side >= n && child == n - 1)) =~= (|side: u32|
        side == child || (side >= child_ids.len() && child == child_ids.len() - 1)));
    assign.lemma_filter_len(|side: u32| side == child || (side >= n && child == n - 1));
}

/// The first child keeps the number of the cell, the others are numbered on from
/// the next free one.
pub proof fn children_are_numbered_on(cell: u32, from: int, k: int, i: int)
    requires
        0 <= from,
        0 <= i < k,
        from + k <= u32::MAX,
    ensures
        child_ids_from(cell, from, k).len() == k,
        child_ids_from(cell, from, k)[0] == cell,
        i > 0 ==> child_ids_from(cell, from, k)[i] - from == i - 1,
{
}

/// Rows are counted over all children, and files are built for the children that
/// have some.
pub proof fn children_with_rows_get_a_file(children: Seq<(u32, u32)>, child: (u32, u32), place: usize)
    requires
        children.len() <= usize::MAX,
    ensures
        counted(Seq::empty()) == 0,
        counted(children.push(child)) == counted(children) + child.1,
        peopled(children).contains(place) <==> place < children.len() && children[place as int].1 != 0,
        forall|i: int, j: int|
            0 <= i < j < peopled(children).len() ==> (#[trigger] peopled(children)[i]) < (
            #[trigger] peopled(children)[j]),
        forall|i: int| 0 <= i < peopled(children).len() ==> (#[trigger] peopled(children)[i]) < children.len(),
    decreases children.len(),
{
    assert(children.push(child).drop_last() =~= children);
    if children.len() > 0 {
        let less = children.drop_last();
        children_with_rows_get_a_file(less, child, place);
        let before = peopled(less);
        let after = peopled(children);
        let n = children.len() - 1;
        assert(children.last() == children[n]);
        if place < n {
            assert(less[place as int] == children[place as int]);
        }
        if children[n].1 > 0 {
            assert(after == before.push(n as usize));
            assert(after[before.len() as int] == n);
            if before.contains(place) {
                let p = choose|p: int| 0 <= p < before.len() && before[p] == place;
                assert(after[p] == place);
            }
            if after.contains(place) && place != n {
                let p = choose|p: int| 0 <= p < after.len() && after[p] == place;
                assert(before[p] == place);
            }
        }
    }
}

// ---------------------------------------------------------------------------
// What a run plans
// ---------------------------------------------------------------------------

/// A cell of fewer than two rows is set aside, and so is one without a plan. A plan
/// stands when it has a side for every row and whole centroids, at least one.
pub proof fn plans_are_taken_as_they_are(
    extracted: Seq<ExtractedCell>,
    kinds: Seq<(u32, Option<usize>)>,
    plan: Option<CellPlan>,
    dim: int,
    n_rows: usize,
    i: int,
)
    requires
        dim > 0,
    ensures
        too_small(extracted).len() == extracted.len(),
        0 <= i < extracted.len() ==> too_small(extracted)[i] == (
            extracted[i].job.cell,
            extracted[i].n_rows == 0 || extracted[i].n_rows == 1,
        ),
        left_alone(kinds).len() == kinds.len(),
        0 <= i < kinds.len() ==> left_alone(kinds)[i] == (kinds[i].0, kinds[i].1 is None),
        plan is None ==> plan_children(plan, dim, n_rows) is None,
        plan matches Some(p) ==> (plan_children(plan, dim, n_rows) is Some <==> p.n_floats > 0 && p.assign.len()
            == n_rows && p.n_floats as int % dim == 0),
        plan matches Some(p) ==> (plan_children(plan, dim, n_rows) matches Some(k) ==> k > 0 && k * dim
            == p.n_floats),
{
    if let Some(p) = plan {
        if p.n_floats > 0 && p.n_floats as int % dim == 0 {
            let q = p.n_floats as int / dim;
            vstd::arithmetic::div_mod::lemma_fundamental_div_mod(p.n_floats as int, dim);
            assert(dim * q == q * dim) by (nonlinear_arith);
            assert(0 < q <= p.n_floats) by (nonlinear_arith)
                requires
                    q * dim == p.n_floats,
                    p.n_floats > 0,
                    dim > 0,
            ;
        }
    }
}

/// The marked cells are set aside and the places of the others kept, both in order.
pub proof fn marked_cells_are_set_aside(s: Seq<(u32, bool)>, place: usize)
    requires
        s.len() <= usize::MAX,
    ensures
        marked(s) == s.filter(|c: (u32, bool)| c.1).map_values(|c: (u32, bool)| c.0),
        unmarked_places(s).contains(place) <==> place < s.len() && !s[place as int].1,
        forall|i: int, j: int|
            0 <= i < j < unmarked_places(s).len() ==> (#[trigger] unmarked_places(s)[i]) < (
            #[trigger] unmarked_places(s)[j]),
        forall|i: int| 0 <= i < unmarked_places(s).len() ==> (#[trigger] unmarked_places(s)[i]) < s.len(),
    decreases s.len(),
{
    reveal(Seq::filter);
    if s.len() > 0 {
        let less = s.drop_last();
        marked_cells_are_set_aside(less, place);
        assert(marked(s) =~= s.filter(|c: (u32, bool)| c.1).map_values(|c: (u32, bool)| c.0));
        let before = unmarked_places(less);
        let after = unmarked_places(s);
        let n = s.len() - 1;
        assert(s.last() == s[n]);
        if place < n {
            assert(less[place as int] == s[place as int]);
        }
        if !s[n].1 {
            assert(after == before.push(n as usize));
            assert(after[before.len() as int] == n);
            if before.contains(place) {
                let p = choose|p: int| 0 <= p < before.len() && before[p] == place;
                assert(after[p] == place);
            }
            if after.contains(place) && place != n {
                let p = choose|p: int| 0 <= p < after.len() && after[p] == place;
                assert(before[p] == place);
            }
        }
    }
}

/// The planned cells are split in the order of their numbers, each of them once.
pub proof fn planned_cells_go_by_number(kinds: Seq<(u32, Option<usize>)>, i: int, j: int)
    requires
        kinds.len() <= usize::MAX,
        0 <= i < j < planned_order(kinds).len(),
    ensures
        planned_order(kinds).to_multiset() =~= unmarked_places(left_alone(kinds)).to_multiset(),
        planned_order(kinds)[i] < kinds.len(),
        planned_order(kinds)[j] < kinds.len(),
        kinds[planned_order(kinds)[i] as int].0 <= kinds[planned_order(kinds)[j] as int].0,
        kinds[planned_order(kinds)[i] as int].1 is Some,
        kinds[planned_order(kinds)[j] as int].1 is Some,
{
    let s = left_alone(kinds);
    let places = unmarked_places(s);
    marked_cells_are_set_aside(s, 0);
    let cells = crate::split_run::unmarked(s);
    let keys = crate::split_pass::cell_keys(cells);
    unmarked_fit(s);
    crate::order::sorted_by_keeps_items(places, keys);
    stable_order_exists(keys);
    let order = the_order(keys);
    let out = planned_order(kinds);
    assert(comes_before(keys, order[i] as int, order[j] as int));
    assert(out[i] == places[order[i] as int] && out[j] == places[order[j] as int]);
    marked_cells_are_set_aside(s, out[i]);
    marked_cells_are_set_aside(s, out[j]);
    assert(places.contains(out[i]) && places.contains(out[j]));
    assert(keys[order[i] as int] == (kinds[out[i] as int].0 as i128, 0u128));
    assert(keys[order[j] as int] == (kinds[out[j] as int].0 as i128, 0u128));
}

proof fn unmarked_fit(s: Seq<(u32, bool)>)
    ensures
        unmarked_places(s).len() <= s.len(),
    decreases s.len(),
{
    if s.len() > 0 {
        unmarked_fit(s.drop_last());
    }
}

/// A split of so many children takes one new number fewer: the first child has the
/// number of its cell.
pub proof fn splits_take_one_number_fewer(kinds: Seq<(u32, Option<usize>)>, order: Seq<usize>, n: int)
    requires
        0 <= n < order.len(),
        kinds[order[n] as int].1 is Some,
    ensures
        new_ids(kinds, order, 0) == 0,
        new_ids(kinds, order, n + 1) - new_ids(kinds, order, n) + 1 == kinds[order[n] as int].1->0,
{
}

// ---------------------------------------------------------------------------
// What a pass reports
// ---------------------------------------------------------------------------

/// A split cell is reported with its children, all their rows included, in the
/// order in which the cells were built; all files that were built are listed.
pub proof fn built_splits_are_reported<F>(
    built: Seq<BuiltCellSplit<F>>,
    next: BuiltCellSplit<F>,
    i: int,
    k: int,
)
    requires
        0 <= i < built.len(),
        0 <= k < built[i].family.children.len(),
    ensures
        committed(built).len() == built.len(),
        committed(built)[i].0 == built[i].family.cell,
        committed(built)[i].1 is Some,
        committed(built)[i].1->0.len() == built[i].family.children.len(),
        committed(built)[i].1->0[k].0 == built[i].family.children@[k].0,
        committed(built)[i].1->0[k].1 == built[i].family.children@[k].1,
        new_entries(Seq::<BuiltCellSplit<F>>::empty()).len() == 0,
        new_entries(built.push(next)) == new_entries(built) + next.prepared@,
{
    assert(built.push(next).drop_last() =~= built);
}

/// The last count of a cell stands.
pub proof fn the_last_count_stands<F>(
    m: Map<u32, u32>,
    counts: Seq<(u32, u32)>,
    count: (u32, u32),
    rows: Map<u32, u64>,
    news: Seq<(u32, u64)>,
    new: (u32, u64),
    built: Seq<BuiltCellSplit<F>>,
    next: BuiltCellSplit<F>,
    results: Seq<CellResult>,
    cell: u32,
    children: Seq<(u32, u64)>,
)
    ensures
        put_counts(m, Seq::empty()) == m,
        put_counts(m, counts.push(count)) == put_counts(m, counts).insert(count.0, count.1),
        put_rows(rows, Seq::empty()) == rows,
        put_rows(rows, news.push(new)) == put_rows(rows, news).insert(new.0, new.1),
        child_counts(Seq::<BuiltCellSplit<F>>::empty()) == Map::<u32, u32>::empty(),
        child_counts(built.push(next)) == put_counts(child_counts(built), next.family.children@),
        counts_after(rows, Seq::empty()) == rows,
        counts_after(rows, results.push((cell, Some(children)))) == put_rows(
            counts_after(rows, results),
            children,
        ),
        counts_after(rows, results.push((cell, None))) == counts_after(rows, results),
{
    assert(counts.push(count).drop_last() =~= counts);
    assert(news.push(new).drop_last() =~= news);
    assert(built.push(next).drop_last() =~= built);
    assert(results.push((cell, Some(children))).drop_last() =~= results);
    assert(results.push((cell, None)).drop_last() =~= results);
}

/// A split is done with the children that are within the cap; those above it may be
/// split again. A cell that no split came of is done with too, and no cell that was
/// is taken up again.
pub proof fn small_children_are_done_with(
    s: Set<u32>,
    children: Seq<(u32, u64)>,
    results: Seq<CellResult>,
    rules: SplitRules,
    cell: u32,
)
    ensures
        settled_children(s, children, rules).contains(cell) <==> s.contains(cell) || exists|i: int|
            0 <= i < children.len() && (#[trigger] children[i]).0 == cell && children[i].1 <= rules.doc_cap,
        unsplittable_after(s, Seq::empty(), rules) == s,
        unsplittable_after(s, results.push((cell, None)), rules) == unsplittable_after(s, results, rules).insert(
            cell,
        ),
        unsplittable_after(s, results.push((cell, Some(children))), rules) == settled_children(
            unsplittable_after(s, results, rules),
            children,
            rules,
        ),
    decreases children.len(),
{
    assert(results.push((cell, None)).drop_last() =~= results);
    assert(results.push((cell, Some(children))).drop_last() =~= results);
    if children.len() > 0 {
        let less = children.drop_last();
        let n = children.len() - 1;
        small_children_are_done_with(s, less, results, rules, cell);
        assert(children.last() == children[n]);
        if exists|i: int|
            0 <= i < children.len() && (#[trigger] children[i]).0 == cell && children[i].1 <= rules.doc_cap {
            let i = choose|i: int|
                0 <= i < children.len() && (#[trigger] children[i]).0 == cell && children[i].1 <= rules.doc_cap;
            if i < n {
                assert(less[i] == children[i]);
            }
        }
        if exists|i: int| 0 <= i < less.len() && (#[trigger] less[i]).0 == cell && less[i].1 <= rules.doc_cap {
            let i = choose|i: int|
                0 <= i < less.len() && (#[trigger] less[i]).0 == cell && less[i].1 <= rules.doc_cap;
            assert(children[i] == less[i]);
        }
    }
}

/// As many splits are counted as cells were reported with children.
pub proof fn splits_are_counted(results: Seq<CellResult>)
    ensures
        splits_in(results) == results.filter(|r: CellResult| r.1 is Some).len(),
    decreases results.len(),
{
    reveal(Seq::filter);
    if results.len() > 0 {
        splits_are_counted(results.drop_last());
    }
}

/// A cell's new files are those listed under it, in order.
pub proof fn new_files_are_those_of_the_cell(entries: Seq<(u32, u128)>, cell: u32)
    ensures
        entries_of_cell(entries, cell) == entries.filter(|e: (u32, u128)| e.0 == cell).map_values(
            |e: (u32, u128)| e.1,
        ),
    decreases entries.len(),
{
    reveal(Seq::filter);
    if entries.len() > 0 {
        new_files_are_those_of_the_cell(entries.drop_last(), cell);
        assert(entries_of_cell(entries, cell) =~= entries.filter(|e: (u32, u128)| e.0 == cell).map_values(
            |e: (u32, u128)| e.1,
        ));
    }
}

/// A shard's file is listed under every cell of the shard.
pub proof fn shard_files_are_under_their_cells(
    buckets: Seq<(u32, Vec<u32>)>,
    bucket: (u32, Vec<u32>),
    prepared: Seq<(u32, u128)>,
    file: (u32, u128),
    shard: u32,
)
    ensures
        cells_in_shard(Seq::empty(), shard).len() == 0,
        cells_in_shard(buckets.push(bucket), bucket.0) == bucket.1@,
        bucket.0 != shard ==> cells_in_shard(buckets.push(bucket), shard) == cells_in_shard(buckets, shard),
        shard_entries(buckets, Seq::empty()).len() == 0,
        shard_entries(buckets, prepared.push(file)) == shard_entries(buckets, prepared) + cells_in_shard(
            buckets,
            file.0,
        ).map_values(|cell: u32| (cell, file.1)),
{
    assert(buckets.push(bucket).drop_last() =~= buckets);
    assert(prepared.push(file).drop_last() =~= prepared);
    assert(shard_entries(buckets, prepared.push(file)) =~= shard_entries(buckets, prepared) + cells_in_shard(
        buckets,
        file.0,
    ).map_values(|cell: u32| (cell, file.1)));
}

/// The bytes of a batch are those of its cells together.
pub proof fn batch_bytes_are_added_up(pass: SplitPass, batch: Seq<u32>, cell: u32)
    ensures
        pass.bytes_of(Seq::empty()) == 0,
        ({
            let whole = pass.bytes_of(batch) + resident_bytes(pass.rows_of(cell), pass.dim as int);
            &&& whole <= u64::MAX ==> pass.bytes_of(batch.push(cell)) == whole
            &&& whole > u64::MAX ==> pass.bytes_of(batch.push(cell)) == u64::MAX
        }),
        pass.cell_counts@.contains_key(cell) ==> pass.rows_of(cell) == pass.cell_counts@[cell],
        !pass.cell_counts@.contains_key(cell) ==> pass.rows_of(cell) == 0,
{
    assert(batch.push(cell).drop_last() =~= batch);
}

/// A commit whose steps all go well pins, uploads, commits, stores and is done. What
/// fails before the pin leaves nothing to undo; what fails behind it is unpinned. A
/// store that fails behind the commit undoes nothing.
pub proof fn split_steps_follow_each_other(ok: bool)
    ensures
        split_path(Seq::empty()) is Pin,
        split_path(seq![true]) is Upload,
        split_path(seq![true, true]) is Commit,
        split_path(seq![true, true, true]) is StoreInserts,
        split_path(seq![true, true, true, ok]) is Done,
        split_path(seq![false]) is Failed,
        split_path(seq![true, false]) is Unpin,
        split_path(seq![true, true, false]) is Unpin,
        split_path(seq![true, false, ok]) is Failed,
        split_path(seq![true, true, false, ok]) is Failed,
        split_step_after(SplitStep::Done, ok) is Done,
        split_step_after(SplitStep::Failed, ok) is Failed,
{
    reveal_with_fuel(split_path, 5);
    assert(seq![true, true, true, ok].drop_last() =~= seq![true, true, true]);
    assert(seq![true, true, true].drop_last() =~= seq![true, true]);
    assert(seq![true, true].drop_last() =~= seq![true]);
    assert(seq![true].drop_last() =~= Seq::<bool>::empty());
    assert(seq![false].drop_last() =~= Seq::<bool>::empty());
    assert(seq![true, false].drop_last() =~= seq![true]);
    assert(seq![true, true, false].drop_last() =~= seq![true, true]);
    assert(seq![true, false, ok].drop_last() =~= seq![true, false]);
    assert(seq![true, true, false, ok].drop_last() =~= seq![true, true, false]);
}

// ---------------------------------------------------------------------------
// What is handed on
// ---------------------------------------------------------------------------

/// A scan has a cell when it is wanted and some file holds it, with all its rows and
/// all its files; it has no other cell.
pub proof fn a_scan_has_the_wanted_cells(
    counts: Map<u32, u64>,
    parents: Map<u32, Vec<u128>>,
    only: Option<Seq<u32>>,
    entries: Seq<ScannedEntry>,
    cell: u32,
)
    requires
        is_scan(counts, parents, only, entries),
    ensures
        counts.contains_key(cell) <==> holders_of_cell(entries, cell).len() != 0 && (only is None || only->0.contains(
            cell,
        )),
        parents.contains_key(cell) <==> counts.contains_key(cell),
        counts.contains_key(cell) ==> counts[cell] == rows_of_cell(entries, cell) && parents[cell]@
            == holders_of_cell(entries, cell),
        is_wanted(None, cell),
        only matches Some(list) ==> (is_wanted(only, cell) <==> list.contains(cell)),
{
    assert(crate::split::is_scanned(counts, parents, only, entries, cell));
}

/// The candidates are cells of the scan that can be split: each once, with its rows,
/// the largest first; and every such cell is one.
pub proof fn candidates_are_the_cells_that_can_be_split(
    out: Seq<(u32, u64)>,
    counts: Map<u32, u64>,
    unsplittable: Set<u32>,
    rules: SplitRules,
    cell: u32,
)
    requires
        are_candidates(out, counts, unsplittable, rules),
        counts.dom().finite(),
        counts.dom().len() <= usize::MAX,
    ensures
        counts.contains_key(cell) && counts[cell] >= rules.candidate_floor && counts[cell] > 1
            && !unsplittable.contains(cell) <==> exists|i: int| 0 <= i < out.len() && (#[trigger] out[i]).0 == cell,
        forall|i: int|
            0 <= i < out.len() ==> counts.contains_key((#[trigger] out[i]).0) && counts[out[i].0] == out[i].1,
        forall|i: int, j: int|
            0 <= i < j < out.len() ==> {
                let a = #[trigger] out[i];
                let b = #[trigger] out[j];
                a.1 > b.1 || (a.1 == b.1 && a.0 <= b.0)
            },
{
    broadcast use vstd::seq_lib::group_to_multiset_ensures;

    let s = choose|s: Seq<(u32, u64)>| #[trigger]
        crate::cell_map::lists(s, counts) && out == sorted_by(
            eligible(s, unsplittable, rules),
            size_keys(eligible(s, unsplittable, rules)),
        );
    let can = |c: (u32, u64)| c.1 >= rules.candidate_floor && c.1 > 1 && !unsplittable.contains(c.0);
    let e = eligible(s, unsplittable, rules);
    large_cells_are_eligible(s, unsplittable, rules);
    assert(e == s.filter(can));
    s.lemma_filter_len(can);
    listed_cells_are_few(s, counts);
    the_largest_cells_come_first(e);
    assert(out.len() == e.len());
    assert forall|c: (u32, u64)| #[trigger] out.contains(c) <==> e.contains(c) by {
        assert(out.to_multiset().count(c) == e.to_multiset().count(c));
    }
    assert forall|c: (u32, u64)| #[trigger] e.contains(c) <==> s.contains(c) && can(c) by {
        s.filter_lemma(can);
        if e.contains(c) {
            let i = choose|i: int| 0 <= i < e.len() && e[i] == c;
            s.lemma_filter_contains_rev(can, c);
        }
    }
    assert forall|i: int| 0 <= i < out.len() implies counts.contains_key((#[trigger] out[i]).0)
        && counts[out[i].0] == out[i].1 by {
        assert(out.contains(out[i]));
        let k = choose|k: int| 0 <= k < s.len() && s[k] == out[i];
        assert(counts.contains_key(s[k].0));
    }
    if counts.contains_key(cell) && can((cell, counts[cell])) {
        let k = choose|k: int| 0 <= k < s.len() && (#[trigger] s[k]).0 == cell;
        assert(counts.contains_key(s[k].0) && counts[s[k].0] == s[k].1);
        assert(s.contains(s[k]));
        assert(out.contains(s[k]));
    }
    if exists|i: int| 0 <= i < out.len() && (#[trigger] out[i]).0 == cell {
        let i = choose|i: int| 0 <= i < out.len() && (#[trigger] out[i]).0 == cell;
        assert(out.contains(out[i]));
    }
}

proof fn listed_cells_are_few(s: Seq<(u32, u64)>, counts: Map<u32, u64>)
    requires
        crate::cell_map::lists(s, counts),
        counts.dom().finite(),
    ensures
        s.len() <= counts.dom().len(),
{
    let keys = s.map_values(|c: (u32, u64)| c.0);
    assert(keys.no_duplicates());
    keys.unique_seq_to_set();
    assert(keys.to_set().subset_of(counts.dom())) by {
        assert forall|c: u32| keys.to_set().contains(c) implies counts.dom().contains(c) by {
            let i = choose|i: int| 0 <= i < keys.len() && keys[i] == c;
            assert(counts.contains_key(s[i].0));
        }
    }
    vstd::set_lib::lemma_len_subset(keys.to_set(), counts.dom());
}

/// A built split has its family, and a file for each child with rows, under the
/// child's number.
pub proof fn a_built_split_has_a_file_a_child<F>(built: BuiltCellSplit<F>, family: CellFamily, files: Seq<F>, k: int)
    requires
        is_built(built, family, files),
    ensures
        built.family == family,
        built.prepared.len() == peopled(family.children@).len(),
        0 <= k < built.prepared.len() ==> built.prepared@[k].1 == files[k] && built.prepared@[k].0
            == family.children@[peopled(family.children@)[k] as int].0,
{
}

/// Plans stand by the cells that they were made for; results are read as they are.
pub proof fn plans_stand_by_their_cells<F>(
    extracted: Seq<ExtractedCell>,
    places: Seq<usize>,
    plans: Seq<Option<CellPlan>>,
    dim: int,
    s: Seq<(u32, bool)>,
    result: (u32, Option<Vec<(u32, u64)>>),
    built: Seq<BuiltCellSplit<F>>,
    i: int,
)
    requires
        0 <= i,
    ensures
        plan_kinds(extracted, places, plans, dim).len() == places.len(),
        i < places.len() ==> plan_kinds(extracted, places, plans, dim)[i].0
            == extracted[places[i] as int].job.cell && plan_kinds(extracted, places, plans, dim)[i].1
            == plan_children(plans[i], dim, extracted[places[i] as int].n_rows),
        unmarked(s).len() == unmarked_places(s).len(),
        i < unmarked_places(s).len() ==> unmarked(s)[i] == s[unmarked_places(s)[i] as int].0,
        result_view(result).0 == result.0,
        result.1 is None <==> result_view(result).1 is None,
        result.1 matches Some(children) ==> result_view(result).1->0 == children@,
        nothing_built(built) <==> !(exists|k: int| 0 <= k < built.len() && (#[trigger] built[k]).prepared.len() != 0),
{
}

/// One run makes at most 4096 splits, each of a cell of two rows or more, and takes
/// four gibibytes where no budget is set.
pub proof fn a_run_is_limited(committed: int)
    ensures
        committed >= MAX_SPLITS_PER_OPTIMIZE <==> committed >= 4096,
        committed >= MIN_ROWS_TO_SPLIT_CELL <==> committed > 1,
        SPLIT_BATCH_FALLBACK_BUDGET_MIB * 1048576 == 4294967296,
{
}

} // verus!
