//! What becomes of the rows of vector files, seen from outside.
use vstd::prelude::*;

use crate::rows::{
    are_live_groups, bitmap_members, cell_base, dead_rows, docs_before, file_numbers_fit,
    first_places, first_with_id, is_distinct_by_id, last_live, live_in_order, live_rows,
    live_rows_ascend, renumbered, IvfRow,
};

verus! {

/// The deleted rows are those that the bitmap holds.
pub proof fn deleted_rows_are_the_bitmap(bitmap: &roaring::RoaringBitmap)
    ensures
        dead_rows(Some(bitmap)) == bitmap_members(bitmap),
        dead_rows(None) == Set::<u32>::empty(),
{
}

// ---------------------------------------------------------------------------
// A file that is one cell
// ---------------------------------------------------------------------------

/// No live row is lost: each number that the id column has and that is not
/// deleted comes out when some row has it, whatever else the row is.
pub proof fn every_live_number_comes_out<P>(rows: Seq<IvfRow<P>>, ids: Seq<i128>, dead: Set<u32>, k: int)
    requires
        0 <= k < rows.len(),
        rows[k].local_doc_id < ids.len(),
        !dead.contains(rows[k].local_doc_id),
    ensures
        exists|i: int|
            0 <= i < live_in_order(rows, ids, dead, ids.len() as int).len() && (#[trigger] live_in_order(
                rows,
                ids,
                dead,
                ids.len() as int,
            )[i]).local_doc_id == rows[k].local_doc_id,
{
    number_comes_out(rows, ids, dead, ids.len() as int, k);
}

proof fn number_comes_out<P>(rows: Seq<IvfRow<P>>, ids: Seq<i128>, dead: Set<u32>, n: int, k: int)
    requires
        0 <= k < rows.len(),
        rows[k].local_doc_id < n <= ids.len(),
        !dead.contains(rows[k].local_doc_id),
    ensures
        exists|i: int|
            0 <= i < live_in_order(rows, ids, dead, n).len() && (#[trigger] live_in_order(
                rows,
                ids,
                dead,
                n,
            )[i]).local_doc_id == rows[k].local_doc_id,
    decreases n,
{
    let here = live_in_order(rows, ids, dead, n);
    let before = live_in_order(rows, ids, dead, n - 1);
    last_live_is_the_last(rows, dead, n - 1);
    if rows[k].local_doc_id < n - 1 {
        number_comes_out(rows, ids, dead, n - 1, k);
        let i = choose|i: int| 0 <= i < before.len() && (#[trigger] before[i]).local_doc_id == rows[k].local_doc_id;
        assert(here[i] == before[i]);
    } else {
        assert(last_live(rows, dead, n - 1) is Some);
        assert(here[before.len() as int].local_doc_id == rows[k].local_doc_id);
    }
}

proof fn last_live_is_the_last<P>(rows: Seq<IvfRow<P>>, dead: Set<u32>, number: int)
    ensures
        match last_live(rows, dead, number) {
            Some(row) => exists|k: int|
                {
                    &&& 0 <= k < rows.len()
                    &&& #[trigger] rows[k] == row
                    &&& row.local_doc_id == number
                    &&& !dead.contains(row.local_doc_id)
                    &&& forall|m: int| k < m < rows.len() ==> (#[trigger] rows[m]).local_doc_id != number
                },
            None => forall|k: int|
                0 <= k < rows.len() ==> (#[trigger] rows[k]).local_doc_id != number || dead.contains(
                    rows[k].local_doc_id,
                ),
        },
    decreases rows.len(),
{
    if rows.len() > 0 {
        let less = rows.drop_last();
        let n = rows.len() - 1;
        last_live_is_the_last(less, dead, number);
        if rows[n].local_doc_id == number && !dead.contains(rows[n].local_doc_id) {
            assert(rows[n] == rows.last());
        } else if let Some(row) = last_live(less, dead, number) {
            let k = choose|k: int|
                {
                    &&& 0 <= k < less.len()
                    &&& #[trigger] less[k] == row
                    &&& row.local_doc_id == number
                    &&& !dead.contains(row.local_doc_id)
                    &&& forall|m: int| k < m < less.len() ==> (#[trigger] less[m]).local_doc_id != number
                };
            assert(rows[k] == row);
            assert forall|m: int| k < m < rows.len() implies (#[trigger] rows[m]).local_doc_id != number by {
                if m < n {
                    assert(less[m] == rows[m]);
                }
            }
        } else {
            assert forall|k: int| 0 <= k < rows.len() implies (#[trigger] rows[k]).local_doc_id != number
                || dead.contains(rows[k].local_doc_id) by {
                if k < n {
                    assert(less[k] == rows[k]);
                }
            }
        }
    }
}

/// Each row that comes out is the last row of the file with its number, with the
/// cluster and the payload that it had. Its id is its own, or that of the id
/// column where it has none. The numbers ascend, and none of them is deleted.
pub proof fn rows_come_out_as_they_were<P>(rows: Seq<IvfRow<P>>, ids: Seq<i128>, dead: Set<u32>, i: int)
    requires
        0 <= i < live_in_order(rows, ids, dead, ids.len() as int).len(),
    ensures
        ({
            let out = live_in_order(rows, ids, dead, ids.len() as int);
            &&& out[i].local_doc_id < ids.len()
            &&& !dead.contains(out[i].local_doc_id)
            &&& forall|j: int| i < j < out.len() ==> out[i].local_doc_id < (#[trigger] out[j]).local_doc_id
            &&& exists|k: int|
                {
                    &&& 0 <= k < rows.len()
                    &&& (#[trigger] rows[k]).local_doc_id == out[i].local_doc_id
                    &&& forall|m: int|
                        k < m < rows.len() ==> (#[trigger] rows[m]).local_doc_id != out[i].local_doc_id
                    &&& out[i].cluster == rows[k].cluster
                    &&& out[i].payload == rows[k].payload
                    &&& out[i].stable_id == if rows[k].stable_id != 0 {
                        rows[k].stable_id
                    } else {
                        ids[rows[k].local_doc_id as int]
                    }
                }
        }),
{
    live_rows_ascend(rows, ids, dead, ids.len() as int);
    let out = live_in_order(rows, ids, dead, ids.len() as int);
    assert(forall|j: int| i < j < out.len() ==> out[i].local_doc_id < (#[trigger] out[j]).local_doc_id);
    row_comes_out_as_it_was(rows, ids, dead, ids.len() as int, i);
}

proof fn row_comes_out_as_it_was<P>(rows: Seq<IvfRow<P>>, ids: Seq<i128>, dead: Set<u32>, n: int, i: int)
    requires
        n <= ids.len(),
        0 <= i < live_in_order(rows, ids, dead, n).len(),
    ensures
        exists|k: int|
            {
                let row = live_in_order(rows, ids, dead, n)[i];
                &&& 0 <= k < rows.len()
                &&& (#[trigger] rows[k]).local_doc_id == row.local_doc_id
                &&& forall|m: int| k < m < rows.len() ==> (#[trigger] rows[m]).local_doc_id != row.local_doc_id
                &&& row.cluster == rows[k].cluster
                &&& row.payload == rows[k].payload
                &&& row.stable_id == if rows[k].stable_id != 0 {
                    rows[k].stable_id
                } else {
                    ids[rows[k].local_doc_id as int]
                }
            },
    decreases n,
{
    if n > 0 {
        let before = live_in_order(rows, ids, dead, n - 1);
        if i < before.len() {
            row_comes_out_as_it_was(rows, ids, dead, n - 1, i);
            assert(live_in_order(rows, ids, dead, n)[i] == before[i]);
        } else {
            last_live_is_the_last(rows, dead, n - 1);
        }
    }
}

// ---------------------------------------------------------------------------
// A file of many cells
// ---------------------------------------------------------------------------

/// The first row of a cell stands behind all rows of the cells before it: by
/// `starts`, where the cells of the directory start.
pub proof fn cell_starts_behind_the_cells_before(
    directory: Seq<(u32, u32)>,
    starts: Seq<int>,
    cell: u32,
    at: int,
)
    requires
        starts.len() == directory.len() + 1,
        starts[0] == 0,
        forall|d: int| 0 <= d < directory.len() ==> starts[d + 1] == starts[d] + (#[trigger] directory[d]).1,
        starts[directory.len() as int] <= u32::MAX,
        0 <= at < directory.len(),
        directory[at].0 == cell,
        forall|d: int| at < d < directory.len() ==> (#[trigger] directory[d]).0 != cell,
    ensures
        cell_base(directory, cell, directory.len() as int) == starts[at],
{
    docs_are_starts(directory, starts, at);
    base_is_at(directory, cell, at, directory.len() as int);
}

proof fn starts_ascend(directory: Seq<(u32, u32)>, starts: Seq<int>, i: int, j: int)
    requires
        starts.len() == directory.len() + 1,
        forall|d: int| 0 <= d < directory.len() ==> starts[d + 1] == starts[d] + (#[trigger] directory[d]).1,
        0 <= i <= j <= directory.len(),
    ensures
        starts[i] <= starts[j],
    decreases j - i,
{
    if i < j {
        starts_ascend(directory, starts, i, j - 1);
        assert(starts[j - 1 + 1] == starts[j - 1] + directory[j - 1].1);
    }
}

proof fn docs_are_starts(directory: Seq<(u32, u32)>, starts: Seq<int>, i: int)
    requires
        starts.len() == directory.len() + 1,
        starts[0] == 0,
        forall|d: int| 0 <= d < directory.len() ==> starts[d + 1] == starts[d] + (#[trigger] directory[d]).1,
        starts[directory.len() as int] <= u32::MAX,
        0 <= i <= directory.len(),
    ensures
        docs_before(directory, i) == starts[i],
    decreases i,
{
    if i > 0 {
        docs_are_starts(directory, starts, i - 1);
        assert(starts[i - 1 + 1] == starts[i - 1] + directory[i - 1].1);
        starts_ascend(directory, starts, i, directory.len() as int);
    }
}

proof fn base_is_at(directory: Seq<(u32, u32)>, cell: u32, at: int, n: int)
    requires
        0 <= at < n <= directory.len(),
        directory[at].0 == cell,
        forall|d: int| at < d < n ==> (#[trigger] directory[d]).0 != cell,
    ensures
        cell_base(directory, cell, n) == docs_before(directory, at),
    decreases n,
{
    if n - 1 > at {
        assert(directory[n - 1].0 != cell);
        base_is_at(directory, cell, at, n - 1);
    }
}

/// Of each cell exactly the rows stay that the bitmap does not hold; a row's
/// number in the bitmap is the cell's first and its own.
pub proof fn cells_keep_their_live_rows<P>(
    groups: Seq<(u32, Vec<IvfRow<P>>)>,
    cells: Seq<(u32, Vec<IvfRow<P>>)>,
    directory: Seq<(u32, u32)>,
    dead: Set<u32>,
    i: int,
)
    requires
        are_live_groups(groups, cells, directory, dead),
        0 <= i < cells.len(),
    ensures
        groups.len() == cells.len(),
        groups[i].0 == cells[i].0,
        groups[i].1@ == cells[i].1@.filter(
            |row: IvfRow<P>|
                !dead.contains(
                    (cell_base(directory, cells[i].0, directory.len() as int) + row.local_doc_id) as u32,
                ),
        ),
{
    let base = cell_base(directory, cells[i].0, directory.len() as int);
    live_rows_are_a_filter(cells[i].1@, dead, base);
    assert(groups[i].0 == cells[i].0);
    let a = |row: IvfRow<P>| !dead.contains((base + row.local_doc_id) as u32);
    let b = |row: IvfRow<P>|
        !dead.contains(
            (cell_base(directory, cells[i].0, directory.len() as int) + row.local_doc_id) as u32,
        );
    assert(a =~= b);
}

proof fn live_rows_are_a_filter<P>(rows: Seq<IvfRow<P>>, dead: Set<u32>, base: int)
    ensures
        live_rows(rows, dead, base) == rows.filter(
            |row: IvfRow<P>| !dead.contains((base + row.local_doc_id) as u32),
        ),
    decreases rows.len(),
{
    reveal(Seq::filter);
    if rows.len() > 0 {
        live_rows_are_a_filter(rows.drop_last(), dead, base);
    }
}

// ---------------------------------------------------------------------------
// Rows for a drain
// ---------------------------------------------------------------------------

/// A drain moves each id that is not deleted once, by the first row that has it,
/// which keeps its cluster and its payload; the rows come by id and are numbered
/// in that order.
pub proof fn drain_moves_the_first_row_of_each_id<P>(
    out: Seq<IvfRow<P>>,
    rows: Seq<IvfRow<P>>,
    deleted: Set<i128>,
    k: int,
)
    requires
        is_distinct_by_id(out, rows, deleted),
        out.len() <= u32::MAX,
        0 <= k < rows.len(),
        forall|m: int| 0 <= m < k ==> (#[trigger] rows[m]).stable_id != rows[k].stable_id,
    ensures
        deleted.contains(rows[k].stable_id) ==> forall|i: int|
            0 <= i < out.len() ==> (#[trigger] out[i]).stable_id != rows[k].stable_id,
        !deleted.contains(rows[k].stable_id) ==> exists|i: int|
            {
                &&& 0 <= i < out.len()
                &&& (#[trigger] out[i]).stable_id == rows[k].stable_id
                &&& out[i].local_doc_id == i
                &&& out[i].cluster == rows[k].cluster
                &&& out[i].payload == rows[k].payload
            },
        forall|i: int, j: int|
            0 <= i < j < out.len() ==> (#[trigger] out[i]).stable_id < (#[trigger] out[j]).stable_id,
        forall|i: int| 0 <= i < out.len() ==> has_row_with(rows, (#[trigger] out[i]).stable_id),
{
    first_with_id_is_first(rows, rows[k].stable_id);
    if !deleted.contains(rows[k].stable_id) {
        let i = choose|i: int| 0 <= i < out.len() && (#[trigger] out[i]).stable_id == rows[k].stable_id;
        let f = first_with_id(rows, rows[k].stable_id)->0;
        assert(f == k);
        assert(out[i].local_doc_id == i);
    }
    assert forall|i: int| 0 <= i < out.len() implies has_row_with(rows, (#[trigger] out[i]).stable_id) by {
        first_with_id_is_first(rows, out[i].stable_id);
        assert(rows[first_with_id(rows, out[i].stable_id)->0].stable_id == out[i].stable_id);
    }
}

/// Some row has the id.
pub open spec fn has_row_with<P>(rows: Seq<IvfRow<P>>, id: i128) -> bool {
    exists|k: int| 0 <= k < rows.len() && (#[trigger] rows[k]).stable_id == id
}

proof fn first_with_id_is_first<P>(rows: Seq<IvfRow<P>>, id: i128)
    ensures
        match first_with_id(rows, id) {
            Some(k) => {
                &&& 0 <= k < rows.len()
                &&& rows[k].stable_id == id
                &&& forall|m: int| 0 <= m < k ==> (#[trigger] rows[m]).stable_id != id
            },
            None => forall|m: int| 0 <= m < rows.len() ==> (#[trigger] rows[m]).stable_id != id,
        },
    decreases rows.len(),
{
    if rows.len() > 0 {
        let less = rows.drop_last();
        first_with_id_is_first(less, id);
        assert(forall|m: int| 0 <= m < less.len() ==> less[m] == rows[m]);
        if let Some(k) = first_with_id(less, id) {
            assert(rows[k] == less[k]);
            assert forall|m: int| 0 <= m < k implies (#[trigger] rows[m]).stable_id != id by {
                assert(less[m] == rows[m]);
            }
        } else {
            assert forall|m: int| 0 <= m < rows.len() - 1 implies (#[trigger] rows[m]).stable_id != id by {
                assert(less[m] == rows[m]);
            }
        }
    }
}

/// A place of a batch is taken if and only if no place before it has its id, and
/// the places are taken in order.
pub proof fn first_places_are_the_first_of_their_ids(ids: Seq<i128>, n: int, k: int)
    requires
        0 <= k < n <= ids.len() <= usize::MAX,
    ensures
        first_places(ids, n).contains(k as usize) <==> (forall|m: int| 0 <= m < k ==> #[trigger] ids[m] != ids[k]),
        forall|i: int, j: int|
            0 <= i < j < first_places(ids, n).len() ==> (#[trigger] first_places(ids, n)[i]) < (
            #[trigger] first_places(ids, n)[j]),
        forall|i: int| 0 <= i < first_places(ids, n).len() ==> (#[trigger] first_places(ids, n)[i]) < n,
    decreases n,
{
    places_ascend(ids, n);
    places_ascend(ids, n - 1);
    let before = first_places(ids, n - 1);
    let after = first_places(ids, n);
    if k < n - 1 {
        first_places_are_the_first_of_their_ids(ids, n - 1, k);
        if before.contains(k as usize) {
            let i = choose|i: int| 0 <= i < before.len() && before[i] == k as usize;
            assert(after[i] == k as usize);
        } else if after.contains(k as usize) {
            let i = choose|i: int| 0 <= i < after.len() && after[i] == k as usize;
            assert(i < before.len());
            assert(before[i] == k as usize);
        }
    } else {
        assert(k == n - 1);
        if forall|m: int| 0 <= m < k ==> #[trigger] ids[m] != ids[k] {
            assert(after[after.len() - 1] == k as usize);
        } else if after.contains(k as usize) {
            let i = choose|i: int| 0 <= i < after.len() && after[i] == k as usize;
            assert(before[i] < n - 1);
        }
    }
}

proof fn places_ascend(ids: Seq<i128>, n: int)
    requires
        0 <= n <= ids.len() <= usize::MAX,
    ensures
        forall|i: int, j: int|
            0 <= i < j < first_places(ids, n).len() ==> (#[trigger] first_places(ids, n)[i]) < (
            #[trigger] first_places(ids, n)[j]),
        forall|i: int| 0 <= i < first_places(ids, n).len() ==> (#[trigger] first_places(ids, n)[i]) < n,
    decreases n,
{
    if n > 0 {
        places_ascend(ids, n - 1);
        let before = first_places(ids, n - 1);
        let after = first_places(ids, n);
        assert(forall|i: int| 0 <= i < before.len() ==> after[i] == before[i]);
        assert(after.len() > before.len() ==> after == before.push((n - 1) as usize));
    }
}

/// A row that is numbered anew keeps all else. A file's numbers fit when each row's
/// does, counted from where its cell starts.
pub proof fn a_new_number_changes_nothing_else<P>(
    row: IvfRow<P>,
    number: int,
    cells: Seq<(u32, Vec<IvfRow<P>>)>,
    directory: Seq<(u32, u32)>,
    i: int,
    r: int,
)
    requires
        0 <= number <= u32::MAX,
    ensures
        renumbered(row, number).local_doc_id == number,
        renumbered(row, number).stable_id == row.stable_id,
        renumbered(row, number).cluster == row.cluster,
        renumbered(row, number).payload == row.payload,
        file_numbers_fit(cells, directory) && 0 <= i < cells.len() && 0 <= r < cells[i].1.len() ==> cells[i].1@[r].local_doc_id
            <= u32::MAX - cell_base(directory, cells[i].0, directory.len() as int),
{
}

} // verus!
