//! Rows that are read back from superfiles.
//!
//! A row carries a payload that nothing here looks at. Deleted rows are known by
//! a bitmap of their numbers in the file.
use vstd::prelude::*;

use std::collections::HashSet;

use crate::order::{stable_order, SortKey};

verus! {

broadcast use vstd::std_specs::hash::group_hash_axioms;

/// A compressed set of row numbers.
#[verifier::external_type_specification]
#[verifier::external_body]
pub struct ExRoaringBitmap(roaring::RoaringBitmap);

/// The numbers in a bitmap.
pub uninterp spec fn bitmap_members(bitmap: &roaring::RoaringBitmap) -> Set<u32>;

/// `RoaringBitmap::contains`: whether the number is in the bitmap.
#[verifier::external_body]
pub(crate) fn bitmap_contains(bitmap: &roaring::RoaringBitmap, value: u32) -> (r: bool)
    ensures
        r == bitmap_members(bitmap).contains(value),
{
    bitmap.contains(value)
}

/// `RoaringBitmap::iter`: the numbers in the bitmap, ascending, each once.
#[verifier::external_body]
pub(crate) fn bitmap_list(bitmap: &roaring::RoaringBitmap) -> (list: Vec<u32>)
    ensures
        forall|i: int, j: int| 0 <= i < j < list.len() ==> (#[trigger] list@[i]) < (#[trigger] list@[j]),
        forall|v: u32| list@.contains(v) == bitmap_members(bitmap).contains(v),
{
    bitmap.iter().collect()
}

/// The deleted rows; none without a bitmap.
pub open spec fn dead_rows(tombstones: Option<&roaring::RoaringBitmap>) -> Set<u32> {
    match tombstones {
        Some(bitmap) => bitmap_members(bitmap),
        None => Set::empty(),
    }
}

fn is_dead(tombstones: Option<&roaring::RoaringBitmap>, row: u32) -> (r: bool)
    ensures
        r == dead_rows(tombstones).contains(row),
{
    match tombstones {
        Some(bitmap) => bitmap_contains(bitmap, row),
        None => false,
    }
}

/// One row of a vector index.
#[derive(Debug)]
pub struct IvfRow<P> {
    /// The row's number in its file or cell.
    pub local_doc_id: u32,
    /// The row's id in the table; zero when the file does not carry it.
    pub stable_id: i128,
    /// The cluster that holds the row.
    pub cluster: u32,
    pub payload: P,
}

// ---------------------------------------------------------------------------
// Rows in the order of their numbers
// ---------------------------------------------------------------------------

/// The last live row with the number.
pub open spec fn last_live<P>(rows: Seq<IvfRow<P>>, dead: Set<u32>, number: int) -> Option<IvfRow<P>>
    decreases rows.len(),
{
    if rows.len() == 0 {
        None
    } else if rows.last().local_doc_id == number && !dead.contains(rows.last().local_doc_id) {
        Some(rows.last())
    } else {
        last_live(rows.drop_last(), dead, number)
    }
}

/// The row with its id filled in from the table's id column where the file does
/// not carry it.
pub open spec fn with_id<P>(row: IvfRow<P>, id: i128) -> IvfRow<P> {
    IvfRow {
        stable_id: if row.stable_id == 0 {
            id
        } else {
            row.stable_id
        },
        ..row
    }
}

/// The live rows in the order of their numbers, of those below `n` the last with
/// each number.
pub open spec fn live_in_order<P>(rows: Seq<IvfRow<P>>, ids: Seq<i128>, dead: Set<u32>, n: int) -> Seq<IvfRow<P>>
    decreases n,
{
    if n <= 0 {
        Seq::empty()
    } else {
        let before = live_in_order(rows, ids, dead, n - 1);
        match last_live(rows, dead, n - 1) {
            Some(row) => before.push(with_id(row, ids[n - 1])),
            None => before,
        }
    }
}

/// The live rows of a file in the order of their numbers. `stable_ids_by_local`
/// is the file's id column; a row beyond its end is left out.
pub fn materialized_ivf_rows_in_doc_order<P>(
    rows: Vec<IvfRow<P>>,
    stable_ids_by_local: &Vec<i128>,
    tombstones: Option<&roaring::RoaringBitmap>,
) -> (out: Vec<IvfRow<P>>)
    ensures
        out@ == live_in_order(
            rows@,
            stable_ids_by_local@,
            dead_rows(tombstones),
            stable_ids_by_local.len() as int,
        ),
{
    let n: usize = stable_ids_by_local.len();
    let ghost dead = dead_rows(tombstones);
    let ghost all = rows@;
    let mut slots: Vec<Option<IvfRow<P>>> = Vec::new();
    let mut s: usize = 0;
    while s < n
        invariant
            s <= n,
            slots.len() == s,
            forall|q: int| 0 <= q < s ==> (#[trigger] slots@[q]) is None,
        decreases n - s,
    {
        slots.push(None);
        s = s + 1;
    }
    // From the last row on, the first that fits a slot stays there.
    let mut rest = rows;
    assert(all.take(all.len() as int) =~= all);
    while rest.len() > 0
        invariant
            n == stable_ids_by_local.len(),
            slots.len() == n,
            dead == dead_rows(tombstones),
            rest.len() <= all.len(),
            rest@ == all.take(rest.len() as int),
            forall|q: int|
                0 <= q < n ==> last_live(all, dead, q) == match (#[trigger] slots@[q]) {
                    Some(row) => Some(row),
                    None => last_live(rest@, dead, q),
                },
        decreases rest.len(),
    {
        let ghost before = slots@;
        let ghost prior = rest@;
        match rest.pop() {
            Some(row) => {
                proof {
                    assert(prior.drop_last() =~= rest@);
                    assert(prior.last() == row);
                    assert(rest@ =~= all.take(rest.len() as int));
                }
                let number: u32 = row.local_doc_id;
                if (number as usize) < n && !is_dead(tombstones, number) && slots[number as usize].is_none() {
                    slots.set(number as usize, Some(row));
                }
                assert forall|q: int| 0 <= q < n implies last_live(all, dead, q) == match (
                #[trigger] slots@[q]) {
                    Some(r) => Some(r),
                    None => last_live(rest@, dead, q),
                } by {
                    assert(last_live(all, dead, q) == match before[q] {
                        Some(r) => Some(r),
                        None => last_live(prior, dead, q),
                    });
                }
            },
            None => {},
        }
    }
    let ghost filled = slots@;
    let mut out: Vec<IvfRow<P>> = Vec::new();
    let mut i: usize = 0;
    let mut left = slots;
    while i < n
        invariant
            i <= n,
            n == stable_ids_by_local.len(),
            filled.len() == n,
            left.len() == n,
            forall|q: int| i <= q < n ==> (#[trigger] left@[q]) == filled[q],
            forall|q: int| 0 <= q < n ==> (#[trigger] filled[q]) == last_live(all, dead, q),
            out@ == live_in_order(all, stable_ids_by_local@, dead, i as int),
        decreases n - i,
    {
        let mut slot: Option<IvfRow<P>> = None;
        std::mem::swap(&mut slot, &mut left[i]);
        assert(slot == filled[i as int]);
        if let Some(row) = slot {
            let stable_id: i128 = if row.stable_id == 0 {
                stable_ids_by_local[i]
            } else {
                row.stable_id
            };
            out.push(
                IvfRow { local_doc_id: row.local_doc_id, stable_id, cluster: row.cluster, payload: row.payload },
            );
        }
        i = i + 1;
    }
    out
}

/// A row that is handed out has its own number as its place asks: the numbers
/// ascend, and none of them is deleted.
pub proof fn live_rows_ascend<P>(rows: Seq<IvfRow<P>>, ids: Seq<i128>, dead: Set<u32>, n: int)
    ensures
        forall|i: int|
            0 <= i < live_in_order(rows, ids, dead, n).len() ==> !dead.contains(
                (#[trigger] live_in_order(rows, ids, dead, n)[i]).local_doc_id,
            ) && live_in_order(rows, ids, dead, n)[i].local_doc_id < n,
        forall|i: int, j: int|
            0 <= i < j < live_in_order(rows, ids, dead, n).len() ==> (#[trigger] live_in_order(
                rows,
                ids,
                dead,
                n,
            )[i]).local_doc_id < (#[trigger] live_in_order(rows, ids, dead, n)[j]).local_doc_id,
    decreases n,
{
    if n > 0 {
        live_rows_ascend(rows, ids, dead, n - 1);
        last_live_is_live(rows, dead, n - 1);
        let before = live_in_order(rows, ids, dead, n - 1);
        let here = live_in_order(rows, ids, dead, n);
        assert forall|i: int| 0 <= i < here.len() implies !dead.contains((#[trigger] here[i]).local_doc_id)
            && here[i].local_doc_id < n by {
            if i < before.len() {
                assert(here[i] == before[i]);
            }
        }
        assert forall|i: int, j: int| 0 <= i < j < here.len() implies (#[trigger] here[i]).local_doc_id < (
        #[trigger] here[j]).local_doc_id by {
            assert(here[i] == before[i]);
            if j < before.len() {
                assert(here[j] == before[j]);
            }
        }
    }
}

proof fn last_live_is_live<P>(rows: Seq<IvfRow<P>>, dead: Set<u32>, number: int)
    ensures
        last_live(rows, dead, number) matches Some(row) ==> row.local_doc_id == number && !dead.contains(
            row.local_doc_id,
        ),
    decreases rows.len(),
{
    if rows.len() > 0 {
        last_live_is_live(rows.drop_last(), dead, number);
    }
}

// ---------------------------------------------------------------------------
// Rows of a file of many cells
// ---------------------------------------------------------------------------

/// The rows of the cells before position `i` of the directory, at most as many
/// as can be counted.
pub open spec fn docs_before(directory: Seq<(u32, u32)>, i: int) -> int
    decreases i,
{
    if i <= 0 {
        0
    } else {
        crate::arith::capped(docs_before(directory, i - 1) + directory[i - 1].1, u32::MAX as int)
    }
}

/// The number of a cell's first row in the file: behind all the rows of the
/// cells before it. Of a cell that is listed more than once the last place
/// counts; one that is not listed starts at zero.
pub open spec fn cell_base(directory: Seq<(u32, u32)>, cell: u32, n: int) -> int
    decreases n,
{
    if n <= 0 {
        0
    } else if directory[n - 1].0 == cell {
        docs_before(directory, n - 1)
    } else {
        cell_base(directory, cell, n - 1)
    }
}

/// The number of the first row at each place of the directory.
fn first_rows(directory: &Vec<(u32, u32)>) -> (bases: Vec<u32>)
    ensures
        bases.len() == directory.len(),
        forall|i: int| 0 <= i < bases.len() ==> (#[trigger] bases@[i]) == docs_before(directory@, i),
{
    let mut bases: Vec<u32> = Vec::new();
    let mut running: u32 = 0;
    let mut i: usize = 0;
    while i < directory.len()
        invariant
            i <= directory.len(),
            bases.len() == i,
            running == docs_before(directory@, i as int),
            forall|k: int| 0 <= k < i ==> (#[trigger] bases@[k]) == docs_before(directory@, k),
        decreases directory.len() - i,
    {
        bases.push(running);
        running = running.saturating_add(directory[i].1);
        i = i + 1;
    }
    bases
}

fn base_of_cell(directory: &Vec<(u32, u32)>, bases: &Vec<u32>, cell: u32) -> (base: u32)
    requires
        bases.len() == directory.len(),
        forall|i: int| 0 <= i < bases.len() ==> (#[trigger] bases@[i]) == docs_before(directory@, i),
    ensures
        base == cell_base(directory@, cell, directory.len() as int),
{
    let mut n: usize = directory.len();
    while n > 0
        invariant
            n <= directory.len(),
            bases.len() == directory.len(),
            forall|i: int| 0 <= i < bases.len() ==> (#[trigger] bases@[i]) == docs_before(directory@, i),
            cell_base(directory@, cell, directory.len() as int) == cell_base(directory@, cell, n as int),
        decreases n,
    {
        if directory[n - 1].0 == cell {
            return bases[n - 1];
        }
        n = n - 1;
    }
    0
}

/// The rows of a cell that starts at `base` which are not deleted.
pub open spec fn live_rows<P>(rows: Seq<IvfRow<P>>, dead: Set<u32>, base: int) -> Seq<IvfRow<P>>
    decreases rows.len(),
{
    if rows.len() == 0 {
        Seq::empty()
    } else if dead.contains((base + rows.last().local_doc_id) as u32) {
        live_rows(rows.drop_last(), dead, base)
    } else {
        live_rows(rows.drop_last(), dead, base).push(rows.last())
    }
}

/// Each cell with its live rows.
pub open spec fn are_live_groups<P>(
    groups: Seq<(u32, Vec<IvfRow<P>>)>,
    cells: Seq<(u32, Vec<IvfRow<P>>)>,
    directory: Seq<(u32, u32)>,
    dead: Set<u32>,
) -> bool {
    &&& groups.len() == cells.len()
    &&& forall|i: int|
        0 <= i < groups.len() ==> (#[trigger] groups[i]).0 == cells[i].0 && groups[i].1@ == live_rows(
            cells[i].1@,
            dead,
            cell_base(directory, cells[i].0, directory.len() as int),
        )
}

/// Every row's number in the file can be counted.
pub open spec fn file_numbers_fit<P>(cells: Seq<(u32, Vec<IvfRow<P>>)>, directory: Seq<(u32, u32)>) -> bool {
    forall|i: int, r: int|
        0 <= i < cells.len() && 0 <= r < cells[i].1.len() ==> cell_base(
            directory,
            cells[i].0,
            directory.len() as int,
        ) + (#[trigger] cells[i].1@[r]).local_doc_id <= u32::MAX
}

/// Tells whether every row's number in the file can be counted.
pub fn numbers_fit_file<P>(cells: &Vec<(u32, Vec<IvfRow<P>>)>, directory: &Vec<(u32, u32)>) -> (fit: bool)
    ensures
        fit == file_numbers_fit(cells@, directory@),
{
    let bases = first_rows(directory);
    let ghost n = directory.len() as int;
    let mut i: usize = 0;
    while i < cells.len()
        invariant
            i <= cells.len(),
            n == directory.len(),
            bases.len() == directory.len(),
            forall|q: int| 0 <= q < bases.len() ==> (#[trigger] bases@[q]) == docs_before(directory@, q),
            forall|c: int, r: int|
                0 <= c < i && 0 <= r < cells@[c].1.len() ==> cell_base(directory@, cells@[c].0, n) + (
                #[trigger] cells@[c].1@[r]).local_doc_id <= u32::MAX,
        decreases cells.len() - i,
    {
        let base: u32 = base_of_cell(directory, &bases, cells[i].0);
        let rows = &cells[i].1;
        let mut k: usize = 0;
        while k < rows.len()
            invariant
                k <= rows.len(),
                i < cells.len(),
                n == directory.len(),
                *rows == cells@[i as int].1,
                base == cell_base(directory@, cells@[i as int].0, n),
                forall|r: int|
                    0 <= r < k ==> base + (#[trigger] cells@[i as int].1@[r]).local_doc_id <= u32::MAX,
            decreases rows.len() - k,
        {
            if rows[k].local_doc_id > u32::MAX - base {
                assert(cell_base(directory@, cells@[i as int].0, n) + cells@[i as int].1@[k as int].local_doc_id
                    > u32::MAX);
                return false;
            }
            k = k + 1;
        }
        i = i + 1;
    }
    true
}

fn keep_live<P>(rows: Vec<IvfRow<P>>, tombstones: &roaring::RoaringBitmap, base: u32) -> (out: Vec<IvfRow<P>>)
    requires
        forall|r: int| 0 <= r < rows.len() ==> base + (#[trigger] rows@[r]).local_doc_id <= u32::MAX,
    ensures
        out@ == live_rows(rows@, bitmap_members(tombstones), base as int),
{
    let ghost all = rows@;
    let ghost dead = bitmap_members(tombstones);
    let mut out: Vec<IvfRow<P>> = Vec::new();
    let mut rest = rows;
    assert(all.take(all.len() as int) =~= all);
    assert(live_rows(all, dead, base as int) + out@.reverse() =~= live_rows(all, dead, base as int));
    while rest.len() > 0
        invariant
            rest.len() <= all.len(),
            rest@ == all.take(rest.len() as int),
            dead == bitmap_members(tombstones),
            forall|r: int| 0 <= r < all.len() ==> base + (#[trigger] all[r]).local_doc_id <= u32::MAX,
            live_rows(all, dead, base as int) == live_rows(rest@, dead, base as int) + out@.reverse(),
        decreases rest.len(),
    {
        let ghost prior = rest@;
        let ghost held = out@;
        match rest.pop() {
            Some(row) => {
                proof {
                    assert(prior.drop_last() =~= rest@);
                    assert(prior.last() == row);
                    assert(rest@ =~= all.take(rest.len() as int));
                    assert(row == all[rest.len() as int]);
                }
                if !bitmap_contains(tombstones, base + row.local_doc_id) {
                    out.push(row);
                    proof {
                        assert(out@.reverse() =~= seq![row] + held.reverse());
                        assert(live_rows(rest@, dead, base as int) + out@.reverse() =~= live_rows(
                            rest@,
                            dead,
                            base as int,
                        ).push(row) + held.reverse());
                    }
                }
            },
            None => {},
        }
    }
    let ghost reversed = out@;
    let mut turned: Vec<IvfRow<P>> = Vec::new();
    while out.len() > 0
        invariant
            out.len() <= reversed.len(),
            out@ == reversed.take(out.len() as int),
            turned@ == reversed.skip(out.len() as int).reverse(),
        decreases out.len(),
    {
        let ghost left = out.len();
        match out.pop() {
            Some(row) => {
                turned.push(row);
                proof {
                    assert(out@ =~= reversed.take(left - 1));
                    assert(row == reversed[left - 1]);
                    assert(reversed.skip(left - 1) =~= seq![row] + reversed.skip(left as int));
                    assert(turned@ =~= reversed.skip(left - 1).reverse());
                }
            },
            None => {},
        }
    }
    assert(reversed.skip(0) =~= reversed);
    assert(turned@ =~= live_rows(all, dead, base as int));
    turned
}

/// The live rows of each cell. The bitmap counts rows through the whole file, in
/// the order of its cell directory, which lists each cell with its number of
/// rows.
pub fn group_multicell_rows<P>(
    cells: Vec<(u32, Vec<IvfRow<P>>)>,
    directory: &Vec<(u32, u32)>,
    tombstones: Option<&roaring::RoaringBitmap>,
) -> (groups: Vec<(u32, Vec<IvfRow<P>>)>)
    requires
        tombstones is Some ==> file_numbers_fit(cells@, directory@),
    ensures
        tombstones is Some ==> are_live_groups(groups@, cells@, directory@, dead_rows(tombstones)),
        tombstones is None ==> groups@ == cells@,
{
    let bitmap = match tombstones {
        None => {
            return cells;
        },
        Some(bitmap) => bitmap,
    };
    let bases = first_rows(directory);
    let ghost all = cells@;
    let ghost dead = bitmap_members(bitmap);
    let mut rest = cells;
    let mut groups: Vec<(u32, Vec<IvfRow<P>>)> = Vec::new();
    let n: usize = rest.len();
    let mut k: usize = 0;
    while k < n
        invariant
            k <= n,
            n == all.len(),
            rest.len() == n - k,
            rest@ == all.skip(k as int),
            groups.len() == k,
            bases.len() == directory.len(),
            forall|q: int| 0 <= q < bases.len() ==> (#[trigger] bases@[q]) == docs_before(directory@, q),
            file_numbers_fit(all, directory@),
            dead == bitmap_members(bitmap),
            forall|q: int|
                0 <= q < k ==> (#[trigger] groups@[q]).0 == all[q].0 && groups@[q].1@ == live_rows(
                    all[q].1@,
                    dead,
                    cell_base(directory@, all[q].0, directory.len() as int),
                ),
        decreases n - k,
    {
        let (cell, rows) = rest.remove(0);
        assert((cell, rows) == all[k as int]);
        let base: u32 = base_of_cell(directory, &bases, cell);
        assert forall|r: int| 0 <= r < rows.len() implies base + (#[trigger] rows@[r]).local_doc_id
            <= u32::MAX by {
            assert(all[k as int].1@[r] == rows@[r]);
        }
        let live = keep_live(rows, bitmap, base);
        groups.push((cell, live));
        assert(rest@ =~= all.skip(k + 1));
        k = k + 1;
    }
    groups
}

// ---------------------------------------------------------------------------
// Rows of a user file for a drain
// ---------------------------------------------------------------------------

/// The row numbers that have to be looked up as ids before rows are dropped;
/// `None` when nothing is deleted.
pub fn deleted_locals(tombstones: Option<&roaring::RoaringBitmap>) -> (locals: Option<Vec<u32>>)
    ensures
        match locals {
            Some(list) => {
                &&& list.len() > 0
                &&& forall|i: int, j: int|
                    0 <= i < j < list.len() ==> (#[trigger] list@[i]) < (#[trigger] list@[j])
                &&& forall|v: u32| list@.contains(v) == dead_rows(tombstones).contains(v)
            },
            None => forall|v: u32| !dead_rows(tombstones).contains(v),
        },
{
    match tombstones {
        None => None,
        Some(bitmap) => {
            let list = bitmap_list(bitmap);
            if list.len() == 0 {
                assert forall|v: u32| !dead_rows(tombstones).contains(v) by {
                    assert(!list@.contains(v));
                }
                None
            } else {
                Some(list)
            }
        },
    }
}

/// The first row with the id.
pub open spec fn first_with_id<P>(rows: Seq<IvfRow<P>>, id: i128) -> Option<int>
    decreases rows.len(),
{
    if rows.len() == 0 {
        None
    } else {
        match first_with_id(rows.drop_last(), id) {
            Some(i) => Some(i),
            None => if rows.last().stable_id == id {
                Some(rows.len() - 1)
            } else {
                None
            },
        }
    }
}

/// The row with another number.
pub open spec fn renumbered<P>(row: IvfRow<P>, number: int) -> IvfRow<P> {
    IvfRow { local_doc_id: number as u32, ..row }
}

/// Numbers the rows of a cell in their order.
pub fn number_rows<P>(rows: &mut Vec<IvfRow<P>>)
    requires
        old(rows).len() <= u32::MAX,
    ensures
        final(rows).len() == old(rows).len(),
        forall|i: int|
            0 <= i < final(rows).len() ==> #[trigger] final(rows)@[i] == renumbered(old(rows)@[i], i),
{
    let ghost was = rows@;
    let mut i: usize = 0;
    while i < rows.len()
        invariant
            i <= rows.len(),
            rows.len() == was.len(),
            was.len() <= u32::MAX,
            forall|k: int| 0 <= k < i ==> #[trigger] rows@[k] == renumbered(was[k], k),
            forall|k: int| i <= k < rows.len() ==> #[trigger] rows@[k] == was[k],
        decreases rows.len() - i,
    {
        rows[i].local_doc_id = i as u32;
        i = i + 1;
    }
}

/// One row for each id that is not deleted, ids ascending: the first row with
/// that id, numbered anew.
pub open spec fn is_distinct_by_id<P>(out: Seq<IvfRow<P>>, rows: Seq<IvfRow<P>>, deleted: Set<i128>) -> bool {
    &&& forall|i: int, j: int|
        0 <= i < j < out.len() ==> (#[trigger] out[i]).stable_id < (#[trigger] out[j]).stable_id
    &&& forall|i: int|
        0 <= i < out.len() ==> {
            let id = (#[trigger] out[i]).stable_id;
            &&& !deleted.contains(id)
            &&& first_with_id(rows, id) is Some
            &&& out[i] == renumbered(rows[first_with_id(rows, id)->0], i)
        }
    &&& forall|k: int|
        0 <= k < rows.len() && !deleted.contains((#[trigger] rows[k]).stable_id) ==> exists|i: int|
            0 <= i < out.len() && (#[trigger] out[i]).stable_id == rows[k].stable_id
}

proof fn first_with_id_is_first<P>(rows: Seq<IvfRow<P>>, k: int)
    requires
        0 <= k < rows.len(),
        forall|q: int| 0 <= q < k ==> (#[trigger] rows[q]).stable_id != rows[k].stable_id,
    ensures
        first_with_id(rows, rows[k].stable_id) == Some(k),
    decreases rows.len(),
{
    let id = rows[k].stable_id;
    if k == rows.len() - 1 {
        no_id_before(rows.drop_last(), id);
    } else {
        assert(rows.drop_last()[k] == rows[k]);
        first_with_id_is_first(rows.drop_last(), k);
    }
}

proof fn no_id_before<P>(rows: Seq<IvfRow<P>>, id: i128)
    requires
        forall|q: int| 0 <= q < rows.len() ==> (#[trigger] rows[q]).stable_id != id,
    ensures
        first_with_id(rows, id) is None,
    decreases rows.len(),
{
    if rows.len() > 0 {
        no_id_before(rows.drop_last(), id);
    }
}

/// The rows of a user file that a drain moves: of all the copies of a row the
/// first one, deleted rows left out, in the order of their ids and numbered in
/// that order.
pub fn distinct_rows_for_drain<P: Copy>(rows: &Vec<IvfRow<P>>, deleted: &HashSet<i128>) -> (out: Vec<IvfRow<P>>)
    requires
        rows.len() <= u32::MAX,
    ensures
        is_distinct_by_id(out@, rows@, deleted@),
{
    let mut keys: Vec<SortKey> = Vec::new();
    let mut i: usize = 0;
    while i < rows.len()
        invariant
            i <= rows.len(),
            keys.len() == i,
            forall|k: int| 0 <= k < i ==> #[trigger] keys@[k] == (rows@[k].stable_id, 0u128),
        decreases rows.len() - i,
    {
        keys.push((rows[i].stable_id, 0));
        i = i + 1;
    }
    let order = stable_order(&keys);
    let mut out: Vec<IvfRow<P>> = Vec::new();
    let mut k: usize = 0;
    while k < order.len()
        invariant
            k <= order.len(),
            rows.len() <= u32::MAX,
            keys.len() == rows.len(),
            forall|q: int| 0 <= q < rows.len() ==> #[trigger] keys@[q] == (rows@[q].stable_id, 0u128),
            crate::order::is_stable_order(keys@, order@),
            out.len() <= k,
            forall|p: int, q: int|
                0 <= p < q < out.len() ==> (#[trigger] out@[p]).stable_id < (#[trigger] out@[q]).stable_id,
            forall|p: int|
                0 <= p < out.len() ==> {
                    let id = (#[trigger] out@[p]).stable_id;
                    &&& !deleted@.contains(id)
                    &&& first_with_id(rows@, id) is Some
                    &&& out@[p] == renumbered(rows@[first_with_id(rows@, id)->0], p)
                },
            k > 0 ==> forall|p: int|
                0 <= p < out.len() ==> (#[trigger] out@[p]).stable_id <= rows@[order@[k - 1] as int].stable_id,
            forall|r: int|
                0 <= r < k && !deleted@.contains(rows@[(#[trigger] order@[r]) as int].stable_id) ==> exists|p: int|
                    0 <= p < out.len() && (#[trigger] out@[p]).stable_id == rows@[order@[r] as int].stable_id,
        decreases order.len() - k,
    {
        let at: usize = order[k];
        let id: i128 = rows[at].stable_id;
        let ghost before = out@;
        let fresh: bool = k == 0 || rows[order[k - 1]].stable_id != id;
        proof {
            if k > 0 {
                assert(crate::order::comes_before(keys@, order@[k - 1] as int, order@[k as int] as int));
            }
        }
        if fresh && !deleted.contains(&id) {
            proof {
                assert forall|q: int| 0 <= q < at implies (#[trigger] rows@[q]).stable_id != id by {
                    assert(order@.contains(q as usize));
                    let r = choose|r: int| 0 <= r < order.len() && order@[r] == q as usize;
                    if rows@[q].stable_id == id {
                        if r > k {
                            assert(crate::order::comes_before(
                                keys@,
                                order@[k as int] as int,
                                order@[r] as int,
                            ));
                        } else if r < k {
                            if r < k - 1 {
                                assert(crate::order::comes_before(
                                    keys@,
                                    order@[r] as int,
                                    order@[k - 1] as int,
                                ));
                            }
                            assert(crate::order::comes_before(
                                keys@,
                                order@[k - 1] as int,
                                order@[k as int] as int,
                            ));
                        }
                    }
                }
                first_with_id_is_first(rows@, at as int);
            }
            let row = &rows[at];
            out.push(
                IvfRow {
                    local_doc_id: out.len() as u32,
                    stable_id: row.stable_id,
                    cluster: row.cluster,
                    payload: row.payload,
                },
            );
            assert(out@[before.len() as int].stable_id == id);
        }
        assert forall|r: int|
            0 <= r < k + 1 && !deleted@.contains(rows@[(#[trigger] order@[r]) as int].stable_id) implies exists|p: int|
            0 <= p < out.len() && (#[trigger] out@[p]).stable_id == rows@[order@[r] as int].stable_id by {
            if r < k || !fresh {
                let s = if r < k {
                    r
                } else {
                    k - 1
                };
                assert(rows@[order@[s] as int].stable_id == rows@[order@[r] as int].stable_id);
                let p = choose|p: int|
                    0 <= p < before.len() && (#[trigger] before[p]).stable_id == rows@[order@[s] as int].stable_id;
                assert(out@[p].stable_id == before[p].stable_id);
            } else {
                assert(out@[before.len() as int].stable_id == id);
            }
        }
        k = k + 1;
    }
    assert forall|q: int| 0 <= q < rows.len() && !deleted@.contains((#[trigger] rows@[q]).stable_id) implies exists|
        p: int,
    |
        0 <= p < out.len() && (#[trigger] out@[p]).stable_id == rows@[q].stable_id by {
        assert(order@.contains(q as usize));
        let r = choose|r: int| 0 <= r < order.len() && order@[r] == q as usize;
        assert(rows@[order@[r] as int].stable_id == rows@[q].stable_id);
    }
    out
}

/// The id stands at no place before `n`.
pub open spec fn is_new(ids: Seq<i128>, id: i128, n: int) -> bool {
    forall|k: int| 0 <= k < n ==> #[trigger] ids[k] != id
}

/// The places among the first `n` at which an id stands for the first time.
pub open spec fn first_places(ids: Seq<i128>, n: int) -> Seq<usize>
    decreases n,
{
    if n <= 0 {
        Seq::empty()
    } else if is_new(ids, ids[n - 1], n - 1) {
        first_places(ids, n - 1).push((n - 1) as usize)
    } else {
        first_places(ids, n - 1)
    }
}

/// Of the rows of a batch those that a drain places: the first with each id, in
/// the order they came. The files hold copies of rows near a border, which the
/// drain places anew.
pub fn first_of_each_id(ids: &Vec<i128>) -> (places: Vec<usize>)
    ensures
        places@ == first_places(ids@, ids.len() as int),
{
    let mut seen: HashSet<i128> = HashSet::new();
    let mut places: Vec<usize> = Vec::new();
    let mut i: usize = 0;
    while i < ids.len()
        invariant
            i <= ids.len(),
            places@ == first_places(ids@, i as int),
            forall|id: i128| #[trigger] seen@.contains(id) == !is_new(ids@, id, i as int),
        decreases ids.len() - i,
    {
        let ghost before = seen@;
        let fresh = seen.insert(ids[i]);
        if fresh {
            places.push(i);
        }
        i = i + 1;
        assert forall|id: i128| #[trigger] seen@.contains(id) == !is_new(ids@, id, i as int) by {
            assert(before.contains(id) == !is_new(ids@, id, i - 1));
            if id == ids@[i - 1] {
                assert(seen@.contains(id));
            }
        }
    }
    places
}

/// Every id that a batch has is placed, and none twice.
pub proof fn each_id_is_placed_once(ids: Seq<i128>, n: int)
    requires
        0 <= n <= ids.len() <= usize::MAX,
    ensures
        forall|i: int| 0 <= i < first_places(ids, n).len() ==> (#[trigger] first_places(ids, n)[i]) < n,
        forall|i: int, j: int|
            0 <= i < j < first_places(ids, n).len() ==> (#[trigger] first_places(ids, n)[i]) < (
            #[trigger] first_places(ids, n)[j]),
        forall|i: int, j: int|
            0 <= i < j < first_places(ids, n).len() ==> ids[(#[trigger] first_places(ids, n)[i]) as int]
                != ids[(#[trigger] first_places(ids, n)[j]) as int],
        forall|k: int|
            0 <= k < n ==> exists|i: int|
                0 <= i < first_places(ids, n).len() && ids[(#[trigger] first_places(ids, n)[i]) as int]
                    == #[trigger] ids[k],
    decreases n,
{
    if n > 0 {
        each_id_is_placed_once(ids, n - 1);
        let before = first_places(ids, n - 1);
        let after = first_places(ids, n);
        assert forall|k: int| 0 <= k < n implies exists|i: int|
            0 <= i < after.len() && ids[(#[trigger] after[i]) as int] == #[trigger] ids[k] by {
            if k < n - 1 {
                let i = choose|i: int| 0 <= i < before.len() && ids[(#[trigger] before[i]) as int] == ids[k];
                assert(after[i] == before[i]);
            } else if is_new(ids, ids[n - 1], n - 1) {
                assert(after[after.len() - 1] == n - 1);
            } else {
                let q = choose|q: int| 0 <= q < n - 1 && #[trigger] ids[q] == ids[n - 1];
                let i = choose|i: int| 0 <= i < before.len() && ids[(#[trigger] before[i]) as int] == ids[q];
                assert(after[i] == before[i]);
            }
        }
    }
}

} // verus!
