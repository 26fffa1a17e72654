//! A split pass: what becomes of the rows of a cell that is split, what a batch
//! of splits commits, and what the pass knows afterwards.
use vstd::prelude::*;

use crate::arith::capped;
use crate::cell_map::CellMap;
use crate::families::CellFamily;
use crate::order::{stable_order, SortKey};
use crate::split::{
    are_candidates, estimate_split_resident_bytes, push_parent, resident_bytes, select_split_batch,
    split_candidates, take_in, SplitRules, MAX_SPLITS_PER_OPTIMIZE, MIN_ROWS_TO_SPLIT_CELL,
};
use crate::superseded::{FileCell, SupersededCells};

verus! {

// ---------------------------------------------------------------------------
// One cell
// ---------------------------------------------------------------------------

/// The cells of the list that the grid has.
pub open spec fn inside(cells: Seq<u32>, n_cent: u32) -> Seq<u32>
    decreases cells.len(),
{
    if cells.len() == 0 {
        Seq::empty()
    } else if cells.last() < n_cent {
        inside(cells.drop_last(), n_cent).push(cells.last())
    } else {
        inside(cells.drop_last(), n_cent)
    }
}

/// The cells of the list that the grid does not have.
pub open spec fn outside(cells: Seq<u32>, n_cent: u32) -> Seq<u32>
    decreases cells.len(),
{
    if cells.len() == 0 {
        Seq::empty()
    } else if cells.last() >= n_cent {
        outside(cells.drop_last(), n_cent).push(cells.last())
    } else {
        outside(cells.drop_last(), n_cent)
    }
}

/// Parts a batch into the cells of the grid and the others.
pub fn part_batch(cells: &Vec<u32>, n_cent: u32) -> (parts: (Vec<u32>, Vec<u32>))
    ensures
        parts.0@ == inside(cells@, n_cent),
        parts.1@ == outside(cells@, n_cent),
{
    let mut there: Vec<u32> = Vec::new();
    let mut gone: Vec<u32> = Vec::new();
    let mut i: usize = 0;
    assert(cells@.take(0) =~= Seq::<u32>::empty());
    while i < cells.len()
        invariant
            i <= cells.len(),
            there@ == inside(cells@.take(i as int), n_cent),
            gone@ == outside(cells@.take(i as int), n_cent),
        decreases cells.len() - i,
    {
        proof {
            assert(cells@.take(i + 1).drop_last() =~= cells@.take(i as int));
        }
        if cells[i] >= n_cent {
            gone.push(cells[i]);
        } else {
            there.push(cells[i]);
        }
        i = i + 1;
    }
    assert(cells@.take(i as int) =~= cells@);
    (there, gone)
}

/// The cell has rows for both sides.
pub fn has_rows_to_split(n_rows: usize) -> (r: bool)
    ensures
        r == (n_rows >= 2),
{
    n_rows >= MIN_ROWS_TO_SPLIT_CELL
}

/// Checks what the planner gave: whole centroids, and a side for each row. The
/// number of children is the number of centroids; a plan of another shape
/// leaves the cell as it is.
pub fn check_plan(n_floats: usize, dim: usize, n_assigned: usize, n_rows: usize) -> (children: Option<usize>)
    requires
        dim > 0,
    ensures
        children == if n_floats > 0 && n_floats % dim == 0 && n_assigned == n_rows {
            Some((n_floats / dim) as usize)
        } else {
            None
        },
{
    if n_floats > 0 && n_floats % dim == 0 && n_assigned == n_rows {
        Some(n_floats / dim)
    } else {
        None
    }
}

/// The child that a side stands for; a side past the last child is the last.
pub open spec fn child_of(side: u32, n_children: int) -> int {
    if side < n_children {
        side as int
    } else {
        n_children - 1
    }
}

/// The rows of a child, in order.
pub open spec fn rows_of_child(assign: Seq<u32>, n_children: int, child: int) -> Seq<usize>
    decreases assign.len(),
{
    if assign.len() == 0 {
        Seq::empty()
    } else if child_of(assign.last(), n_children) == child {
        rows_of_child(assign.drop_last(), n_children, child).push((assign.len() - 1) as usize)
    } else {
        rows_of_child(assign.drop_last(), n_children, child)
    }
}

/// Sends each row to its child.
pub fn route_to_children(assign: &Vec<u32>, n_children: usize) -> (groups: Vec<Vec<usize>>)
    requires
        n_children > 0,
    ensures
        groups.len() == n_children,
        forall|c: int|
            0 <= c < n_children ==> (#[trigger] groups@[c])@ == rows_of_child(
                assign@,
                n_children as int,
                c,
            ),
{
    let mut groups: Vec<Vec<usize>> = Vec::new();
    let mut c: usize = 0;
    while c < n_children
        invariant
            c <= n_children,
            groups.len() == c,
            forall|q: int| 0 <= q < c ==> (#[trigger] groups@[q])@ == Seq::<usize>::empty(),
        decreases n_children - c,
    {
        groups.push(Vec::new());
        c = c + 1;
    }
    let mut i: usize = 0;
    assert(assign@.take(0) =~= Seq::<u32>::empty());
    while i < assign.len()
        invariant
            i <= assign.len(),
            n_children > 0,
            groups.len() == n_children,
            forall|q: int|
                0 <= q < n_children ==> (#[trigger] groups@[q])@ == rows_of_child(
                    assign@.take(i as int),
                    n_children as int,
                    q,
                ),
        decreases assign.len() - i,
    {
        proof {
            assert(assign@.take(i + 1).drop_last() =~= assign@.take(i as int));
        }
        let side: usize = assign[i] as usize;
        let child: usize = if side < n_children {
            side
        } else {
            n_children - 1
        };
        groups[child].push(i);
        i = i + 1;
    }
    assert(assign@.take(i as int) =~= assign@);
    groups
}

/// The rows of the first `n` children.
pub open spec fn routed(assign: Seq<u32>, n_children: int, n: int) -> int
    decreases n,
{
    if n <= 0 {
        0
    } else {
        routed(assign, n_children, n - 1) + rows_of_child(assign, n_children, n - 1).len()
    }
}

proof fn one_more_row(assign: Seq<u32>, n_children: int, n: int)
    requires
        assign.len() > 0,
        n_children > 0,
        0 <= n <= n_children,
    ensures
        routed(assign, n_children, n) == routed(assign.drop_last(), n_children, n) + if child_of(
            assign.last(),
            n_children,
        ) < n {
            1int
        } else {
            0
        },
    decreases n,
{
    if n > 0 {
        one_more_row(assign, n_children, n - 1);
    }
}

/// Every row of the cell goes to exactly one child: the children's rows add up
/// to the cell's, and a row is listed where its side says and nowhere else.
pub proof fn split_keeps_every_row(assign: Seq<u32>, n_children: int, row: int, child: int)
    requires
        n_children > 0,
        assign.len() <= usize::MAX,
        0 <= row < assign.len(),
        0 <= child < n_children,
    ensures
        routed(assign, n_children, n_children) == assign.len(),
        rows_of_child(assign, n_children, child).contains(row as usize) <==> child_of(
            assign[row],
            n_children,
        ) == child,
    decreases assign.len(),
{
    rows_add_up(assign, n_children);
    row_is_where_it_goes(assign, n_children, row, child);
}

pub(crate) proof fn rows_add_up(assign: Seq<u32>, n_children: int)
    requires
        n_children > 0,
    ensures
        routed(assign, n_children, n_children) == assign.len(),
    decreases assign.len(),
{
    if assign.len() == 0 {
        nothing_routed(assign, n_children, n_children);
    } else {
        rows_add_up(assign.drop_last(), n_children);
        one_more_row(assign, n_children, n_children);
    }
}

proof fn nothing_routed(assign: Seq<u32>, n_children: int, n: int)
    requires
        assign.len() == 0,
    ensures
        routed(assign, n_children, n) == 0,
    decreases n,
{
    if n > 0 {
        nothing_routed(assign, n_children, n - 1);
    }
}

proof fn rows_are_below(assign: Seq<u32>, n_children: int, child: int, i: int)
    requires
        assign.len() <= usize::MAX,
        0 <= i < rows_of_child(assign, n_children, child).len(),
    ensures
        rows_of_child(assign, n_children, child)[i] < assign.len(),
    decreases assign.len(),
{
    let rest = rows_of_child(assign.drop_last(), n_children, child);
    if i < rest.len() {
        rows_are_below(assign.drop_last(), n_children, child, i);
        assert(rows_of_child(assign, n_children, child)[i] == rest[i]);
    }
}

proof fn row_is_where_it_goes(assign: Seq<u32>, n_children: int, row: int, child: int)
    requires
        assign.len() <= usize::MAX,
        0 <= row < assign.len(),
    ensures
        rows_of_child(assign, n_children, child).contains(row as usize) <==> child_of(
            assign[row],
            n_children,
        ) == child,
    decreases assign.len(),
{
    let all = rows_of_child(assign, n_children, child);
    let rest = rows_of_child(assign.drop_last(), n_children, child);
    if row < assign.len() - 1 {
        row_is_where_it_goes(assign.drop_last(), n_children, row, child);
        if rest.contains(row as usize) {
            let i = choose|i: int| 0 <= i < rest.len() && rest[i] == row as usize;
            assert(all[i] == row as usize);
        }
        if all.contains(row as usize) {
            let i = choose|i: int| 0 <= i < all.len() && all[i] == row as usize;
            if i < rest.len() {
                assert(rest[i] == row as usize);
            }
        }
    } else {
        if child_of(assign[row], n_children) == child {
            assert(all[all.len() - 1] == row as usize);
        } else if all.contains(row as usize) {
            let i = choose|i: int| 0 <= i < all.len() && all[i] == row as usize;
            rows_are_below(assign.drop_last(), n_children, child, i);
        }
    }
}

/// The order in which a batch's cells get their new ids: by cell.
pub open spec fn cell_keys(cells: Seq<u32>) -> Seq<SortKey> {
    Seq::new(cells.len(), |i: int| (cells[i] as i128, 0u128))
}

/// Orders the planned cells by id, so that new ids do not depend on the order
/// in which the plans came.
pub fn fold_order(cells: &Vec<u32>) -> (order: Vec<usize>)
    ensures
        order@ == crate::order::the_order(cell_keys(cells@)),
        crate::order::is_stable_order(cell_keys(cells@), order@),
{
    let mut keys: Vec<SortKey> = Vec::new();
    let mut i: usize = 0;
    while i < cells.len()
        invariant
            i <= cells.len(),
            keys@ == cell_keys(cells@).take(i as int),
        decreases cells.len() - i,
    {
        keys.push((cells[i] as i128, 0u128));
        i = i + 1;
        assert(keys@ =~= cell_keys(cells@).take(i as int));
    }
    assert(keys@ =~= cell_keys(cells@));
    stable_order(&keys)
}

// ---------------------------------------------------------------------------
// A batch
// ---------------------------------------------------------------------------

/// A split whose children are built.
#[derive(Debug)]
pub struct BuiltCellSplit<F> {
    pub family: CellFamily,
    /// The children that were built, each with its file.
    pub prepared: Vec<(u32, F)>,
}

/// A child that the grid has no place for.
#[derive(Clone, Copy, PartialEq, Eq, Structural, Debug)]
pub struct ChildOutsideGrid {
    pub child: u32,
    pub n_cent: u32,
}

/// What became of each cell of a batch: the children and their rows, or nothing
/// when the cell stays as it is.
#[derive(Debug)]
pub struct SplitBatchOutcome<F> {
    pub per_cell: Vec<(u32, Option<Vec<(u32, u64)>>)>,
    pub new_entries_by_cell: Vec<(u32, F)>,
}

/// What became of a cell.
pub type CellResult = (u32, Option<Seq<(u32, u64)>>);

pub open spec fn result_view(r: (u32, Option<Vec<(u32, u64)>>)) -> CellResult {
    (
        r.0,
        match r.1 {
            Some(v) => Some(v@),
            None => None,
        },
    )
}

impl<F> SplitBatchOutcome<F> {
    pub open spec fn results(self) -> Seq<CellResult> {
        Seq::new(self.per_cell.len() as nat, |i: int| result_view(self.per_cell@[i]))
    }

    /// Every cell stays as it is.
    pub fn no_op_cells(cells: Vec<u32>) -> (outcome: SplitBatchOutcome<F>)
        ensures
            outcome.results() == unchanged(cells@),
            outcome.new_entries_by_cell.len() == 0,
    {
        let mut per_cell: Vec<(u32, Option<Vec<(u32, u64)>>)> = Vec::new();
        push_unchanged(&mut per_cell, &cells);
        let outcome = SplitBatchOutcome { per_cell, new_entries_by_cell: Vec::new() };
        assert forall|i: int| 0 <= i < cells.len() implies outcome.results()[i] == unchanged(cells@)[i] by {
            assert(result_view(outcome.per_cell@[0 + i]) == unchanged(cells@)[i]);
        }
        assert(outcome.results() =~= unchanged(cells@));
        outcome
    }

    /// What became of the one cell of a batch: its children, or nothing when it
    /// stays as it is.
    pub fn single_result(self) -> (children: Option<Vec<(u32, u64)>>)
        ensures
            match children {
                Some(v) => self.per_cell.len() > 0 && self.results()[0].1 == Some(v@),
                None => self.per_cell.len() == 0 || self.results()[0].1 is None,
            },
    {
        let mut per_cell = self.per_cell;
        if per_cell.len() == 0 {
            return None;
        }
        let first = per_cell.remove(0);
        first.1
    }
}

/// The cells, each left as it is.
pub open spec fn unchanged(cells: Seq<u32>) -> Seq<CellResult> {
    Seq::new(cells.len(), |i: int| (cells[i], None))
}

fn push_unchanged(per_cell: &mut Vec<(u32, Option<Vec<(u32, u64)>>)>, cells: &Vec<u32>)
    ensures
        final(per_cell).len() == old(per_cell).len() + cells.len(),
        forall|i: int| 0 <= i < old(per_cell).len() ==> #[trigger] final(per_cell)@[i] == old(per_cell)@[i],
        forall|i: int|
            0 <= i < cells.len() ==> result_view(#[trigger] final(per_cell)@[old(per_cell).len() + i])
                == unchanged(cells@)[i],
{
    let ghost before = per_cell@;
    let mut i: usize = 0;
    while i < cells.len()
        invariant
            i <= cells.len(),
            per_cell.len() == before.len() + i,
            forall|k: int| 0 <= k < before.len() ==> #[trigger] per_cell@[k] == before[k],
            forall|k: int|
                0 <= k < i ==> result_view(#[trigger] per_cell@[before.len() + k]) == unchanged(cells@)[k],
        decreases cells.len() - i,
    {
        per_cell.push((cells[i], None));
        i = i + 1;
    }
}

/// The children with their rows in the width that a pass counts in.
pub open spec fn widened_children(children: Seq<(u32, u32)>) -> Seq<(u32, u64)> {
    Seq::new(children.len(), |i: int| (children[i].0, children[i].1 as u64))
}

/// What the splits made of their cells.
pub open spec fn committed<F>(built: Seq<BuiltCellSplit<F>>) -> Seq<CellResult> {
    Seq::new(
        built.len(),
        |i: int| (built[i].family.cell, Some(widened_children(built[i].family.children@))),
    )
}

/// The cells of the splits.
pub open spec fn cells_of<F>(built: Seq<BuiltCellSplit<F>>) -> Seq<u32> {
    Seq::new(built.len(), |i: int| built[i].family.cell)
}

/// The counts with these put in.
pub open spec fn put_counts(m: Map<u32, u32>, counts: Seq<(u32, u32)>) -> Map<u32, u32>
    decreases counts.len(),
{
    if counts.len() == 0 {
        m
    } else {
        put_counts(m, counts.drop_last()).insert(counts.last().0, counts.last().1)
    }
}

/// The rows of all children.
pub open spec fn child_counts<F>(built: Seq<BuiltCellSplit<F>>) -> Map<u32, u32>
    decreases built.len(),
{
    if built.len() == 0 {
        Map::empty()
    } else {
        put_counts(child_counts(built.drop_last()), built.last().family.children@)
    }
}

/// The split cells, in each superfile that their rows came from.
pub open spec fn split_cells<F>(built: Seq<BuiltCellSplit<F>>) -> Set<FileCell> {
    Set::new(
        |p: FileCell|
            exists|i: int|
                0 <= i < built.len() && (#[trigger] built[i]).family.cell == p.1 && built[i].family.parent_ids@.contains(
                    p.0,
                ),
    )
}

/// The new superfiles, each under its child.
pub open spec fn new_entries<F>(built: Seq<BuiltCellSplit<F>>) -> Seq<(u32, F)>
    decreases built.len(),
{
    if built.len() == 0 {
        Seq::empty()
    } else {
        new_entries(built.drop_last()) + built.last().prepared@
    }
}

/// No child has a superfile.
pub open spec fn nothing_built<F>(built: Seq<BuiltCellSplit<F>>) -> bool {
    forall|i: int| 0 <= i < built.len() ==> (#[trigger] built[i]).prepared.len() == 0
}

/// What a batch of splits commits.
#[derive(Debug)]
pub enum SettledBatch<F> {
    /// Nothing was built: every cell stays as it is.
    Nothing(SplitBatchOutcome<F>),
    /// The counts of the children, the cells that they replace, and what became
    /// of the batch's cells.
    Commit { counts: CellMap<u32>, superseded: SupersededCells, outcome: SplitBatchOutcome<F> },
}

fn any_built<F>(built: &Vec<BuiltCellSplit<F>>) -> (r: bool)
    ensures
        r == !nothing_built(built@),
{
    let mut i: usize = 0;
    while i < built.len()
        invariant
            i <= built.len(),
            forall|k: int| 0 <= k < i ==> (#[trigger] built@[k]).prepared.len() == 0,
        decreases built.len() - i,
    {
        if built[i].prepared.len() > 0 {
            assert(built@[i as int].prepared.len() > 0);
            return true;
        }
        i = i + 1;
    }
    false
}

fn collect_child_counts<F>(built: &Vec<BuiltCellSplit<F>>) -> (counts: CellMap<u32>)
    ensures
        counts@ == child_counts(built@),
{
    let mut counts: CellMap<u32> = CellMap::new();
    let mut i: usize = 0;
    assert(built@.take(0) =~= Seq::<BuiltCellSplit<F>>::empty());
    while i < built.len()
        invariant
            i <= built.len(),
            counts@ == child_counts(built@.take(i as int)),
        decreases built.len() - i,
    {
        let ghost base = counts@;
        let children = &built[i].family.children;
        let mut k: usize = 0;
        assert(children@.take(0) =~= Seq::<(u32, u32)>::empty());
        while k < children.len()
            invariant
                k <= children.len(),
                counts@ == put_counts(base, children@.take(k as int)),
            decreases children.len() - k,
        {
            proof {
                assert(children@.take(k + 1).drop_last() =~= children@.take(k as int));
            }
            counts.insert(children[k].0, children[k].1);
            k = k + 1;
        }
        proof {
            assert(children@.take(k as int) =~= children@);
            assert(built@.take(i + 1).drop_last() =~= built@.take(i as int));
        }
        i = i + 1;
    }
    assert(built@.take(i as int) =~= built@);
    counts
}

proof fn split_cells_step<F>(built: Seq<BuiltCellSplit<F>>, i: int, p: FileCell)
    requires
        0 <= i < built.len(),
    ensures
        split_cells(built.take(i + 1)).contains(p) <==> split_cells(built.take(i)).contains(p) || (p.1
            == built[i].family.cell && built[i].family.parent_ids@.contains(p.0)),
{
    let less = built.take(i);
    let more = built.take(i + 1);
    if split_cells(more).contains(p) {
        let k = choose|k: int|
            0 <= k < more.len() && (#[trigger] more[k]).family.cell == p.1 && more[k].family.parent_ids@.contains(p.0);
        if k < i {
            assert(less[k] == more[k]);
        }
    }
    if split_cells(less).contains(p) {
        let k = choose|k: int|
            0 <= k < less.len() && (#[trigger] less[k]).family.cell == p.1 && less[k].family.parent_ids@.contains(p.0);
        assert(more[k] == less[k]);
    }
    if p.1 == built[i].family.cell && built[i].family.parent_ids@.contains(p.0) {
        assert(more[i] == built[i]);
    }
}

fn collect_superseded<F>(built: &Vec<BuiltCellSplit<F>>) -> (marks: SupersededCells)
    ensures
        marks@ == split_cells(built@),
{
    let mut marks = SupersededCells::new();
    let mut i: usize = 0;
    assert(marks@ =~= split_cells(built@.take(0)));
    while i < built.len()
        invariant
            i <= built.len(),
            marks@ == split_cells(built@.take(i as int)),
        decreases built.len() - i,
    {
        let ghost base = marks@;
        let cell: u32 = built[i].family.cell;
        let parents = &built[i].family.parent_ids;
        let mut k: usize = 0;
        while k < parents.len()
            invariant
                k <= parents.len(),
                forall|p: FileCell| #[trigger]
                    marks@.contains(p) <==> base.contains(p) || (p.1 == cell && parents@.take(
                        k as int,
                    ).contains(p.0)),
            decreases parents.len() - k,
        {
            let ghost before = marks@;
            marks.insert(parents[k], cell);
            proof {
                let less = parents@.take(k as int);
                let more = parents@.take(k + 1);
                assert forall|p: FileCell| #[trigger] marks@.contains(p) <==> base.contains(p) || (p.1 == cell
                    && more.contains(p.0)) by {
                    assert(before.contains(p) <==> base.contains(p) || (p.1 == cell && less.contains(
                        p.0,
                    )));
                    if more.contains(p.0) {
                        let q = choose|q: int| 0 <= q < more.len() && more[q] == p.0;
                        if q < k {
                            assert(less[q] == p.0);
                        }
                    }
                    if less.contains(p.0) {
                        let q = choose|q: int| 0 <= q < less.len() && less[q] == p.0;
                        assert(more[q] == p.0);
                    }
                    if p.0 == parents@[k as int] {
                        assert(more[k as int] == p.0);
                    }
                }
            }
            k = k + 1;
        }
        assert(parents@.take(k as int) =~= parents@);
        proof {
            assert forall|p: FileCell| marks@.contains(p) <==> split_cells(built@.take(i + 1)).contains(p) by {
                split_cells_step(built@, i as int, p);
            }
            assert(marks@ =~= split_cells(built@.take(i + 1)));
        }
        i = i + 1;
    }
    assert(built@.take(i as int) =~= built@);
    marks
}

/// Settles a batch: the counts of the children, which the grid must have a
/// place for, the cells that they replace, and what became of each cell. A
/// batch of which nothing was built changes nothing.
pub(crate) fn settle_batch<F: Copy>(built: &Vec<BuiltCellSplit<F>>, no_ops: &Vec<u32>, n_cent: u32) -> (result: Result<
    SettledBatch<F>,
    ChildOutsideGrid,
>)
    ensures
        if nothing_built(built@) {
            &&& result is Ok
            &&& result->Ok_0 is Nothing
            &&& result->Ok_0->Nothing_0.results() == unchanged(no_ops@ + cells_of(built@))
            &&& result->Ok_0->Nothing_0.new_entries_by_cell.len() == 0
        } else if exists|child: u32| #[trigger] child_counts(built@).contains_key(child) && child >= n_cent {
            result matches Err(e) && e.n_cent == n_cent && e.child >= n_cent && child_counts(
                built@,
            ).contains_key(e.child)
        } else {
            &&& result matches Ok(SettledBatch::Commit { counts, superseded, outcome })
            &&& counts@ == child_counts(built@)
            &&& superseded@ == split_cells(built@)
            &&& outcome.results() == committed(built@) + unchanged(no_ops@)
            &&& outcome.new_entries_by_cell@ == new_entries(built@)
        },
{
    if !any_built(built) {
        let mut cells: Vec<u32> = Vec::new();
        let mut i: usize = 0;
        while i < no_ops.len()
            invariant
                i <= no_ops.len(),
                cells@ == no_ops@.take(i as int),
            decreases no_ops.len() - i,
        {
            cells.push(no_ops[i]);
            i = i + 1;
            assert(cells@ =~= no_ops@.take(i as int));
        }
        let mut k: usize = 0;
        assert(cells@ =~= no_ops@ + cells_of(built@).take(0));
        while k < built.len()
            invariant
                k <= built.len(),
                cells@ == no_ops@ + cells_of(built@).take(k as int),
            decreases built.len() - k,
        {
            cells.push(built[k].family.cell);
            k = k + 1;
            assert(cells@ =~= no_ops@ + cells_of(built@).take(k as int));
        }
        assert(cells_of(built@).take(k as int) =~= cells_of(built@));
        return Ok(SettledBatch::Nothing(SplitBatchOutcome::no_op_cells(cells)));
    }
    let counts = collect_child_counts(built);
    let listed = counts.pairs();
    let mut i: usize = 0;
    while i < listed.len()
        invariant
            i <= listed.len(),
            !nothing_built(built@),
            counts@ == child_counts(built@),
            crate::cell_map::lists(listed@, counts@),
            forall|k: int| 0 <= k < i ==> (#[trigger] listed@[k]).0 < n_cent,
        decreases listed.len() - i,
    {
        if listed[i].0 >= n_cent {
            assert(child_counts(built@).contains_key(listed@[i as int].0));
            return Err(ChildOutsideGrid { child: listed[i].0, n_cent });
        }
        i = i + 1;
    }
    proof {
        assert forall|child: u32| #[trigger] child_counts(built@).contains_key(child) implies child < n_cent by {
            assert(crate::cell_map::has_key(listed@, child));
            let k = crate::cell_map::place_of(listed@, child);
            assert(listed@[k].0 == child);
        }
    }
    let superseded = collect_superseded(built);
    let mut per_cell: Vec<(u32, Option<Vec<(u32, u64)>>)> = Vec::new();
    let mut entries: Vec<(u32, F)> = Vec::new();
    let mut b: usize = 0;
    assert(built@.take(0) =~= Seq::<BuiltCellSplit<F>>::empty());
    while b < built.len()
        invariant
            b <= built.len(),
            per_cell.len() == b,
            forall|k: int| 0 <= k < b ==> result_view(#[trigger] per_cell@[k]) == committed(built@)[k],
            entries@ == new_entries(built@.take(b as int)),
        decreases built.len() - b,
    {
        let widened = widen_children(&built[b].family.children);
        per_cell.push((built[b].family.cell, Some(widened)));
        proof {
            assert(built@.take(b + 1).drop_last() =~= built@.take(b as int));
        }
        push_entries(&mut entries, &built[b].prepared);
        b = b + 1;
    }
    assert(built@.take(b as int) =~= built@);
    let ghost firm = per_cell@;
    push_unchanged(&mut per_cell, no_ops);
    let outcome = SplitBatchOutcome { per_cell, new_entries_by_cell: entries };
    proof {
        let wanted = committed(built@) + unchanged(no_ops@);
        assert forall|k: int| 0 <= k < outcome.results().len() implies outcome.results()[k] == wanted[k] by {
            if k < firm.len() {
                assert(outcome.per_cell@[k] == firm[k]);
            } else {
                let q = k - firm.len();
                assert(result_view(outcome.per_cell@[firm.len() + q]) == unchanged(no_ops@)[q]);
            }
        }
        assert(outcome.results() =~= wanted);
    }
    Ok(SettledBatch::Commit { counts, superseded, outcome })
}

fn widen_children(children: &Vec<(u32, u32)>) -> (out: Vec<(u32, u64)>)
    ensures
        out@ == widened_children(children@),
{
    let mut out: Vec<(u32, u64)> = Vec::new();
    let mut i: usize = 0;
    while i < children.len()
        invariant
            i <= children.len(),
            out@ == widened_children(children@).take(i as int),
        decreases children.len() - i,
    {
        out.push((children[i].0, children[i].1 as u64));
        i = i + 1;
        assert(out@ =~= widened_children(children@).take(i as int));
    }
    assert(out@ =~= widened_children(children@));
    out
}

fn push_entries<F: Copy>(out: &mut Vec<(u32, F)>, more: &Vec<(u32, F)>)
    ensures
        final(out)@ == old(out)@ + more@,
{
    let ghost before = out@;
    let mut i: usize = 0;
    while i < more.len()
        invariant
            i <= more.len(),
            out@ == before + more@.take(i as int),
        decreases more.len() - i,
    {
        out.push(more[i]);
        i = i + 1;
        assert(out@ =~= before + more@.take(i as int));
    }
    assert(out@ =~= before + more@);
}

/// The cells of a shard; of two lists for one shard the last counts.
pub open spec fn cells_in_shard(buckets: Seq<(u32, Vec<u32>)>, shard: u32) -> Seq<u32>
    decreases buckets.len(),
{
    if buckets.len() == 0 {
        Seq::empty()
    } else if buckets.last().0 == shard {
        buckets.last().1@
    } else {
        cells_in_shard(buckets.drop_last(), shard)
    }
}

/// The cells, each under the superfile that its shard became.
pub open spec fn shard_entries(buckets: Seq<(u32, Vec<u32>)>, prepared: Seq<(u32, u128)>) -> Seq<(u32, u128)>
    decreases prepared.len(),
{
    if prepared.len() == 0 {
        Seq::empty()
    } else {
        let cells = cells_in_shard(buckets, prepared.last().0);
        shard_entries(buckets, prepared.drop_last()) + Seq::new(
            cells.len(),
            |i: int| (cells[i], prepared.last().1),
        )
    }
}

fn find_shard(buckets: &Vec<(u32, Vec<u32>)>, shard: u32) -> (at: Option<usize>)
    ensures
        match at {
            Some(k) => k < buckets.len() && buckets@[k as int].1@ == cells_in_shard(buckets@, shard),
            None => cells_in_shard(buckets@, shard).len() == 0,
        },
{
    let mut n: usize = buckets.len();
    assert(buckets@.take(n as int) =~= buckets@);
    while n > 0
        invariant
            n <= buckets.len(),
            cells_in_shard(buckets@, shard) == cells_in_shard(buckets@.take(n as int), shard),
        decreases n,
    {
        assert(buckets@.take(n as int).last() == buckets@[n - 1]);
        assert(buckets@.take(n as int).drop_last() =~= buckets@.take(n - 1));
        n = n - 1;
        if buckets[n].0 == shard {
            return Some(n);
        }
    }
    None
}

/// The outcome of a bulk pass once its shards are assembled: every child that
/// was packed is held by the superfile of its shard.
pub fn name_shards(
    outcome: SplitBatchOutcome<()>,
    buckets: &Vec<(u32, Vec<u32>)>,
    prepared: &Vec<(u32, u128)>,
) -> (named: SplitBatchOutcome<u128>)
    ensures
        named.results() == outcome.results(),
        named.new_entries_by_cell@ == shard_entries(buckets@, prepared@),
{
    let ghost given = outcome;
    let mut entries: Vec<(u32, u128)> = Vec::new();
    let mut i: usize = 0;
    assert(prepared@.take(0) =~= Seq::<(u32, u128)>::empty());
    while i < prepared.len()
        invariant
            i <= prepared.len(),
            entries@ == shard_entries(buckets@, prepared@.take(i as int)),
        decreases prepared.len() - i,
    {
        let shard: u32 = prepared[i].0;
        let file: u128 = prepared[i].1;
        let ghost before = entries@;
        let ghost cells = cells_in_shard(buckets@, shard);
        let ghost added = Seq::new(cells.len(), |k: int| (cells[k], file));
        if let Some(at) = find_shard(buckets, shard) {
            let list = &buckets[at].1;
            let mut k: usize = 0;
            assert(before + added.take(0) =~= before);
            while k < list.len()
                invariant
                    k <= list.len(),
                    list@ == cells,
                    added == Seq::new(cells.len(), |k: int| (cells[k], file)),
                    entries@ == before + added.take(k as int),
                decreases list.len() - k,
            {
                entries.push((list[k], file));
                k = k + 1;
                assert(entries@ =~= before + added.take(k as int));
            }
            assert(added.take(k as int) =~= added);
        } else {
            assert(before + added =~= before);
        }
        proof {
            assert(prepared@.take(i + 1).drop_last() =~= prepared@.take(i as int));
            assert(prepared@.take(i + 1).last() == prepared@[i as int]);
            assert(shard_entries(buckets@, prepared@.take(i + 1)) =~= before + added);
        }
        i = i + 1;
    }
    assert(prepared@.take(i as int) =~= prepared@);
    let named = SplitBatchOutcome { per_cell: outcome.per_cell, new_entries_by_cell: entries };
    assert(named.results() =~= given.results());
    named
}

// ---------------------------------------------------------------------------
// The pass
// ---------------------------------------------------------------------------

/// What a pass knows: the rows of each cell, the superfiles that hold it, and
/// the cells that it does not look at again.
#[derive(Debug)]
pub struct SplitPass {
    pub rules: SplitRules,
    pub dim: u32,
    pub budget_bytes: u64,
    pub cell_counts: CellMap<u64>,
    pub unsplittable: CellMap<()>,
    pub parents_by_cell: CellMap<Vec<u128>>,
    pub splits_committed: usize,
}

/// The counts with these put in.
pub open spec fn put_rows(m: Map<u32, u64>, rows: Seq<(u32, u64)>) -> Map<u32, u64>
    decreases rows.len(),
{
    if rows.len() == 0 {
        m
    } else {
        put_rows(m, rows.drop_last()).insert(rows.last().0, rows.last().1)
    }
}

/// The rows of the cells after the results.
pub open spec fn counts_after(m: Map<u32, u64>, results: Seq<CellResult>) -> Map<u32, u64>
    decreases results.len(),
{
    if results.len() == 0 {
        m
    } else {
        let before = counts_after(m, results.drop_last());
        match results.last().1 {
            Some(children) => put_rows(before, children),
            None => before,
        }
    }
}

/// The children that are within the cap.
pub open spec fn settled_children(s: Set<u32>, children: Seq<(u32, u64)>, rules: SplitRules) -> Set<u32>
    decreases children.len(),
{
    if children.len() == 0 {
        s
    } else {
        let before = settled_children(s, children.drop_last(), rules);
        if rules.is_over(children.last().1) {
            before
        } else {
            before.insert(children.last().0)
        }
    }
}

/// The cells that are not looked at again after the results: those left as they
/// are, and the children within the cap.
pub open spec fn unsplittable_after(s: Set<u32>, results: Seq<CellResult>, rules: SplitRules) -> Set<u32>
    decreases results.len(),
{
    if results.len() == 0 {
        s
    } else {
        let before = unsplittable_after(s, results.drop_last(), rules);
        match results.last().1 {
            Some(children) => settled_children(before, children, rules),
            None => before.insert(results.last().0),
        }
    }
}

/// How many cells were split.
pub open spec fn splits_in(results: Seq<CellResult>) -> int
    decreases results.len(),
{
    if results.len() == 0 {
        0
    } else {
        splits_in(results.drop_last()) + if results.last().1 is Some {
            1int
        } else {
            0
        }
    }
}

/// The superfiles that hold a cell.
pub open spec fn holders(parents: Map<u32, Vec<u128>>, cell: u32) -> Seq<u128> {
    if parents.contains_key(cell) {
        parents[cell]@
    } else {
        Seq::empty()
    }
}

/// The new superfiles of a cell.
pub open spec fn entries_of_cell(entries: Seq<(u32, u128)>, cell: u32) -> Seq<u128>
    decreases entries.len(),
{
    if entries.len() == 0 {
        Seq::empty()
    } else if entries.last().0 == cell {
        entries_of_cell(entries.drop_last(), cell).push(entries.last().1)
    } else {
        entries_of_cell(entries.drop_last(), cell)
    }
}

impl SplitPass {
    /// The cells that could be split.
    pub fn candidates(&self) -> (candidates: Vec<(u32, u64)>)
        ensures
            are_candidates(candidates@, self.cell_counts@, self.unsplittable@.dom(), self.rules),
    {
        split_candidates(&self.cell_counts, &self.unsplittable, &self.rules)
    }

    /// The next batch, within what is left of the pass's splits.
    pub fn next_batch(&self) -> (batch: Vec<u32>)
        ensures
            exists|c: Seq<(u32, u64)>| #[trigger]
                are_candidates(c, self.cell_counts@, self.unsplittable@.dom(), self.rules) && batch@
                    == take_in(
                    c,
                    self.dim as int,
                    self.budget_bytes as int,
                    if self.splits_committed < MAX_SPLITS_PER_OPTIMIZE {
                        MAX_SPLITS_PER_OPTIMIZE - self.splits_committed
                    } else {
                        0
                    },
                ).cells,
    {
        let allowance: usize = MAX_SPLITS_PER_OPTIMIZE.saturating_sub(self.splits_committed);
        select_split_batch(
            &self.cell_counts,
            &self.unsplittable,
            &self.rules,
            self.dim,
            self.budget_bytes,
            allowance,
        )
    }

    /// The rows of a cell; none when it is not known.
    pub open spec fn rows_of(self, cell: u32) -> int {
        if self.cell_counts@.contains_key(cell) {
            self.cell_counts@[cell] as int
        } else {
            0
        }
    }

    /// The bytes that a batch holds, as far as they can be counted.
    pub open spec fn bytes_of(self, batch: Seq<u32>) -> int
        decreases batch.len(),
    {
        if batch.len() == 0 {
            0
        } else {
            capped(
                self.bytes_of(batch.drop_last()) + resident_bytes(
                    self.rows_of(batch.last()),
                    self.dim as int,
                ),
                u64::MAX as int,
            )
        }
    }

    /// Estimates the bytes that a batch holds.
    pub fn batch_bytes(&self, batch: &Vec<u32>) -> (bytes: u64)
        ensures
            bytes == self.bytes_of(batch@),
    {
        let mut bytes: u64 = 0;
        let mut i: usize = 0;
        assert(batch@.take(0) =~= Seq::<u32>::empty());
        while i < batch.len()
            invariant
                i <= batch.len(),
                bytes == self.bytes_of(batch@.take(i as int)),
            decreases batch.len() - i,
        {
            proof {
                assert(batch@.take(i + 1).drop_last() =~= batch@.take(i as int));
            }
            let rows: u64 = match self.cell_counts.get(batch[i]) {
                Some(n) => *n,
                None => 0,
            };
            bytes = bytes.saturating_add(estimate_split_resident_bytes(rows, self.dim));
            i = i + 1;
        }
        assert(batch@.take(i as int) =~= batch@);
        bytes
    }

    /// What goes when memory for the batch was granted or not: without it the
    /// first cell alone, for which memory is asked once more. A single cell goes
    /// in any case.
    pub fn admit_batch(&self, batch: Vec<u32>, granted: bool) -> (out: (Vec<u32>, Option<u64>))
        requires
            batch.len() > 0,
        ensures
            if granted || batch.len() == 1 {
                out.0 == batch && out.1 is None
            } else {
                &&& out.0@ == seq![batch@[0]]
                &&& out.1 is Some
                &&& out.1->0 == resident_bytes(self.rows_of(batch@[0]), self.dim as int)
            },
    {
        if granted || batch.len() == 1 {
            return (batch, None);
        }
        let mut first: Vec<u32> = Vec::new();
        first.push(batch[0]);
        assert(first@ =~= seq![batch@[0]]);
        let rows: u64 = match self.cell_counts.get(batch[0]) {
            Some(n) => *n,
            None => 0,
        };
        let bytes: u64 = estimate_split_resident_bytes(rows, self.dim);
        (first, Some(bytes))
    }

    /// The pass has made all the splits that it makes.
    pub fn is_at_bound(&self) -> (r: bool)
        ensures
            r == (self.splits_committed >= MAX_SPLITS_PER_OPTIMIZE),
    {
        self.splits_committed >= MAX_SPLITS_PER_OPTIMIZE
    }

    /// Takes the outcome of a batch over.
    pub fn apply_outcome(&mut self, outcome: &SplitBatchOutcome<u128>)
        ensures
            final(self).rules == old(self).rules,
            final(self).dim == old(self).dim,
            final(self).budget_bytes == old(self).budget_bytes,
            final(self).cell_counts@ == counts_after(old(self).cell_counts@, outcome.results()),
            final(self).unsplittable@.dom() == unsplittable_after(
                old(self).unsplittable@.dom(),
                outcome.results(),
                old(self).rules,
            ),
            final(self).splits_committed == capped(
                old(self).splits_committed + splits_in(outcome.results()),
                usize::MAX as int,
            ),
            forall|cell: u32|
                #![trigger holders(final(self).parents_by_cell@, cell)]
                holders(final(self).parents_by_cell@, cell) == holders(old(self).parents_by_cell@, cell)
                    + entries_of_cell(outcome.new_entries_by_cell@, cell),
    {
        let ghost was = *self;
        self.add_entries(&outcome.new_entries_by_cell);
        let ghost all = outcome.results();
        let mut i: usize = 0;
        assert(all.take(0) =~= Seq::<CellResult>::empty());
        while i < outcome.per_cell.len()
            invariant
                i <= outcome.per_cell.len(),
                all == outcome.results(),
                self.rules == was.rules,
                self.dim == was.dim,
                self.budget_bytes == was.budget_bytes,
                self.cell_counts@ == counts_after(was.cell_counts@, all.take(i as int)),
                self.unsplittable@.dom() == unsplittable_after(
                    was.unsplittable@.dom(),
                    all.take(i as int),
                    was.rules,
                ),
                self.splits_committed == capped(
                    was.splits_committed + splits_in(all.take(i as int)),
                    usize::MAX as int,
                ),
                splits_in(all.take(i as int)) >= 0,
                forall|cell: u32|
                    #![trigger holders(self.parents_by_cell@, cell)]
                    holders(self.parents_by_cell@, cell) == holders(was.parents_by_cell@, cell)
                        + entries_of_cell(outcome.new_entries_by_cell@, cell),
            decreases outcome.per_cell.len() - i,
        {
            proof {
                assert(all.take(i + 1).drop_last() =~= all.take(i as int));
                assert(all.take(i + 1).last() == result_view(outcome.per_cell@[i as int]));
            }
            match &outcome.per_cell[i].1 {
                Some(children) => {
                    self.splits_committed = self.splits_committed.saturating_add(1);
                    self.add_children(children);
                },
                None => {
                    let ghost before = self.unsplittable@;
                    self.unsplittable.insert(outcome.per_cell[i].0, ());
                    assert(self.unsplittable@.dom() =~= before.dom().insert(outcome.per_cell@[i as int].0));
                },
            }
            i = i + 1;
        }
        assert(all.take(i as int) =~= all);
    }

    fn add_children(&mut self, children: &Vec<(u32, u64)>)
        ensures
            final(self).rules == old(self).rules,
            final(self).dim == old(self).dim,
            final(self).budget_bytes == old(self).budget_bytes,
            final(self).splits_committed == old(self).splits_committed,
            final(self).parents_by_cell == old(self).parents_by_cell,
            final(self).cell_counts@ == put_rows(old(self).cell_counts@, children@),
            final(self).unsplittable@.dom() == settled_children(
                old(self).unsplittable@.dom(),
                children@,
                old(self).rules,
            ),
    {
        let ghost was = *self;
        let mut k: usize = 0;
        assert(children@.take(0) =~= Seq::<(u32, u64)>::empty());
        while k < children.len()
            invariant
                k <= children.len(),
                self.rules == was.rules,
                self.dim == was.dim,
                self.budget_bytes == was.budget_bytes,
                self.splits_committed == was.splits_committed,
                self.parents_by_cell == was.parents_by_cell,
                self.cell_counts@ == put_rows(was.cell_counts@, children@.take(k as int)),
                self.unsplittable@.dom() == settled_children(
                    was.unsplittable@.dom(),
                    children@.take(k as int),
                    was.rules,
                ),
            decreases children.len() - k,
        {
            proof {
                assert(children@.take(k + 1).drop_last() =~= children@.take(k as int));
            }
            let child: u32 = children[k].0;
            let rows: u64 = children[k].1;
            self.cell_counts.insert(child, rows);
            if !self.rules.split_overflow_needed(rows) {
                let ghost before = self.unsplittable@;
                self.unsplittable.insert(child, ());
                assert(self.unsplittable@.dom() =~= before.dom().insert(child));
            }
            k = k + 1;
        }
        assert(children@.take(k as int) =~= children@);
    }

    fn add_entries(&mut self, entries: &Vec<(u32, u128)>)
        ensures
            final(self).rules == old(self).rules,
            final(self).dim == old(self).dim,
            final(self).budget_bytes == old(self).budget_bytes,
            final(self).splits_committed == old(self).splits_committed,
            final(self).cell_counts == old(self).cell_counts,
            final(self).unsplittable == old(self).unsplittable,
            forall|cell: u32|
                #![trigger holders(final(self).parents_by_cell@, cell)]
                holders(final(self).parents_by_cell@, cell) == holders(old(self).parents_by_cell@, cell)
                    + entries_of_cell(entries@, cell),
    {
        let ghost was = *self;
        let mut k: usize = 0;
        proof {
            assert(entries@.take(0) =~= Seq::<(u32, u128)>::empty());
            assert forall|cell: u32|
                #![trigger holders(self.parents_by_cell@, cell)]
                holders(self.parents_by_cell@, cell) == holders(was.parents_by_cell@, cell)
                    + entries_of_cell(entries@.take(0), cell) by {
                assert(holders(was.parents_by_cell@, cell) + entries_of_cell(entries@.take(0), cell)
                    =~= holders(was.parents_by_cell@, cell));
            }
        }
        while k < entries.len()
            invariant
                k <= entries.len(),
                self.rules == was.rules,
                self.dim == was.dim,
                self.budget_bytes == was.budget_bytes,
                self.splits_committed == was.splits_committed,
                self.cell_counts == was.cell_counts,
                self.unsplittable == was.unsplittable,
                forall|cell: u32|
                    #![trigger holders(self.parents_by_cell@, cell)]
                    holders(self.parents_by_cell@, cell) == holders(was.parents_by_cell@, cell)
                        + entries_of_cell(entries@.take(k as int), cell),
            decreases entries.len() - k,
        {
            let cell: u32 = entries[k].0;
            let id: u128 = entries[k].1;
            let ghost before = self.parents_by_cell@;
            push_parent(&mut self.parents_by_cell, cell, id);
            proof {
                assert(entries@.take(k + 1).drop_last() =~= entries@.take(k as int));
                assert forall|c: u32|
                    #![trigger holders(self.parents_by_cell@, c)]
                    holders(self.parents_by_cell@, c) == holders(was.parents_by_cell@, c)
                        + entries_of_cell(entries@.take(k + 1), c) by {
                    assert(holders(before, c) == holders(was.parents_by_cell@, c) + entries_of_cell(
                        entries@.take(k as int),
                        c,
                    ));
                    assert(self.parents_by_cell@.contains_key(c) == (before.contains_key(c) || c == cell));
                    if c == cell {
                        assert(holders(self.parents_by_cell@, c) =~= holders(before, c).push(id));
                        assert(holders(was.parents_by_cell@, c) + entries_of_cell(entries@.take(k + 1), c)
                            =~= (holders(was.parents_by_cell@, c) + entries_of_cell(
                            entries@.take(k as int),
                            c,
                        )).push(id));
                    }
                }
            }
            k = k + 1;
        }
        assert(entries@.take(k as int) =~= entries@);
    }
}

/// A cell that is not looked at again stays so.
pub proof fn unsplittable_cells_stay(s: Set<u32>, results: Seq<CellResult>, rules: SplitRules, cell: u32)
    requires
        s.contains(cell),
    ensures
        unsplittable_after(s, results, rules).contains(cell),
    decreases results.len(),
{
    if results.len() > 0 {
        unsplittable_cells_stay(s, results.drop_last(), rules, cell);
        if let Some(children) = results.last().1 {
            settled_grows(unsplittable_after(s, results.drop_last(), rules), children, rules, cell);
        }
    }
}

proof fn settled_grows(s: Set<u32>, children: Seq<(u32, u64)>, rules: SplitRules, cell: u32)
    requires
        s.contains(cell),
    ensures
        settled_children(s, children, rules).contains(cell),
    decreases children.len(),
{
    if children.len() > 0 {
        settled_grows(s, children.drop_last(), rules, cell);
    }
}

/// A batch never leaves a pass where it was: each of its cells is either split
/// or not looked at again. So a pass ends.
pub proof fn pass_makes_progress(s: Set<u32>, results: Seq<CellResult>, rules: SplitRules, i: int)
    requires
        0 <= i < results.len(),
    ensures
        splits_in(results) >= 0,
        splits_in(results) > 0 || unsplittable_after(s, results, rules).contains(results[i].0),
    decreases results.len(),
{
    splits_not_negative(results);
    if i < results.len() - 1 {
        splits_not_negative(results.drop_last());
        pass_makes_progress(s, results.drop_last(), rules, i);
        if results.last().1 is None {
        } else {
            assert(splits_in(results) > 0);
        }
    } else {
        splits_not_negative(results.drop_last());
    }
}

proof fn splits_not_negative(results: Seq<CellResult>)
    ensures
        splits_in(results) >= 0,
    decreases results.len(),
{
    if results.len() > 0 {
        splits_not_negative(results.drop_last());
    }
}

// ---------------------------------------------------------------------------
// Publishing splits
// ---------------------------------------------------------------------------

/// A step of publishing the children of a batch.
#[derive(Clone, Copy, PartialEq, Eq, Structural, Debug)]
pub enum SplitStep {
    /// The children are named in the slow state, so that nothing sweeps them
    /// away before they are committed.
    Pin,
    Upload,
    Commit,
    /// The names are taken back, so that the sweep can have the children.
    Unpin,
    StoreInserts,
    Done,
    Failed,
}

/// The step after one that ended well or not.
pub open spec fn split_step_after(step: SplitStep, ok: bool) -> SplitStep {
    match step {
        SplitStep::Pin => if ok {
            SplitStep::Upload
        } else {
            SplitStep::Failed
        },
        SplitStep::Upload => if ok {
            SplitStep::Commit
        } else {
            SplitStep::Unpin
        },
        SplitStep::Commit => if ok {
            SplitStep::StoreInserts
        } else {
            SplitStep::Unpin
        },
        SplitStep::Unpin => SplitStep::Failed,
        SplitStep::StoreInserts => SplitStep::Done,
        SplitStep::Done => SplitStep::Done,
        SplitStep::Failed => SplitStep::Failed,
    }
}

impl SplitStep {
    /// Takes in how the step that was under way ended.
    pub fn after(self, ok: bool) -> (next: SplitStep)
        ensures
            next == split_step_after(self, ok),
    {
        match self {
            SplitStep::Pin => if ok {
                SplitStep::Upload
            } else {
                SplitStep::Failed
            },
            SplitStep::Upload => if ok {
                SplitStep::Commit
            } else {
                SplitStep::Unpin
            },
            SplitStep::Commit => if ok {
                SplitStep::StoreInserts
            } else {
                SplitStep::Unpin
            },
            SplitStep::Unpin => SplitStep::Failed,
            SplitStep::StoreInserts => SplitStep::Done,
            SplitStep::Done => SplitStep::Done,
            SplitStep::Failed => SplitStep::Failed,
        }
    }
}

/// The step that a batch is at after these replies.
pub open spec fn split_path(replies: Seq<bool>) -> SplitStep
    decreases replies.len(),
{
    if replies.len() == 0 {
        SplitStep::Pin
    } else {
        split_step_after(split_path(replies.drop_last()), replies.last())
    }
}

/// The batch came through a step, and it ended well where that is asked.
pub open spec fn split_came_through(replies: Seq<bool>, step: SplitStep, well: bool) -> bool
    decreases replies.len(),
{
    if replies.len() == 0 {
        false
    } else {
        ||| split_came_through(replies.drop_last(), step, well)
        ||| split_path(replies.drop_last()) == step && (well ==> replies.last())
    }
}

/// No byte of a child moves before the children are pinned, they are committed
/// only when all are there, and a batch that fails after it was pinned has tried
/// to take the pin back.
pub proof fn children_are_pinned_first(replies: Seq<bool>)
    ensures
        ({
            let step = split_path(replies);
            let pinned = split_came_through(replies, SplitStep::Pin, true);
            &&& (step is Upload || step is Commit || step is Unpin || step is StoreInserts || step is Done)
                ==> pinned
            &&& (step is Commit || step is StoreInserts || step is Done) ==> split_came_through(
                replies,
                SplitStep::Upload,
                true,
            )
            &&& step is Failed && pinned ==> split_came_through(replies, SplitStep::Unpin, false)
            &&& (step is StoreInserts || step is Done) ==> split_came_through(
                replies,
                SplitStep::Commit,
                true,
            )
            &&& step is Pin ==> !pinned
        }),
    decreases replies.len(),
{
    if replies.len() > 0 {
        children_are_pinned_first(replies.drop_last());
    }
}

} // verus!
