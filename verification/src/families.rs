//! Cells and the children that they are split into: which ids the children get,
//! and which of the cell's rows go to each of them.
use vstd::prelude::*;

use crate::split::ExtractionJob;
use crate::split_pass::{
    route_to_children, routed, rows_add_up, rows_of_child,
};

verus! {

// ---------------------------------------------------------------------------
// Families
// ---------------------------------------------------------------------------

/// A cell and its children. The first child keeps the id of the cell.
#[derive(Debug)]
pub struct CellFamily {
    pub cell: u32,
    /// The superfiles that the rows came from.
    pub parent_ids: Vec<u128>,
    /// The rows of the cell.
    pub n_rows: usize,
    /// The children and their rows.
    pub children: Vec<(u32, u32)>,
}

/// The rows of all the children.
pub open spec fn counted(children: Seq<(u32, u32)>) -> int
    decreases children.len(),
{
    if children.len() == 0 {
        0
    } else {
        counted(children.drop_last()) + children.last().1
    }
}

/// The ids of `k` children of a cell: its own, and `from` and those after it.
pub open spec fn child_ids_from(cell: u32, from: int, k: int) -> Seq<u32> {
    Seq::new(
        k as nat,
        |i: int|
            if i == 0 {
                cell
            } else {
                (from + i - 1) as u32
            },
    )
}

/// The children that rows are routed to, each with the number of its rows.
pub open spec fn routed_children(child_ids: Seq<u32>, assign: Seq<u32>) -> Seq<(u32, u32)> {
    Seq::new(
        child_ids.len(),
        |i: int| (child_ids[i], rows_of_child(assign, child_ids.len() as int, i).len() as u32),
    )
}

impl CellFamily {
    /// The family of a cell whose rows go to these children.
    pub open spec fn is_routed(self, job: ExtractionJob, child_ids: Seq<u32>, assign: Seq<u32>) -> bool {
        &&& self.cell == job.cell
        &&& self.parent_ids@ == job.parents@
        &&& self.n_rows == assign.len()
        &&& self.children@ == routed_children(child_ids, assign)
    }

    /// The first child is the cell, the others have the ids from `from` on, and
    /// the children's rows add up to the cell's.
    pub open spec fn is_family(self, from: int) -> bool {
        &&& self.children.len() > 0
        &&& self.children@[0].0 == self.cell
        &&& forall|k: int| 1 <= k < self.children.len() ==> (#[trigger] self.children@[k]).0 == from + k - 1
        &&& counted(self.children@) == self.n_rows
    }
}

/// A cell that is split: its family, and the rows of each child as places among
/// the cell's rows.
#[derive(Debug)]
pub struct CellSplit {
    pub family: CellFamily,
    pub groups: Vec<Vec<usize>>,
}

/// The places of the children that have rows.
pub open spec fn peopled(children: Seq<(u32, u32)>) -> Seq<usize>
    decreases children.len(),
{
    if children.len() == 0 {
        Seq::empty()
    } else if children.last().1 > 0 {
        peopled(children.drop_last()).push((children.len() - 1) as usize)
    } else {
        peopled(children.drop_last())
    }
}

impl CellSplit {
    /// The rows are routed, and each child's group lists exactly its rows.
    pub open spec fn is_routed(self, job: ExtractionJob, child_ids: Seq<u32>, assign: Seq<u32>) -> bool {
        &&& self.family.is_routed(job, child_ids, assign)
        &&& self.groups.len() == child_ids.len()
        &&& forall|i: int|
            0 <= i < child_ids.len() ==> (#[trigger] self.groups@[i])@ == rows_of_child(
                assign,
                child_ids.len() as int,
                i,
            )
    }

    /// The places of the children that have rows and are therefore built.
    pub fn to_build(&self) -> (places: Vec<usize>)
        ensures
            places@ == peopled(self.family.children@),
    {
        let children = &self.family.children;
        let mut places: Vec<usize> = Vec::new();
        let mut i: usize = 0;
        assert(children@.take(0) =~= Seq::<(u32, u32)>::empty());
        while i < children.len()
            invariant
                i <= children.len(),
                places@ == peopled(children@.take(i as int)),
            decreases children.len() - i,
        {
            assert(children@.take(i + 1).drop_last() =~= children@.take(i as int));
            if children[i].1 > 0 {
                places.push(i);
            }
            i = i + 1;
        }
        assert(children@.take(i as int) =~= children@);
        places
    }
}

proof fn group_fits(assign: Seq<u32>, n_children: int, child: int)
    ensures
        rows_of_child(assign, n_children, child).len() <= assign.len(),
    decreases assign.len(),
{
    if assign.len() > 0 {
        group_fits(assign.drop_last(), n_children, child);
    }
}

proof fn counts_follow_the_rows(child_ids: Seq<u32>, assign: Seq<u32>, n: int)
    requires
        0 <= n <= child_ids.len(),
        assign.len() <= u32::MAX,
    ensures
        counted(routed_children(child_ids, assign).take(n)) == routed(assign, child_ids.len() as int, n),
    decreases n,
{
    let all = routed_children(child_ids, assign);
    if n > 0 {
        counts_follow_the_rows(child_ids, assign, n - 1);
        assert(all.take(n).drop_last() =~= all.take(n - 1));
        group_fits(assign, child_ids.len() as int, n - 1);
    }
}

/// The children's rows add up to the rows that were routed.
pub proof fn children_add_up(child_ids: Seq<u32>, assign: Seq<u32>)
    requires
        child_ids.len() > 0,
        assign.len() <= u32::MAX,
    ensures
        counted(routed_children(child_ids, assign)) == assign.len(),
{
    let all = routed_children(child_ids, assign);
    counts_follow_the_rows(child_ids, assign, child_ids.len() as int);
    rows_add_up(assign, child_ids.len() as int);
    assert(all.take(all.len() as int) =~= all);
}

/// Splits a cell: each of its rows goes to the child that its side stands for,
/// and each child has as many rows as were sent to it.
pub fn split_cell(job: &ExtractionJob, child_ids: &Vec<u32>, assign: &Vec<u32>) -> (s: CellSplit)
    requires
        child_ids.len() > 0,
        assign.len() <= u32::MAX,
    ensures
        s.is_routed(*job, child_ids@, assign@),
        forall|i: int|
            0 <= i < child_ids.len() ==> (#[trigger] s.family.children@[i]).0 == child_ids@[i]
                && s.family.children@[i].1 == rows_of_child(assign@, child_ids.len() as int, i).len(),
        counted(s.family.children@) == assign.len(),
{
    let groups = route_to_children(assign, child_ids.len());
    let ghost all = routed_children(child_ids@, assign@);
    let mut children: Vec<(u32, u32)> = Vec::new();
    let mut i: usize = 0;
    while i < child_ids.len()
        invariant
            i <= child_ids.len(),
            assign.len() <= u32::MAX,
            all == routed_children(child_ids@, assign@),
            groups.len() == child_ids.len(),
            forall|c: int|
                0 <= c < child_ids.len() ==> (#[trigger] groups@[c])@ == rows_of_child(
                    assign@,
                    child_ids.len() as int,
                    c,
                ),
            children@ == all.take(i as int),
        decreases child_ids.len() - i,
    {
        proof {
            group_fits(assign@, child_ids.len() as int, i as int);
        }
        let n: u32 = groups[i].len() as u32;
        children.push((child_ids[i], n));
        i = i + 1;
        assert(children@ =~= all.take(i as int));
    }
    let mut parent_ids: Vec<u128> = Vec::new();
    let mut k: usize = 0;
    while k < job.parents.len()
        invariant
            k <= job.parents.len(),
            parent_ids@ == job.parents@.take(k as int),
        decreases job.parents.len() - k,
    {
        parent_ids.push(job.parents[k]);
        k = k + 1;
        assert(parent_ids@ =~= job.parents@.take(k as int));
    }
    proof {
        assert(children@ =~= all);
        assert(parent_ids@ =~= job.parents@);
        children_add_up(child_ids@, assign@);
        assert forall|c: int| 0 <= c < child_ids.len() implies rows_of_child(
            assign@,
            child_ids.len() as int,
            c,
        ).len() <= u32::MAX by {
            group_fits(assign@, child_ids.len() as int, c);
        }
    }
    CellSplit {
        family: CellFamily { cell: job.cell, parent_ids, n_rows: assign.len(), children },
        groups,
    }
}

// ---------------------------------------------------------------------------
// Lineages
// ---------------------------------------------------------------------------

/// Cells of a grid of `n_cent` cells that were split one after the other: each
/// family takes the ids that follow those of the family before it, and `next` is
/// the first id that none has taken.
pub open spec fn is_lineage(families: Seq<CellFamily>, n_cent: int, next: int) -> bool
    decreases families.len(),
{
    if families.len() == 0 {
        next == n_cent
    } else {
        let last = families.last();
        let from = next - (last.children.len() - 1);
        &&& last.cell < n_cent
        &&& last.is_family(from)
        &&& is_lineage(families.drop_last(), n_cent, from)
    }
}

/// Where the ids of a family begin.
spec fn first_id(families: Seq<CellFamily>, next: int, i: int) -> int
    decreases families.len(),
{
    if families.len() == 0 {
        next
    } else {
        let from = next - (families.last().children.len() - 1);
        if i >= families.len() - 1 {
            from
        } else {
            first_id(families.drop_last(), from, i)
        }
    }
}

proof fn family_at(families: Seq<CellFamily>, n_cent: int, next: int, i: int)
    requires
        is_lineage(families, n_cent, next),
        0 <= i < families.len(),
    ensures
        families[i].cell < n_cent,
        families[i].is_family(first_id(families, next, i)),
        n_cent <= first_id(families, next, i),
        first_id(families, next, i) + families[i].children.len() - 1 <= next,
    decreases families.len(),
{
    let from = next - (families.last().children.len() - 1);
    lineage_grows(families.drop_last(), n_cent, from);
    if i < families.len() - 1 {
        family_at(families.drop_last(), n_cent, from, i);
    }
}

proof fn families_follow(families: Seq<CellFamily>, n_cent: int, next: int, i: int, j: int)
    requires
        is_lineage(families, n_cent, next),
        0 <= i < j < families.len(),
    ensures
        first_id(families, next, i) + families[i].children.len() - 1 <= first_id(families, next, j),
    decreases families.len(),
{
    let from = next - (families.last().children.len() - 1);
    if j < families.len() - 1 {
        families_follow(families.drop_last(), n_cent, from, i, j);
    } else {
        family_at(families.drop_last(), n_cent, from, i);
    }
}

/// A lineage never takes an id of the grid that it began with.
pub proof fn lineage_grows(families: Seq<CellFamily>, n_cent: int, next: int)
    requires
        is_lineage(families, n_cent, next),
    ensures
        n_cent <= next,
    decreases families.len(),
{
    if families.len() > 0 {
        let from = next - (families.last().children.len() - 1);
        lineage_grows(families.drop_last(), n_cent, from);
    }
}

/// The children of a split cell: the first keeps the cell's id, every other one
/// has an id past the grid's end, and their rows add up to the cell's.
pub proof fn children_are_new(families: Seq<CellFamily>, n_cent: int, next: int, i: int, k: int)
    requires
        is_lineage(families, n_cent, next),
        0 <= i < families.len(),
        0 <= k < families[i].children.len(),
    ensures
        families[i].children@[0].0 == families[i].cell,
        families[i].cell < n_cent,
        k > 0 ==> n_cent <= families[i].children@[k].0 < next,
        families[i].children@[k].0 < next,
        counted(families[i].children@) == families[i].n_rows,
{
    family_at(families, n_cent, next, i);
    lineage_grows(families, n_cent, next);
}

/// Different cells stay apart when they are split: no two children, of one cell
/// or of two, have the same id.
pub proof fn children_are_distinct(
    families: Seq<CellFamily>,
    n_cent: int,
    next: int,
    i: int,
    a: int,
    j: int,
    b: int,
)
    requires
        is_lineage(families, n_cent, next),
        forall|p: int, q: int|
            0 <= p < q < families.len() ==> (#[trigger] families[p]).cell != (#[trigger] families[q]).cell,
        0 <= i < families.len(),
        0 <= a < families[i].children.len(),
        0 <= j < families.len(),
        0 <= b < families[j].children.len(),
        i != j || a != b,
    ensures
        families[i].children@[a].0 != families[j].children@[b].0,
{
    family_at(families, n_cent, next, i);
    family_at(families, n_cent, next, j);
    if i < j {
        families_follow(families, n_cent, next, i, j);
    } else if j < i {
        families_follow(families, n_cent, next, j, i);
    }
}

} // verus!
