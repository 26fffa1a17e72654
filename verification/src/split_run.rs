//! Splitting many cells at once, in a batch or, in a bulk pass, wave by wave:
//! which cells go on, which are set aside, and what is published together.
use vstd::multiset::Multiset;
use vstd::prelude::*;

use crate::families::{
    child_ids_from, children_are_new, counted, is_lineage, lineage_grows, peopled, routed_children,
    split_cell, CellFamily, CellSplit,
};
use crate::order::{sorted_by, sorted_by_keeps_items};
use crate::split::{
    next_wave, resident_bytes, shrink_wave, wave_makes_progress, wave_of, ExtractionJob, SplitWave,
};
use crate::split_pass::{
    cell_keys, cells_of, check_plan, child_counts, committed, fold_order, inside, new_entries,
    nothing_built, outside, part_batch, put_counts, settle_batch, split_cells, unchanged,
    BuiltCellSplit, CellResult, ChildOutsideGrid, SettledBatch, SplitBatchOutcome,
};

verus! {

/// What a split finds when it is asked for.
#[derive(Clone, Copy, PartialEq, Eq, Structural, Debug)]
pub struct SplitFacts {
    /// The index is routed by cells.
    pub routed_by_cells: bool,
    pub has_vector_column: bool,
    pub n_cent: u32,
    pub dim: u32,
    pub has_storage: bool,
}

impl SplitFacts {
    /// There is a grid whose cells can be split.
    pub open spec fn has_grid(self) -> bool {
        self.routed_by_cells && self.has_vector_column && self.n_cent > 0 && self.dim > 0
    }

    fn grid_is_there(&self) -> (r: bool)
        ensures
            r == self.has_grid(),
    {
        self.routed_by_cells && self.has_vector_column && self.n_cent > 0 && self.dim > 0
    }
}

/// A batch or a bulk pass under way. `F` is what holds a child that is built.
#[derive(Debug)]
pub struct SplitRun<F> {
    pub n_cent: u32,
    pub dim: u32,
    pub budget_bytes: u64,
    /// The cells that wait, each with its rows.
    pub queue: Vec<(u32, u64)>,
    /// The cells that stay as they are.
    pub no_ops: Vec<u32>,
    pub splits: RunSplits<F>,
}

/// The splits of a run. Only the run adds to them.
#[derive(Debug)]
pub struct RunSplits<F> {
    /// The first id that no child has taken.
    next_id: u32,
    /// The splits whose children are being built.
    building: Vec<CellSplit>,
    /// The splits whose children are built.
    built: Vec<BuiltCellSplit<F>>,
}

impl<F> RunSplits<F> {
    pub closed spec fn done(self) -> Seq<BuiltCellSplit<F>> {
        self.built@
    }

    pub closed spec fn pending(self) -> Seq<CellSplit> {
        self.building@
    }

    pub closed spec fn next(self) -> u32 {
        self.next_id
    }
}

/// A cell whose live rows were read.
#[derive(Debug)]
pub struct ExtractedCell {
    pub job: ExtractionJob,
    pub n_rows: usize,
}

/// What the planner made of a cell: how many numbers the children's centroids
/// have, and the side of each row.
#[derive(Debug)]
pub struct CellPlan {
    pub n_floats: usize,
    pub assign: Vec<u32>,
}

/// The grid has no ids for so many children.
#[derive(Clone, Copy, PartialEq, Eq, Structural, Debug)]
pub struct GridFull {
    pub next_id: u32,
}

/// How a batch or a bulk pass starts.
#[derive(Debug)]
pub enum RunStart<F> {
    /// There is no grid to split: every cell stays as it is.
    NoGrid(SplitBatchOutcome<F>),
    /// The index has no storage to publish to.
    NoStorage,
    Go(SplitRun<F>),
}

/// The cells of a list with their rows.
pub open spec fn named_cells(s: Seq<(u32, u64)>) -> Seq<u32> {
    Seq::new(s.len(), |i: int| s[i].0)
}

/// The cells that results are of.
pub open spec fn result_cells(results: Seq<CellResult>) -> Seq<u32> {
    Seq::new(results.len(), |i: int| results[i].0)
}

/// The cells of the list that are marked.
pub open spec fn marked(s: Seq<(u32, bool)>) -> Seq<u32>
    decreases s.len(),
{
    if s.len() == 0 {
        Seq::empty()
    } else if s.last().1 {
        marked(s.drop_last()).push(s.last().0)
    } else {
        marked(s.drop_last())
    }
}

/// The places of the list that are not marked.
pub open spec fn unmarked_places(s: Seq<(u32, bool)>) -> Seq<usize>
    decreases s.len(),
{
    if s.len() == 0 {
        Seq::empty()
    } else if s.last().1 {
        unmarked_places(s.drop_last())
    } else {
        unmarked_places(s.drop_last()).push((s.len() - 1) as usize)
    }
}

/// The cells of the list that are not marked.
pub open spec fn unmarked(s: Seq<(u32, bool)>) -> Seq<u32> {
    let places = unmarked_places(s);
    Seq::new(places.len(), |i: int| s[places[i] as int].0)
}

/// All cells of the list.
pub open spec fn listed_cells(s: Seq<(u32, bool)>) -> Seq<u32> {
    Seq::new(s.len(), |i: int| s[i].0)
}

/// The cells, each with whether it has too few rows to split.
pub open spec fn too_small(extracted: Seq<ExtractedCell>) -> Seq<(u32, bool)> {
    Seq::new(extracted.len(), |i: int| (extracted[i].job.cell, extracted[i].n_rows < 2))
}

/// The cells, each with whether the planner left it as it is.
pub open spec fn left_alone(plans: Seq<(u32, Option<usize>)>) -> Seq<(u32, bool)> {
    Seq::new(plans.len(), |i: int| (plans[i].0, plans[i].1 is None))
}

proof fn no_cells_known()
    ensures
        Seq::<u32>::empty().to_multiset() =~= Multiset::<u32>::empty(),
{
    Seq::<u32>::empty().to_multiset_ensures();
}

proof fn marking_keeps_cells(s: Seq<(u32, bool)>)
    requires
        s.len() <= usize::MAX,
    ensures
        marked(s).to_multiset().add(unmarked(s).to_multiset()) =~= listed_cells(s).to_multiset(),
    decreases s.len(),
{
    broadcast use vstd::multiset::group_multiset_axioms;

    if s.len() == 0 {
        assert(listed_cells(s) =~= Seq::<u32>::empty());
        assert(unmarked(s) =~= Seq::<u32>::empty());
        no_cells_known();
    } else {
        let init = s.drop_last();
        marking_keeps_cells(init);
        places_are_inside(init);
        assert(listed_cells(s) =~= listed_cells(init).push(s.last().0));
        listed_cells(init).to_multiset_ensures();
        marked(init).to_multiset_ensures();
        unmarked(init).to_multiset_ensures();
        if s.last().1 {
            assert(unmarked(s) =~= unmarked(init));
        } else {
            assert(unmarked(s) =~= unmarked(init).push(s.last().0));
        }
    }
}

proof fn inside_is_inside(cells: Seq<u32>, n_cent: u32)
    ensures
        forall|i: int| 0 <= i < inside(cells, n_cent).len() ==> (#[trigger] inside(cells, n_cent)[i]) < n_cent,
    decreases cells.len(),
{
    if cells.len() > 0 {
        let init = inside(cells.drop_last(), n_cent);
        inside_is_inside(cells.drop_last(), n_cent);
        assert forall|i: int| 0 <= i < inside(cells, n_cent).len() implies (#[trigger] inside(
            cells,
            n_cent,
        )[i]) < n_cent by {
            if i < init.len() {
                assert(inside(cells, n_cent)[i] == init[i]);
            }
        }
    }
}

proof fn parting_keeps_cells(cells: Seq<u32>, n_cent: u32)
    ensures
        inside(cells, n_cent).to_multiset().add(outside(cells, n_cent).to_multiset()) =~= cells.to_multiset(),
    decreases cells.len(),
{
    broadcast use vstd::multiset::group_multiset_axioms;

    if cells.len() == 0 {
        no_cells_known();
        assert(cells =~= Seq::<u32>::empty());
    } else {
        let init = cells.drop_last();
        parting_keeps_cells(init, n_cent);
        assert(cells =~= init.push(cells.last()));
        init.to_multiset_ensures();
        inside(init, n_cent).to_multiset_ensures();
        outside(init, n_cent).to_multiset_ensures();
    }
}

proof fn names_of_push(s: Seq<(u32, u64)>, next: (u32, u64))
    ensures
        named_cells(s.push(next)) =~= named_cells(s).push(next.0),
{
}

proof fn names_of_sum(a: Seq<(u32, u64)>, b: Seq<(u32, u64)>)
    ensures
        named_cells(a + b) =~= named_cells(a) + named_cells(b),
{
}

/// Every cell of the queue is in the wave, waits, or is outside the grid, and in
/// one of these only.
pub proof fn wave_loses_no_cell(queue: Seq<(u32, u64)>, n_cent: int, dim: int, budget: int)
    ensures
        ({
            let w = wave_of(queue, n_cent, dim, budget);
            named_cells(w.cells).to_multiset().add(named_cells(w.deferred).to_multiset()).add(
                w.outside.to_multiset(),
            ) =~= named_cells(queue).to_multiset()
        }),
    decreases queue.len(),
{
    broadcast use vstd::multiset::group_multiset_axioms;

    let w = wave_of(queue, n_cent, dim, budget);
    if queue.len() == 0 {
        assert(named_cells(queue) =~= Seq::<u32>::empty());
        assert(named_cells(w.cells) =~= Seq::<u32>::empty());
        no_cells_known();
    } else {
        let init = queue.drop_last();
        let next = queue.last();
        let before = wave_of(init, n_cent, dim, budget);
        wave_loses_no_cell(init, n_cent, dim, budget);
        assert(queue =~= init.push(next));
        names_of_push(init, next);
        named_cells(init).to_multiset_ensures();
        if next.0 >= n_cent {
            before.outside.to_multiset_ensures();
        } else if w.deferred == before.deferred {
            names_of_push(before.cells, next);
            named_cells(before.cells).to_multiset_ensures();
        } else {
            names_of_push(before.deferred, next);
            named_cells(before.deferred).to_multiset_ensures();
        }
    }
}

fn place_marked(list: &Vec<(u32, bool)>, aside: &mut Vec<u32>) -> (places: Vec<usize>)
    ensures
        final(aside)@ == old(aside)@ + marked(list@),
        places@ == unmarked_places(list@),
{
    let ghost before = aside@;
    let mut places: Vec<usize> = Vec::new();
    let mut i: usize = 0;
    assert(list@.take(0) =~= Seq::<(u32, bool)>::empty());
    assert(before + marked(list@.take(0)) =~= before);
    while i < list.len()
        invariant
            i <= list.len(),
            aside@ == before + marked(list@.take(i as int)),
            places@ == unmarked_places(list@.take(i as int)),
        decreases list.len() - i,
    {
        proof {
            assert(list@.take(i + 1).drop_last() =~= list@.take(i as int));
        }
        if list[i].1 {
            aside.push(list[i].0);
            assert(aside@ =~= before + marked(list@.take(i + 1)));
        } else {
            places.push(i);
        }
        i = i + 1;
    }
    assert(list@.take(i as int) =~= list@);
    places
}

/// The number of children that a plan gives a cell of `n_rows` rows; none when
/// there is no plan or it has another shape.
pub open spec fn plan_children(plan: Option<CellPlan>, dim: int, n_rows: usize) -> Option<usize> {
    match plan {
        Some(p) => if p.n_floats > 0 && p.n_floats as int % dim == 0 && p.assign.len() == n_rows {
            Some((p.n_floats as int / dim) as usize)
        } else {
            None
        },
        None => None,
    }
}

/// The planned cells, each with the number of its children.
pub open spec fn plan_kinds(
    extracted: Seq<ExtractedCell>,
    places: Seq<usize>,
    plans: Seq<Option<CellPlan>>,
    dim: int,
) -> Seq<(u32, Option<usize>)> {
    Seq::new(
        places.len(),
        |i: int|
            (
                extracted[places[i] as int].job.cell,
                plan_children(plans[i], dim, extracted[places[i] as int].n_rows),
            ),
    )
}

/// The places of the cells that are split, in the order of the cells.
pub open spec fn planned_order(kinds: Seq<(u32, Option<usize>)>) -> Seq<usize> {
    sorted_by(unmarked_places(left_alone(kinds)), cell_keys(unmarked(left_alone(kinds))))
}

/// The new ids that the first `n` of the cells take: one less than children.
pub open spec fn new_ids(kinds: Seq<(u32, Option<usize>)>, order: Seq<usize>, n: int) -> int
    decreases n,
{
    if n <= 0 {
        0
    } else {
        new_ids(kinds, order, n - 1) + kinds[order[n - 1] as int].1->0 - 1
    }
}

/// The split at place `j` of the order: its rows go to children with the ids
/// that follow those of the splits before it.
pub open spec fn is_split_of(
    split: CellSplit,
    extracted: Seq<ExtractedCell>,
    places: Seq<usize>,
    plans: Seq<Option<CellPlan>>,
    kinds: Seq<(u32, Option<usize>)>,
    order: Seq<usize>,
    next: int,
    j: int,
) -> bool {
    let q = order[j] as int;
    split.is_routed(
        extracted[places[q] as int].job,
        child_ids_from(kinds[q].0, next + new_ids(kinds, order, j), kinds[q].1->0 as int),
        plans[q]->0.assign@,
    )
}

/// The split of a family whose children with rows have these files, in order.
pub open spec fn is_built<F>(built: BuiltCellSplit<F>, family: CellFamily, files: Seq<F>) -> bool {
    let places = peopled(family.children@);
    &&& built.family == family
    &&& built.prepared@ == Seq::new(
        places.len(),
        |k: int| (family.children@[places[k] as int].0, files[k]),
    )
}

proof fn kinds_have_children(
    extracted: Seq<ExtractedCell>,
    places: Seq<usize>,
    plans: Seq<Option<CellPlan>>,
    dim: int,
)
    requires
        dim > 0,
    ensures
        ({
            let kinds = plan_kinds(extracted, places, plans, dim);
            forall|q: int| 0 <= q < kinds.len() && (#[trigger] kinds[q]).1 is Some ==> kinds[q].1->0 > 0
        }),
{
    let kinds = plan_kinds(extracted, places, plans, dim);
    assert forall|q: int| 0 <= q < kinds.len() && (#[trigger] kinds[q]).1 is Some implies kinds[q].1->0 > 0 by {
        let n = plans[q]->0.n_floats as int;
        assert(0 < n / dim <= n) by (nonlinear_arith)
            requires
                n > 0,
                dim > 0,
                n % dim == 0,
        ;
    }
}

proof fn ids_only_grow(kinds: Seq<(u32, Option<usize>)>, order: Seq<usize>, n: int, m: int)
    requires
        0 <= n <= m <= order.len(),
        forall|q: int| 0 <= q < order.len() ==> (#[trigger] order[q]) < kinds.len(),
        forall|q: int| 0 <= q < order.len() ==> kinds[(#[trigger] order[q]) as int].1 is Some,
        forall|q: int| 0 <= q < kinds.len() && (#[trigger] kinds[q]).1 is Some ==> kinds[q].1->0 > 0,
    ensures
        new_ids(kinds, order, n) <= new_ids(kinds, order, m),
    decreases m - n,
{
    if n < m {
        ids_only_grow(kinds, order, n, m - 1);
        assert(kinds[order[m - 1] as int].1->0 > 0);
    }
}

proof fn lineage_gains(
    families: Seq<CellFamily>,
    n_cent: int,
    from: int,
    k: int,
    family: CellFamily,
    job: ExtractionJob,
    assign: Seq<u32>,
)
    requires
        is_lineage(families, n_cent, from),
        k > 0,
        0 <= from,
        from + k - 1 <= u32::MAX,
        job.cell < n_cent,
        assign.len() <= u32::MAX,
        family.is_routed(job, child_ids_from(job.cell, from, k), assign),
    ensures
        is_lineage(families.push(family), n_cent, from + k - 1),
{
    crate::families::children_add_up(child_ids_from(job.cell, from, k), assign);
    assert(families.push(family).drop_last() =~= families);
    assert(family.children.len() == k);
    assert forall|c: int| 1 <= c < family.children.len() implies (#[trigger] family.children@[c]).0 == from + c
        - 1 by {
        assert(family.children@[c].0 == child_ids_from(job.cell, from, k)[c]);
    }
}

proof fn counts_have_places(m: Map<u32, u32>, counts: Seq<(u32, u32)>, next: int)
    requires
        forall|c: u32| #[trigger] m.contains_key(c) ==> c < next,
        forall|k: int| 0 <= k < counts.len() ==> (#[trigger] counts[k]).0 < next,
    ensures
        forall|c: u32| #[trigger] put_counts(m, counts).contains_key(c) ==> c < next,
    decreases counts.len(),
{
    if counts.len() > 0 {
        let init = counts.drop_last();
        assert forall|k: int| 0 <= k < init.len() implies (#[trigger] init[k]).0 < next by {
            assert(init[k] == counts[k]);
        }
        counts_have_places(m, init, next);
        assert(counts[counts.len() - 1].0 < next);
        assert forall|c: u32| #[trigger] put_counts(m, counts).contains_key(c) implies c < next by {
            if c != counts.last().0 {
                assert(put_counts(m, init).contains_key(c));
            }
        }
    }
}

proof fn children_have_places<F>(built: Seq<BuiltCellSplit<F>>, n_cent: int, next: int)
    requires
        is_lineage(families_of(built), n_cent, next),
    ensures
        forall|c: u32| #[trigger] child_counts(built).contains_key(c) ==> c < next,
    decreases built.len(),
{
    if built.len() > 0 {
        let init = built.drop_last();
        let families = families_of(built);
        let last = built.last().family;
        let from = next - (last.children.len() - 1);
        assert(families_of(init) =~= families.drop_last());
        children_have_places(init, n_cent, from);
        assert forall|k: int| 0 <= k < last.children.len() implies (#[trigger] last.children@[k]).0 < next by {
            children_are_new(families, n_cent, next, families.len() - 1, k);
        }
        counts_have_places(child_counts(init), last.children@, next);
    }
}

/// The cells that are set aside, and the order of the others.
fn order_planned(plans: &Vec<(u32, Option<usize>)>) -> (out: (Vec<usize>, Vec<u32>))
    ensures
        out.0@ == planned_order(plans@),
        out.1@ == marked(left_alone(plans@)),
        forall|q: int| 0 <= q < out.0.len() ==> (#[trigger] out.0@[q]) < plans.len(),
        forall|q: int| 0 <= q < out.0.len() ==> plans@[(#[trigger] out.0@[q]) as int].1 is Some,
        Seq::new(out.0@.len(), |i: int| plans@[out.0@[i] as int].0).to_multiset() =~= unmarked(
            left_alone(plans@),
        ).to_multiset(),
{
    let mut list: Vec<(u32, bool)> = Vec::new();
    let mut i: usize = 0;
    while i < plans.len()
        invariant
            i <= plans.len(),
            list@ == left_alone(plans@).take(i as int),
        decreases plans.len() - i,
    {
        list.push((plans[i].0, plans[i].1.is_none()));
        i = i + 1;
        assert(list@ =~= left_alone(plans@).take(i as int));
    }
    assert(list@ =~= left_alone(plans@));
    let mut aside: Vec<u32> = Vec::new();
    let places = place_marked(&list, &mut aside);
    assert(aside@ =~= marked(list@));
    proof {
        places_are_inside(list@);
    }
    let ghost wanted = unmarked(list@);
    let mut cells: Vec<u32> = Vec::new();
    let mut k: usize = 0;
    while k < places.len()
        invariant
            k <= places.len(),
            list@ == left_alone(plans@),
            places@ == unmarked_places(list@),
            forall|q: int| 0 <= q < places.len() ==> (#[trigger] places@[q]) < plans.len(),
            wanted == unmarked(list@),
            cells@ == wanted.take(k as int),
        decreases places.len() - k,
    {
        cells.push(plans[places[k]].0);
        k = k + 1;
        assert(cells@ =~= wanted.take(k as int));
    }
    assert(cells@ =~= wanted);
    let by_cell = fold_order(&cells);
    let ghost keys = cell_keys(wanted);
    let mut order: Vec<usize> = Vec::new();
    let mut j: usize = 0;
    while j < by_cell.len()
        invariant
            j <= by_cell.len(),
            by_cell@ == crate::order::the_order(keys),
            crate::order::is_stable_order(keys, by_cell@),
            keys.len() == places.len(),
            order@ == sorted_by(places@, keys).take(j as int),
        decreases by_cell.len() - j,
    {
        order.push(places[by_cell[j]]);
        j = j + 1;
        assert(order@ =~= sorted_by(places@, keys).take(j as int));
    }
    proof {
        assert(order@ =~= sorted_by(places@, keys));
        assert forall|q: int| 0 <= q < order.len() implies (#[trigger] order@[q]) < plans.len()
            && plans@[order@[q] as int].1 is Some by {
            let p = crate::order::the_order(keys)[q] as int;
            assert(order@[q] == places@[p]);
            assert(places@[p] < list.len());
            assert(!list@[places@[p] as int].1);
        }
        sorted_by_keeps_items(wanted, keys);
        assert(Seq::new(order@.len(), |i: int| plans@[order@[i] as int].0) =~= sorted_by(wanted, keys));
    }
    (order, aside)
}

fn with_files<F>(split: CellSplit, files: Vec<F>) -> (built: BuiltCellSplit<F>)
    requires
        files.len() == peopled(split.family.children@).len(),
    ensures
        is_built(built, split.family, files@),
{
    let places = split.to_build();
    let family = split.family;
    let ghost all = Seq::new(
        places@.len(),
        |k: int| (family.children@[places@[k] as int].0, files@[k]),
    );
    let ghost named = files@;
    let n_children: usize = family.children.len();
    proof {
        assert(family.children@.len() == n_children);
        peopled_are_children(family.children@);
    }
    let mut rest = files;
    let mut reversed: Vec<(u32, F)> = Vec::new();
    while rest.len() > 0
        invariant
            rest.len() + reversed.len() == places.len(),
            named.len() == places.len(),
            rest@ == named.take(rest.len() as int),
            places@ == peopled(family.children@),
            forall|k: int| 0 <= k < places.len() ==> (#[trigger] places@[k]) < family.children.len(),
            all == Seq::new(
                places@.len(),
                |k: int| (family.children@[places@[k] as int].0, named[k]),
            ),
            forall|q: int| 0 <= q < reversed.len() ==> #[trigger] reversed@[q] == all[all.len() - 1 - q],
        decreases rest.len(),
    {
        let ghost x = rest.len() - 1;
        if let Some(file) = rest.pop() {
            let place: usize = places[rest.len()];
            reversed.push((family.children[place].0, file));
        }
        assert(rest@ =~= named.take(x));
    }
    let ghost backwards = reversed@;
    let mut prepared: Vec<(u32, F)> = Vec::new();
    while reversed.len() > 0
        invariant
            backwards.len() == all.len(),
            reversed.len() + prepared.len() == all.len(),
            reversed@ == backwards.take(reversed.len() as int),
            forall|q: int| 0 <= q < backwards.len() ==> #[trigger] backwards[q] == all[all.len() - 1 - q],
            prepared@ == all.take(prepared.len() as int),
        decreases reversed.len(),
    {
        let ghost x = reversed.len() - 1;
        let ghost sofar = prepared@;
        if let Some(p) = reversed.pop() {
            assert(p == backwards[x]);
            prepared.push(p);
            assert(prepared@ =~= all.take(prepared.len() as int));
        }
        assert(reversed@ =~= backwards.take(x));
    }
    assert(prepared@ =~= all);
    BuiltCellSplit { family, prepared }
}

proof fn peopled_are_children(children: Seq<(u32, u32)>)
    requires
        children.len() <= usize::MAX,
    ensures
        forall|k: int| 0 <= k < peopled(children).len() ==> (#[trigger] peopled(children)[k]) < children.len(),
        peopled(children).len() <= children.len(),
    decreases children.len(),
{
    if children.len() > 0 {
        let init = children.drop_last();
        peopled_are_children(init);
        assert forall|k: int| 0 <= k < peopled(children).len() implies (#[trigger] peopled(children)[k])
            < children.len() by {
            if k < peopled(init).len() {
                assert(peopled(children)[k] == peopled(init)[k]);
            }
        }
    }
}

/// The families of splits that are being built.
pub open spec fn families_in(splits: Seq<CellSplit>) -> Seq<CellFamily> {
    Seq::new(splits.len(), |i: int| splits[i].family)
}

/// The families of splits that are built.
pub open spec fn families_of<F>(built: Seq<BuiltCellSplit<F>>) -> Seq<CellFamily> {
    Seq::new(built.len(), |i: int| built[i].family)
}

/// The cells of families.
pub open spec fn family_cells(families: Seq<CellFamily>) -> Seq<u32> {
    Seq::new(families.len(), |i: int| families[i].cell)
}

impl<F> SplitRun<F> {
    /// The splits whose children are built.
    pub open spec fn built_splits(self) -> Seq<BuiltCellSplit<F>> {
        self.splits.done()
    }

    /// The splits whose children are being built.
    pub open spec fn pending_splits(self) -> Seq<CellSplit> {
        self.splits.pending()
    }

    /// The first id that no child has taken.
    pub open spec fn next_id(self) -> u32 {
        self.splits.next()
    }

    /// The families of all splits, in the order in which they got their ids.
    pub open spec fn families(self) -> Seq<CellFamily> {
        families_of(self.built_splits()) + families_in(self.pending_splits())
    }

    /// Each family follows the one before it.
    pub open spec fn well_formed(self) -> bool {
        &&& self.dim > 0
        &&& is_lineage(self.families(), self.n_cent as int, self.next_id() as int)
    }

    /// The cells that wait, are being split or have an answer.
    pub open spec fn known_cells(self) -> Multiset<u32> {
        named_cells(self.queue@).to_multiset().add(self.no_ops@.to_multiset()).add(
            family_cells(self.families()).to_multiset(),
        )
    }

    /// The splits are the same.
    pub open spec fn same_splits(self, other: SplitRun<F>) -> bool {
        &&& self.built_splits() == other.built_splits()
        &&& self.pending_splits() == other.pending_splits()
        &&& self.next_id() == other.next_id()
    }

    /// The settings are the same.
    pub open spec fn same_settings(self, other: SplitRun<F>) -> bool {
        &&& self.n_cent == other.n_cent
        &&& self.dim == other.dim
        &&& self.budget_bytes == other.budget_bytes
    }

    /// Starts a bulk pass over the candidates. Without a grid nothing is done,
    /// and storage is not looked for.
    pub fn begin(candidates: Vec<(u32, u64)>, facts: &SplitFacts, budget_bytes: u64) -> (start: RunStart<F>)
        ensures
            if !facts.has_grid() {
                &&& start is NoGrid
                &&& start->NoGrid_0.results() == unchanged(named_cells(candidates@))
                &&& start->NoGrid_0.new_entries_by_cell.len() == 0
            } else if !facts.has_storage {
                start is NoStorage
            } else {
                &&& start matches RunStart::Go(run)
                &&& run.n_cent == facts.n_cent
                &&& run.dim == facts.dim
                &&& run.budget_bytes == budget_bytes
                &&& run.queue@ == candidates@
                &&& run.no_ops.len() == 0
                &&& run.well_formed()
                &&& run.families().len() == 0
                &&& run.next_id() == facts.n_cent
            },
    {
        if !facts.grid_is_there() {
            let mut cells: Vec<u32> = Vec::new();
            let mut i: usize = 0;
            while i < candidates.len()
                invariant
                    i <= candidates.len(),
                    cells@ == named_cells(candidates@).take(i as int),
                decreases candidates.len() - i,
            {
                cells.push(candidates[i].0);
                i = i + 1;
                assert(cells@ =~= named_cells(candidates@).take(i as int));
            }
            assert(cells@ =~= named_cells(candidates@));
            return RunStart::NoGrid(SplitBatchOutcome::no_op_cells(cells));
        }
        if !facts.has_storage {
            return RunStart::NoStorage;
        }
        RunStart::Go(
            SplitRun {
                n_cent: facts.n_cent,
                dim: facts.dim,
                budget_bytes,
                queue: candidates,
                no_ops: Vec::new(),
                splits: RunSplits { next_id: facts.n_cent, building: Vec::new(), built: Vec::new() },
            },
        )
    }

    /// Starts a batch. The cells that the grid does not have are set aside, the
    /// others are handed back.
    pub fn begin_batch(cells: &Vec<u32>, facts: &SplitFacts) -> (start: (RunStart<F>, Vec<u32>))
        ensures
            if !facts.has_grid() {
                &&& start.0 is NoGrid
                &&& start.0->NoGrid_0.results() == unchanged(cells@)
                &&& start.0->NoGrid_0.new_entries_by_cell.len() == 0
                &&& start.1.len() == 0
            } else if !facts.has_storage {
                start.0 is NoStorage && start.1.len() == 0
            } else {
                &&& start.0 matches RunStart::Go(run)
                &&& run.n_cent == facts.n_cent
                &&& run.dim == facts.dim
                &&& run.budget_bytes == 0
                &&& run.queue.len() == 0
                &&& run.no_ops@ == outside(cells@, facts.n_cent)
                &&& run.well_formed()
                &&& run.families().len() == 0
                &&& run.next_id() == facts.n_cent
                &&& start.1@ == inside(cells@, facts.n_cent)
                &&& forall|i: int| 0 <= i < start.1.len() ==> (#[trigger] start.1@[i]) < facts.n_cent
                &&& run.known_cells().add(start.1@.to_multiset()) =~= cells@.to_multiset()
            },
    {
        if !facts.grid_is_there() {
            let mut all: Vec<u32> = Vec::new();
            let mut i: usize = 0;
            while i < cells.len()
                invariant
                    i <= cells.len(),
                    all@ == cells@.take(i as int),
                decreases cells.len() - i,
            {
                all.push(cells[i]);
                i = i + 1;
                assert(all@ =~= cells@.take(i as int));
            }
            assert(all@ =~= cells@);
            return (RunStart::NoGrid(SplitBatchOutcome::no_op_cells(all)), Vec::new());
        }
        if !facts.has_storage {
            return (RunStart::NoStorage, Vec::new());
        }
        let (eligible, aside) = part_batch(cells, facts.n_cent);
        let run = SplitRun {
            n_cent: facts.n_cent,
            dim: facts.dim,
            budget_bytes: 0,
            queue: Vec::new(),
            no_ops: aside,
            splits: RunSplits { next_id: facts.n_cent, building: Vec::new(), built: Vec::new() },
        };
        proof {
            inside_is_inside(cells@, facts.n_cent);
            parting_keeps_cells(cells@, facts.n_cent);
            no_cells_known();
            assert(named_cells(run.queue@) =~= Seq::<u32>::empty());
            assert(family_cells(run.families()) =~= Seq::<u32>::empty());
        }
        (RunStart::Go(run), eligible)
    }

    /// Takes the next wave from the queue, and sets the cells aside that the
    /// grid does not have. `None` when no cell is left to split.
    pub fn take_wave(&mut self) -> (wave: Option<SplitWave>)
        ensures
            ({
                let w = wave_of(
                    old(self).queue@,
                    old(self).n_cent as int,
                    old(self).dim as int,
                    old(self).budget_bytes as int,
                );
                &&& final(self).same_settings(*old(self))
                &&& final(self).queue@ == w.deferred
                &&& final(self).no_ops@ == old(self).no_ops@ + w.outside
                &&& final(self).same_splits(*old(self))
                &&& match wave {
                    Some(taken) => {
                        &&& taken.cells@ == w.cells
                        &&& taken.cells.len() > 0
                        &&& forall|i: int|
                            0 <= i < taken.cells.len() ==> (#[trigger] taken.cells@[i]).0 < old(self).n_cent
                        &&& taken.bytes == w.bytes
                        &&& taken.deferred.len() == 0
                        &&& taken.outside.len() == 0
                    },
                    None => w.cells.len() == 0,
                }
            }),
            wave is None ==> final(self).queue.len() == 0,
            old(self).queue.len() > 0 && wave is Some ==> final(self).queue.len() < old(self).queue.len(),
            final(self).known_cells().add(
                match wave {
                    Some(taken) => named_cells(taken.cells@).to_multiset(),
                    None => Multiset::empty(),
                },
            ) =~= old(self).known_cells(),
    {
        let ghost before = *self;
        let wave = next_wave(&self.queue, self.n_cent, self.dim, self.budget_bytes);
        proof {
            let w = wave_of(
                before.queue@,
                before.n_cent as int,
                before.dim as int,
                before.budget_bytes as int,
            );
            wave_loses_no_cell(
                before.queue@,
                before.n_cent as int,
                before.dim as int,
                before.budget_bytes as int,
            );
            wave_makes_progress(
                before.queue@,
                before.n_cent as int,
                before.dim as int,
                before.budget_bytes as int,
            );
            vstd::seq_lib::lemma_multiset_commutative(before.no_ops@, w.outside);
            assert(named_cells(Seq::<(u32, u64)>::empty()) =~= Seq::<u32>::empty());
            if w.cells.len() == 0 {
                assert(w.cells =~= Seq::<(u32, u64)>::empty());
                no_cells_known();
            }
        }
        let SplitWave { cells, bytes, deferred, outside } = wave;
        let mut aside = outside;
        self.no_ops.append(&mut aside);
        self.queue = deferred;
        if cells.len() == 0 {
            return None;
        }
        Some(SplitWave { cells, bytes, deferred: Vec::new(), outside: Vec::new() })
    }

    /// What goes when memory for the wave was granted or not: without it the
    /// first cell alone, for which memory is asked once more; the others go back
    /// to the front of the queue. A single cell goes in any case.
    pub fn admit_wave(&mut self, wave: SplitWave, granted: bool) -> (out: (SplitWave, Option<u64>))
        requires
            wave.cells.len() > 0,
            wave.deferred.len() == 0,
            wave.cells.len() + old(self).queue.len() <= usize::MAX,
        ensures
            final(self).same_settings(*old(self)),
            final(self).no_ops == old(self).no_ops,
            final(self).same_splits(*old(self)),
            if granted || wave.cells.len() == 1 {
                &&& out.0 == wave
                &&& out.1 is None
                &&& final(self).queue == old(self).queue
            } else {
                &&& out.0.cells@ == seq![wave.cells@[0]]
                &&& out.0.bytes == resident_bytes(wave.cells@[0].1 as int, old(self).dim as int)
                &&& out.1 == Some(out.0.bytes)
                &&& final(self).queue@ == wave.cells@.skip(1) + old(self).queue@
            },
            final(self).known_cells().add(named_cells(out.0.cells@).to_multiset()) =~= old(
                self,
            ).known_cells().add(named_cells(wave.cells@).to_multiset()),
    {
        if granted || wave.cells.len() == 1 {
            return (wave, None);
        }
        let ghost cells = wave.cells@;
        let ghost waiting = self.queue@;
        let shrunk = shrink_wave(wave, self.dim);
        let SplitWave { cells: first, bytes, deferred, outside } = shrunk;
        let mut queue = deferred;
        queue.append(&mut self.queue);
        self.queue = queue;
        proof {
            assert(self.queue@ =~= cells.skip(1) + waiting);
            names_of_sum(cells.skip(1), waiting);
            assert(cells =~= seq![cells[0]] + cells.skip(1));
            names_of_sum(seq![cells[0]], cells.skip(1));
            vstd::seq_lib::lemma_multiset_commutative(named_cells(cells.skip(1)), named_cells(waiting));
            vstd::seq_lib::lemma_multiset_commutative(
                named_cells(seq![cells[0]]),
                named_cells(cells.skip(1)),
            );
        }
        (SplitWave { cells: first, bytes, deferred: Vec::new(), outside }, Some(bytes))
    }

    /// Sets the cells aside that have too few rows, and says which others are
    /// planned.
    pub fn set_small_aside(&mut self, extracted: &Vec<ExtractedCell>) -> (places: Vec<usize>)
        ensures
            final(self).same_settings(*old(self)),
            final(self).queue == old(self).queue,
            final(self).same_splits(*old(self)),
            final(self).no_ops@ == old(self).no_ops@ + marked(too_small(extracted@)),
            places@ == unmarked_places(too_small(extracted@)),
            forall|i: int| 0 <= i < places.len() ==> (#[trigger] places@[i]) < extracted.len(),
            final(self).known_cells().add(unmarked(too_small(extracted@)).to_multiset()) =~= old(
                self,
            ).known_cells().add(listed_cells(too_small(extracted@)).to_multiset()),
    {
        let mut list: Vec<(u32, bool)> = Vec::new();
        let mut i: usize = 0;
        while i < extracted.len()
            invariant
                i <= extracted.len(),
                list@ == too_small(extracted@).take(i as int),
            decreases extracted.len() - i,
        {
            list.push((extracted[i].job.cell, !crate::split_pass::has_rows_to_split(extracted[i].n_rows)));
            i = i + 1;
            assert(list@ =~= too_small(extracted@).take(i as int));
        }
        assert(list@ =~= too_small(extracted@));
        let ghost before = self.no_ops@;
        let places = place_marked(&list, &mut self.no_ops);
        proof {
            places_are_inside(list@);
            marking_keeps_cells(list@);
            vstd::seq_lib::lemma_multiset_commutative(before, marked(list@));
        }
        places
    }

    /// Takes the plans of the cells at these places in. A cell that the planner
    /// left as it is, or planned in another shape, is set aside. The children of
    /// the others get their ids, cell by cell in the order of the cells, and each
    /// row goes to its child. Says where the rows of the cells that are split
    /// are. Nothing changes when there are not enough ids.
    pub fn fold_plans(
        &mut self,
        extracted: &Vec<ExtractedCell>,
        places: &Vec<usize>,
        plans: &Vec<Option<CellPlan>>,
    ) -> (result: Result<Vec<usize>, GridFull>)
        requires
            old(self).well_formed(),
            old(self).pending_splits().len() == 0,
            plans.len() == places.len(),
            forall|i: int|
                0 <= i < places.len() ==> (#[trigger] places@[i]) < extracted.len()
                    && extracted@[places@[i] as int].job.cell < old(self).n_cent
                    && extracted@[places@[i] as int].n_rows <= u32::MAX,
        ensures
            final(self).well_formed(),
            final(self).same_settings(*old(self)),
            final(self).queue == old(self).queue,
            final(self).built_splits() == old(self).built_splits(),
            ({
                let kinds = plan_kinds(extracted@, places@, plans@, old(self).dim as int);
                let order = planned_order(kinds);
                let next = old(self).next_id() as int;
                if next + new_ids(kinds, order, order.len() as int) > u32::MAX {
                    &&& result == Err::<Vec<usize>, GridFull>(GridFull { next_id: old(self).next_id() })
                    &&& *final(self) == *old(self)
                } else {
                    &&& result is Ok
                    &&& result->Ok_0@ == Seq::new(order.len(), |j: int| places@[order[j] as int])
                    &&& final(self).no_ops@ == old(self).no_ops@ + marked(left_alone(kinds))
                    &&& final(self).next_id() == next + new_ids(kinds, order, order.len() as int)
                    &&& final(self).pending_splits().len() == order.len()
                    &&& forall|j: int|
                        0 <= j < order.len() ==> is_split_of(
                            #[trigger] final(self).pending_splits()[j],
                            extracted@,
                            places@,
                            plans@,
                            kinds,
                            order,
                            next,
                            j,
                        )
                    &&& final(self).known_cells() =~= old(self).known_cells().add(
                        listed_cells(left_alone(kinds)).to_multiset(),
                    )
                }
            }),
    {
        let ghost before = *self;
        let ghost kinds = plan_kinds(extracted@, places@, plans@, self.dim as int);
        let ghost next = self.splits.next_id as int;
        let dim: usize = self.dim as usize;
        let mut list: Vec<(u32, Option<usize>)> = Vec::new();
        let mut i: usize = 0;
        while i < places.len()
            invariant
                i <= places.len(),
                plans.len() == places.len(),
                forall|q: int| 0 <= q < places.len() ==> (#[trigger] places@[q]) < extracted.len(),
                dim > 0,
                dim == self.dim,
                kinds == plan_kinds(extracted@, places@, plans@, self.dim as int),
                list@ == kinds.take(i as int),
            decreases places.len() - i,
        {
            let cell = &extracted[places[i]];
            let kind: Option<usize> = match &plans[i] {
                Some(plan) => check_plan(plan.n_floats, dim, plan.assign.len(), cell.n_rows),
                None => None,
            };
            list.push((cell.job.cell, kind));
            i = i + 1;
            assert(list@ =~= kinds.take(i as int));
        }
        assert(list@ =~= kinds);
        let (order, aside) = order_planned(&list);
        proof {
            kinds_have_children(extracted@, places@, plans@, self.dim as int);
        }
        let mut end: u64 = self.splits.next_id as u64;
        let mut t: usize = 0;
        while t < order.len()
            invariant
                t <= order.len(),
                kinds == plan_kinds(extracted@, places@, plans@, before.dim as int),
                before == *old(self),
                list@ == kinds,
                next == before.splits.next_id,
                end == next + new_ids(kinds, order@, t as int),
                end <= u32::MAX,
                order@ == planned_order(kinds),
                forall|q: int| 0 <= q < order.len() ==> (#[trigger] order@[q]) < kinds.len(),
                forall|q: int| 0 <= q < order.len() ==> kinds[(#[trigger] order@[q]) as int].1 is Some,
                forall|q: int|
                    0 <= q < kinds.len() && (#[trigger] kinds[q]).1 is Some ==> kinds[q].1->0 > 0,
                *self == before,
                before.well_formed(),
            decreases order.len() - t,
        {
            if let Some(k) = list[order[t]].1 {
                assert(kinds[order@[t as int] as int].1->0 > 0);
                let more: u64 = (k - 1) as u64;
                if more > u32::MAX as u64 - end {
                    proof {
                        ids_only_grow(kinds, order@, t + 1, order.len() as int);
                        assert(new_ids(kinds, order@, t + 1) == new_ids(kinds, order@, t as int) + k - 1);
                        assert(next + new_ids(kinds, order@, order.len() as int) > u32::MAX);
                    }
                    return Err(GridFull { next_id: self.splits.next_id });
                }
                end = end + more;
            }
            t = t + 1;
        }
        let ghost kept = self.no_ops@;
        let mut more = aside;
        self.no_ops.append(&mut more);
        let mut at: Vec<usize> = Vec::new();
        let ghost wanted = Seq::new(order@.len(), |j: int| places@[order@[j] as int]);
        let mut j: usize = 0;
        assert(self.families() =~= before.families());
        while j < order.len()
            invariant
                j <= order.len(),
                plans.len() == places.len(),
                kinds == plan_kinds(extracted@, places@, plans@, before.dim as int),
                list@ == kinds,
                order@ == planned_order(kinds),
                next == before.splits.next_id,
                next + new_ids(kinds, order@, order.len() as int) <= u32::MAX,
                wanted == Seq::new(order@.len(), |j: int| places@[order@[j] as int]),
                at@ == wanted.take(j as int),
                forall|q: int| 0 <= q < order.len() ==> (#[trigger] order@[q]) < kinds.len(),
                forall|q: int| 0 <= q < order.len() ==> kinds[(#[trigger] order@[q]) as int].1 is Some,
                forall|q: int|
                    0 <= q < kinds.len() && (#[trigger] kinds[q]).1 is Some ==> kinds[q].1->0 > 0,
                forall|i: int|
                    0 <= i < places.len() ==> (#[trigger] places@[i]) < extracted.len()
                        && extracted@[places@[i] as int].job.cell < before.n_cent
                        && extracted@[places@[i] as int].n_rows <= u32::MAX,
                self.same_settings(before),
                self.queue == before.queue,
                self.splits.built == before.splits.built,
                self.no_ops@ == kept + marked(left_alone(kinds)),
                before.splits.building.len() == 0,
                self.splits.next_id == next + new_ids(kinds, order@, j as int),
                self.splits.building.len() == j,
                self.well_formed(),
                forall|q: int|
                    0 <= q < j ==> is_split_of(
                        #[trigger] self.splits.building@[q],
                        extracted@,
                        places@,
                        plans@,
                        kinds,
                        order@,
                        next,
                        q,
                    ),
            decreases order.len() - j,
        {
            let q: usize = order[j];
            let ghost from = self.splits.next_id as int;
            let ghost families = self.families();
            let ghost sofar = self.splits.building@;
            proof {
                assert(kinds[order@[j as int] as int].1 is Some);
                assert(kinds[q as int].1->0 > 0);
                ids_only_grow(kinds, order@, j + 1, order.len() as int);
            }
            if let (Some(k), Some(plan)) = (list[q].1, &plans[q]) {
                let job = &extracted[places[q]].job;
                let mut child_ids: Vec<u32> = Vec::new();
                child_ids.push(job.cell);
                let ghost all = child_ids_from(job.cell, from, k as int);
                assert(child_ids@ =~= all.take(1));
                let mut c: usize = 1;
                while c < k
                    invariant
                        1 <= c <= k,
                        from == self.splits.next_id,
                        from + k - 1 <= u32::MAX,
                        all == child_ids_from(job.cell, from, k as int),
                        child_ids@ == all.take(c as int),
                    decreases k - c,
                {
                    child_ids.push(self.splits.next_id + (c - 1) as u32);
                    c = c + 1;
                    assert(child_ids@ =~= all.take(c as int));
                }
                assert(child_ids@ =~= all);
                let split = split_cell(job, &child_ids, &plan.assign);
                proof {
                    lineage_gains(families, self.n_cent as int, from, k as int, split.family, *job, plan.assign@);
                }
                self.splits.next_id = self.splits.next_id + (k - 1) as u32;
                self.splits.building.push(split);
                proof {
                    assert(families_in(self.splits.building@) =~= families_in(sofar).push(split.family));
                    assert(self.families() =~= families.push(split.family));
                    assert forall|x: int| 0 <= x < j + 1 implies is_split_of(
                        #[trigger] self.splits.building@[x],
                        extracted@,
                        places@,
                        plans@,
                        kinds,
                        order@,
                        next,
                        x,
                    ) by {
                        if x < j {
                            assert(self.splits.building@[x] == sofar[x]);
                        }
                    }
                }
            }
            at.push(places[q]);
            j = j + 1;
            assert(at@ =~= wanted.take(j as int));
        }
        proof {
            assert(at@ =~= wanted);
            let marks = left_alone(kinds);
            let cells = Seq::new(order@.len(), |i: int| kinds[order@[i] as int].0);
            assert forall|x: int| 0 <= x < order.len() implies #[trigger] self.splits.building@[x].family.cell
                == cells[x] by {
                assert(is_split_of(self.splits.building@[x], extracted@, places@, plans@, kinds, order@, next, x));
            }
            assert(family_cells(self.families()) =~= family_cells(before.families()) + cells);
            marking_keeps_cells(marks);
            vstd::seq_lib::lemma_multiset_commutative(kept, marked(marks));
            vstd::seq_lib::lemma_multiset_commutative(family_cells(before.families()), cells);
        }
        Ok(at)
    }

    /// The splits whose children are to be built.
    pub fn splits_to_build(&self) -> (splits: &Vec<CellSplit>)
        ensures
            splits@ == self.pending_splits(),
    {
        &self.splits.building
    }

    /// The children of the pending splits are built. Each split comes with its
    /// files, one for each child that has rows.
    pub fn record_built(&mut self, files: Vec<Vec<F>>)
        requires
            old(self).well_formed(),
            files.len() == old(self).pending_splits().len(),
            forall|i: int|
                0 <= i < files.len() ==> (#[trigger] files@[i]).len() == peopled(
                    old(self).pending_splits()[i].family.children@,
                ).len(),
        ensures
            final(self).well_formed(),
            final(self).same_settings(*old(self)),
            final(self).queue == old(self).queue,
            final(self).no_ops == old(self).no_ops,
            final(self).next_id() == old(self).next_id(),
            final(self).pending_splits().len() == 0,
            final(self).families() == old(self).families(),
            final(self).known_cells() == old(self).known_cells(),
            final(self).built_splits().len() == old(self).built_splits().len() + files.len(),
            final(self).built_splits().take(old(self).built_splits().len() as int)
                == old(self).built_splits(),
            forall|i: int|
                0 <= i < files.len() ==> is_built(
                    #[trigger] final(self).built_splits()[old(self).built_splits().len() + i],
                    old(self).pending_splits()[i].family,
                    files@[i]@,
                ),
    {
        let ghost before = *self;
        let ghost all = files@;
        let ghost n = files.len() as int;
        let mut splits: Vec<CellSplit> = Vec::new();
        splits.append(&mut self.splits.building);
        let mut rest = files;
        let mut reversed: Vec<BuiltCellSplit<F>> = Vec::new();
        assert(splits@ =~= before.splits.building@);
        while rest.len() > 0
            invariant
                rest.len() == splits.len(),
                rest.len() + reversed.len() == n,
                n == all.len(),
                n == before.splits.building.len(),
                rest@ == all.take(rest.len() as int),
                splits@ == before.splits.building@.take(rest.len() as int),
                forall|i: int|
                    0 <= i < all.len() ==> (#[trigger] all[i]).len() == peopled(
                        before.splits.building@[i].family.children@,
                    ).len(),
                forall|q: int|
                    0 <= q < reversed.len() ==> is_built(
                        #[trigger] reversed@[q],
                        before.splits.building@[n - 1 - q].family,
                        all[n - 1 - q]@,
                    ),
            decreases rest.len(),
        {
            let ghost x = rest.len() - 1;
            let next = rest.pop();
            let split = splits.pop();
            assert(rest@ =~= all.take(x));
            assert(splits@ =~= before.splits.building@.take(x));
            if let (Some(named), Some(s)) = (next, split) {
                assert(named == all[x] && s == before.splits.building@[x]);
                reversed.push(with_files(s, named));
            }
        }
        let ghost backwards = reversed@;
        let ghost had = self.splits.built@;
        while reversed.len() > 0
            invariant
                backwards.len() == n,
                reversed.len() <= n,
                reversed@ == backwards.take(reversed.len() as int),
                self.splits.built.len() == had.len() + (n - reversed.len()),
                self.splits.built@.take(had.len() as int) == had,
                forall|i: int|
                    0 <= i < n - reversed.len() ==> #[trigger] self.splits.built@[had.len() + i] == backwards[n - 1
                        - i],
                self.same_settings(before),
                self.queue == before.queue,
                self.no_ops == before.no_ops,
                self.splits.next_id == before.splits.next_id,
                self.splits.building.len() == 0,
            decreases reversed.len(),
        {
            let ghost sofar = self.splits.built@;
            if let Some(b) = reversed.pop() {
                self.splits.built.push(b);
                assert(self.splits.built@.take(had.len() as int) =~= sofar.take(had.len() as int));
            }
            assert(reversed@ =~= backwards.take(reversed.len() as int));
            assert forall|i: int| 0 <= i < n - reversed.len() implies #[trigger] self.splits.built@[had.len() + i]
                == backwards[n - 1 - i] by {
                if i < n - reversed.len() - 1 {
                    assert(self.splits.built@[had.len() + i] == sofar[had.len() + i]);
                }
            }
        }
        proof {
            assert forall|i: int| 0 <= i < n implies is_built(
                #[trigger] self.splits.built@[had.len() + i],
                before.splits.building@[i].family,
                all[i]@,
            ) by {
                assert(self.splits.built@[had.len() + i] == backwards[n - 1 - i]);
                assert(is_built(backwards[n - 1 - i], before.splits.building@[i].family, all[i]@));
            }
            let after = families_of(self.splits.built@);
            assert forall|i: int| 0 <= i < after.len() implies after[i] == #[trigger] before.families()[i] by {
                if i < had.len() {
                    assert(self.splits.built@.take(had.len() as int)[i] == had[i]);
                } else {
                    assert(is_built(
                        self.splits.built@[had.len() + (i - had.len())],
                        before.splits.building@[i - had.len()].family,
                        all[i - had.len()]@,
                    ));
                }
            }
            assert(self.families() =~= before.families());
        }
    }

    /// Settles the run in the grid that the new ids have grown.
    pub fn finish(&self, grown_n_cent: u32) -> (result: Result<SettledBatch<F>, ChildOutsideGrid>) where
        F: Copy,

        requires
            self.well_formed(),
            self.pending_splits().len() == 0,
        ensures
            ({
                let built = self.built_splits();
                if nothing_built(built) {
                    &&& result is Ok
                    &&& result->Ok_0 is Nothing
                    &&& result->Ok_0->Nothing_0.results() == unchanged(self.no_ops@ + cells_of(built))
                    &&& result->Ok_0->Nothing_0.new_entries_by_cell.len() == 0
                } else if exists|child: u32| #[trigger]
                    child_counts(built).contains_key(child) && child >= grown_n_cent {
                    result matches Err(e) && e.n_cent == grown_n_cent && e.child >= grown_n_cent && child_counts(
                        built,
                    ).contains_key(e.child)
                } else {
                    &&& result matches Ok(SettledBatch::Commit { counts, superseded, outcome })
                    &&& counts@ == child_counts(built)
                    &&& superseded@ == split_cells(built)
                    &&& outcome.results() == committed(built) + unchanged(self.no_ops@)
                    &&& outcome.new_entries_by_cell@ == new_entries(built)
                }
            }),
            grown_n_cent >= self.next_id() ==> result is Ok,
    {
        proof {
            assert(self.families() =~= families_of(self.splits.built@));
            children_have_places(self.splits.built@, self.n_cent as int, self.splits.next_id as int);
        }
        settle_batch(&self.splits.built, &self.no_ops, grown_n_cent)
    }
}

proof fn places_are_inside(s: Seq<(u32, bool)>)
    requires
        s.len() <= usize::MAX,
    ensures
        forall|i: int|
            0 <= i < unmarked_places(s).len() ==> (#[trigger] unmarked_places(s)[i]) < s.len(),
        forall|i: int|
            0 <= i < unmarked_places(s).len() ==> !s[(#[trigger] unmarked_places(s)[i]) as int].1,
    decreases s.len(),
{
    if s.len() > 0 {
        places_are_inside(s.drop_last());
        let init = unmarked_places(s.drop_last());
        assert forall|i: int| 0 <= i < unmarked_places(s).len() implies (#[trigger] unmarked_places(s)[i])
            < s.len() by {
            if i < init.len() {
                assert(unmarked_places(s)[i] == init[i]);
            }
        }
        assert forall|i: int| 0 <= i < unmarked_places(s).len() implies !s[(#[trigger] unmarked_places(
            s,
        )[i]) as int].1 by {
            if i < init.len() {
                assert(unmarked_places(s)[i] == init[i]);
                assert(s.drop_last()[init[i] as int] == s[init[i] as int]);
            }
        }
    }
}

/// Every cell of a list is marked or has its place among the others.
pub proof fn setting_aside_loses_no_cell(s: Seq<(u32, bool)>)
    requires
        s.len() <= usize::MAX,
    ensures
        marked(s).len() + unmarked_places(s).len() == s.len(),
        forall|i: int|
            0 <= i < s.len() ==> if (#[trigger] s[i]).1 {
                marked(s).contains(s[i].0)
            } else {
                unmarked_places(s).contains(i as usize)
            },
    decreases s.len(),
{
    if s.len() > 0 {
        let init = s.drop_last();
        setting_aside_loses_no_cell(init);
        assert forall|i: int| 0 <= i < s.len() implies if (#[trigger] s[i]).1 {
            marked(s).contains(s[i].0)
        } else {
            unmarked_places(s).contains(i as usize)
        } by {
            if i < init.len() {
                assert(init[i] == s[i]);
                if s[i].1 {
                    let q = choose|q: int| 0 <= q < marked(init).len() && marked(init)[q] == s[i].0;
                    assert(marked(s)[q] == s[i].0);
                } else {
                    let rest = unmarked_places(init);
                    let q = choose|q: int| 0 <= q < rest.len() && rest[q] == i as usize;
                    assert(unmarked_places(s)[q] == i as usize);
                }
            } else if s[i].1 {
                assert(marked(s)[marked(s).len() - 1] == s[i].0);
            } else {
                assert(unmarked_places(s)[unmarked_places(s).len() - 1] == i as usize);
            }
        }
    }
}

/// A run with no cell left to split has an answer for every cell that it knows,
/// whether anything is published or not.
pub proof fn run_answers_every_cell<F>(run: SplitRun<F>)
    requires
        run.queue.len() == 0,
        run.pending_splits().len() == 0,
    ensures
        result_cells(committed(run.built_splits()) + unchanged(run.no_ops@)).to_multiset()
            =~= run.known_cells(),
        result_cells(unchanged(run.no_ops@ + cells_of(run.built_splits()))).to_multiset()
            =~= run.known_cells(),
{
    let built = cells_of(run.built_splits());
    let aside = run.no_ops@;
    assert(family_cells(run.families()) =~= built);
    assert(result_cells(committed(run.built_splits()) + unchanged(aside)) =~= built + aside);
    assert(result_cells(unchanged(aside + built)) =~= aside + built);
    vstd::seq_lib::lemma_multiset_commutative(built, aside);
    vstd::seq_lib::lemma_multiset_commutative(aside, built);
    assert(named_cells(run.queue@) =~= Seq::<u32>::empty());
    no_cells_known();
}

/// The children that a run reports for a cell: the first is the cell, the others
/// are new to the grid, and their rows add up to the rows of the cell that were
/// read.
pub proof fn reported_children_hold<F>(run: SplitRun<F>, i: int, k: int)
    requires
        run.well_formed(),
        0 <= i < run.built_splits().len(),
        0 <= k < run.built_splits()[i].family.children.len(),
    ensures
        ({
            let family = run.built_splits()[i].family;
            let reported = committed(run.built_splits())[i];
            &&& reported.0 == family.cell
            &&& reported.1 is Some
            &&& reported.1->0.len() == family.children.len()
            &&& reported.1->0[0].0 == family.cell
            &&& family.cell < run.n_cent
            &&& k > 0 ==> run.n_cent <= reported.1->0[k].0 < run.next_id()
            &&& rows_reported(reported.1->0) == family.n_rows
        }),
{
    let families = run.families();
    assert(families[i] == run.built_splits()[i].family);
    children_are_new(families, run.n_cent as int, run.next_id() as int, i, k);
    children_are_new(families, run.n_cent as int, run.next_id() as int, i, 0);
    widening_keeps_rows(families[i].children@);
}

/// The rows of all the children that are reported.
pub open spec fn rows_reported(children: Seq<(u32, u64)>) -> int
    decreases children.len(),
{
    if children.len() == 0 {
        0
    } else {
        rows_reported(children.drop_last()) + children.last().1
    }
}

proof fn widening_keeps_rows(children: Seq<(u32, u32)>)
    ensures
        rows_reported(crate::split_pass::widened_children(children)) == counted(children),
    decreases children.len(),
{
    let wide = crate::split_pass::widened_children(children);
    if children.len() > 0 {
        widening_keeps_rows(children.drop_last());
        assert(wide.drop_last() =~= crate::split_pass::widened_children(children.drop_last()));
    }
}

} // verus!
