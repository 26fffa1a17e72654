//! What splitting cells does to the rows of the table: nothing. A split moves the
//! live rows of a cell to its children and supersedes the cell in the superfiles
//! that the rows came from, in one commit.
use vstd::multiset::Multiset;
use vstd::prelude::*;

use crate::families::CellFamily;
use crate::split::{
    holders_of_cell, live_holders, named_in_counts, ExtractionJob, ScannedEntry,
};
use crate::split_pass::{
    child_of, entries_of_cell, holders, rows_of_child, split_cells, BuiltCellSplit,
};
use crate::split_run::families_of;
use crate::superseded::FileCell;

verus! {

/// The rows of one cell that a superfile holds and that are not deleted, by
/// their stable ids.
pub struct Block {
    pub file: u128,
    pub cell: u32,
    pub ids: Seq<i128>,
}

/// The rows that can be reached: those of the blocks that are not superseded.
pub open spec fn live_ids(blocks: Seq<Block>, superseded: Set<FileCell>) -> Multiset<i128>
    decreases blocks.len(),
{
    if blocks.len() == 0 {
        Multiset::empty()
    } else {
        let before = live_ids(blocks.drop_last(), superseded);
        if superseded.contains((blocks.last().file, blocks.last().cell)) {
            before
        } else {
            before.add(blocks.last().ids.to_multiset())
        }
    }
}

/// The rows of a cell that one superfile holds, in order.
pub open spec fn ids_in_file(blocks: Seq<Block>, file: u128, cell: u32) -> Seq<i128>
    decreases blocks.len(),
{
    if blocks.len() == 0 {
        Seq::empty()
    } else if blocks.last().file == file && blocks.last().cell == cell {
        ids_in_file(blocks.drop_last(), file, cell) + blocks.last().ids
    } else {
        ids_in_file(blocks.drop_last(), file, cell)
    }
}

/// The rows of a cell that are read from these superfiles, one superfile after
/// the other.
pub open spec fn read_ids(blocks: Seq<Block>, files: Seq<u128>, cell: u32) -> Seq<i128>
    decreases files.len(),
{
    if files.len() == 0 {
        Seq::empty()
    } else {
        read_ids(blocks, files.drop_last(), cell) + ids_in_file(blocks, files.last(), cell)
    }
}

/// The rows of a child, out of the rows of its cell.
pub open spec fn child_row_ids(rows: Seq<i128>, assign: Seq<u32>, n_children: int, child: int) -> Seq<i128> {
    let places = rows_of_child(assign, n_children, child);
    Seq::new(places.len(), |i: int| rows[places[i] as int])
}

/// The blocks of the first `n` children of a cell, each in its file.
pub open spec fn child_blocks(
    family: CellFamily,
    rows: Seq<i128>,
    assign: Seq<u32>,
    file_of: spec_fn(u32) -> u128,
    n: int,
) -> Seq<Block>
    decreases n,
{
    if n <= 0 {
        Seq::empty()
    } else {
        let id = family.children@[n - 1].0;
        child_blocks(family, rows, assign, file_of, n - 1).push(
            Block {
                file: file_of(id),
                cell: id,
                ids: child_row_ids(rows, assign, family.children.len() as int, n - 1),
            },
        )
    }
}

/// The blocks that splits add: the rows of each cell, as they were read, in the
/// blocks of its children. A file may hold the children of many cells.
pub open spec fn added_blocks(
    blocks: Seq<Block>,
    families: Seq<CellFamily>,
    assigns: Seq<Seq<u32>>,
    file_of: spec_fn(u32) -> u128,
) -> Seq<Block>
    decreases families.len(),
{
    if families.len() == 0 {
        Seq::empty()
    } else {
        let family = families.last();
        added_blocks(blocks, families.drop_last(), assigns.drop_last(), file_of) + child_blocks(
            family,
            read_ids(blocks, family.parent_ids@, family.cell),
            assigns.last(),
            file_of,
            family.children.len() as int,
        )
    }
}

/// The split cells, in each superfile that their rows came from.
pub open spec fn superseded_by(families: Seq<CellFamily>) -> Set<FileCell> {
    Set::new(
        |p: FileCell|
            exists|i: int|
                0 <= i < families.len() && (#[trigger] families[i]).cell == p.1
                    && families[i].parent_ids@.contains(p.0),
    )
}

/// The cell is split into children: its rows were read from superfiles in which
/// it is not superseded, from each once, and every row has a side.
pub open spec fn splits_what_it_read(
    family: CellFamily,
    assign: Seq<u32>,
    blocks: Seq<Block>,
    superseded: Set<FileCell>,
) -> bool {
    &&& family.children.len() > 0
    &&& family.parent_ids@.no_duplicates()
    &&& forall|f: u128| #[trigger]
        family.parent_ids@.contains(f) ==> !superseded.contains((f, family.cell))
    &&& assign.len() == read_ids(blocks, family.parent_ids@, family.cell).len()
    &&& assign.len() <= usize::MAX
}

/// The splits of a commit that read the table as it is: different cells, each
/// split into children, whose files are new.
pub open spec fn is_split_commit(
    blocks: Seq<Block>,
    superseded: Set<FileCell>,
    families: Seq<CellFamily>,
    assigns: Seq<Seq<u32>>,
    file_of: spec_fn(u32) -> u128,
) -> bool {
    &&& assigns.len() == families.len()
    &&& forall|i: int|
        0 <= i < families.len() ==> splits_what_it_read(
            #[trigger] families[i],
            assigns[i],
            blocks,
            superseded,
        )
    &&& forall|i: int, j: int|
        0 <= i < j < families.len() ==> (#[trigger] families[i]).cell != (#[trigger] families[j]).cell
    &&& forall|c: u32|
        !superseded.contains((#[trigger] file_of(c), c)) && !superseded_by(families).contains((file_of(c), c))
}

// ---------------------------------------------------------------------------
// Proofs
// ---------------------------------------------------------------------------

proof fn no_ids()
    ensures
        Seq::<i128>::empty().to_multiset() =~= Multiset::<i128>::empty(),
{
    Seq::<i128>::empty().to_multiset_ensures();
}

proof fn sum_of_ids(a: Seq<i128>, b: Seq<i128>)
    ensures
        (a + b).to_multiset() =~= a.to_multiset().add(b.to_multiset()),
{
    vstd::seq_lib::lemma_multiset_commutative(a, b);
}

proof fn live_ids_of_sum(a: Seq<Block>, b: Seq<Block>, superseded: Set<FileCell>)
    ensures
        live_ids(a + b, superseded) =~= live_ids(a, superseded).add(live_ids(b, superseded)),
    decreases b.len(),
{
    if b.len() == 0 {
        assert(a + b =~= a);
    } else {
        live_ids_of_sum(a, b.drop_last(), superseded);
        assert((a + b).drop_last() =~= a + b.drop_last());
    }
}

proof fn reading_one_more_block(blocks: Seq<Block>, files: Seq<u128>, cell: u32)
    requires
        blocks.len() > 0,
        files.no_duplicates(),
    ensures
        read_ids(blocks, files, cell).to_multiset() =~= if blocks.last().cell == cell && files.contains(
            blocks.last().file,
        ) {
            read_ids(blocks.drop_last(), files, cell).to_multiset().add(blocks.last().ids.to_multiset())
        } else {
            read_ids(blocks.drop_last(), files, cell).to_multiset()
        },
    decreases files.len(),
{
    let less = blocks.drop_last();
    if files.len() > 0 {
        let init = files.drop_last();
        let f = files.last();
        assert(init.no_duplicates());
        reading_one_more_block(blocks, init, cell);
        sum_of_ids(read_ids(blocks, init, cell), ids_in_file(blocks, f, cell));
        sum_of_ids(read_ids(less, init, cell), ids_in_file(less, f, cell));
        sum_of_ids(ids_in_file(less, f, cell), blocks.last().ids);
        assert(files =~= init.push(f));
        assert(files.contains(blocks.last().file) <==> init.contains(blocks.last().file)
            || blocks.last().file == f) by {
            if files.contains(blocks.last().file) {
                let k = choose|k: int| 0 <= k < files.len() && files[k] == blocks.last().file;
                if k < init.len() {
                    assert(init[k] == blocks.last().file);
                }
            }
            if init.contains(blocks.last().file) {
                let k = choose|k: int| 0 <= k < init.len() && init[k] == blocks.last().file;
                assert(files[k] == blocks.last().file);
            }
            assert(files[files.len() - 1] == f);
        }
        if init.contains(f) {
            let k = choose|k: int| 0 <= k < init.len() && init[k] == f;
            assert(files[k] == files[files.len() - 1]);
        }
    } else {
        no_ids();
    }
}

/// Superseding a cell where its rows were read takes exactly those rows away.
proof fn superseding_takes_what_was_read(
    blocks: Seq<Block>,
    files: Seq<u128>,
    cell: u32,
    before: Set<FileCell>,
    after: Set<FileCell>,
)
    requires
        files.no_duplicates(),
        forall|f: u128| #[trigger] files.contains(f) ==> !before.contains((f, cell)),
        forall|p: FileCell| #[trigger]
            after.contains(p) <==> before.contains(p) || (p.1 == cell && files.contains(p.0)),
    ensures
        live_ids(blocks, before) =~= live_ids(blocks, after).add(
            read_ids(blocks, files, cell).to_multiset(),
        ),
    decreases blocks.len(),
{
    if blocks.len() == 0 {
        nothing_to_read(blocks, files, cell);
        no_ids();
    } else {
        superseding_takes_what_was_read(blocks.drop_last(), files, cell, before, after);
        reading_one_more_block(blocks, files, cell);
        let b = blocks.last();
        assert(after.contains((b.file, b.cell)) <==> before.contains((b.file, b.cell)) || (b.cell == cell
            && files.contains(b.file)));
    }
}

proof fn nothing_to_read(blocks: Seq<Block>, files: Seq<u128>, cell: u32)
    requires
        blocks.len() == 0,
    ensures
        read_ids(blocks, files, cell) =~= Seq::<i128>::empty(),
    decreases files.len(),
{
    if files.len() > 0 {
        nothing_to_read(blocks, files.drop_last(), cell);
    }
}

/// The rows of the first `n` children together.
spec fn all_child_ids(rows: Seq<i128>, assign: Seq<u32>, n_children: int, n: int) -> Multiset<i128>
    decreases n,
{
    if n <= 0 {
        Multiset::empty()
    } else {
        all_child_ids(rows, assign, n_children, n - 1).add(
            child_row_ids(rows, assign, n_children, n - 1).to_multiset(),
        )
    }
}

proof fn one_more_id(rows: Seq<i128>, assign: Seq<u32>, n_children: int, n: int)
    requires
        0 < assign.len() <= rows.len(),
        assign.len() <= usize::MAX,
        n_children > 0,
        0 <= n <= n_children,
    ensures
        all_child_ids(rows, assign, n_children, n) =~= if child_of(assign.last(), n_children) < n {
            all_child_ids(rows, assign.drop_last(), n_children, n).insert(rows[assign.len() - 1])
        } else {
            all_child_ids(rows, assign.drop_last(), n_children, n)
        },
    decreases n,
{
    broadcast use vstd::multiset::group_multiset_axioms;

    if n > 0 {
        one_more_id(rows, assign, n_children, n - 1);
        let less = child_row_ids(rows, assign.drop_last(), n_children, n - 1);
        let all = child_row_ids(rows, assign, n_children, n - 1);
        less.to_multiset_ensures();
        if child_of(assign.last(), n_children) == n - 1 {
            assert(all =~= less.push(rows[assign.len() - 1]));
        } else {
            assert(all =~= less);
        }
    }
}

proof fn children_share_the_rows(rows: Seq<i128>, assign: Seq<u32>, n_children: int)
    requires
        assign.len() <= rows.len(),
        assign.len() <= usize::MAX,
        n_children > 0,
    ensures
        all_child_ids(rows, assign, n_children, n_children) =~= rows.take(
            assign.len() as int,
        ).to_multiset(),
    decreases assign.len(),
{
    broadcast use vstd::multiset::group_multiset_axioms;

    if assign.len() == 0 {
        no_rows_no_ids(rows, assign, n_children, n_children);
        assert(rows.take(0) =~= Seq::<i128>::empty());
        no_ids();
    } else {
        let init = assign.drop_last();
        children_share_the_rows(rows, init, n_children);
        one_more_id(rows, assign, n_children, n_children);
        let less = rows.take(init.len() as int);
        less.to_multiset_ensures();
        assert(rows.take(assign.len() as int) =~= less.push(rows[assign.len() - 1]));
    }
}

proof fn no_rows_no_ids(rows: Seq<i128>, assign: Seq<u32>, n_children: int, n: int)
    requires
        assign.len() == 0,
    ensures
        all_child_ids(rows, assign, n_children, n) =~= Multiset::<i128>::empty(),
    decreases n,
{
    if n > 0 {
        no_rows_no_ids(rows, assign, n_children, n - 1);
        assert(child_row_ids(rows, assign, n_children, n - 1) =~= Seq::<i128>::empty());
        no_ids();
    }
}

proof fn child_blocks_are_live(
    family: CellFamily,
    rows: Seq<i128>,
    assign: Seq<u32>,
    file_of: spec_fn(u32) -> u128,
    superseded: Set<FileCell>,
    n: int,
)
    requires
        0 <= n <= family.children.len(),
        forall|c: u32| !superseded.contains((#[trigger] file_of(c), c)),
    ensures
        live_ids(child_blocks(family, rows, assign, file_of, n), superseded) =~= all_child_ids(
            rows,
            assign,
            family.children.len() as int,
            n,
        ),
    decreases n,
{
    if n > 0 {
        child_blocks_are_live(family, rows, assign, file_of, superseded, n - 1);
        let all = child_blocks(family, rows, assign, file_of, n);
        let id = family.children@[n - 1].0;
        assert(all.drop_last() =~= child_blocks(family, rows, assign, file_of, n - 1));
        assert(!superseded.contains((file_of(id), id)));
    }
}

/// The rows that the splits read, together.
spec fn all_read(blocks: Seq<Block>, families: Seq<CellFamily>) -> Multiset<i128>
    decreases families.len(),
{
    if families.len() == 0 {
        Multiset::empty()
    } else {
        let family = families.last();
        all_read(blocks, families.drop_last()).add(
            read_ids(blocks, family.parent_ids@, family.cell).to_multiset(),
        )
    }
}

proof fn added_blocks_hold_what_was_read(
    blocks: Seq<Block>,
    before: Set<FileCell>,
    after: Set<FileCell>,
    families: Seq<CellFamily>,
    assigns: Seq<Seq<u32>>,
    file_of: spec_fn(u32) -> u128,
)
    requires
        assigns.len() == families.len(),
        forall|i: int|
            0 <= i < families.len() ==> splits_what_it_read(
                #[trigger] families[i],
                assigns[i],
                blocks,
                before,
            ),
        forall|c: u32| !after.contains((#[trigger] file_of(c), c)),
    ensures
        live_ids(added_blocks(blocks, families, assigns, file_of), after) =~= all_read(blocks, families),
    decreases families.len(),
{
    if families.len() > 0 {
        let init = families.drop_last();
        let sides = assigns.drop_last();
        let family = families.last();
        let rows = read_ids(blocks, family.parent_ids@, family.cell);
        assert forall|i: int| 0 <= i < init.len() implies splits_what_it_read(
            #[trigger] init[i],
            sides[i],
            blocks,
            before,
        ) by {
            assert(init[i] == families[i] && sides[i] == assigns[i]);
        }
        added_blocks_hold_what_was_read(blocks, before, after, init, sides, file_of);
        assert(splits_what_it_read(
            families[families.len() - 1],
            assigns[families.len() - 1],
            blocks,
            before,
        ));
        let own = child_blocks(family, rows, assigns.last(), file_of, family.children.len() as int);
        child_blocks_are_live(
            family,
            rows,
            assigns.last(),
            file_of,
            after,
            family.children.len() as int,
        );
        children_share_the_rows(rows, assigns.last(), family.children.len() as int);
        assert(rows.take(assigns.last().len() as int) =~= rows);
        live_ids_of_sum(added_blocks(blocks, init, sides, file_of), own, after);
    }
}

proof fn superseded_rows_were_read(
    blocks: Seq<Block>,
    before: Set<FileCell>,
    families: Seq<CellFamily>,
    assigns: Seq<Seq<u32>>,
)
    requires
        assigns.len() == families.len(),
        forall|i: int|
            0 <= i < families.len() ==> splits_what_it_read(
                #[trigger] families[i],
                assigns[i],
                blocks,
                before,
            ),
        forall|i: int, j: int|
            0 <= i < j < families.len() ==> (#[trigger] families[i]).cell != (
            #[trigger] families[j]).cell,
    ensures
        live_ids(blocks, before) =~= live_ids(blocks, before.union(superseded_by(families))).add(
            all_read(blocks, families),
        ),
    decreases families.len(),
{
    let after = before.union(superseded_by(families));
    if families.len() == 0 {
        assert(after =~= before);
    } else {
        let init = families.drop_last();
        let sides = assigns.drop_last();
        let n = families.len() - 1;
        let family = families.last();
        let mid = before.union(superseded_by(init));
        assert forall|i: int| 0 <= i < init.len() implies splits_what_it_read(
            #[trigger] init[i],
            sides[i],
            blocks,
            before,
        ) by {
            assert(init[i] == families[i] && sides[i] == assigns[i]);
        }
        assert forall|i: int, j: int| 0 <= i < j < init.len() implies (#[trigger] init[i]).cell != (
        #[trigger] init[j]).cell by {
            assert(init[i] == families[i] && init[j] == families[j]);
        }
        superseded_rows_were_read(blocks, before, init, sides);
        assert(splits_what_it_read(families[n], assigns[n], blocks, before));
        assert forall|f: u128| #[trigger] family.parent_ids@.contains(f) implies !mid.contains(
            (f, family.cell),
        ) by {
            if superseded_by(init).contains((f, family.cell)) {
                let i = choose|i: int|
                    0 <= i < init.len() && (#[trigger] init[i]).cell == family.cell
                        && init[i].parent_ids@.contains(f);
                assert(families[i].cell != families[n].cell);
            }
        }
        assert forall|p: FileCell| #[trigger]
            after.contains(p) <==> mid.contains(p) || (p.1 == family.cell && family.parent_ids@.contains(
                p.0,
            )) by {
            if superseded_by(families).contains(p) {
                let i = choose|i: int|
                    0 <= i < families.len() && (#[trigger] families[i]).cell == p.1
                        && families[i].parent_ids@.contains(p.0);
                if i < n {
                    assert(init[i] == families[i]);
                }
            }
            if superseded_by(init).contains(p) {
                let i = choose|i: int|
                    0 <= i < init.len() && (#[trigger] init[i]).cell == p.1
                        && init[i].parent_ids@.contains(p.0);
                assert(families[i] == init[i]);
            }
            assert(families[n] == family);
        }
        superseding_takes_what_was_read(blocks, family.parent_ids@, family.cell, mid, after);
    }
}

// ---------------------------------------------------------------------------
// Laws
// ---------------------------------------------------------------------------

/// A commit of splits loses no live row and repeats none: the rows that can be
/// reached afterwards, through the new superfiles and past what is superseded,
/// are those that could be reached before.
pub proof fn split_commit_keeps_live_rows(
    blocks: Seq<Block>,
    superseded: Set<FileCell>,
    families: Seq<CellFamily>,
    assigns: Seq<Seq<u32>>,
    file_of: spec_fn(u32) -> u128,
)
    requires
        is_split_commit(blocks, superseded, families, assigns, file_of),
    ensures
        live_ids(
            blocks + added_blocks(blocks, families, assigns, file_of),
            superseded.union(superseded_by(families)),
        ) =~= live_ids(blocks, superseded),
{
    let after = superseded.union(superseded_by(families));
    let added = added_blocks(blocks, families, assigns, file_of);
    assert forall|c: u32| !after.contains((#[trigger] file_of(c), c)) by {}
    superseded_rows_were_read(blocks, superseded, families, assigns);
    added_blocks_hold_what_was_read(blocks, superseded, after, families, assigns, file_of);
    live_ids_of_sum(blocks, added, after);
}

/// What a batch or a bulk pass marks as superseded is what its families name.
pub proof fn a_run_supersedes_its_families<F>(built: Seq<BuiltCellSplit<F>>)
    ensures
        split_cells(built) =~= superseded_by(families_of(built)),
{
    let families = families_of(built);
    assert forall|p: FileCell| split_cells(built).contains(p) <==> superseded_by(families).contains(p) by {
        if split_cells(built).contains(p) {
            let i = choose|i: int|
                0 <= i < built.len() && (#[trigger] built[i]).family.cell == p.1
                    && built[i].family.parent_ids@.contains(p.0);
            assert(families[i] == built[i].family);
        }
        if superseded_by(families).contains(p) {
            let i = choose|i: int|
                0 <= i < families.len() && (#[trigger] families[i]).cell == p.1
                    && families[i].parent_ids@.contains(p.0);
            assert(built[i].family == families[i]);
        }
    }
}

proof fn live_holders_are_holders(all: Seq<u128>, cell: u32, superseded: Set<FileCell>)
    requires
        all.no_duplicates(),
    ensures
        live_holders(all, cell, superseded).no_duplicates(),
        forall|f: u128| #[trigger]
            live_holders(all, cell, superseded).contains(f) ==> all.contains(f) && !superseded.contains(
                (f, cell),
            ),
    decreases all.len(),
{
    if all.len() > 0 {
        let init = all.drop_last();
        let f = all.last();
        let less = live_holders(init, cell, superseded);
        let live = live_holders(all, cell, superseded);
        live_holders_are_holders(init, cell, superseded);
        if less.contains(f) {
            let k = choose|k: int| 0 <= k < init.len() && init[k] == f;
            assert(init.contains(f));
            assert(all[k] == all[all.len() - 1]);
        }
        assert forall|i: int, j: int| 0 <= i < live.len() && 0 <= j < live.len() && i != j implies live[i]
            != live[j] by {
            if i < less.len() {
                assert(less.contains(less[i]));
            }
            if j < less.len() {
                assert(less.contains(less[j]));
            }
        }
        assert forall|g: u128| #[trigger] live.contains(g) implies all.contains(g) && !superseded.contains(
            (g, cell),
        ) by {
            let k = choose|k: int| 0 <= k < live.len() && live[k] == g;
            if k < less.len() {
                assert(less.contains(g));
                let q = choose|q: int| 0 <= q < init.len() && init[q] == g;
                assert(all[q] == g);
            } else {
                assert(all[all.len() - 1] == g);
            }
        }
    }
}

/// Splits of cells whose rows were read where the index says that they are live
/// make a commit that keeps every live row.
pub proof fn splits_of_live_jobs_keep_live_rows(
    blocks: Seq<Block>,
    superseded: Set<FileCell>,
    parents: Map<u32, Vec<u128>>,
    jobs: Seq<ExtractionJob>,
    child_ids: Seq<Seq<u32>>,
    assigns: Seq<Seq<u32>>,
    families: Seq<CellFamily>,
    file_of: spec_fn(u32) -> u128,
)
    requires
        jobs.len() == families.len(),
        child_ids.len() == families.len(),
        assigns.len() == families.len(),
        forall|i: int|
            0 <= i < families.len() ==> {
                let cell = jobs[i].cell;
                &&& (#[trigger] families[i]).is_routed(jobs[i], child_ids[i], assigns[i])
                &&& child_ids[i].len() > 0
                &&& jobs[i].parents@ == live_holders(holders(parents, cell), cell, superseded)
                &&& holders(parents, cell).no_duplicates()
                &&& assigns[i].len() == read_ids(blocks, jobs[i].parents@, cell).len()
            },
        forall|i: int, j: int|
            0 <= i < j < families.len() ==> (#[trigger] families[i]).cell != (#[trigger] families[j]).cell,
        forall|c: u32|
            !superseded.contains((#[trigger] file_of(c), c)) && !superseded_by(families).contains(
                (file_of(c), c),
            ),
    ensures
        is_split_commit(blocks, superseded, families, assigns, file_of),
        live_ids(
            blocks + added_blocks(blocks, families, assigns, file_of),
            superseded.union(superseded_by(families)),
        ) =~= live_ids(blocks, superseded),
{
    assert forall|i: int| 0 <= i < families.len() implies splits_what_it_read(
        #[trigger] families[i],
        assigns[i],
        blocks,
        superseded,
    ) by {
        let cell = jobs[i].cell;
        assert(families[i].is_routed(jobs[i], child_ids[i], assigns[i]));
        live_holders_are_holders(holders(parents, cell), cell, superseded);
        assert(assigns[i].len() == families[i].n_rows);
    }
    split_commit_keeps_live_rows(blocks, superseded, families, assigns, file_of);
}

/// No superfile is listed twice.
pub open spec fn entries_distinct(entries: Seq<ScannedEntry>) -> bool {
    &&& forall|i: int, j: int|
        0 <= i < j < entries.len() ==> (#[trigger] entries[i]).superfile_id != (
        #[trigger] entries[j]).superfile_id
    &&& forall|e: int, i: int, j: int|
        0 <= e < entries.len() && 0 <= i < j < entries[e].counts.len() ==> (
        #[trigger] entries[e].counts@[i]).0 != (#[trigger] entries[e].counts@[j]).0
}

proof fn named_at_most_once(counts: Seq<(u32, u32)>, cell: u32, id: u128)
    requires
        forall|i: int, j: int| 0 <= i < j < counts.len() ==> (#[trigger] counts[i]).0 != (#[trigger] counts[j]).0,
    ensures
        named_in_counts(counts, cell, id).len() <= 1,
        forall|k: int|
            0 <= k < named_in_counts(counts, cell, id).len() ==> #[trigger] named_in_counts(counts, cell, id)[k]
                == id,
        named_in_counts(counts, cell, id).len() > 0 ==> exists|k: int|
            0 <= k < counts.len() && (#[trigger] counts[k]).0 == cell,
    decreases counts.len(),
{
    if counts.len() > 0 {
        let init = counts.drop_last();
        assert forall|i: int, j: int| 0 <= i < j < init.len() implies (#[trigger] init[i]).0 != (
        #[trigger] init[j]).0 by {
            assert(init[i] == counts[i] && init[j] == counts[j]);
        }
        named_at_most_once(init, cell, id);
        let less = named_in_counts(init, cell, id);
        if less.len() > 0 {
            let k = choose|k: int| 0 <= k < init.len() && (#[trigger] init[k]).0 == cell;
            assert(counts[k].0 == cell);
            assert(counts[k].0 != counts[counts.len() - 1].0);
        }
        if counts.last().0 == cell {
            assert(counts[counts.len() - 1].0 == cell);
        }
    }
}

/// A scan lists each superfile that holds a cell once.
pub proof fn scanned_holders_are_distinct(entries: Seq<ScannedEntry>, cell: u32)
    requires
        entries_distinct(entries),
    ensures
        holders_of_cell(entries, cell).no_duplicates(),
        forall|f: u128| #[trigger]
            holders_of_cell(entries, cell).contains(f) ==> exists|e: int|
                0 <= e < entries.len() && (#[trigger] entries[e]).superfile_id == f,
    decreases entries.len(),
{
    if entries.len() > 0 {
        let init = entries.drop_last();
        let n = entries.len() - 1;
        let last = entries.last();
        assert forall|i: int, j: int| 0 <= i < j < init.len() implies (#[trigger] init[i]).superfile_id != (
        #[trigger] init[j]).superfile_id by {
            assert(init[i] == entries[i] && init[j] == entries[j]);
        }
        assert forall|e: int, i: int, j: int|
            0 <= e < init.len() && 0 <= i < j < init[e].counts.len() implies (
        #[trigger] init[e].counts@[i]).0 != (#[trigger] init[e].counts@[j]).0 by {
            assert(init[e] == entries[e]);
            assert(entries[e].counts@[i].0 != entries[e].counts@[j].0);
        }
        scanned_holders_are_distinct(init, cell);
        let less = holders_of_cell(init, cell);
        let more = named_in_counts(last.counts@, cell, last.superfile_id);
        let all = holders_of_cell(entries, cell);
        assert forall|i: int, j: int| 0 <= i < j < last.counts.len() implies (#[trigger] last.counts@[i]).0
            != (#[trigger] last.counts@[j]).0 by {
            assert(entries[n].counts@[i].0 != entries[n].counts@[j].0);
        }
        named_at_most_once(last.counts@, cell, last.superfile_id);
        if less.contains(last.superfile_id) {
            let e = choose|e: int| 0 <= e < init.len() && (#[trigger] init[e]).superfile_id
                == last.superfile_id;
            assert(entries[e].superfile_id != entries[n].superfile_id);
        }
        assert forall|i: int, j: int| 0 <= i < all.len() && 0 <= j < all.len() && i != j implies all[i]
            != all[j] by {
            if i < less.len() {
                assert(less.contains(less[i]));
            }
            if j < less.len() {
                assert(less.contains(less[j]));
            }
        }
        assert forall|f: u128| #[trigger] all.contains(f) implies exists|e: int|
            0 <= e < entries.len() && (#[trigger] entries[e]).superfile_id == f by {
            let k = choose|k: int| 0 <= k < all.len() && all[k] == f;
            if k < less.len() {
                assert(less.contains(f));
                let e = choose|e: int| 0 <= e < init.len() && (#[trigger] init[e]).superfile_id == f;
                assert(entries[e].superfile_id == f);
            } else {
                assert(more[k - less.len()] == f);
                assert(entries[n].superfile_id == f);
            }
        }
    }
}

/// The index goes on listing each superfile once when the new superfiles of a
/// commit are added, each new to the cell and named once.
pub proof fn index_stays_distinct(
    before: Map<u32, Vec<u128>>,
    after: Map<u32, Vec<u128>>,
    entries: Seq<(u32, u128)>,
    cell: u32,
)
    requires
        holders(before, cell).no_duplicates(),
        entries_of_cell(entries, cell).no_duplicates(),
        forall|f: u128| #[trigger]
            entries_of_cell(entries, cell).contains(f) ==> !holders(before, cell).contains(f),
        holders(after, cell) == holders(before, cell) + entries_of_cell(entries, cell),
    ensures
        holders(after, cell).no_duplicates(),
{
    let old_ones = holders(before, cell);
    let new_ones = entries_of_cell(entries, cell);
    let all = holders(after, cell);
    assert forall|i: int, j: int| 0 <= i < all.len() && 0 <= j < all.len() && i != j implies all[i] != all[j] by {
        if i < old_ones.len() {
            assert(old_ones.contains(old_ones[i]));
        } else {
            assert(new_ones.contains(new_ones[i - old_ones.len()]));
        }
        if j < old_ones.len() {
            assert(old_ones.contains(old_ones[j]));
        } else {
            assert(new_ones.contains(new_ones[j - old_ones.len()]));
        }
    }
}

/// The hidden table between two commits.
pub struct TableState {
    pub blocks: Seq<Block>,
    pub superseded: Set<FileCell>,
}

impl TableState {
    /// The rows that can be reached.
    pub open spec fn rows(self) -> Multiset<i128> {
        live_ids(self.blocks, self.superseded)
    }
}

/// The table before and after a batch: the same when nothing was split or the
/// batch failed, else as the splits of one commit leave it.
pub open spec fn is_batch(before: TableState, after: TableState) -> bool {
    ||| after == before
    ||| exists|families: Seq<CellFamily>, assigns: Seq<Seq<u32>>, file_of: spec_fn(u32) -> u128|
        {
            &&& #[trigger] is_split_commit(before.blocks, before.superseded, families, assigns, file_of)
            &&& after.blocks == before.blocks + added_blocks(before.blocks, families, assigns, file_of)
            &&& after.superseded == before.superseded.union(superseded_by(families))
        }
}

/// A pass over the cells, however many batches it commits and wherever it stops,
/// leaves the rows that can be reached as they were.
pub proof fn pass_keeps_live_rows(states: Seq<TableState>)
    requires
        states.len() > 0,
        forall|i: int, j: int|
            0 <= i < states.len() && j == i + 1 && j < states.len() ==> is_batch(
                #[trigger] states[i],
                #[trigger] states[j],
            ),
    ensures
        states.last().rows() =~= states.first().rows(),
    decreases states.len(),
{
    if states.len() > 1 {
        let init = states.drop_last();
        let a = states[states.len() - 2];
        let b = states.last();
        assert forall|i: int, j: int| 0 <= i < init.len() && j == i + 1 && j < init.len() implies is_batch(
            #[trigger] init[i],
            #[trigger] init[j],
        ) by {
            assert(is_batch(states[i], states[j]));
        }
        pass_keeps_live_rows(init);
        assert(is_batch(states[states.len() - 2], states[states.len() - 1]));
        if b != a {
            let (families, assigns, file_of) = choose|
                families: Seq<CellFamily>,
                assigns: Seq<Seq<u32>>,
                file_of: spec_fn(u32) -> u128,
            |
                {
                    &&& #[trigger] is_split_commit(a.blocks, a.superseded, families, assigns, file_of)
                    &&& b.blocks == a.blocks + added_blocks(a.blocks, families, assigns, file_of)
                    &&& b.superseded == a.superseded.union(superseded_by(families))
                };
            split_commit_keeps_live_rows(a.blocks, a.superseded, families, assigns, file_of);
        }
    }
}

} // verus!
