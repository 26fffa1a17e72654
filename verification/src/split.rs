//! Splitting cells that have grown too large: which cells a pass takes, in
//! which batches, and what a finished batch changes.
use vstd::prelude::*;

use crate::arith::{capped, saturating_mul_u64};
use crate::cell_map::{lists, CellMap};
use crate::order::{sorted_by, stable_order, SortKey};
use crate::superseded::{FileCell, SupersededCells};

verus! {

/// A split needs a row on each side.
pub const MIN_ROWS_TO_SPLIT_CELL: usize = 2;

/// Estimated bytes that splitting holds for each row and dimension.
pub const SPLIT_RESIDENT_BYTES_PER_ROW_DIM: u64 = 7;

/// The window of a batch when none is configured, in MiB.
pub const SPLIT_BATCH_FALLBACK_BUDGET_MIB: u64 = 4096;

/// The splits that one pass commits in batches.
pub const MAX_SPLITS_PER_OPTIMIZE: usize = 4096;

const MIB: u64 = 1048576;

// ---------------------------------------------------------------------------
// Sizes
// ---------------------------------------------------------------------------

/// The bytes that one batch may hold. No configured ceiling means the default
/// one, not a window of nothing.
pub fn split_batch_window_bytes(configured_mib: u64) -> (bytes: u64)
    ensures
        bytes == capped(
            1048576 * if configured_mib == 0 {
                4096
            } else {
                configured_mib as int
            },
            u64::MAX as int,
        ),
{
    let budget_mib: u64 = if configured_mib == 0 {
        SPLIT_BATCH_FALLBACK_BUDGET_MIB
    } else {
        configured_mib
    };
    saturating_mul_u64(budget_mib, MIB)
}

/// The bytes that splitting a cell holds, as far as they can be counted.
pub open spec fn resident_bytes(rows: int, dim: int) -> int {
    capped(7 * capped(rows * dim, u64::MAX as int), u64::MAX as int)
}

/// Estimates the bytes that splitting a cell holds.
pub fn estimate_split_resident_bytes(physical_rows: u64, dim: u32) -> (bytes: u64)
    ensures
        bytes == resident_bytes(physical_rows as int, dim as int),
{
    saturating_mul_u64(saturating_mul_u64(physical_rows, dim as u64), SPLIT_RESIDENT_BYTES_PER_ROW_DIM)
}

// ---------------------------------------------------------------------------
// Candidates
// ---------------------------------------------------------------------------

/// When a cell is looked at, and when it must be split.
#[derive(Clone, Copy, PartialEq, Eq, Structural, Debug)]
pub struct SplitRules {
    /// Cells from this many rows on are looked at.
    pub candidate_floor: u64,
    /// A cell with more rows than this is split.
    pub doc_cap: u64,
}

impl SplitRules {
    pub open spec fn is_candidate(self, rows: u64) -> bool {
        rows >= self.candidate_floor && rows >= 2
    }

    pub open spec fn is_over(self, rows: u64) -> bool {
        rows > self.doc_cap
    }

    fn looks_at(&self, rows: u64) -> (r: bool)
        ensures
            r == self.is_candidate(rows),
    {
        rows >= self.candidate_floor && rows >= MIN_ROWS_TO_SPLIT_CELL as u64
    }

    /// The cell must be split.
    pub fn split_overflow_needed(&self, rows: u64) -> (r: bool)
        ensures
            r == self.is_over(rows),
    {
        rows > self.doc_cap
    }
}

/// The cells of the list that could be split.
pub open spec fn eligible(
    s: Seq<(u32, u64)>,
    unsplittable: Set<u32>,
    rules: SplitRules,
) -> Seq<(u32, u64)>
    decreases s.len(),
{
    if s.len() == 0 {
        Seq::empty()
    } else if rules.is_candidate(s.last().1) && !unsplittable.contains(s.last().0) {
        eligible(s.drop_last(), unsplittable, rules).push(s.last())
    } else {
        eligible(s.drop_last(), unsplittable, rules)
    }
}

/// Larger cells first, then smaller ids.
pub open spec fn size_keys(s: Seq<(u32, u64)>) -> Seq<SortKey> {
    Seq::new(s.len(), |i: int| ((0 - s[i].1) as i128, s[i].0 as u128))
}

/// The cells of the counts that could be split, largest first.
pub open spec fn are_candidates(
    out: Seq<(u32, u64)>,
    counts: Map<u32, u64>,
    unsplittable: Set<u32>,
    rules: SplitRules,
) -> bool {
    exists|s: Seq<(u32, u64)>| #[trigger]
        lists(s, counts) && out == sorted_by(
            eligible(s, unsplittable, rules),
            size_keys(eligible(s, unsplittable, rules)),
        )
}

/// The cells that could be split, largest first and equal ones by id.
pub fn split_candidates(
    cell_counts: &CellMap<u64>,
    unsplittable: &CellMap<()>,
    rules: &SplitRules,
) -> (candidates: Vec<(u32, u64)>)
    ensures
        are_candidates(candidates@, cell_counts@, unsplittable@.dom(), *rules),
{
    let s = cell_counts.pairs();
    let mut found: Vec<(u32, u64)> = Vec::new();
    let mut keys: Vec<SortKey> = Vec::new();
    let mut i: usize = 0;
    assert(s@.take(0) =~= Seq::<(u32, u64)>::empty());
    while i < s.len()
        invariant
            i <= s.len(),
            found@ == eligible(s@.take(i as int), unsplittable@.dom(), *rules),
            keys@ == size_keys(found@),
        decreases s.len() - i,
    {
        proof {
            assert(s@.take(i + 1).drop_last() =~= s@.take(i as int));
        }
        let cell: u32 = s[i].0;
        let rows: u64 = s[i].1;
        if rules.looks_at(rows) && unsplittable.get(cell).is_none() {
            found.push((cell, rows));
            keys.push((0i128 - rows as i128, cell as u128));
            assert(keys@ =~= size_keys(found@));
        }
        i = i + 1;
    }
    assert(s@.take(i as int) =~= s@);
    let order = stable_order(&keys);
    let ghost wanted = sorted_by(found@, size_keys(found@));
    let mut out: Vec<(u32, u64)> = Vec::new();
    let mut k: usize = 0;
    while k < order.len()
        invariant
            k <= order.len(),
            keys@ == size_keys(found@),
            wanted == sorted_by(found@, size_keys(found@)),
            crate::order::is_stable_order(keys@, order@),
            order@ == crate::order::the_order(keys@),
            out@ == wanted.take(k as int),
        decreases order.len() - k,
    {
        out.push(found[order[k]]);
        k = k + 1;
        assert(out@ =~= wanted.take(k as int));
    }
    assert(out@ =~= wanted);
    out
}

/// A pass rewrites the table in one go when a quarter of the grid or more could
/// be split.
pub fn takes_bulk_path(n_candidates: usize, n_cent: u32) -> (bulk: bool)
    ensures
        bulk == (n_candidates > 0 && 4 * n_candidates >= n_cent),
{
    n_candidates > 0 && (n_candidates >= 0x4000_0000 || 4 * (n_candidates as u64) >= n_cent as u64)
}

// ---------------------------------------------------------------------------
// Batches
// ---------------------------------------------------------------------------

/// The cells of a batch and the bytes that they hold.
pub struct BatchView {
    pub cells: Seq<u32>,
    pub bytes: int,
}

/// Goes through the candidates in order: the first is always taken, a later one
/// while it fits and the allowance lasts.
pub open spec fn take_in(s: Seq<(u32, u64)>, dim: int, budget: int, max_cells: int) -> BatchView
    decreases s.len(),
{
    if s.len() == 0 {
        BatchView { cells: Seq::empty(), bytes: 0 }
    } else {
        let before = take_in(s.drop_last(), dim, budget, max_cells);
        let cost = resident_bytes(s.last().1 as int, dim);
        let total = capped(before.bytes + cost, u64::MAX as int);
        if before.cells.len() >= max_cells || (before.cells.len() > 0 && total > budget) {
            before
        } else {
            BatchView { cells: before.cells.push(s.last().0), bytes: total }
        }
    }
}

proof fn take_in_bounds(s: Seq<(u32, u64)>, dim: int, budget: int, max_cells: int)
    ensures
        take_in(s, dim, budget, max_cells).cells.len() <= s.len(),
        max_cells >= 0 ==> take_in(s, dim, budget, max_cells).cells.len() <= max_cells,
        dim >= 0 ==> take_in(s, dim, budget, max_cells).bytes >= 0,
        take_in(s, dim, budget, max_cells).bytes <= u64::MAX,
    decreases s.len(),
{
    if s.len() > 0 {
        take_in_bounds(s.drop_last(), dim, budget, max_cells);
        let rows = s.last().1 as int;
        if dim >= 0 {
            assert(rows * dim >= 0) by (nonlinear_arith)
                requires
                    rows >= 0,
                    dim >= 0,
            ;
        }
    }
}

/// A batch is within the allowance, and its bytes are within the window unless
/// it is a single cell.
pub proof fn batch_fits(s: Seq<(u32, u64)>, dim: int, budget: int, max_cells: int)
    ensures
        ({
            let batch = take_in(s, dim, budget, max_cells);
            &&& batch.cells.len() <= s.len()
            &&& max_cells >= 0 ==> batch.cells.len() <= max_cells
            &&& batch.cells.len() > 1 ==> batch.bytes <= budget
            &&& s.len() > 0 && max_cells > 0 ==> batch.cells.len() > 0 && batch.cells[0] == s[0].0
        }),
    decreases s.len(),
{
    take_in_bounds(s, dim, budget, max_cells);
    if s.len() > 0 {
        batch_fits(s.drop_last(), dim, budget, max_cells);
    }
}

/// Picks the next batch: largest cells first, smaller ones into what is left of
/// the window.
pub fn select_split_batch(
    cell_counts: &CellMap<u64>,
    unsplittable: &CellMap<()>,
    rules: &SplitRules,
    dim: u32,
    budget_bytes: u64,
    max_cells: usize,
) -> (batch: Vec<u32>)
    ensures
        exists|c: Seq<(u32, u64)>| #[trigger]
            are_candidates(c, cell_counts@, unsplittable@.dom(), *rules) && batch@ == take_in(
                c,
                dim as int,
                budget_bytes as int,
                max_cells as int,
            ).cells,
{
    let candidates = split_candidates(cell_counts, unsplittable, rules);
    let mut batch: Vec<u32> = Vec::new();
    let mut bytes: u64 = 0;
    let mut i: usize = 0;
    assert(candidates@.take(0) =~= Seq::<(u32, u64)>::empty());
    while i < candidates.len()
        invariant
            i <= candidates.len(),
            batch@ == take_in(
                candidates@.take(i as int),
                dim as int,
                budget_bytes as int,
                max_cells as int,
            ).cells,
            bytes == take_in(
                candidates@.take(i as int),
                dim as int,
                budget_bytes as int,
                max_cells as int,
            ).bytes,
        decreases candidates.len() - i,
    {
        proof {
            assert(candidates@.take(i + 1).drop_last() =~= candidates@.take(i as int));
        }
        let cost: u64 = estimate_split_resident_bytes(candidates[i].1, dim);
        let total: u64 = bytes.saturating_add(cost);
        if !(batch.len() >= max_cells || (batch.len() > 0 && total > budget_bytes)) {
            batch.push(candidates[i].0);
            bytes = total;
        }
        i = i + 1;
    }
    assert(candidates@.take(i as int) =~= candidates@);
    batch
}

// ---------------------------------------------------------------------------
// Waves of a bulk pass
// ---------------------------------------------------------------------------

/// One wave of a bulk pass.
#[derive(Debug)]
pub struct SplitWave {
    pub cells: Vec<(u32, u64)>,
    pub bytes: u64,
    /// What waits for a later wave, in order.
    pub deferred: Vec<(u32, u64)>,
    /// Cells that are not in the grid.
    pub outside: Vec<u32>,
}

/// A wave as a value.
pub struct WaveView {
    pub cells: Seq<(u32, u64)>,
    pub bytes: int,
    pub deferred: Seq<(u32, u64)>,
    pub outside: Seq<u32>,
}

/// Goes through the queue in order: a cell outside the grid is set aside, the
/// first other one is taken, a later one while it fits, and what does not fit
/// waits.
pub open spec fn wave_of(queue: Seq<(u32, u64)>, n_cent: int, dim: int, budget: int) -> WaveView
    decreases queue.len(),
{
    if queue.len() == 0 {
        WaveView { cells: Seq::empty(), bytes: 0, deferred: Seq::empty(), outside: Seq::empty() }
    } else {
        let before = wave_of(queue.drop_last(), n_cent, dim, budget);
        let next = queue.last();
        let total = capped(before.bytes + resident_bytes(next.1 as int, dim), u64::MAX as int);
        if next.0 >= n_cent {
            WaveView { outside: before.outside.push(next.0), ..before }
        } else if before.cells.len() == 0 || total <= budget {
            WaveView { cells: before.cells.push(next), bytes: total, ..before }
        } else {
            WaveView { deferred: before.deferred.push(next), ..before }
        }
    }
}

/// A queue with a cell of the grid gives a wave, so that fewer cells wait after
/// it; the parts together are as long as the queue, and the wave has cells of the
/// grid alone.
pub proof fn wave_makes_progress(queue: Seq<(u32, u64)>, n_cent: int, dim: int, budget: int)
    ensures
        ({
            let w = wave_of(queue, n_cent, dim, budget);
            &&& w.cells.len() + w.deferred.len() + w.outside.len() == queue.len()
            &&& w.deferred.len() > 0 ==> w.cells.len() > 0
            &&& queue.len() > 0 && w.cells.len() == 0 ==> w.outside.len() == queue.len()
            &&& forall|i: int| 0 <= i < w.cells.len() ==> (#[trigger] w.cells[i]).0 < n_cent
        }),
    decreases queue.len(),
{
    if queue.len() > 0 {
        wave_makes_progress(queue.drop_last(), n_cent, dim, budget);
        let before = wave_of(queue.drop_last(), n_cent, dim, budget);
        let w = wave_of(queue, n_cent, dim, budget);
        assert forall|i: int| 0 <= i < w.cells.len() implies (#[trigger] w.cells[i]).0 < n_cent by {
            if i < before.cells.len() {
                assert(w.cells[i] == before.cells[i]);
            }
        }
    }
}

/// Takes the next wave from the queue.
pub fn next_wave(queue: &Vec<(u32, u64)>, n_cent: u32, dim: u32, budget_bytes: u64) -> (wave: SplitWave)
    ensures
        ({
            let w = wave_of(queue@, n_cent as int, dim as int, budget_bytes as int);
            &&& wave.cells@ == w.cells
            &&& wave.bytes == w.bytes
            &&& wave.deferred@ == w.deferred
            &&& wave.outside@ == w.outside
            &&& wave.cells.len() + wave.deferred.len() + wave.outside.len() == queue.len()
        }),
{
    let mut cells: Vec<(u32, u64)> = Vec::new();
    let mut bytes: u64 = 0;
    let mut deferred: Vec<(u32, u64)> = Vec::new();
    let mut outside: Vec<u32> = Vec::new();
    let mut i: usize = 0;
    assert(queue@.take(0) =~= Seq::<(u32, u64)>::empty());
    while i < queue.len()
        invariant
            i <= queue.len(),
            ({
                let w = wave_of(queue@.take(i as int), n_cent as int, dim as int, budget_bytes as int);
                &&& cells@ == w.cells
                &&& bytes == w.bytes
                &&& deferred@ == w.deferred
                &&& outside@ == w.outside
            }),
        decreases queue.len() - i,
    {
        proof {
            assert(queue@.take(i + 1).drop_last() =~= queue@.take(i as int));
        }
        let next: (u32, u64) = queue[i];
        if next.0 >= n_cent {
            outside.push(next.0);
        } else {
            let total: u64 = bytes.saturating_add(estimate_split_resident_bytes(next.1, dim));
            if cells.len() == 0 || total <= budget_bytes {
                cells.push(next);
                bytes = total;
            } else {
                deferred.push(next);
            }
        }
        i = i + 1;
    }
    proof {
        assert(queue@.take(i as int) =~= queue@);
        wave_makes_progress(queue@, n_cent as int, dim as int, budget_bytes as int);
    }
    SplitWave { cells, bytes, deferred, outside }
}

/// Without memory for the whole wave only its first cell goes; the others go to
/// the front of the queue.
pub fn shrink_wave(wave: SplitWave, dim: u32) -> (out: SplitWave)
    requires
        wave.cells.len() > 0,
        wave.cells.len() + wave.deferred.len() <= usize::MAX,
    ensures
        out.cells@ == seq![wave.cells@[0]],
        out.bytes == resident_bytes(wave.cells@[0].1 as int, dim as int),
        out.deferred@ == wave.cells@.skip(1) + wave.deferred@,
        out.outside == wave.outside,
{
    let first: (u32, u64) = wave.cells[0];
    let bytes: u64 = estimate_split_resident_bytes(first.1, dim);
    let mut cells: Vec<(u32, u64)> = Vec::new();
    cells.push(first);
    assert(cells@ =~= seq![wave.cells@[0]]);
    let mut deferred: Vec<(u32, u64)> = Vec::new();
    let mut i: usize = 1;
    while i < wave.cells.len()
        invariant
            1 <= i <= wave.cells.len(),
            deferred@ == wave.cells@.subrange(1, i as int),
        decreases wave.cells.len() - i,
    {
        deferred.push(wave.cells[i]);
        i = i + 1;
        assert(deferred@ =~= wave.cells@.subrange(1, i as int));
    }
    assert(deferred@ =~= wave.cells@.skip(1));
    let mut rest = wave.deferred;
    deferred.append(&mut rest);
    SplitWave { cells, bytes, deferred, outside: wave.outside }
}

// ---------------------------------------------------------------------------
// Where the rows of a cell are
// ---------------------------------------------------------------------------

/// A superfile and the rows that it holds of each cell.
#[derive(Debug)]
pub struct ScannedEntry {
    pub superfile_id: u128,
    pub counts: Vec<(u32, u32)>,
}

/// The rows that the counts give a cell.
pub open spec fn rows_in_counts(counts: Seq<(u32, u32)>, cell: u32) -> int
    decreases counts.len(),
{
    if counts.len() == 0 {
        0
    } else {
        rows_in_counts(counts.drop_last(), cell) + if counts.last().0 == cell {
            counts.last().1 as int
        } else {
            0
        }
    }
}

/// The superfile once for each time that the counts name the cell.
pub open spec fn named_in_counts(counts: Seq<(u32, u32)>, cell: u32, id: u128) -> Seq<u128>
    decreases counts.len(),
{
    if counts.len() == 0 {
        Seq::empty()
    } else if counts.last().0 == cell {
        named_in_counts(counts.drop_last(), cell, id).push(id)
    } else {
        named_in_counts(counts.drop_last(), cell, id)
    }
}

/// The rows of a cell in all superfiles.
pub open spec fn rows_of_cell(entries: Seq<ScannedEntry>, cell: u32) -> int
    decreases entries.len(),
{
    if entries.len() == 0 {
        0
    } else {
        rows_of_cell(entries.drop_last(), cell) + rows_in_counts(entries.last().counts@, cell)
    }
}

/// The superfiles that hold a cell, in order.
pub open spec fn holders_of_cell(entries: Seq<ScannedEntry>, cell: u32) -> Seq<u128>
    decreases entries.len(),
{
    if entries.len() == 0 {
        Seq::empty()
    } else {
        holders_of_cell(entries.drop_last(), cell) + named_in_counts(
            entries.last().counts@,
            cell,
            entries.last().superfile_id,
        )
    }
}

/// The cell is looked for.
pub open spec fn is_wanted(only: Option<Seq<u32>>, cell: u32) -> bool {
    match only {
        Some(list) => list.contains(cell),
        None => true,
    }
}

pub open spec fn only_view(only: Option<&Vec<u32>>) -> Option<Seq<u32>> {
    match only {
        Some(list) => Some(list@),
        None => None,
    }
}

/// The cell is among the counted ones, with its rows and holders, when it is
/// looked for and has holders.
pub open spec fn is_counted(
    counts: Map<u32, u64>,
    parents: Map<u32, Vec<u128>>,
    only: Option<Seq<u32>>,
    holders: Seq<u128>,
    rows: int,
    cell: u32,
) -> bool {
    let there = is_wanted(only, cell) && holders.len() > 0;
    &&& counts.contains_key(cell) == there
    &&& parents.contains_key(cell) == there
    &&& there ==> counts[cell] == rows && parents[cell]@ == holders
}

/// The cell is counted as the superfiles have it.
pub open spec fn is_scanned(
    counts: Map<u32, u64>,
    parents: Map<u32, Vec<u128>>,
    only: Option<Seq<u32>>,
    entries: Seq<ScannedEntry>,
    cell: u32,
) -> bool {
    is_counted(counts, parents, only, holders_of_cell(entries, cell), rows_of_cell(entries, cell), cell)
}

/// The rows and the holders of the cells that are looked for.
pub open spec fn is_scan(
    counts: Map<u32, u64>,
    parents: Map<u32, Vec<u128>>,
    only: Option<Seq<u32>>,
    entries: Seq<ScannedEntry>,
) -> bool {
    forall|cell: u32|
        #![trigger counts.contains_key(cell)]
        #![trigger is_scanned(counts, parents, only, entries, cell)]
        is_scanned(counts, parents, only, entries, cell)
}

/// The cell is counted as the superfiles and a part of one more have it.
spec fn is_part_scanned(
    counts: Map<u32, u64>,
    parents: Map<u32, Vec<u128>>,
    only: Option<Seq<u32>>,
    entries: Seq<ScannedEntry>,
    list: Seq<(u32, u32)>,
    id: u128,
    cell: u32,
) -> bool {
    is_counted(
        counts,
        parents,
        only,
        holders_of_cell(entries, cell) + named_in_counts(list, cell, id),
        rows_of_cell(entries, cell) + rows_in_counts(list, cell),
        cell,
    )
}

/// The same with a part of one more superfile.
spec fn is_partial_scan(
    counts: Map<u32, u64>,
    parents: Map<u32, Vec<u128>>,
    only: Option<Seq<u32>>,
    entries: Seq<ScannedEntry>,
    list: Seq<(u32, u32)>,
    id: u128,
) -> bool {
    forall|cell: u32|
        #![trigger counts.contains_key(cell)]
        #![trigger is_part_scanned(counts, parents, only, entries, list, id, cell)]
        is_part_scanned(counts, parents, only, entries, list, id, cell)
}

fn list_has(list: &Vec<u32>, cell: u32) -> (found: bool)
    ensures
        found == list@.contains(cell),
{
    let mut i: usize = 0;
    while i < list.len()
        invariant
            i <= list.len(),
            forall|k: int| 0 <= k < i ==> list@[k] != cell,
        decreases list.len() - i,
    {
        if list[i] == cell {
            assert(list@[i as int] == cell);
            return true;
        }
        i = i + 1;
    }
    false
}

pub(crate) fn push_parent(parents: &mut CellMap<Vec<u128>>, cell: u32, id: u128)
    ensures
        final(parents)@.dom() == old(parents)@.dom().insert(cell),
        forall|c: u32|
            c != cell && old(parents)@.contains_key(c) ==> #[trigger] final(parents)@[c] == old(parents)@[c],
        final(parents)@[cell]@ == if old(parents)@.contains_key(cell) {
            old(parents)@[cell]@.push(id)
        } else {
            seq![id]
        },
{
    let ghost was = parents@;
    let mut list: Vec<u128> = match parents.remove(cell) {
        Some(list) => list,
        None => Vec::new(),
    };
    let ghost before = list@;
    list.push(id);
    assert(!was.contains_key(cell) ==> list@ =~= seq![id]);
    parents.insert(cell, list);
    assert(parents@.dom() =~= was.dom().insert(cell));
}

proof fn rows_of_prefix(entries: Seq<ScannedEntry>, n: int, cell: u32)
    requires
        0 <= n <= entries.len(),
    ensures
        rows_of_cell(entries.take(n), cell) <= rows_of_cell(entries, cell),
    decreases entries.len(),
{
    if n == entries.len() {
        assert(entries.take(n) =~= entries);
    } else {
        assert(entries.drop_last().take(n) =~= entries.take(n));
        rows_of_prefix(entries.drop_last(), n, cell);
        rows_not_negative(entries.last().counts@, cell);
    }
}

proof fn rows_not_negative(counts: Seq<(u32, u32)>, cell: u32)
    ensures
        rows_in_counts(counts, cell) >= 0,
        named_in_counts(counts, cell, 0).len() == 0 ==> rows_in_counts(counts, cell) == 0,
    decreases counts.len(),
{
    if counts.len() > 0 {
        rows_not_negative(counts.drop_last(), cell);
    }
}

proof fn counts_prefix(counts: Seq<(u32, u32)>, n: int, cell: u32)
    requires
        0 <= n <= counts.len(),
    ensures
        rows_in_counts(counts.take(n), cell) <= rows_in_counts(counts, cell),
    decreases counts.len(),
{
    if n == counts.len() {
        assert(counts.take(n) =~= counts);
    } else {
        assert(counts.drop_last().take(n) =~= counts.take(n));
        counts_prefix(counts.drop_last(), n, cell);
    }
}

proof fn no_rows_without_holder(entries: Seq<ScannedEntry>, cell: u32)
    ensures
        holders_of_cell(entries, cell).len() == 0 ==> rows_of_cell(entries, cell) == 0,
        rows_of_cell(entries, cell) >= 0,
    decreases entries.len(),
{
    if entries.len() > 0 {
        no_rows_without_holder(entries.drop_last(), cell);
        named_len(entries.last().counts@, cell, entries.last().superfile_id);
        rows_not_negative(entries.last().counts@, cell);
    }
}

proof fn named_len(counts: Seq<(u32, u32)>, cell: u32, id: u128)
    ensures
        named_in_counts(counts, cell, id).len() == named_in_counts(counts, cell, 0).len(),
    decreases counts.len(),
{
    if counts.len() > 0 {
        named_len(counts.drop_last(), cell, id);
    }
}

proof fn partial_scan_opens(
    counts: Map<u32, u64>,
    parents: Map<u32, Vec<u128>>,
    wanted: Option<Seq<u32>>,
    entries: Seq<ScannedEntry>,
    id: u128,
)
    requires
        is_scan(counts, parents, wanted, entries),
    ensures
        is_partial_scan(counts, parents, wanted, entries, Seq::empty(), id),
{
    let none = Seq::<(u32, u32)>::empty();
    assert forall|c: u32| #[trigger] is_part_scanned(counts, parents, wanted, entries, none, id, c) by {
        assert(is_scanned(counts, parents, wanted, entries, c));
        assert(holders_of_cell(entries, c) + named_in_counts(none, c, id) =~= holders_of_cell(entries, c));
    }
}

proof fn partial_scan_closes(
    counts: Map<u32, u64>,
    parents: Map<u32, Vec<u128>>,
    wanted: Option<Seq<u32>>,
    entries: Seq<ScannedEntry>,
)
    requires
        entries.len() > 0,
        is_partial_scan(
            counts,
            parents,
            wanted,
            entries.drop_last(),
            entries.last().counts@,
            entries.last().superfile_id,
        ),
    ensures
        is_scan(counts, parents, wanted, entries),
{
    let (base, list, id) = (entries.drop_last(), entries.last().counts@, entries.last().superfile_id);
    assert forall|c: u32| #[trigger] is_scanned(counts, parents, wanted, entries, c) by {
        assert(is_part_scanned(counts, parents, wanted, base, list, id, c));
        assert(holders_of_cell(entries, c) == holders_of_cell(base, c) + named_in_counts(list, c, id));
        assert(rows_of_cell(entries, c) == rows_of_cell(base, c) + rows_in_counts(list, c));
    }
}

/// Counts the rows of each cell and lists the superfiles that hold it. With
/// `only`, just for those cells.
pub fn scan_cell_parents(entries: &Vec<ScannedEntry>, only: Option<&Vec<u32>>) -> (scan: (
    CellMap<u64>,
    CellMap<Vec<u128>>,
))
    requires
        forall|cell: u32| #[trigger] rows_of_cell(entries@, cell) <= u64::MAX,
    ensures
        is_scan(scan.0@, scan.1@, only_view(only), entries@),
{
    let mut counts: CellMap<u64> = CellMap::new();
    let mut parents: CellMap<Vec<u128>> = CellMap::new();
    let ghost wanted = only_view(only);
    let mut i: usize = 0;
    assert(entries@.take(0) =~= Seq::<ScannedEntry>::empty());
    while i < entries.len()
        invariant
            i <= entries.len(),
            wanted == only_view(only),
            forall|cell: u32| #[trigger] rows_of_cell(entries@, cell) <= u64::MAX,
            is_scan(counts@, parents@, wanted, entries@.take(i as int)),
        decreases entries.len() - i,
    {
        let entry = &entries[i];
        let id: u128 = entry.superfile_id;
        let ghost base = entries@.take(i as int);
        let ghost list = entry.counts@;
        let mut k: usize = 0;
        proof {
            assert(list.take(0) =~= Seq::<(u32, u32)>::empty());
            partial_scan_opens(counts@, parents@, wanted, base, id);
        }
        while k < entry.counts.len()
            invariant
                k <= entry.counts.len(),
                i < entries.len(),
                *entry == entries@[i as int],
                list == entry.counts@,
                id == entry.superfile_id,
                base == entries@.take(i as int),
                wanted == only_view(only),
                forall|cell: u32| #[trigger] rows_of_cell(entries@, cell) <= u64::MAX,
                is_partial_scan(counts@, parents@, wanted, base, list.take(k as int), id),
            decreases entry.counts.len() - k,
        {
            let cell: u32 = entry.counts[k].0;
            let n: u32 = entry.counts[k].1;
            let take_it: bool = match only {
                Some(o) => list_has(o, cell),
                None => true,
            };
            let ghost c0 = counts@;
            let ghost p0 = parents@;
            let ghost less = list.take(k as int);
            let ghost more = list.take(k + 1);
            proof {
                assert(more.drop_last() =~= less);
                assert(take_it == is_wanted(wanted, cell));
                assert(entries@.take(i + 1).drop_last() =~= base);
                rows_of_prefix(entries@, i + 1, cell);
                counts_prefix(list, k + 1, cell);
                assert(rows_of_cell(entries@.take(i + 1), cell) == rows_of_cell(base, cell)
                    + rows_in_counts(list, cell));
                assert(rows_of_cell(entries@, cell) <= u64::MAX);
                no_rows_without_holder(base, cell);
                rows_not_negative(less, cell);
                named_len(less, cell, id);
                let there = is_wanted(wanted, cell) && (holders_of_cell(base, cell) + named_in_counts(
                    less,
                    cell,
                    id,
                )).len() > 0;
                assert(c0.contains_key(cell) == there);
            }
            if take_it {
                let rows: u64 = match counts.get(cell) {
                    Some(r) => *r,
                    None => 0,
                };
                assert(rows == rows_of_cell(base, cell) + rows_in_counts(less, cell));
                counts.insert(cell, rows + n as u64);
                push_parent(&mut parents, cell, id);
            }
            proof {
                assert forall|c: u32| #[trigger]
                    is_part_scanned(counts@, parents@, wanted, base, more, id, c) by {
                    assert(is_part_scanned(c0, p0, wanted, base, less, id, c));
                    let there0 = is_wanted(wanted, c) && (holders_of_cell(base, c) + named_in_counts(
                        less,
                        c,
                        id,
                    )).len() > 0;
                    assert(c0.contains_key(c) == there0);
                    if c == cell {
                        assert(holders_of_cell(base, c) + named_in_counts(more, c, id) =~= (
                        holders_of_cell(base, c) + named_in_counts(less, c, id)).push(id));
                        if take_it && !there0 {
                            assert(holders_of_cell(base, c) + named_in_counts(less, c, id) =~= Seq::<
                                u128,
                            >::empty());
                            assert(parents@[c]@ =~= holders_of_cell(base, c) + named_in_counts(
                                more,
                                c,
                                id,
                            ));
                        }
                    } else {
                        assert(named_in_counts(more, c, id) == named_in_counts(less, c, id));
                        assert(rows_in_counts(more, c) == rows_in_counts(less, c));
                        if take_it {
                            assert(parents@.contains_key(c) == p0.contains_key(c));
                        }
                    }
                }
            }
            assert(is_partial_scan(counts@, parents@, wanted, base, more, id));
            k = k + 1;
        }
        proof {
            assert(list.take(k as int) =~= list);
            assert(entries@.take(i + 1).drop_last() =~= base);
            partial_scan_closes(counts@, parents@, wanted, entries@.take(i + 1));
        }
        i = i + 1;
    }
    assert(entries@.take(i as int) =~= entries@);
    (counts, parents)
}

/// The holders whose copy of the cell is not superseded.
pub open spec fn live_holders(holders: Seq<u128>, cell: u32, superseded: Set<FileCell>) -> Seq<u128>
    decreases holders.len(),
{
    if holders.len() == 0 {
        Seq::empty()
    } else if superseded.contains((holders.last(), cell)) {
        live_holders(holders.drop_last(), cell, superseded)
    } else {
        live_holders(holders.drop_last(), cell, superseded).push(holders.last())
    }
}

/// A cell whose rows are to be read, and from where.
#[derive(Debug)]
pub struct ExtractionJob {
    pub cell: u32,
    pub parents: Vec<u128>,
}

/// Where the rows of each cell are read from: the superfiles that hold it and
/// have not had it superseded.
pub fn live_split_extraction_jobs(
    cells: &Vec<u32>,
    parents_by_cell: &CellMap<Vec<u128>>,
    superseded: &SupersededCells,
) -> (jobs: Vec<ExtractionJob>)
    ensures
        jobs.len() == cells.len(),
        forall|i: int|
            0 <= i < jobs.len() ==> (#[trigger] jobs@[i]).cell == cells@[i] && jobs@[i].parents@
                == if parents_by_cell@.contains_key(cells@[i]) {
                live_holders(parents_by_cell@[cells@[i]]@, cells@[i], superseded@)
            } else {
                Seq::<u128>::empty()
            },
{
    let mut jobs: Vec<ExtractionJob> = Vec::new();
    let mut i: usize = 0;
    while i < cells.len()
        invariant
            i <= cells.len(),
            jobs.len() == i,
            forall|q: int|
                0 <= q < i ==> (#[trigger] jobs@[q]).cell == cells@[q] && jobs@[q].parents@
                    == if parents_by_cell@.contains_key(cells@[q]) {
                    live_holders(parents_by_cell@[cells@[q]]@, cells@[q], superseded@)
                } else {
                    Seq::<u128>::empty()
                },
        decreases cells.len() - i,
    {
        let cell: u32 = cells[i];
        let mut parents: Vec<u128> = Vec::new();
        if let Some(holders) = parents_by_cell.get(cell) {
            let mut k: usize = 0;
            assert(holders@.take(0) =~= Seq::<u128>::empty());
            while k < holders.len()
                invariant
                    k <= holders.len(),
                    parents@ == live_holders(holders@.take(k as int), cell, superseded@),
                decreases holders.len() - k,
            {
                proof {
                    assert(holders@.take(k + 1).drop_last() =~= holders@.take(k as int));
                }
                if !superseded.contains(holders[k], cell) {
                    parents.push(holders[k]);
                }
                k = k + 1;
            }
            assert(holders@.take(k as int) =~= holders@);
        }
        jobs.push(ExtractionJob { cell, parents });
        i = i + 1;
    }
    jobs
}

} // verus!
