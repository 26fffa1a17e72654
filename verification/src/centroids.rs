//! The centroid section: the fine centroids of every cell of a generation, one
//! after the other.
//!
//! The section has no index of its own. Its cells follow the membership: entry
//! by entry, column by column in the order of their names, cell by cell. Both
//! the writer and every reader walk the membership that way, so that they agree
//! on where each cell stands.
use vstd::prelude::*;

use crate::hashing::blake3_digest;
use crate::slow_state::{ContentHash, ParseFault, SlowVectorStateError};
use crate::text::{char_list, same_text};
use crate::wire::{copy_range, push_bytes};

verus! {

/// One cell of a column's summary. `resident` holds the centroids as bytes,
/// four for each number, when they are in memory.
#[derive(Debug)]
pub struct CellSummary {
    pub cell_id: Option<u32>,
    pub n_cent: u32,
    pub dim: u32,
    pub resident: Option<Vec<u8>>,
}

/// One vector column of an entry.
#[derive(Debug)]
pub struct ColumnSummary {
    pub column: String,
    pub cells: Vec<CellSummary>,
}

/// The vector columns of one superfile, in the order of their names.
#[derive(Debug)]
pub struct EntrySummary {
    superfile_id: u128,
    columns: Vec<ColumnSummary>,
}

// ---------------------------------------------------------------------------
// Column order
// ---------------------------------------------------------------------------

/// Texts compare character by character, a prefix before what it is a prefix
/// of.
pub open spec fn text_less(a: Seq<char>, b: Seq<char>) -> bool
    decreases a.len(),
{
    if a.len() == 0 {
        b.len() > 0
    } else if b.len() == 0 {
        false
    } else if a[0] == b[0] {
        text_less(a.skip(1), b.skip(1))
    } else {
        a[0] < b[0]
    }
}

proof fn text_less_transitive(a: Seq<char>, b: Seq<char>, c: Seq<char>)
    requires
        text_less(a, b),
        text_less(b, c),
    ensures
        text_less(a, c),
    decreases a.len(),
{
    if a.len() > 0 && b.len() > 0 && c.len() > 0 && a[0] == b[0] && b[0] == c[0] {
        text_less_transitive(a.skip(1), b.skip(1), c.skip(1));
    }
}

proof fn text_less_total(a: Seq<char>, b: Seq<char>)
    ensures
        text_less(a, b) || text_less(b, a) || a == b,
        !(text_less(a, b) && text_less(b, a)),
        text_less(a, b) ==> a != b,
    decreases a.len(),
{
    if a.len() == 0 {
        if b.len() == 0 {
            assert(a =~= b);
        }
    } else if b.len() > 0 && a[0] == b[0] {
        text_less_total(a.skip(1), b.skip(1));
        if a.skip(1) == b.skip(1) {
            assert(a =~= seq![a[0]] + a.skip(1));
            assert(b =~= seq![b[0]] + b.skip(1));
        }
    }
}

fn text_precedes(a: &str, b: &str) -> (r: bool)
    ensures
        r == text_less(a@, b@),
{
    let x = char_list(a);
    let y = char_list(b);
    let mut i: usize = 0;
    assert(x@.skip(0) =~= x@);
    assert(y@.skip(0) =~= y@);
    while i < x.len() && i < y.len() && x[i] == y[i]
        invariant
            i <= x.len(),
            i <= y.len(),
            x@ == a@,
            y@ == b@,
            text_less(a@, b@) == text_less(x@.skip(i as int), y@.skip(i as int)),
        decreases x.len() - i,
    {
        proof {
            assert(x@.skip(i as int).skip(1) =~= x@.skip(i + 1));
            assert(y@.skip(i as int).skip(1) =~= y@.skip(i + 1));
        }
        i = i + 1;
    }
    if i >= x.len() {
        i < y.len()
    } else if i >= y.len() {
        false
    } else {
        x[i] < y[i]
    }
}

/// No column's name precedes that of a column before it.
pub open spec fn columns_ascend(columns: Seq<ColumnSummary>) -> bool {
    forall|i: int, j: int|
        0 <= i < j < columns.len() ==> !text_less(
            (#[trigger] columns[j]).column@,
            (#[trigger] columns[i]).column@,
        )
}

/// An entry's columns in the order of their names.
pub fn sorted_summaries(columns: Vec<ColumnSummary>) -> (sorted: Vec<ColumnSummary>)
    ensures
        columns_ascend(sorted@),
        sorted@.to_multiset() == columns@.to_multiset(),
{
    broadcast use vstd::seq_lib::group_to_multiset_ensures;

    let mut rest = columns;
    let mut sorted: Vec<ColumnSummary> = Vec::new();
    assert(sorted@.to_multiset().add(rest@.to_multiset()) =~= columns@.to_multiset());
    while rest.len() > 0
        invariant
            columns_ascend(sorted@),
            sorted@.to_multiset().add(rest@.to_multiset()) == columns@.to_multiset(),
        decreases rest.len(),
    {
        let ghost before = rest@;
        let item = rest.remove(0);
        let ghost placed = sorted@;
        let mut at: usize = sorted.len();
        while at > 0 && text_precedes(item.column.as_str(), sorted[at - 1].column.as_str())
            invariant
                at <= sorted.len(),
                sorted@ == placed,
                forall|k: int|
                    at <= k < sorted.len() ==> text_less(item.column@, (#[trigger] sorted@[k]).column@),
            decreases at,
        {
            at = at - 1;
        }
        sorted.insert(at, item);
        proof {
            assert(before =~= seq![item] + rest@);
            assert(before =~= rest@.insert(0, item));
            assert(sorted@ == placed.insert(at as int, item));
            vstd::seq_lib::to_multiset_insert(rest@, 0, item);
            vstd::seq_lib::to_multiset_insert(placed, at as int, item);
            assert(before.to_multiset() =~= rest@.to_multiset().insert(item));
            assert(sorted@.to_multiset() =~= placed.to_multiset().insert(item));
            assert(sorted@.to_multiset().add(rest@.to_multiset()) =~= placed.to_multiset().add(
                before.to_multiset(),
            ));
            assert forall|i: int, j: int| 0 <= i < j < sorted.len() implies !text_less(
                (#[trigger] sorted@[j]).column@,
                (#[trigger] sorted@[i]).column@,
            ) by {
                let a = if i < at {
                    i
                } else {
                    i - 1
                };
                let b = if j < at {
                    j
                } else {
                    j - 1
                };
                if i != at && j != at {
                    assert(sorted@[i] == placed[a] && sorted@[j] == placed[b]);
                } else if i == at {
                    assert(sorted@[j] == placed[b]);
                    text_less_total(item.column@, placed[b].column@);
                } else {
                    assert(sorted@[i] == placed[i]);
                    if i < at - 1 {
                        assert(!text_less(placed[at - 1].column@, placed[i].column@));
                        text_less_total(placed[i].column@, placed[at - 1].column@);
                        text_less_total(item.column@, placed[at - 1].column@);
                        if text_less(item.column@, placed[i].column@) {
                            if text_less(placed[i].column@, placed[at - 1].column@) {
                                text_less_transitive(
                                    item.column@,
                                    placed[i].column@,
                                    placed[at - 1].column@,
                                );
                            }
                        }
                    }
                }
            }
        }
    }
    assert(rest@ =~= Seq::<ColumnSummary>::empty());
    assert(sorted@.to_multiset() =~= columns@.to_multiset());
    sorted
}

impl EntrySummary {
    /// The superfile.
    pub closed spec fn id(self) -> u128 {
        self.superfile_id
    }

    /// Its vector columns.
    pub closed spec fn parts(self) -> Seq<ColumnSummary> {
        self.columns@
    }

    #[verifier::type_invariant]
    spec fn in_order(self) -> bool {
        columns_ascend(self.columns@)
    }

    /// The vector columns of a superfile, put in the order of their names.
    pub fn new(superfile_id: u128, columns: Vec<ColumnSummary>) -> (entry: EntrySummary)
        ensures
            entry.id() == superfile_id,
            columns_ascend(entry.parts()),
            entry.parts().to_multiset() == columns@.to_multiset(),
    {
        EntrySummary { superfile_id, columns: sorted_summaries(columns) }
    }

    /// The columns stand in the order of their names.
    pub fn columns(&self) -> (columns: &Vec<ColumnSummary>)
        ensures
            columns@ == self.parts(),
            columns_ascend(columns@),
    {
        proof {
            use_type_invariant(self);
        }
        &self.columns
    }
}

/// No two columns have the same name.
pub open spec fn names_distinct(columns: Seq<ColumnSummary>) -> bool {
    forall|i: int, j: int|
        0 <= i < j < columns.len() ==> (#[trigger] columns[i]).column@ != (#[trigger] columns[j]).column@
}

/// Columns with different names have one order only.
pub proof fn column_order_is_unique(a: Seq<ColumnSummary>, b: Seq<ColumnSummary>)
    requires
        columns_ascend(a),
        columns_ascend(b),
        names_distinct(a),
        a.to_multiset() == b.to_multiset(),
    ensures
        a == b,
{
    broadcast use vstd::seq_lib::group_to_multiset_ensures;

    assert(a.len() == b.len()) by {
        a.to_multiset_ensures();
        b.to_multiset_ensures();
    }
    column_prefixes_agree(a, b, a.len());
    assert(a =~= b);
}

proof fn column_prefixes_agree(a: Seq<ColumnSummary>, b: Seq<ColumnSummary>, n: nat)
    requires
        columns_ascend(a),
        columns_ascend(b),
        names_distinct(a),
        a.to_multiset() == b.to_multiset(),
        a.len() == b.len(),
        n <= a.len(),
    ensures
        forall|i: int| 0 <= i < n ==> a[i] == b[i],
    decreases n,
{
    if n > 0 {
        let m = (n - 1) as int;
        column_prefixes_agree(a, b, (n - 1) as nat);
        a.to_multiset_ensures();
        b.to_multiset_ensures();
        assert(a.contains(a[m]));
        assert(b.contains(b[m]));
        assert(a.to_multiset().count(a[m]) > 0);
        assert(b.to_multiset().count(b[m]) > 0);
        assert(b.contains(a[m]));
        assert(a.contains(b[m]));
        let q = choose|q: int| 0 <= q < b.len() && b[q] == a[m];
        let p = choose|p: int| 0 <= p < a.len() && a[p] == b[m];
        arrangement_has_no_repeats(a, b);
        if q < m {
            assert(a[q].column@ != a[m].column@);
        }
        if p < m {
            assert(b[p] == b[m]);
        }
        text_less_total(a[m].column@, b[m].column@);
        if q > m {
            assert(!text_less(b[q].column@, b[m].column@));
        }
        if p > m {
            assert(!text_less(a[p].column@, a[m].column@));
            assert(a[m].column@ != a[p].column@);
        }
    }
}

/// Columns that all have different names stand once each in any arrangement.
proof fn arrangement_has_no_repeats(a: Seq<ColumnSummary>, b: Seq<ColumnSummary>)
    requires
        names_distinct(a),
        a.to_multiset() == b.to_multiset(),
    ensures
        b.no_duplicates(),
{
    assert(a.no_duplicates()) by {
        assert forall|i: int, j: int| 0 <= i < a.len() && 0 <= j < a.len() && i != j implies a[i] != a[j] by {
            if i < j {
                assert(a[i].column@ != a[j].column@);
            } else {
                assert(a[j].column@ != a[i].column@);
            }
        }
    }
    a.lemma_multiset_has_no_duplicates();
    b.lemma_multiset_has_no_duplicates_conv();
}

// ---------------------------------------------------------------------------
// The walk
// ---------------------------------------------------------------------------

/// One cell of a generation, as the walk meets it.
#[verifier::ext_equal]
pub struct CellView {
    pub superfile_id: u128,
    pub column: Seq<char>,
    pub cell_id: Option<u32>,
    pub n_cent: int,
    pub dim: int,
    pub resident: Option<Seq<u8>>,
}

impl CellView {
    /// Bytes of the cell's centroids.
    pub open spec fn size(self) -> int {
        self.n_cent * self.dim * 4
    }

    /// The cell is the one asked for.
    pub open spec fn is_at(self, superfile_id: u128, column: Seq<char>, cell_id: Option<u32>) -> bool {
        self.superfile_id == superfile_id && self.column == column && self.cell_id == cell_id
    }
}

pub open spec fn cell_view(superfile_id: u128, column: Seq<char>, cell: CellSummary) -> CellView {
    CellView {
        superfile_id,
        column,
        cell_id: cell.cell_id,
        n_cent: cell.n_cent as int,
        dim: cell.dim as int,
        resident: match cell.resident {
            Some(bytes) => Some(bytes@),
            None => None,
        },
    }
}

pub open spec fn walk_cells(superfile_id: u128, column: Seq<char>, cells: Seq<CellSummary>) -> Seq<CellView> {
    Seq::new(cells.len(), |i: int| cell_view(superfile_id, column, cells[i]))
}

pub open spec fn walk_columns(superfile_id: u128, columns: Seq<ColumnSummary>) -> Seq<CellView>
    decreases columns.len(),
{
    if columns.len() == 0 {
        Seq::empty()
    } else {
        walk_columns(superfile_id, columns.drop_last()) + walk_cells(
            superfile_id,
            columns.last().column@,
            columns.last().cells@,
        )
    }
}

/// The cells of a membership in the order of the section.
pub open spec fn walk(entries: Seq<EntrySummary>) -> Seq<CellView>
    decreases entries.len(),
{
    if entries.len() == 0 {
        Seq::empty()
    } else {
        walk(entries.drop_last()) + walk_columns(entries.last().id(), entries.last().parts())
    }
}

/// Bytes of all the cells together.
pub open spec fn total_size(cells: Seq<CellView>) -> int
    decreases cells.len(),
{
    if cells.len() == 0 {
        0
    } else {
        total_size(cells.drop_last()) + cells.last().size()
    }
}

proof fn size_is_not_negative(c: CellView)
    requires
        c.n_cent >= 0,
        c.dim >= 0,
    ensures
        c.size() >= 0,
{
    assert(c.n_cent * c.dim * 4 >= 0) by (nonlinear_arith)
        requires
            c.n_cent >= 0,
            c.dim >= 0,
    ;
}

/// The numbers of a walked cell are counts.
spec fn counts(cells: Seq<CellView>) -> bool {
    forall|i: int| 0 <= i < cells.len() ==> (#[trigger] cells[i]).n_cent >= 0 && cells[i].dim >= 0
}

proof fn total_of_prefix(cells: Seq<CellView>, n: int)
    requires
        0 <= n <= cells.len(),
        counts(cells),
    ensures
        0 <= total_size(cells.take(n)) <= total_size(cells),
    decreases cells.len(),
{
    if n == cells.len() {
        assert(cells.take(n) =~= cells);
        if n > 0 {
            total_of_prefix(cells.drop_last(), n - 1);
            size_is_not_negative(cells.last());
        }
    } else {
        total_of_prefix(cells.drop_last(), n);
        assert(cells.drop_last().take(n) =~= cells.take(n));
        size_is_not_negative(cells.last());
    }
}

/// A cell together with the superfile and column that it belongs to.
struct Walked<'a> {
    superfile_id: u128,
    column: &'a String,
    cell: &'a CellSummary,
}

impl<'a> Walked<'a> {
    spec fn view(self) -> CellView {
        cell_view(self.superfile_id, self.column@, *self.cell)
    }
}

spec fn views<'a>(walked: Seq<Walked<'a>>) -> Seq<CellView> {
    Seq::new(walked.len(), |i: int| walked[i].view())
}

fn walk_entries<'a>(entries: &'a Vec<EntrySummary>) -> (walked: Vec<Walked<'a>>)
    ensures
        views(walked@) == walk(entries@),
{
    let mut walked: Vec<Walked<'a>> = Vec::new();
    let mut e: usize = 0;
    assert(views(walked@) =~= walk(entries@.take(0)));
    while e < entries.len()
        invariant
            e <= entries.len(),
            views(walked@) == walk(entries@.take(e as int)),
        decreases entries.len() - e,
    {
        let id: u128 = entries[e].superfile_id;
        let columns: &'a Vec<ColumnSummary> = &entries[e].columns;
        let mut c: usize = 0;
        let ghost base = walk(entries@.take(e as int));
        assert(base + walk_columns(id, columns@.take(0)) =~= base);
        while c < columns.len()
            invariant
                c <= columns.len(),
                views(walked@) == base + walk_columns(id, columns@.take(c as int)),
            decreases columns.len() - c,
        {
            let column: &'a ColumnSummary = &columns[c];
            let mut k: usize = 0;
            let ghost upto = base + walk_columns(id, columns@.take(c as int));
            let ghost all = walk_cells(id, column.column@, column.cells@);
            assert(upto + all.take(0) =~= upto);
            while k < column.cells.len()
                invariant
                    k <= column.cells.len(),
                    all == walk_cells(id, column.column@, column.cells@),
                    views(walked@) == upto + all.take(k as int),
                decreases column.cells.len() - k,
            {
                let ghost before = walked@;
                walked.push(Walked { superfile_id: id, column: &column.column, cell: &column.cells[k] });
                k = k + 1;
                assert(views(walked@) =~= views(before).push(all[k - 1]));
                assert(upto + all.take(k as int) =~= (upto + all.take(k - 1)).push(all[k - 1]));
            }
            assert(all.take(k as int) =~= all);
            proof {
                assert(columns@.take(c + 1).drop_last() =~= columns@.take(c as int));
                assert(columns@.take(c + 1).last() == *column);
                assert(upto + all =~= base + walk_columns(id, columns@.take(c + 1)));
            }
            c = c + 1;
        }
        proof {
            assert(columns@.take(c as int) =~= columns@);
            assert(entries@.take(e + 1).drop_last() =~= entries@.take(e as int));
            assert(entries@.take(e + 1).last() == entries@[e as int]);
        }
        e = e + 1;
    }
    assert(entries@.take(e as int) =~= entries@);
    walked
}

proof fn walked_counts<'a>(walked: Seq<Walked<'a>>)
    ensures
        counts(views(walked)),
{
}

/// Bytes of a section of this membership, where they can be counted.
pub fn checked_section_len(entries: &Vec<EntrySummary>) -> (total: Option<usize>)
    ensures
        match total {
            Some(t) => t == total_size(walk(entries@)),
            None => total_size(walk(entries@)) > usize::MAX,
        },
{
    let walked = walk_entries(entries);
    let ghost cells = walk(entries@);
    let mut total: usize = 0;
    let mut i: usize = 0;
    assert(cells.take(0) =~= Seq::<CellView>::empty());
    while i < walked.len()
        invariant
            i <= walked.len(),
            cells == views(walked@),
            cells == walk(entries@),
            total == total_size(cells.take(i as int)),
        decreases walked.len() - i,
    {
        let n_cent: u128 = walked[i].cell.n_cent as u128;
        let dim: u128 = walked[i].cell.dim as u128;
        proof {
            walked_counts(walked@);
            total_of_prefix(cells, i + 1);
            assert(cells.take(i + 1).drop_last() =~= cells.take(i as int));
            assert(cells.take(i + 1).last() == cells[i as int]);
            assert(0 <= n_cent * dim <= 0xffff_ffff * 0xffff_ffff) by (nonlinear_arith)
                requires
                    0 <= n_cent <= 0xffff_ffff,
                    0 <= dim <= 0xffff_ffff,
            ;
        }
        let more: u128 = n_cent * dim * 4;
        if more > (usize::MAX - total) as u128 {
            return None;
        }
        total = total + more as usize;
        i = i + 1;
    }
    assert(cells.take(i as int) =~= cells);
    Some(total)
}

/// Bytes of a section of this membership.
pub fn section_len(entries: &Vec<EntrySummary>) -> (total: usize)
    requires
        total_size(walk(entries@)) <= usize::MAX,
    ensures
        total == total_size(walk(entries@)),
{
    match checked_section_len(entries) {
        Some(total) => total,
        None => 0,
    }
}

// ---------------------------------------------------------------------------
// The section of a generation
// ---------------------------------------------------------------------------

/// One cell's place in a section.
#[derive(Debug)]
pub struct SectionCell {
    pub superfile_id: u128,
    pub column: String,
    pub cell_id: Option<u32>,
    pub offset: u64,
    pub len: u64,
}

/// The cells of one column of a superfile: those from `start` to `end` of the
/// section's cells.
#[derive(Debug)]
pub struct SectionList {
    pub superfile_id: u128,
    pub column: String,
    pub start: usize,
    pub end: usize,
}

/// Where the cells of one published section stand, and which of them belong to
/// each column of each superfile.
#[derive(Debug)]
pub struct CentroidSection {
    pub uri: String,
    pub cells: Vec<SectionCell>,
    pub lists: Vec<SectionList>,
}

/// A list as a value.
#[verifier::ext_equal]
pub struct ListView {
    pub superfile_id: u128,
    pub column: Seq<char>,
    pub start: int,
    pub end: int,
}

pub open spec fn list_view(list: SectionList) -> ListView {
    ListView {
        superfile_id: list.superfile_id,
        column: list.column@,
        start: list.start as int,
        end: list.end as int,
    }
}

pub open spec fn list_views(lists: Seq<SectionList>) -> Seq<ListView> {
    Seq::new(lists.len(), |i: int| list_view(lists[i]))
}

/// The lists of a superfile's columns, when `base` cells come before them.
pub open spec fn column_lists(superfile_id: u128, columns: Seq<ColumnSummary>, base: int) -> Seq<ListView>
    decreases columns.len(),
{
    if columns.len() == 0 {
        Seq::empty()
    } else {
        let start = base + walk_columns(superfile_id, columns.drop_last()).len();
        column_lists(superfile_id, columns.drop_last(), base).push(
            ListView {
                superfile_id,
                column: columns.last().column@,
                start,
                end: start + columns.last().cells.len(),
            },
        )
    }
}

/// The lists of a membership, in the order of the section.
pub open spec fn lists_of(entries: Seq<EntrySummary>) -> Seq<ListView>
    decreases entries.len(),
{
    if entries.len() == 0 {
        Seq::empty()
    } else {
        lists_of(entries.drop_last()) + column_lists(
            entries.last().id(),
            entries.last().parts(),
            walk(entries.drop_last()).len() as int,
        )
    }
}

/// What is known of a published section: its cells, its lists and its bytes.
pub struct SectionView {
    pub cells: Seq<SectionCell>,
    pub lists: Seq<ListView>,
    pub bytes: Seq<u8>,
}

/// `index` says of every walked cell where it stands.
pub open spec fn indexes(index: Seq<SectionCell>, cells: Seq<CellView>) -> bool {
    &&& index.len() == cells.len()
    &&& forall|i: int|
        0 <= i < index.len() ==> {
            &&& (#[trigger] index[i]).superfile_id == cells[i].superfile_id
            &&& index[i].column@ == cells[i].column
            &&& index[i].cell_id == cells[i].cell_id
            &&& index[i].offset == total_size(cells.take(i))
            &&& index[i].len == cells[i].size()
        }
}

/// The list of a superfile's column; of several the last one counts.
pub open spec fn last_list(lists: Seq<ListView>, superfile_id: u128, column: Seq<char>) -> Option<ListView>
    decreases lists.len(),
{
    if lists.len() == 0 {
        None
    } else if lists.last().superfile_id == superfile_id && lists.last().column == column {
        Some(lists.last())
    } else {
        last_list(lists.drop_last(), superfile_id, column)
    }
}

/// The first of the cells from `start` to `end` that has this id.
pub open spec fn first_in(index: Seq<SectionCell>, start: int, end: int, cell_id: Option<u32>) -> Option<int>
    decreases end - start,
{
    if start >= end {
        None
    } else if index[start].cell_id == cell_id {
        Some(start)
    } else {
        first_in(index, start + 1, end, cell_id)
    }
}

impl SectionView {
    /// Where the section has a cell, among its cells.
    pub open spec fn find(self, superfile_id: u128, column: Seq<char>, cell_id: Option<u32>) -> Option<int> {
        match last_list(self.lists, superfile_id, column) {
            Some(list) => first_in(self.cells, list.start, list.end, cell_id),
            None => None,
        }
    }

    /// What the section holds for a cell: `None` when it has no such cell.
    pub open spec fn cell_bytes(self, superfile_id: u128, column: Seq<char>, cell_id: Option<u32>) -> Option<
        Seq<u8>,
    > {
        match self.find(superfile_id, column, cell_id) {
            Some(i) => Some(
                self.bytes.subrange(
                    self.cells[i].offset as int,
                    self.cells[i].offset + self.cells[i].len,
                ),
            ),
            None => None,
        }
    }
}

fn same_cell_id(a: Option<u32>, b: Option<u32>) -> (r: bool)
    ensures
        r == (a == b),
{
    match a {
        Some(x) => match b {
            Some(y) => x == y,
            None => false,
        },
        None => b.is_none(),
    }
}

impl CentroidSection {
    /// Every cell lies in a section of `size` bytes.
    pub open spec fn fits(self, size: int) -> bool {
        forall|i: int|
            0 <= i < self.cells.len() ==> (#[trigger] self.cells@[i]).offset + self.cells@[i].len <= size
    }

    /// Every list is a part of the cells.
    pub open spec fn well_formed(self) -> bool {
        forall|q: int|
            0 <= q < self.lists.len() ==> (#[trigger] self.lists@[q]).start <= self.lists@[q].end
                <= self.cells.len()
    }

    /// The section with its bytes.
    pub open spec fn with_bytes(self, bytes: Seq<u8>) -> SectionView {
        SectionView { cells: self.cells@, lists: list_views(self.lists@), bytes }
    }

    fn list_of(&self, superfile_id: u128, column: &str) -> (range: Option<(usize, usize)>)
        requires
            self.well_formed(),
        ensures
            match last_list(list_views(self.lists@), superfile_id, column@) {
                Some(l) => range == Some((l.start as usize, l.end as usize)) && 0 <= l.start <= l.end
                    <= self.cells.len(),
                None => range is None,
            },
    {
        let ghost views = list_views(self.lists@);
        let mut q: usize = self.lists.len();
        assert(views.take(q as int) =~= views);
        while q > 0
            invariant
                q <= self.lists.len(),
                self.well_formed(),
                views == list_views(self.lists@),
                last_list(views, superfile_id, column@) == last_list(
                    views.take(q as int),
                    superfile_id,
                    column@,
                ),
            decreases q,
        {
            let ghost upto = views.take(q as int);
            q = q - 1;
            let list = &self.lists[q];
            proof {
                assert(upto.drop_last() =~= views.take(q as int));
                assert(upto.last() == list_view(self.lists@[q as int]));
            }
            if list.superfile_id == superfile_id && same_text(list.column.as_str(), column) {
                return Some((list.start, list.end));
            }
        }
        assert(views.take(0) =~= Seq::<ListView>::empty());
        None
    }

    /// Where the section has the cell: its offset and its length.
    pub fn locate(&self, superfile_id: u128, column: &str, cell_id: Option<u32>) -> (place: Option<(u64, u64)>)
        requires
            self.well_formed(),
        ensures
            match self.with_bytes(Seq::empty()).find(superfile_id, column@, cell_id) {
                Some(i) => place == Some((self.cells@[i].offset, self.cells@[i].len)) && 0 <= i
                    < self.cells.len(),
                None => place is None,
            },
    {
        let (start, end) = match self.list_of(superfile_id, column) {
            None => {
                return None;
            },
            Some(range) => range,
        };
        let mut i: usize = start;
        let ghost list = last_list(list_views(self.lists@), superfile_id, column@);
        while i < end
            invariant
                start <= i <= end <= self.cells.len(),
                list == last_list(list_views(self.lists@), superfile_id, column@),
                list is Some,
                list->0.start == start,
                list->0.end == end,
                first_in(self.cells@, start as int, end as int, cell_id) == first_in(
                    self.cells@,
                    i as int,
                    end as int,
                    cell_id,
                ),
            decreases end - i,
        {
            let cell = &self.cells[i];
            if same_cell_id(cell.cell_id, cell_id) {
                return Some((cell.offset, cell.len));
            }
            i = i + 1;
        }
        None
    }

    /// The cell's bytes as they stand in the section; `None` when the section
    /// has no such cell.
    pub fn read_cell_bytes(
        &self,
        section: &[u8],
        superfile_id: u128,
        column: &str,
        cell_id: Option<u32>,
    ) -> (bytes: Option<Vec<u8>>)
        requires
            self.well_formed(),
            self.fits(section.len() as int),
        ensures
            match self.with_bytes(section@).cell_bytes(superfile_id, column@, cell_id) {
                Some(b) => bytes is Some && bytes->0@ == b,
                None => bytes is None,
            },
    {
        match self.locate(superfile_id, column, cell_id) {
            None => None,
            Some((offset, len)) => Some(
                copy_range(section, offset as usize, (offset + len) as usize),
            ),
        }
    }
}

proof fn walk_grows(entries: Seq<EntrySummary>, n: int)
    requires
        0 <= n <= entries.len(),
    ensures
        walk(entries.take(n)).len() <= walk(entries).len(),
    decreases entries.len() - n,
{
    if n < entries.len() {
        walk_grows(entries, n + 1);
        assert(entries.take(n + 1).drop_last() =~= entries.take(n));
    } else {
        assert(entries.take(n) =~= entries);
    }
}

proof fn columns_grow(superfile_id: u128, columns: Seq<ColumnSummary>, n: int)
    requires
        0 <= n <= columns.len(),
    ensures
        walk_columns(superfile_id, columns.take(n)).len() <= walk_columns(superfile_id, columns).len(),
    decreases columns.len() - n,
{
    if n < columns.len() {
        columns_grow(superfile_id, columns, n + 1);
        assert(columns.take(n + 1).drop_last() =~= columns.take(n));
    } else {
        assert(columns.take(n) =~= columns);
    }
}

fn list_columns(entries: &Vec<EntrySummary>) -> (lists: Vec<SectionList>)
    requires
        walk(entries@).len() <= usize::MAX,
    ensures
        list_views(lists@) == lists_of(entries@),
        forall|q: int|
            0 <= q < lists.len() ==> (#[trigger] lists@[q]).start <= lists@[q].end <= walk(entries@).len(),
{
    let mut lists: Vec<SectionList> = Vec::new();
    let mut cursor: usize = 0;
    let mut e: usize = 0;
    assert(entries@.take(0) =~= Seq::<EntrySummary>::empty());
    assert(list_views(lists@) =~= lists_of(entries@.take(0)));
    while e < entries.len()
        invariant
            e <= entries.len(),
            walk(entries@).len() <= usize::MAX,
            cursor == walk(entries@.take(e as int)).len(),
            list_views(lists@) == lists_of(entries@.take(e as int)),
            forall|q: int|
                0 <= q < lists.len() ==> (#[trigger] lists@[q]).start <= lists@[q].end <= walk(
                    entries@,
                ).len(),
        decreases entries.len() - e,
    {
        let id: u128 = entries[e].superfile_id;
        let columns: &Vec<ColumnSummary> = &entries[e].columns;
        let ghost base = cursor as int;
        let ghost sofar = lists_of(entries@.take(e as int));
        proof {
            walk_grows(entries@, e + 1);
            assert(entries@.take(e + 1).drop_last() =~= entries@.take(e as int));
            assert(entries@.take(e + 1).last() == entries@[e as int]);
            assert(columns@.take(0) =~= Seq::<ColumnSummary>::empty());
            assert(list_views(lists@) =~= sofar + column_lists(id, columns@.take(0), base));
        }
        let mut c: usize = 0;
        while c < columns.len()
            invariant
                c <= columns.len(),
                base + walk_columns(id, columns@).len() <= walk(entries@).len(),
                walk(entries@).len() <= usize::MAX,
                cursor == base + walk_columns(id, columns@.take(c as int)).len(),
                list_views(lists@) == sofar + column_lists(id, columns@.take(c as int), base),
                forall|q: int|
                    0 <= q < lists.len() ==> (#[trigger] lists@[q]).start <= lists@[q].end <= walk(
                        entries@,
                    ).len(),
            decreases columns.len() - c,
        {
            let ghost before = lists@;
            proof {
                columns_grow(id, columns@, c + 1);
                assert(columns@.take(c + 1).drop_last() =~= columns@.take(c as int));
                assert(columns@.take(c + 1).last() == columns@[c as int]);
            }
            let start: usize = cursor;
            cursor = cursor + columns[c].cells.len();
            lists.push(
                SectionList { superfile_id: id, column: columns[c].column.clone(), start, end: cursor },
            );
            proof {
                assert(list_views(lists@) =~= list_views(before).push(list_view(lists@.last())));
                assert(list_views(lists@) =~= sofar + column_lists(id, columns@.take(c + 1), base));
            }
            c = c + 1;
        }
        assert(columns@.take(c as int) =~= columns@);
        e = e + 1;
    }
    assert(entries@.take(e as int) =~= entries@);
    lists
}

/// Where the cells of a section of this membership stand.
pub fn index_section(uri: String, entries: &Vec<EntrySummary>) -> (section: CentroidSection)
    requires
        total_size(walk(entries@)) <= usize::MAX,
    ensures
        section.uri == uri,
        indexes(section.cells@, walk(entries@)),
        list_views(section.lists@) == lists_of(entries@),
        section.well_formed(),
        section.fits(total_size(walk(entries@))),
{
    let walked = walk_entries(entries);
    let ghost cells = walk(entries@);
    let mut index: Vec<SectionCell> = Vec::new();
    let mut cursor: u64 = 0;
    let mut i: usize = 0;
    assert(cells.take(0) =~= Seq::<CellView>::empty());
    while i < walked.len()
        invariant
            i <= walked.len(),
            cells == views(walked@),
            total_size(cells) <= usize::MAX,
            cursor == total_size(cells.take(i as int)),
            index.len() == i,
            forall|k: int|
                0 <= k < i ==> {
                    &&& (#[trigger] index@[k]).superfile_id == cells[k].superfile_id
                    &&& index@[k].column@ == cells[k].column
                    &&& index@[k].cell_id == cells[k].cell_id
                    &&& index@[k].offset == total_size(cells.take(k))
                    &&& index@[k].len == cells[k].size()
                    &&& index@[k].offset + index@[k].len <= total_size(cells)
                },
        decreases walked.len() - i,
    {
        let n_cent: u64 = walked[i].cell.n_cent as u64;
        let dim: u64 = walked[i].cell.dim as u64;
        proof {
            walked_counts(walked@);
            total_of_prefix(cells, i as int);
            total_of_prefix(cells, i + 1);
            assert(cells.take(i + 1).drop_last() =~= cells.take(i as int));
            assert(cells.take(i + 1).last() == cells[i as int]);
            assert(0 <= n_cent * dim <= n_cent * dim * 4) by (nonlinear_arith)
                requires
                    n_cent >= 0,
                    dim >= 0,
            ;
        }
        let len: u64 = n_cent * dim * 4;
        index.push(
            SectionCell {
                superfile_id: walked[i].superfile_id,
                column: walked[i].column.clone(),
                cell_id: walked[i].cell.cell_id,
                offset: cursor,
                len,
            },
        );
        cursor = cursor + len;
        i = i + 1;
    }
    assert(walk(entries@).len() == walked@.len());
    let lists = list_columns(entries);
    CentroidSection { uri, cells: index, lists }
}

/// The index of a fetched section, after holding the section to the membership's
/// size and to the hash that it is addressed by.
pub fn fetch_centroid_section(
    uri: String,
    content_hash: &ContentHash,
    entries: &Vec<EntrySummary>,
    section: &[u8],
) -> (result: Result<CentroidSection, SlowVectorStateError>)
    requires
        total_size(walk(entries@)) <= usize::MAX,
    ensures
        section_opened(
            result,
            uri,
            entries@,
            section.len() as int,
            blake3_digest(section@) == content_hash.bytes@,
        ),
{
    let expected: usize = section_len(entries);
    if section.len() != expected {
        return Err(
            SlowVectorStateError::Parse(
                ParseFault::SectionSize { size: section.len() as u64, expected: expected as u64 },
            ),
        );
    }
    let got = ContentHash::of(section);
    open_hashed_section(uri, content_hash, entries, section.len(), &got)
}

/// The index of a fetched section of `size` bytes whose hash came out as `got`.
pub fn open_hashed_section(
    uri: String,
    content_hash: &ContentHash,
    entries: &Vec<EntrySummary>,
    size: usize,
    got: &ContentHash,
) -> (result: Result<CentroidSection, SlowVectorStateError>)
    requires
        total_size(walk(entries@)) <= usize::MAX,
    ensures
        section_opened(result, uri, entries@, size as int, got.bytes@ == content_hash.bytes@),
{
    let expected: usize = section_len(entries);
    if size != expected {
        return Err(
            SlowVectorStateError::Parse(
                ParseFault::SectionSize { size: size as u64, expected: expected as u64 },
            ),
        );
    }
    if !got.same_as(content_hash) {
        return Err(SlowVectorStateError::HashMismatch);
    }
    Ok(index_section(uri, entries))
}

/// A section opens exactly when it has the membership's size and its own hash;
/// the size is held first.
pub open spec fn section_opened(
    result: Result<CentroidSection, SlowVectorStateError>,
    uri: String,
    entries: Seq<EntrySummary>,
    size: int,
    hash_matches: bool,
) -> bool {
    if size != total_size(walk(entries)) {
        result matches Err(SlowVectorStateError::Parse(ParseFault::SectionSize { size: s, expected: x })) && s
            == size && x == total_size(walk(entries))
    } else if !hash_matches {
        result matches Err(SlowVectorStateError::HashMismatch)
    } else {
        &&& result is Ok
        &&& result->Ok_0.uri == uri
        &&& indexes(result->Ok_0.cells@, walk(entries))
        &&& list_views(result->Ok_0.lists@) == lists_of(entries)
        &&& result->Ok_0.well_formed()
        &&& result->Ok_0.fits(size)
    }
}

// ---------------------------------------------------------------------------
// Composing a section
// ---------------------------------------------------------------------------

/// A cell's centroids from the first source that has them: memory, or the
/// section of the previous generation when it has the cell in the same size. A
/// cell without centroids has none to find.
pub open spec fn cell_source(cell: CellView, previous: Option<SectionView>) -> Option<Seq<u8>> {
    if cell.size() == 0 {
        Some(Seq::empty())
    } else {
        match cell.resident {
            Some(bytes) => Some(bytes),
            None => match previous {
                Some(section) => match section.cell_bytes(
                    cell.superfile_id,
                    cell.column,
                    cell.cell_id,
                ) {
                    Some(bytes) => if bytes.len() == cell.size() {
                        Some(bytes)
                    } else {
                        None
                    },
                    None => None,
                },
                None => None,
            },
        }
    }
}

/// The section of the walked cells.
pub open spec fn composed(cells: Seq<CellView>, previous: Option<SectionView>) -> Seq<u8>
    decreases cells.len(),
{
    if cells.len() == 0 {
        Seq::empty()
    } else {
        composed(cells.drop_last(), previous) + cell_source(cells.last(), previous)->0
    }
}

/// Every cell has a source.
pub open spec fn all_sourced(cells: Seq<CellView>, previous: Option<SectionView>) -> bool {
    forall|i: int| 0 <= i < cells.len() ==> cell_source(#[trigger] cells[i], previous) is Some
}

pub open spec fn previous_view(previous: Option<(&CentroidSection, &[u8])>) -> Option<SectionView> {
    match previous {
        Some((section, bytes)) => Some(section.with_bytes(bytes@)),
        None => None,
    }
}

/// Composes the section of a new generation. Fails on the first cell whose
/// centroids are neither in memory nor in the previous generation's section.
pub fn compose_centroid_section(
    entries: &Vec<EntrySummary>,
    previous: Option<(&CentroidSection, &[u8])>,
) -> (result: Result<Vec<u8>, SlowVectorStateError>)
    requires
        total_size(walk(entries@)) <= usize::MAX,
        previous matches Some(p) ==> p.0.well_formed() && p.0.fits(p.1.len() as int),
    ensures
        match result {
            Ok(section) => all_sourced(walk(entries@), previous_view(previous)) && section@ == composed(
                walk(entries@),
                previous_view(previous),
            ),
            Err(e) => e is Parse && e->Parse_0 is NoCentroidSource && exists|i: int|
                0 <= i < walk(entries@).len() && all_sourced(
                    walk(entries@).take(i),
                    previous_view(previous),
                ) && cell_source(#[trigger] walk(entries@)[i], previous_view(previous)) is None
                    && walk(entries@)[i].is_at(
                    e->Parse_0->superfile_id,
                    e->Parse_0->column@,
                    e->Parse_0->cell_id,
                ),
        },
{
    let walked = walk_entries(entries);
    let ghost cells = walk(entries@);
    let ghost prev = previous_view(previous);
    let mut out: Vec<u8> = Vec::new();
    let mut i: usize = 0;
    assert(cells.take(0) =~= Seq::<CellView>::empty());
    while i < walked.len()
        invariant
            i <= walked.len(),
            cells == views(walked@),
            prev == previous_view(previous),
            previous matches Some(p) ==> p.0.well_formed() && p.0.fits(p.1.len() as int),
            total_size(cells) <= usize::MAX,
            cells == walk(entries@),
            all_sourced(cells.take(i as int), prev),
            out@ == composed(cells.take(i as int), prev),
        decreases walked.len() - i,
    {
        let n_cent: usize = walked[i].cell.n_cent as usize;
        let dim: usize = walked[i].cell.dim as usize;
        proof {
            walked_counts(walked@);
            total_of_prefix(cells, i as int);
            total_of_prefix(cells, i + 1);
            assert(cells.take(i + 1).drop_last() =~= cells.take(i as int));
            assert(cells.take(i + 1).last() == cells[i as int]);
            assert(0 <= n_cent * dim <= n_cent * dim * 4) by (nonlinear_arith)
                requires
                    n_cent >= 0,
                    dim >= 0,
            ;
        }
        let expected: usize = n_cent * dim * 4;
        assert(expected == cells[i as int].size());
        if expected > 0 {
            let cell = walked[i].cell;
            match &cell.resident {
                Some(bytes) => {
                    push_bytes(&mut out, bytes.as_slice());
                },
                None => {
                    let carried: Option<Vec<u8>> = match previous {
                        None => None,
                        Some((section, bytes)) => match section.read_cell_bytes(
                            bytes,
                            walked[i].superfile_id,
                            walked[i].column.as_str(),
                            cell.cell_id,
                        ) {
                            Some(found) => if found.len() == expected {
                                Some(found)
                            } else {
                                None
                            },
                            None => None,
                        },
                    };
                    match carried {
                        Some(found) => {
                            push_bytes(&mut out, found.as_slice());
                        },
                        None => {
                            assert(cell_source(cells[i as int], prev) is None);
                            return Err(
                                SlowVectorStateError::Parse(
                                    ParseFault::NoCentroidSource {
                                        superfile_id: walked[i].superfile_id,
                                        column: walked[i].column.clone(),
                                        cell_id: cell.cell_id,
                                    },
                                ),
                            );
                        },
                    }
                },
            }
        } else {
            assert(out@ + Seq::<u8>::empty() =~= out@);
        }
        proof {
            assert(cell_source(cells[i as int], prev) is Some);
            assert forall|k: int| 0 <= k < i + 1 implies cell_source(
                #[trigger] cells.take(i + 1)[k],
                prev,
            ) is Some by {
                if k < i {
                    assert(cells.take(i as int)[k] == cells.take(i + 1)[k]);
                }
            }
        }
        i = i + 1;
    }
    assert(cells.take(i as int) =~= cells);
    Ok(out)
}

// ---------------------------------------------------------------------------
// Laws
// ---------------------------------------------------------------------------

/// Centroids in memory have the size that their cell says.
pub open spec fn resident_sizes_hold(cells: Seq<CellView>) -> bool {
    forall|i: int|
        0 <= i < cells.len() ==> ((#[trigger] cells[i]).resident matches Some(b) ==> b.len()
            == cells[i].size())
}

/// A composed section has the length that the membership calls for.
pub proof fn composed_length(cells: Seq<CellView>, previous: Option<SectionView>)
    requires
        resident_sizes_hold(cells),
        all_sourced(cells, previous),
    ensures
        composed(cells, previous).len() == total_size(cells),
    decreases cells.len(),
{
    if cells.len() > 0 {
        let less = cells.drop_last();
        assert(resident_sizes_hold(less)) by {
            assert forall|i: int| 0 <= i < less.len() implies ((#[trigger] less[i]).resident matches Some(b)
                ==> b.len() == less[i].size()) by {
                assert(less[i] == cells[i]);
            }
        }
        assert(all_sourced(less, previous)) by {
            assert forall|i: int| 0 <= i < less.len() implies cell_source(
                #[trigger] less[i],
                previous,
            ) is Some by {
                assert(less[i] == cells[i]);
            }
        }
        composed_length(less, previous);
        assert(cell_source(cells.last(), previous) is Some);
    }
}

/// No two cells have the same superfile, column and id.
pub open spec fn cells_distinct(cells: Seq<CellView>) -> bool {
    forall|i: int, j: int|
        0 <= i < j < cells.len() ==> !(#[trigger] cells[i]).is_at(
            (#[trigger] cells[j]).superfile_id,
            cells[j].column,
            cells[j].cell_id,
        )
}

/// The same cell without its centroids in memory.
pub open spec fn stripped(cell: CellView) -> CellView {
    CellView { resident: None, ..cell }
}

/// The same membership without centroids in memory.
pub open spec fn all_stripped(cells: Seq<CellView>) -> Seq<CellView> {
    Seq::new(cells.len(), |i: int| stripped(cells[i]))
}

proof fn composed_piece(cells: Seq<CellView>, previous: Option<SectionView>, i: int)
    requires
        resident_sizes_hold(cells),
        all_sourced(cells, previous),
        counts(cells),
        0 <= i < cells.len(),
    ensures
        0 <= total_size(cells.take(i)),
        total_size(cells.take(i)) + cells[i].size() <= composed(cells, previous).len(),
        composed(cells, previous).subrange(
            total_size(cells.take(i)),
            total_size(cells.take(i)) + cells[i].size(),
        ) == cell_source(cells[i], previous)->0,
    decreases cells.len(),
{
    let less = cells.drop_last();
    composed_length(cells, previous);
    assert(resident_sizes_hold(less) && all_sourced(less, previous) && counts(less)) by {
        assert forall|k: int| 0 <= k < less.len() implies #[trigger] less[k] == cells[k] by {}
    }
    composed_length(less, previous);
    if i == cells.len() - 1 {
        assert(cells.take(i) =~= less);
        total_of_prefix(less, less.len() as int);
        assert(less.take(less.len() as int) =~= less);
        size_is_not_negative(cells[i]);
        assert(cell_source(cells.last(), previous) is Some);
        assert(composed(cells, previous).subrange(
            total_size(less),
            total_size(less) + cells[i].size(),
        ) =~= cell_source(cells[i], previous)->0);
    } else {
        composed_piece(less, previous, i);
        assert(less.take(i) =~= cells.take(i));
        assert(less[i] == cells[i]);
        size_is_not_negative(cells[i]);
        assert(composed(cells, previous).subrange(
            total_size(cells.take(i)),
            total_size(cells.take(i)) + cells[i].size(),
        ) =~= composed(less, previous).subrange(
            total_size(cells.take(i)),
            total_size(cells.take(i)) + cells[i].size(),
        ));
    }
}

/// No two lists are of the same superfile and column.
pub open spec fn lists_distinct(lists: Seq<ListView>) -> bool {
    forall|p: int, q: int|
        0 <= p < q < lists.len() ==> !((#[trigger] lists[p]).superfile_id == (
        #[trigger] lists[q]).superfile_id && lists[p].column == lists[q].column)
}

/// The lists part the cells: each list has cells of its superfile and column
/// alone, and every cell is in one.
spec fn parts_cells(lists: Seq<ListView>, cells: Seq<CellView>, from: int) -> bool {
    &&& forall|q: int|
        0 <= q < lists.len() ==> from <= (#[trigger] lists[q]).start <= lists[q].end <= cells.len()
    &&& forall|q: int, k: int|
        0 <= q < lists.len() && (#[trigger] lists[q]).start <= k < lists[q].end ==> (
        #[trigger] cells[k]).superfile_id == lists[q].superfile_id && cells[k].column == lists[q].column
    &&& forall|k: int| from <= k < cells.len() ==> #[trigger] is_listed(lists, k)
}

/// The cell at place `k` is in a list.
spec fn is_listed(lists: Seq<ListView>, k: int) -> bool {
    exists|q: int| 0 <= q < lists.len() && (#[trigger] lists[q]).start <= k < lists[q].end
}

proof fn columns_are_parted(superfile_id: u128, columns: Seq<ColumnSummary>, before: Seq<CellView>)
    ensures
        parts_cells(
            column_lists(superfile_id, columns, before.len() as int),
            before + walk_columns(superfile_id, columns),
            before.len() as int,
        ),
    decreases columns.len(),
{
    let base = before.len() as int;
    let lists = column_lists(superfile_id, columns, base);
    let cells = before + walk_columns(superfile_id, columns);
    if columns.len() > 0 {
        let init = columns.drop_last();
        let less = column_lists(superfile_id, init, base);
        let fewer = before + walk_columns(superfile_id, init);
        columns_are_parted(superfile_id, init, before);
        let last = columns.last();
        assert(cells =~= fewer + walk_cells(superfile_id, last.column@, last.cells@));
        assert forall|q: int| 0 <= q < lists.len() implies base <= (#[trigger] lists[q]).start
            <= lists[q].end <= cells.len() by {
            if q < less.len() {
                assert(lists[q] == less[q]);
            }
        }
        assert forall|q: int, k: int|
            0 <= q < lists.len() && (#[trigger] lists[q]).start <= k < lists[q].end implies (
        #[trigger] cells[k]).superfile_id == lists[q].superfile_id && cells[k].column == lists[q].column by {
            if q < less.len() {
                assert(lists[q] == less[q]);
                assert(cells[k] == fewer[k]);
            }
        }
        assert forall|k: int| base <= k < cells.len() implies #[trigger] is_listed(lists, k) by {
            if k < fewer.len() {
                assert(is_listed(less, k));
                let q = choose|q: int|
                    0 <= q < less.len() && (#[trigger] less[q]).start <= k < less[q].end;
                assert(lists[q] == less[q]);
            } else {
                assert(lists[lists.len() - 1].start <= k < lists[lists.len() - 1].end);
            }
        }
    }
}

proof fn membership_is_parted(entries: Seq<EntrySummary>)
    ensures
        parts_cells(lists_of(entries), walk(entries), 0),
    decreases entries.len(),
{
    let lists = lists_of(entries);
    let cells = walk(entries);
    if entries.len() > 0 {
        let init = entries.drop_last();
        let less = lists_of(init);
        let fewer = walk(init);
        membership_is_parted(init);
        let own = column_lists(entries.last().id(), entries.last().parts(), fewer.len() as int);
        columns_are_parted(entries.last().id(), entries.last().parts(), fewer);
        assert forall|q: int| 0 <= q < lists.len() implies 0 <= (#[trigger] lists[q]).start <= lists[q].end
            <= cells.len() by {
            if q < less.len() {
                assert(lists[q] == less[q]);
            } else {
                assert(lists[q] == own[q - less.len()]);
            }
        }
        assert forall|q: int, k: int|
            0 <= q < lists.len() && (#[trigger] lists[q]).start <= k < lists[q].end implies (
        #[trigger] cells[k]).superfile_id == lists[q].superfile_id && cells[k].column == lists[q].column by {
            if q < less.len() {
                assert(lists[q] == less[q]);
                assert(cells[k] == fewer[k]);
            } else {
                assert(lists[q] == own[q - less.len()]);
            }
        }
        assert forall|k: int| 0 <= k < cells.len() implies #[trigger] is_listed(lists, k) by {
            if k < fewer.len() {
                assert(is_listed(less, k));
                let q = choose|q: int|
                    0 <= q < less.len() && (#[trigger] less[q]).start <= k < less[q].end;
                assert(lists[q] == less[q]);
            } else {
                assert(is_listed(own, k));
                let q = choose|q: int| 0 <= q < own.len() && (#[trigger] own[q]).start <= k < own[q].end;
                assert(lists[less.len() + q] == own[q]);
            }
        }
    }
}

proof fn only_list_is_last(lists: Seq<ListView>, q: int, n: int)
    requires
        lists_distinct(lists),
        0 <= q < n <= lists.len(),
    ensures
        last_list(lists.take(n), lists[q].superfile_id, lists[q].column) == Some(lists[q]),
    decreases n,
{
    assert(lists.take(n).drop_last() =~= lists.take(n - 1));
    assert(lists.take(n).last() == lists[n - 1]);
    if q < n - 1 {
        only_list_is_last(lists, q, n - 1);
        assert(!(lists[q].superfile_id == lists[n - 1].superfile_id && lists[q].column
            == lists[n - 1].column));
    }
}

proof fn first_is_the_only(index: Seq<SectionCell>, start: int, end: int, i: int)
    requires
        start <= i < end,
        forall|k: int| start <= k < i ==> (#[trigger] index[k]).cell_id != index[i].cell_id,
    ensures
        first_in(index, start, end, index[i].cell_id) == Some(i),
    decreases i - start,
{
    if start < i {
        assert(index[start].cell_id != index[i].cell_id);
        first_is_the_only(index, start + 1, end, i);
    }
}

/// The section of a membership, as it was composed.
pub open spec fn published(entries: Seq<EntrySummary>, index: Seq<SectionCell>, previous: Option<SectionView>) -> SectionView {
    SectionView {
        cells: index,
        lists: lists_of(entries),
        bytes: composed(walk(entries), previous),
    }
}

/// A published section serves every cell of its membership exactly as it was
/// composed, when no superfile, column or cell is there twice.
pub proof fn section_serves_its_cells(
    entries: Seq<EntrySummary>,
    index: Seq<SectionCell>,
    previous: Option<SectionView>,
    i: int,
)
    requires
        resident_sizes_hold(walk(entries)),
        all_sourced(walk(entries), previous),
        cells_distinct(walk(entries)),
        lists_distinct(lists_of(entries)),
        indexes(index, walk(entries)),
        0 <= i < walk(entries).len(),
    ensures
        ({
            let cell = walk(entries)[i];
            published(entries, index, previous).cell_bytes(cell.superfile_id, cell.column, cell.cell_id)
                == Some(cell_source(cell, previous)->0)
        }),
{
    let cells = walk(entries);
    let lists = lists_of(entries);
    walk_counts(entries);
    membership_is_parted(entries);
    assert(is_listed(lists, i));
    let q = choose|q: int| 0 <= q < lists.len() && (#[trigger] lists[q]).start <= i < lists[q].end;
    assert(cells[i].superfile_id == lists[q].superfile_id && cells[i].column == lists[q].column);
    only_list_is_last(lists, q, lists.len() as int);
    assert(lists.take(lists.len() as int) =~= lists);
    assert forall|k: int| lists[q].start <= k < i implies (#[trigger] index[k]).cell_id != index[i].cell_id by {
        assert(cells[k].superfile_id == lists[q].superfile_id && cells[k].column == lists[q].column);
        assert(!cells[k].is_at(cells[i].superfile_id, cells[i].column, cells[i].cell_id));
        assert(index[k].cell_id == cells[k].cell_id && index[i].cell_id == cells[i].cell_id);
    }
    first_is_the_only(index, lists[q].start, lists[q].end, i);
    assert(index[i].offset == total_size(cells.take(i)));
    composed_piece(cells, previous, i);
}

proof fn column_counts(superfile_id: u128, columns: Seq<ColumnSummary>)
    ensures
        counts(walk_columns(superfile_id, columns)),
    decreases columns.len(),
{
    if columns.len() > 0 {
        column_counts(superfile_id, columns.drop_last());
        let less = walk_columns(superfile_id, columns.drop_last());
        let all = walk_columns(superfile_id, columns);
        assert forall|i: int| 0 <= i < all.len() implies (#[trigger] all[i]).n_cent >= 0 && all[i].dim >= 0 by {
            if i < less.len() {
                assert(all[i] == less[i]);
            }
        }
    }
}

proof fn walk_counts(entries: Seq<EntrySummary>)
    ensures
        counts(walk(entries)),
    decreases entries.len(),
{
    if entries.len() > 0 {
        walk_counts(entries.drop_last());
        column_counts(entries.last().id(), entries.last().parts());
        let less = walk(entries.drop_last());
        let own = walk_columns(entries.last().id(), entries.last().parts());
        let all = walk(entries);
        assert forall|i: int| 0 <= i < all.len() implies (#[trigger] all[i]).n_cent >= 0 && all[i].dim >= 0 by {
            if i < less.len() {
                assert(all[i] == less[i]);
            } else {
                assert(all[i] == own[i - less.len()]);
            }
        }
    }
}

/// A generation that carries the same cells forward, with none of them in
/// memory, composes the same section from the previous one, when no superfile,
/// column or cell is there twice.
pub proof fn carried_section_is_the_same(
    entries: Seq<EntrySummary>,
    index: Seq<SectionCell>,
    previous: Option<SectionView>,
)
    requires
        resident_sizes_hold(walk(entries)),
        all_sourced(walk(entries), previous),
        cells_distinct(walk(entries)),
        lists_distinct(lists_of(entries)),
        indexes(index, walk(entries)),
    ensures
        ({
            let again = Some(published(entries, index, previous));
            &&& all_sourced(all_stripped(walk(entries)), again)
            &&& composed(all_stripped(walk(entries)), again) == composed(walk(entries), previous)
        }),
{
    let cells = walk(entries);
    let again = Some(published(entries, index, previous));
    let bare = all_stripped(cells);
    assert forall|i: int| 0 <= i < cells.len() implies cell_source(#[trigger] bare[i], again)
        == cell_source(cells[i], previous) && cell_source(bare[i], again) is Some by {
        section_serves_its_cells(entries, index, previous, i);
        assert(cell_source(cells[i], previous) is Some);
        let c = cells[i];
        assert(bare[i].size() == c.size());
        if c.size() != 0 {
            assert(cell_source(c, previous)->0.len() == c.size());
        }
    }
    same_sources_same_section(cells, bare, previous, again);
}

proof fn same_sources_same_section(
    a: Seq<CellView>,
    b: Seq<CellView>,
    pa: Option<SectionView>,
    pb: Option<SectionView>,
)
    requires
        a.len() == b.len(),
        forall|i: int| 0 <= i < a.len() ==> cell_source(#[trigger] b[i], pb) == cell_source(a[i], pa),
    ensures
        composed(a, pa) == composed(b, pb),
    decreases a.len(),
{
    if a.len() > 0 {
        assert forall|i: int| 0 <= i < a.drop_last().len() implies cell_source(
            #[trigger] b.drop_last()[i],
            pb,
        ) == cell_source(a.drop_last()[i], pa) by {
            assert(b.drop_last()[i] == b[i]);
        }
        same_sources_same_section(a.drop_last(), b.drop_last(), pa, pb);
        assert(b[b.len() - 1] == b.last());
    }
}

/// Without a source for some cell there is no section: a cell that is neither
/// in memory nor in a previous section has none.
pub proof fn stripped_cell_needs_a_previous_section(cell: CellView)
    requires
        cell.size() != 0,
    ensures
        cell_source(stripped(cell), None) is None,
{
    assert(stripped(cell).size() == cell.size());
}

} // verus!
