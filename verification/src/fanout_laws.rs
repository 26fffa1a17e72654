//! How a commit's rows end up in superfiles, seen from outside.
use vstd::prelude::*;

use crate::fanout::{
    all_divide, all_rows, balanced_split_keeps_every_row, build_scratch, cell_pieces,
    cell_rows_view, cells_of, in_range_before, is_balanced_split, is_cell_split, joined_rows,
    piece_rows, piece_start, piece_starts_chain, piece_target, rows_before, rows_in_cell,
    superfile_count, taken_rows, AssignedBatch, CellRows, RowSlice, VectorColumnView,
};

verus! {

// ---------------------------------------------------------------------------
// By cell
// ---------------------------------------------------------------------------

/// A row is in the rows of a cell if and only if it is assigned to the cell; the
/// rows ascend, so each is there once.
pub proof fn rows_of_a_cell_are_those_assigned(assigned: Seq<u32>, cell: int)
    requires
        assigned.len() <= usize::MAX,
    ensures
        forall|r: int|
            0 <= r < assigned.len() ==> (rows_in_cell(assigned, cell).contains(r as usize) <==> #[trigger] assigned[r]
                == cell),
        forall|i: int|
            0 <= i < rows_in_cell(assigned, cell).len() ==> (#[trigger] rows_in_cell(assigned, cell)[i])
                < assigned.len(),
        forall|i: int, j: int|
            0 <= i < j < rows_in_cell(assigned, cell).len() ==> (#[trigger] rows_in_cell(assigned, cell)[i]) < (
            #[trigger] rows_in_cell(assigned, cell)[j]),
    decreases assigned.len(),
{
    if assigned.len() > 0 {
        let less = assigned.drop_last();
        let n = assigned.len() - 1;
        rows_of_a_cell_are_those_assigned(less, cell);
        let before = rows_in_cell(less, cell);
        let after = rows_in_cell(assigned, cell);
        assert forall|r: int| 0 <= r < assigned.len() implies (after.contains(r as usize)
            <==> #[trigger] assigned[r] == cell) by {
            if r < n {
                assert(less[r] == assigned[r]);
                if before.contains(r as usize) {
                    let i = choose|i: int| 0 <= i < before.len() && before[i] == r as usize;
                    assert(after[i] == r as usize);
                }
                if after.contains(r as usize) {
                    let i = choose|i: int| 0 <= i < after.len() && after[i] == r as usize;
                    assert(before[i] == r as usize);
                }
            } else {
                if assigned[r] == cell {
                    assert(after[after.len() - 1] == r as usize);
                }
                if after.contains(r as usize) && assigned[r] != cell {
                    let i = choose|i: int| 0 <= i < after.len() && after[i] == r as usize;
                    assert(before[i] < less.len());
                }
            }
        }
    }
}

/// The pieces of a cell: one for each batch that has rows of it, in order, with
/// those rows.
proof fn pieces_are_those_with_rows(batches: Seq<Vec<u32>>, cell: int, b: int)
    requires
        0 <= b < batches.len() <= usize::MAX,
    ensures
        rows_in_cell(batches[b]@, cell).len() > 0 ==> exists|p: int|
            0 <= p < cell_pieces(batches, cell).len() && (#[trigger] cell_pieces(batches, cell)[p]) == (
                b as usize,
                rows_in_cell(batches[b]@, cell),
            ),
        forall|p: int|
            0 <= p < cell_pieces(batches, cell).len() ==> {
                let piece = #[trigger] cell_pieces(batches, cell)[p];
                &&& piece.0 < batches.len()
                &&& piece.1 == rows_in_cell(batches[piece.0 as int]@, cell)
                &&& piece.1.len() > 0
            },
        forall|p: int, q: int|
            0 <= p < q < cell_pieces(batches, cell).len() ==> (#[trigger] cell_pieces(batches, cell)[p]).0 < (
            #[trigger] cell_pieces(batches, cell)[q]).0,
    decreases batches.len(),
{
    let less = batches.drop_last();
    let n = batches.len() - 1;
    let before = cell_pieces(less, cell);
    let after = cell_pieces(batches, cell);
    if less.len() > 0 {
        pieces_are_those_with_rows(less, cell, if b < n {
            b
        } else {
            0
        });
    }
    assert forall|p: int| 0 <= p < after.len() implies {
        let piece = #[trigger] after[p];
        &&& piece.0 < batches.len()
        &&& piece.1 == rows_in_cell(batches[piece.0 as int]@, cell)
        &&& piece.1.len() > 0
    } by {
        if p < before.len() {
            assert(after[p] == before[p]);
            assert(less[before[p].0 as int] == batches[before[p].0 as int]);
        }
    }
    assert forall|p: int, q: int| 0 <= p < q < after.len() implies (#[trigger] after[p]).0 < (
    #[trigger] after[q]).0 by {
        assert(after[p] == before[p]);
        if q < before.len() {
            assert(after[q] == before[q]);
        }
    }
    if rows_in_cell(batches[b]@, cell).len() > 0 {
        if b < n {
            assert(less[b] == batches[b]);
            let p = choose|p: int|
                0 <= p < before.len() && (#[trigger] before[p]) == (
                    b as usize,
                    rows_in_cell(less[b]@, cell),
                );
            assert(after[p] == before[p]);
        } else {
            assert(after[after.len() - 1] == (b as usize, rows_in_cell(batches[b]@, cell)));
        }
    }
}

/// The piece of a batch under the row's cell has the row.
pub open spec fn is_held(split: Seq<(u32, Vec<CellRows>)>, cell: u32, batch: int, row: int) -> bool {
    exists|i: int, p: int|
        {
            &&& 0 <= i < split.len()
            &&& 0 <= p < split[i].1.len()
            &&& split[i].0 == cell
            &&& (#[trigger] split[i].1@[p]).batch == batch
            &&& split[i].1@[p].rows@.contains(row as usize)
        }
}

/// No row is lost when rows are divided by cell: each is in a piece of its batch
/// under its own cell.
pub proof fn every_row_goes_to_its_cell(
    split: Seq<(u32, Vec<CellRows>)>,
    batches: Seq<AssignedBatch>,
    k: u32,
    b: int,
    r: int,
)
    requires
        batches.len() <= usize::MAX,
        in_range_before(cells_of(batches), k, batches.len() as int, 0),
        is_cell_split(split, cells_of(batches), k),
        0 <= b < batches.len(),
        0 <= r < batches[b].cells.len(),
    ensures
        is_held(split, batches[b].cells@[r], b, r),
{
    let lists = cells_of(batches);
    let cell = batches[b].cells@[r];
    assert(lists[b] == batches[b].cells);
    assert(lists[b]@[r] < k);
    rows_of_a_cell_are_those_assigned(lists[b]@, cell as int);
    assert(rows_in_cell(lists[b]@, cell as int).contains(r as usize));
    pieces_are_those_with_rows(lists, cell as int, b);
    let pieces = cell_pieces(lists, cell as int);
    let p = choose|p: int|
        0 <= p < pieces.len() && (#[trigger] pieces[p]) == (
            b as usize,
            rows_in_cell(lists[b]@, cell as int),
        );
    assert(pieces.len() > 0);
    let i = choose|i: int| 0 <= i < split.len() && (#[trigger] split[i]).0 == cell;
    assert(cell_rows_view(split[i].1@) == pieces);
    assert(cell_rows_view(split[i].1@)[p] == (split[i].1@[p].batch, split[i].1@[p].rows@));
}

/// No row comes twice, and none under another cell: a row of a piece is a row of
/// its batch that is assigned to the cell, the rows of a piece ascend, so do the
/// batches of a cell's pieces, and so do the cells.
pub proof fn rows_are_under_their_own_cell(
    split: Seq<(u32, Vec<CellRows>)>,
    batches: Seq<AssignedBatch>,
    k: u32,
    i: int,
    p: int,
)
    requires
        batches.len() <= usize::MAX,
        is_cell_split(split, cells_of(batches), k),
        0 <= i < split.len(),
        0 <= p < split[i].1.len(),
    ensures
        ({
            let piece = split[i].1@[p];
            let rows = piece.rows@;
            &&& piece.batch < batches.len()
            &&& rows.len() > 0
            &&& forall|q: int|
                0 <= q < rows.len() ==> (#[trigger] rows[q]) < batches[piece.batch as int].cells.len()
                    && batches[piece.batch as int].cells@[rows[q] as int] == split[i].0
            &&& forall|q: int, s: int| 0 <= q < s < rows.len() ==> (#[trigger] rows[q]) < (#[trigger] rows[s])
            &&& forall|q: int| p < q < split[i].1.len() ==> piece.batch < (#[trigger] split[i].1@[q]).batch
            &&& forall|j: int| i < j < split.len() ==> split[i].0 < (#[trigger] split[j]).0
        }),
{
    let lists = cells_of(batches);
    let cell = split[i].0 as int;
    let pieces = cell_pieces(lists, cell);
    assert(cell_rows_view(split[i].1@) == pieces);
    assert(pieces.len() == split[i].1.len());
    assert(lists.len() > 0) by {
        if lists.len() == 0 {
            assert(pieces.len() == 0);
        }
    }
    pieces_are_those_with_rows(lists, cell, 0);
    let piece = split[i].1@[p];
    assert(pieces[p] == (piece.batch, piece.rows@));
    let list = lists[piece.batch as int]@;
    assert(list == batches[piece.batch as int].cells@);
    assert(list.len() == batches[piece.batch as int].cells.len());
    rows_of_a_cell_are_those_assigned(list, cell);
    let rows = piece.rows@;
    assert forall|q: int| 0 <= q < rows.len() implies (#[trigger] rows[q]) < batches[piece.batch as int].cells.len()
        && batches[piece.batch as int].cells@[rows[q] as int] == split[i].0 by {
        assert(rows_in_cell(list, cell)[q] < list.len());
        assert(rows.contains(rows[q]));
        assert(list[rows[q] as int] == cell);
    }
    assert forall|q: int| p < q < split[i].1.len() implies piece.batch < (#[trigger] split[i].1@[q]).batch by {
        assert(pieces[q] == (split[i].1@[q].batch, split[i].1@[q].rows@));
        assert(pieces[p].0 < pieces[q].0);
    }
}

/// A batch with a column whose values do not divide across its rows is never
/// divided.
pub proof fn divided_batches_have_whole_vectors(batches: Seq<AssignedBatch>, b: int, c: int)
    requires
        all_divide(batches, batches.len() as int),
        0 <= b < batches.len(),
        0 < batches[b].cells.len(),
        0 <= c < batches[b].column_values.len(),
    ensures
        batches[b].column_values@[c] % batches[b].cells.len() == 0,
{
}

/// The values that are taken for a row are the row's own, in order.
pub proof fn taken_values_are_the_rows_own<T>(values: Seq<T>, rows: Seq<usize>, dim: int, j: int, d: int)
    requires
        dim >= 0,
        forall|i: int| 0 <= i < rows.len() ==> ((#[trigger] rows[i]) + 1) * dim <= values.len(),
        0 <= j < rows.len(),
        0 <= d < dim,
    ensures
        taken_rows(values, rows, dim).len() == rows.len() * dim,
        taken_rows(values, rows, dim)[j * dim + d] == values[rows[j] * dim + d],
    decreases rows.len(),
{
    let less = rows.drop_last();
    let n = rows.len() - 1;
    let r = rows[n] as int;
    assert((rows[n] + 1) * dim <= values.len());
    assert(0 <= r * dim && (r + 1) * dim == r * dim + dim) by (nonlinear_arith)
        requires
            r >= 0,
            dim >= 0,
    ;
    assert(rows.len() * dim == n * dim + dim) by (nonlinear_arith)
        requires
            rows.len() == n + 1,
    ;
    assert forall|i: int| 0 <= i < less.len() implies ((#[trigger] less[i]) + 1) * dim <= values.len() by {
        assert(less[i] == rows[i]);
    }
    if n > 0 {
        taken_values_are_the_rows_own(values, less, dim, if j < n {
            j
        } else {
            0
        }, d);
    } else {
        assert(less.len() * dim == 0) by (nonlinear_arith)
            requires
                less.len() == 0,
        ;
    }
    assert(taken_rows(values, less, dim).len() == n * dim);
    assert(0 <= j * dim) by (nonlinear_arith)
        requires
            j >= 0,
            dim >= 0,
    ;
    if j < n {
        assert(j * dim + d < n * dim) by (nonlinear_arith)
            requires
                j + 1 <= n,
                0 <= d < dim,
        ;
        assert(less[j] == rows[j]);
    }
}

// ---------------------------------------------------------------------------
// Evenly
// ---------------------------------------------------------------------------

/// The rows of slices one after another: those of the slices before, and then
/// the rows of each slice from its start on.
pub proof fn slices_list_their_rows(a: Seq<RowSlice>, s: RowSlice)
    ensures
        piece_rows(Seq::<RowSlice>::empty()).len() == 0,
        piece_rows(a.push(s)) == piece_rows(a) + Seq::new(s.len as nat, |k: int| (s.batch as int, s.start + k)),
{
    assert(a.push(s).drop_last() =~= a);
    assert(a.push(s).last() == s);
}

/// All rows of a buffer: batch by batch, each from its first row to its last.
pub proof fn a_buffer_lists_its_rows(batch_rows: Seq<usize>, n: usize)
    ensures
        all_rows(Seq::<usize>::empty()).len() == 0,
        all_rows(batch_rows.push(n)) == all_rows(batch_rows) + Seq::new(
            n as nat,
            |k: int| (batch_rows.len() as int, k),
        ),
{
    assert(batch_rows.push(n).drop_last() =~= batch_rows);
    assert(batch_rows.push(n).last() == n);
}

/// The rows of pieces one after another.
pub proof fn pieces_list_their_rows(a: Seq<Vec<RowSlice>>, piece: Vec<RowSlice>)
    ensures
        joined_rows(Seq::<Vec<RowSlice>>::empty()).len() == 0,
        joined_rows(a.push(piece)) == joined_rows(a) + piece_rows(piece@),
{
    assert(a.push(piece).drop_last() =~= a);
    assert(a.push(piece).last() == piece);
}

/// Every row of every batch is in a slice of a piece.
pub proof fn every_row_is_in_a_piece(pieces: Seq<Vec<RowSlice>>, batch_rows: Seq<usize>, n: int, b: int, r: int)
    requires
        n > 0,
        is_balanced_split(pieces, all_rows(batch_rows), n),
        0 <= b < batch_rows.len(),
        0 <= r < batch_rows[b],
    ensures
        exists|i: int, s: int|
            {
                &&& 0 <= i < pieces.len()
                &&& 0 <= s < pieces[i].len()
                &&& (#[trigger] pieces[i]@[s]).batch == b
                &&& pieces[i]@[s].start <= r < pieces[i]@[s].start + pieces[i]@[s].len
            },
{
    balanced_split_keeps_every_row(pieces, all_rows(batch_rows), n);
    row_is_listed(batch_rows, b, r);
    let i = piece_with_row(pieces, (b, r));
    let s = slice_with_row(pieces[i]@, (b, r));
    assert(pieces[i]@[s].batch == b);
}

proof fn row_is_listed(batch_rows: Seq<usize>, b: int, r: int)
    requires
        0 <= b < batch_rows.len(),
        0 <= r < batch_rows[b],
    ensures
        all_rows(batch_rows).contains((b, r)),
    decreases batch_rows.len(),
{
    let less = batch_rows.drop_last();
    let before = all_rows(less);
    let all = all_rows(batch_rows);
    if b < less.len() {
        row_is_listed(less, b, r);
        let i = choose|i: int| 0 <= i < before.len() && before[i] == (b, r);
        assert(all[i] == (b, r));
    } else {
        assert(all[before.len() + r] == (b, r));
    }
}

proof fn piece_with_row(pieces: Seq<Vec<RowSlice>>, row: (int, int)) -> (i: int)
    requires
        joined_rows(pieces).contains(row),
    ensures
        0 <= i < pieces.len(),
        piece_rows(pieces[i]@).contains(row),
    decreases pieces.len(),
{
    let less = pieces.drop_last();
    let before = joined_rows(less);
    let all = joined_rows(pieces);
    let at = choose|at: int| 0 <= at < all.len() && all[at] == row;
    if at < before.len() {
        assert(before[at] == row);
        let i = piece_with_row(less, row);
        assert(less[i] == pieces[i]);
        i
    } else {
        assert(piece_rows(pieces.last()@)[at - before.len()] == row);
        pieces.len() - 1
    }
}

proof fn slice_with_row(slices: Seq<RowSlice>, row: (int, int)) -> (s: int)
    requires
        piece_rows(slices).contains(row),
    ensures
        0 <= s < slices.len(),
        slices[s].batch == row.0,
        slices[s].start <= row.1 < slices[s].start + slices[s].len,
    decreases slices.len(),
{
    let less = slices.drop_last();
    let before = piece_rows(less);
    let all = piece_rows(slices);
    let at = choose|at: int| 0 <= at < all.len() && all[at] == row;
    if at < before.len() {
        assert(before[at] == row);
        let s = slice_with_row(less, row);
        assert(less[s] == slices[s]);
        s
    } else {
        let last = slices.last();
        assert(all[at] == (last.batch as int, last.start + (at - before.len())));
        slices.len() - 1
    }
}

/// There are as many pieces as are asked for, or one for each row when there are
/// fewer rows; none is empty, and an earlier one has as many rows as a later one,
/// or one more.
pub proof fn pieces_share_the_rows_evenly(pieces: Seq<Vec<RowSlice>>, rows: Seq<(int, int)>, n: int, i: int, j: int)
    requires
        n > 0,
        is_balanced_split(pieces, rows, n),
        0 <= i < j < pieces.len(),
    ensures
        pieces.len() == if rows.len() <= n {
            rows.len() as int
        } else {
            n
        },
        piece_rows(pieces[j]@).len() > 0,
        0 <= piece_rows(pieces[i]@).len() - piece_rows(pieces[j]@).len() <= 1,
{
    let total = rows.len() as int;
    piece_len(pieces, rows, n, i);
    piece_len(pieces, rows, n, j);
    assert(total == n * (total / n) + total % n) by {
        vstd::arithmetic::div_mod::lemma_fundamental_div_mod(total, n);
    }
    if total < n {
        assert(total / n == 0 && total % n == total) by {
            vstd::arithmetic::div_mod::lemma_small_mod(total as nat, n as nat);
            vstd::arithmetic::div_mod::lemma_basic_div(total, n);
        }
    } else {
        assert(total / n >= 1) by {
            vstd::arithmetic::div_mod::lemma_div_non_zero(total, n);
        }
    }
}

proof fn piece_len(pieces: Seq<Vec<RowSlice>>, rows: Seq<(int, int)>, n: int, i: int)
    requires
        n > 0,
        is_balanced_split(pieces, rows, n),
        0 <= i < pieces.len(),
    ensures
        piece_rows(pieces[i]@).len() == piece_target(rows.len() as int, n, i),
{
    let total = rows.len() as int;
    piece_starts_chain(total, n, i);
    assert(piece_rows(pieces[i]@) == rows.subrange(piece_start(total, n, i), piece_start(total, n, i + 1)));
    starts_end_with_the_rows(total, n, i + 1);
}

proof fn starts_end_with_the_rows(total: int, n: int, i: int)
    requires
        total >= 0,
        0 <= i <= n,
        n > 0,
    ensures
        0 <= piece_start(total, n, i) <= total,
    decreases n - i,
{
    if i < n {
        piece_starts_chain(total, n, i);
        starts_end_with_the_rows(total, n, i + 1);
    } else {
        piece_starts_chain(total, n, n - 1);
    }
}

// ---------------------------------------------------------------------------
// How many, and with what memory
// ---------------------------------------------------------------------------

/// A commit makes at least one superfile, and at most one for each thread and
/// each row. Within that it makes the fewest that hold the bytes at the target's
/// size each; without a target it makes as many as it may.
pub proof fn superfiles_are_the_fewest_that_hold_the_bytes(
    total_rows: usize,
    bytes: usize,
    pool_threads: usize,
    target: usize,
)
    ensures
        ({
            let n = superfile_count(total_rows, bytes, pool_threads, target);
            let threads: int = if pool_threads == 0 {
                1
            } else {
                pool_threads as int
            };
            let rows: int = if total_rows == 0 {
                1
            } else {
                total_rows as int
            };
            &&& 1 <= n <= threads
            &&& n <= rows
            &&& n == threads || n == rows || (target > 0 && n * target >= bytes)
            &&& target > 0 && n > 1 ==> (n - 1) * target < bytes
        }),
{
    let n = superfile_count(total_rows, bytes, pool_threads, target);
    if target > 0 && bytes > 0 {
        let (b, t) = (bytes as int, target as int);
        let (q, r) = (b / t, b % t);
        vstd::arithmetic::div_mod::lemma_fundamental_div_mod(b, t);
        vstd::arithmetic::div_mod::lemma_mod_bound(b, t);
        let m = if r == 0 {
            q
        } else {
            q + 1
        };
        assert(m * t >= b && (m - 1) * t < b && m >= 1) by (nonlinear_arith)
            requires
                b == t * q + r,
                0 <= r < t,
                b > 0,
                m == (if r == 0 {
                    q
                } else {
                    q + 1
                }),
        ;
        assert((n - 1) * t <= (m - 1) * t) by (nonlinear_arith)
            requires
                n <= m,
                t > 0,
        ;
    }
}

/// The memory that a build sets aside is half of five, thirteen and three times
/// the bytes of scalars, vectors and text, rounded down, as far as that can be
/// counted.
pub proof fn build_scratch_is_weighted(scalar: int, vector: int, fts: int)
    requires
        0 <= scalar,
        0 <= vector,
        0 <= fts,
    ensures
        ({
            let weighted = 5 * scalar + 13 * vector + 3 * fts;
            let scratch = build_scratch(scalar, vector, fts);
            &&& weighted <= usize::MAX ==> 2 * scratch <= weighted < 2 * scratch + 2
            &&& weighted > usize::MAX ==> 2 * scratch <= usize::MAX < 2 * scratch + 2
        }),
{
}

/// A batch's rows start where those of the batch before it end, and there are as
/// many as whole vectors in its values.
pub proof fn vector_rows_follow_each_other(value_counts: Seq<usize>, dim: usize, i: int)
    requires
        0 <= i < value_counts.len(),
    ensures
        rows_before(value_counts, dim, 0) == 0,
        ({
            let n = rows_before(value_counts, dim, i + 1) - rows_before(value_counts, dim, i);
            if dim == 0 {
                n == value_counts[i]
            } else {
                n * dim <= value_counts[i] < (n + 1) * dim
            }
        }),
{
    if dim > 0 {
        let (x, d) = (value_counts[i] as int, dim as int);
        let n = x / d;
        vstd::arithmetic::div_mod::lemma_fundamental_div_mod(x, d);
        vstd::arithmetic::div_mod::lemma_mod_bound(x, d);
        assert(n * d <= x < (n + 1) * d) by (nonlinear_arith)
            requires
                x == d * n + x % d,
                0 <= x % d < d,
        ;
    }
}

/// A column's view counts the whole vectors of the batches before each batch.
pub proof fn a_view_starts_each_batch_behind_the_others(view: VectorColumnView, value_counts: Seq<usize>, i: int)
    requires
        view.is_over(value_counts),
        0 <= i < value_counts.len(),
    ensures
        view.offsets@.len() == value_counts.len() + 1,
        view.offsets@[0] == rows_before(value_counts, view.dim, 0),
        view.offsets@[i] == rows_before(value_counts, view.dim, i),
        view.offsets@[i + 1] == rows_before(value_counts, view.dim, i + 1),
        view.offsets@[i] <= view.offsets@[i + 1],
{
}

} // verus!
