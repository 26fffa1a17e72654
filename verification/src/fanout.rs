//! How a commit's buffered rows are divided into superfiles.
use vstd::prelude::*;

use crate::arith::{capped, ceil_div, div_ceil_usize, saturating_mul_usize};

verus! {

/// Memory that building takes for each byte of scalar columns, in halves.
pub const BUILD_SCALAR_NUM: usize = 5;

/// Memory that building takes for each byte of vectors, in halves.
pub const BUILD_VECTOR_NUM: usize = 13;

/// Memory that building takes for each byte of indexed text, in halves. The
/// text also counts as a scalar column.
pub const BUILD_FTS_NUM: usize = 3;

/// The factors count in units of one over this.
pub const BUILD_SCRATCH_DENOM: usize = 2;

// ---------------------------------------------------------------------------
// How many superfiles
// ---------------------------------------------------------------------------

/// The number of superfiles that the buffered bytes call for: one for each
/// `target` bytes begun, at least one; no bound when the target is zero.
pub open spec fn superfiles_by_bytes(bytes: usize, target: usize) -> int {
    if target == 0 {
        usize::MAX as int
    } else if bytes == 0 {
        1
    } else {
        ceil_div(bytes as int, target as int)
    }
}

/// How many superfiles one commit makes: what the buffered bytes call for, at
/// most one for each thread of the pool and one for each row, at least one.
pub open spec fn superfile_count(total_rows: usize, bytes: usize, pool_threads: usize, target: usize) -> int {
    capped(
        superfiles_by_bytes(bytes, target),
        capped(
            if pool_threads == 0 {
                1
            } else {
                pool_threads as int
            },
            if total_rows == 0 {
                1
            } else {
                total_rows as int
            },
        ),
    )
}

/// How many superfiles one commit makes.
pub fn superfiles_per_commit(
    total_rows: usize,
    buffered_bytes: usize,
    pool_threads: usize,
    target_bytes: usize,
) -> (n: usize)
    ensures
        n == superfile_count(total_rows, buffered_bytes, pool_threads, target_bytes),
        n >= 1,
{
    let by_bytes: usize = if target_bytes == 0 {
        usize::MAX
    } else if buffered_bytes == 0 {
        1
    } else {
        div_ceil_usize(buffered_bytes, target_bytes)
    };
    proof {
        if target_bytes > 0 && buffered_bytes > 0 && by_bytes == 0 {
            assert(buffered_bytes == 0) by (nonlinear_arith)
                requires
                    buffered_bytes / target_bytes == 0,
                    buffered_bytes % target_bytes == 0,
                    target_bytes > 0,
            ;
        }
    }
    let pool: usize = if pool_threads == 0 {
        1
    } else {
        pool_threads
    };
    let rows: usize = if total_rows == 0 {
        1
    } else {
        total_rows
    };
    let cap: usize = if pool <= rows {
        pool
    } else {
        rows
    };
    if by_bytes <= cap {
        by_bytes
    } else {
        cap
    }
}

/// While neither the pool nor the rows bind, a superfile carries at least half
/// of the target's bytes.
pub proof fn superfiles_are_at_least_half_full(bytes: usize, target: usize)
    requires
        target > 0,
        bytes > target,
    ensures
        2 * bytes >= superfiles_by_bytes(bytes, target) * target,
{
    let q = bytes as int / target as int;
    let r = bytes as int % target as int;
    assert(bytes == q * target + r && 0 <= r < target && q >= 1) by (nonlinear_arith)
        requires
            q == bytes as int / target as int,
            r == bytes as int % target as int,
            target > 0,
            bytes > target,
    ;
    assert((q + 1) * target == q * target + target) by (nonlinear_arith);
    assert(q * target >= target) by (nonlinear_arith)
        requires
            q >= 1,
            target > 0,
    ;
}

/// The memory that building from these inputs is taken to need: two and a half
/// times the scalar bytes, six and a half times the vectors, and one and a half
/// times the indexed text.
pub open spec fn build_scratch(scalar_bytes: int, vector_bytes: int, fts_bytes: int) -> int {
    capped(
        scalar_bytes * BUILD_SCALAR_NUM + vector_bytes * BUILD_VECTOR_NUM + fts_bytes * BUILD_FTS_NUM,
        usize::MAX as int,
    ) / 2
}

/// The memory that building from these inputs is taken to need.
pub fn reserve_build_scratch(scalar_bytes: usize, vector_bytes: usize, fts_bytes: usize) -> (estimate: usize)
    ensures
        estimate == build_scratch(scalar_bytes as int, vector_bytes as int, fts_bytes as int),
{
    let scalar: usize = saturating_mul_usize(scalar_bytes, BUILD_SCALAR_NUM);
    let vector: usize = saturating_mul_usize(vector_bytes, BUILD_VECTOR_NUM);
    let fts: usize = saturating_mul_usize(fts_bytes, BUILD_FTS_NUM);
    scalar.saturating_add(vector).saturating_add(fts) / BUILD_SCRATCH_DENOM
}

// ---------------------------------------------------------------------------
// Row-balanced split
// ---------------------------------------------------------------------------

/// Rows `start..start + len` of one buffered batch.
#[derive(Clone, Copy, Debug, PartialEq, Eq, Structural)]
pub struct RowSlice {
    pub batch: usize,
    pub start: usize,
    pub len: usize,
}

/// The rows of a slice, each as its batch and its place there.
pub open spec fn slice_rows(s: RowSlice) -> Seq<(int, int)> {
    Seq::new(s.len as nat, |k: int| (s.batch as int, s.start + k))
}

/// The rows of slices, one slice after the other.
pub open spec fn piece_rows(slices: Seq<RowSlice>) -> Seq<(int, int)>
    decreases slices.len(),
{
    if slices.len() == 0 {
        Seq::empty()
    } else {
        piece_rows(slices.drop_last()) + slice_rows(slices.last())
    }
}

/// Every row of the buffered batches, in order.
pub open spec fn all_rows(batch_rows: Seq<usize>) -> Seq<(int, int)>
    decreases batch_rows.len(),
{
    if batch_rows.len() == 0 {
        Seq::empty()
    } else {
        all_rows(batch_rows.drop_last()) + Seq::new(
            batch_rows.last() as nat,
            |k: int| (batch_rows.len() - 1, k),
        )
    }
}

/// Rows of piece `i` when `total` rows make `n` pieces: as many as the others,
/// or one more.
pub open spec fn piece_target(total: int, n: int, i: int) -> int {
    if i < total % n {
        total / n + 1
    } else {
        total / n
    }
}

/// The first row of piece `i`.
pub open spec fn piece_start(total: int, n: int, i: int) -> int {
    i * (total / n) + capped(i, total % n)
}

/// The pieces are the rows in order, cut at the piece starts, without the empty
/// ones.
pub open spec fn is_balanced_split(pieces: Seq<Vec<RowSlice>>, rows: Seq<(int, int)>, n: int) -> bool {
    let total = rows.len() as int;
    &&& pieces.len() == capped(total, n)
    &&& forall|i: int|
        0 <= i < pieces.len() ==> piece_rows((#[trigger] pieces[i])@) == rows.subrange(
            piece_start(total, n, i),
            piece_start(total, n, i + 1),
        )
}

/// A piece starts where the one before it ends, and the last ends with the rows.
pub proof fn piece_starts_chain(total: int, n: int, i: int)
    requires
        total >= 0,
        n > 0,
        0 <= i < n,
    ensures
        piece_start(total, n, 0) == 0,
        piece_start(total, n, i + 1) == piece_start(total, n, i) + piece_target(total, n, i),
        piece_start(total, n, n) == total,
        0 <= piece_target(total, n, i),
        0 <= piece_start(total, n, i),
{
    let q = total / n;
    let r = total % n;
    assert(total == n * q + r && 0 <= r < n && q >= 0) by (nonlinear_arith)
        requires
            q == total / n,
            r == total % n,
            n > 0,
            total >= 0,
    ;
    assert((i + 1) * q == i * q + q) by (nonlinear_arith);
    assert(0 * q == 0) by (nonlinear_arith);
    assert(n * q == q * n) by (nonlinear_arith);
    assert(i * q >= 0) by (nonlinear_arith)
        requires
            i >= 0,
            q >= 0,
    ;
}

proof fn piece_starts_ascend(total: int, n: int, i: int, j: int)
    requires
        total >= 0,
        n > 0,
        0 <= i <= j <= n,
    ensures
        0 <= piece_start(total, n, i) <= piece_start(total, n, j) <= total,
    decreases n - i,
{
    if i < n {
        piece_starts_chain(total, n, i);
        if i < j {
            piece_starts_ascend(total, n, i + 1, j);
        } else {
            piece_starts_ascend(total, n, i + 1, i + 1);
        }
    } else {
        piece_starts_chain(total, n, n - 1);
    }
}

/// Two pieces differ by at most one row.
pub proof fn pieces_are_balanced(total: int, n: int, i: int, j: int)
    requires
        total >= 0,
        n > 0,
        0 <= i < n,
        0 <= j < n,
    ensures
        piece_target(total, n, i) - piece_target(total, n, j) <= 1,
{
}

proof fn all_rows_prefix(batch_rows: Seq<usize>, b: int)
    requires
        0 <= b < batch_rows.len(),
    ensures
        all_rows(batch_rows.take(b + 1)) == all_rows(batch_rows.take(b)) + Seq::new(
            batch_rows[b] as nat,
            |k: int| (b, k),
        ),
        all_rows(batch_rows.take(b)).len() + batch_rows[b] <= all_rows(batch_rows).len(),
        all_rows(batch_rows).subrange(
            all_rows(batch_rows.take(b)).len() as int,
            all_rows(batch_rows.take(b)).len() + batch_rows[b],
        ) == Seq::new(batch_rows[b] as nat, |k: int| (b, k)),
    decreases batch_rows.len() - b,
{
    let upto = batch_rows.take(b + 1);
    assert(upto.drop_last() =~= batch_rows.take(b));
    assert(upto.last() == batch_rows[b]);
    let here = Seq::new(batch_rows[b] as nat, |k: int| (b, k));
    assert(all_rows(upto) =~= all_rows(batch_rows.take(b)) + here);
    if b + 1 < batch_rows.len() {
        all_rows_extends(batch_rows, b + 1);
    } else {
        assert(upto =~= batch_rows);
    }
    let from = all_rows(batch_rows.take(b)).len() as int;
    all_rows_extends(batch_rows, b + 1);
    let span = all_rows(batch_rows).subrange(from, from + batch_rows[b]);
    assert forall|k: int| 0 <= k < batch_rows[b] implies #[trigger] span[k] == here[k] by {
        assert(all_rows(upto)[from + k] == here[k]);
    }
    assert(span =~= here);
}

proof fn all_rows_extends(batch_rows: Seq<usize>, b: int)
    requires
        0 <= b <= batch_rows.len(),
    ensures
        all_rows(batch_rows.take(b)).len() <= all_rows(batch_rows).len(),
        forall|k: int|
            0 <= k < all_rows(batch_rows.take(b)).len() ==> all_rows(batch_rows)[k] == #[trigger] all_rows(
                batch_rows.take(b),
            )[k],
    decreases batch_rows.len() - b,
{
    if b < batch_rows.len() {
        all_rows_extends(batch_rows, b + 1);
        assert(batch_rows.take(b + 1).drop_last() =~= batch_rows.take(b));
        let more = all_rows(batch_rows.take(b + 1));
        let less = all_rows(batch_rows.take(b));
        assert forall|k: int| 0 <= k < less.len() implies all_rows(batch_rows)[k] == #[trigger] less[k] by {
            assert(more[k] == less[k]);
        }
    } else {
        assert(batch_rows.take(b) =~= batch_rows);
    }
}

fn total_rows(batch_rows: &Vec<usize>) -> (total: usize)
    requires
        all_rows(batch_rows@).len() <= usize::MAX,
    ensures
        total == all_rows(batch_rows@).len(),
{
    let mut total: usize = 0;
    let mut i: usize = 0;
    assert(all_rows(batch_rows@.take(0)) =~= Seq::<(int, int)>::empty());
    while i < batch_rows.len()
        invariant
            i <= batch_rows.len(),
            all_rows(batch_rows@).len() <= usize::MAX,
            total == all_rows(batch_rows@.take(i as int)).len(),
        decreases batch_rows.len() - i,
    {
        proof {
            all_rows_prefix(batch_rows@, i as int);
        }
        total = total + batch_rows[i];
        i = i + 1;
    }
    assert(batch_rows@.take(i as int) =~= batch_rows@);
    total
}

/// Divides buffered batches of the given numbers of rows into `n_superfiles`
/// pieces of nearly equal size, row order kept. Pieces that would be empty are
/// left out.
pub fn split_buffer_into_superfile_inputs(batch_rows: &Vec<usize>, n_superfiles: usize) -> (pieces: Vec<
    Vec<RowSlice>,
>)
    requires
        n_superfiles > 0,
        all_rows(batch_rows@).len() <= usize::MAX,
    ensures
        is_balanced_split(pieces@, all_rows(batch_rows@), n_superfiles as int),
{
    let total: usize = total_rows(batch_rows);
    let mut pieces: Vec<Vec<RowSlice>> = Vec::new();
    if total == 0 {
        return pieces;
    }
    let ghost rows = all_rows(batch_rows@);
    let ghost n = n_superfiles as int;
    let base: usize = total / n_superfiles;
    let remainder: usize = total % n_superfiles;
    let n_pieces: usize = if total <= n_superfiles {
        total
    } else {
        n_superfiles
    };
    // The next row: row `offset` of batch `b`.
    let mut b: usize = 0;
    let mut offset: usize = 0;
    let mut i: usize = 0;
    proof {
        piece_starts_chain(total as int, n, 0);
        assert(all_rows(batch_rows@.take(0)) =~= Seq::<(int, int)>::empty());
    }
    while i < n_pieces
        invariant
            i <= n_pieces,
            n_pieces == capped(total as int, n),
            rows == all_rows(batch_rows@),
            rows.len() == total,
            total > 0,
            n == n_superfiles,
            n > 0,
            base == total as int / n,
            remainder == total as int % n,
            b <= batch_rows.len(),
            b < batch_rows.len() ==> offset <= batch_rows@[b as int],
            b == batch_rows.len() ==> offset == 0,
            all_rows(batch_rows@.take(b as int)).len() + offset == piece_start(total as int, n, i as int),
            pieces.len() == i,
            forall|k: int|
                0 <= k < pieces.len() ==> piece_rows((#[trigger] pieces@[k])@) == rows.subrange(
                    piece_start(total as int, n, k),
                    piece_start(total as int, n, k + 1),
                ),
        decreases n_pieces - i,
    {
        let ghost from = piece_start(total as int, n, i as int);
        proof {
            piece_starts_chain(total as int, n, i as int);
            piece_starts_ascend(total as int, n, i + 1, n);
            target_fits(total as int, n, i as int);
        }
        let mut need: usize = if i < remainder {
            base + 1
        } else {
            base
        };
        let mut piece: Vec<RowSlice> = Vec::new();
        let ghost mut done = from;
        assert(piece_rows(piece@) =~= rows.subrange(from, done));
        while need > 0
            invariant
                rows == all_rows(batch_rows@),
                rows.len() == total,
                b <= batch_rows.len(),
                b < batch_rows.len() ==> offset <= batch_rows@[b as int],
                b == batch_rows.len() ==> offset == 0,
                0 <= from <= done,
                done + need <= total,
                done + need == piece_start(total as int, n, i + 1),
                all_rows(batch_rows@.take(b as int)).len() + offset == done,
                piece_rows(piece@) == rows.subrange(from, done),
            decreases batch_rows.len() - b, need,
        {
            proof {
                if b == batch_rows.len() {
                    assert(batch_rows@.take(b as int) =~= batch_rows@);
                }
            }
            let held: usize = batch_rows[b];
            proof {
                all_rows_prefix(batch_rows@, b as int);
            }
            if offset == held {
                b = b + 1;
                offset = 0;
            } else {
                let take: usize = if need <= held - offset {
                    need
                } else {
                    held - offset
                };
                let slice = RowSlice { batch: b, start: offset, len: take };
                let ghost so_far = piece@;
                piece.push(slice);
                proof {
                    let first = all_rows(batch_rows@.take(b as int)).len() as int;
                    assert(piece@.drop_last() =~= so_far);
                    assert forall|k: int| 0 <= k < take implies #[trigger] slice_rows(slice)[k] == rows[done + k] by {
                        assert(rows.subrange(first, first + held)[offset + k] == rows[first + (offset + k)]);
                    }
                    assert(piece_rows(piece@) =~= rows.subrange(from, done + take));
                    done = done + take;
                }
                offset = offset + take;
                need = need - take;
            }
        }
        pieces.push(piece);
        i = i + 1;
    }
    pieces
}

/// A piece that is made takes at least one row, and its rows can be counted.
proof fn target_fits(total: int, n: int, i: int)
    requires
        0 < total <= usize::MAX,
        n > 0,
        0 <= i < capped(total, n),
    ensures
        0 < piece_target(total, n, i) <= total,
        i < total % n ==> total / n + 1 <= total,
{
    let q = total / n;
    let r = total % n;
    assert(total == n * q + r && 0 <= r < n && q >= 0) by (nonlinear_arith)
        requires
            q == total / n,
            r == total % n,
            n > 0,
            total > 0,
    ;
    if q == 0 {
        assert(n * q == 0) by (nonlinear_arith)
            requires
                q == 0,
        ;
    } else {
        assert(n * q >= q) by (nonlinear_arith)
            requires
                n >= 1,
                q >= 0,
        ;
    }
}

/// The rows of all pieces, one piece after the other.
pub open spec fn joined_rows(pieces: Seq<Vec<RowSlice>>) -> Seq<(int, int)>
    decreases pieces.len(),
{
    if pieces.len() == 0 {
        Seq::empty()
    } else {
        joined_rows(pieces.drop_last()) + piece_rows(pieces.last()@)
    }
}

/// A balanced split loses no row, repeats none and keeps their order.
pub proof fn balanced_split_keeps_every_row(pieces: Seq<Vec<RowSlice>>, rows: Seq<(int, int)>, n: int)
    requires
        n > 0,
        is_balanced_split(pieces, rows, n),
    ensures
        joined_rows(pieces) == rows,
{
    let total = rows.len() as int;
    let m = pieces.len() as int;
    joined_prefix(pieces, rows, n, m);
    assert(pieces.take(m) =~= pieces);
    assert(piece_start(total, n, m) == total) by {
        piece_starts_chain(total, n, 0);
        if m < n {
            piece_starts_chain(total, n, m);
            if total > 0 {
                assert(total / n == 0 && total % n == total) by (nonlinear_arith)
                    requires
                        0 < total < n,
                ;
            }
            assert(m * (total / n) == 0) by (nonlinear_arith)
                requires
                    total / n == 0,
            ;
        } else {
            piece_starts_chain(total, n, n - 1);
        }
    }
    assert(rows.subrange(0, total) =~= rows);
}

proof fn joined_prefix(pieces: Seq<Vec<RowSlice>>, rows: Seq<(int, int)>, n: int, i: int)
    requires
        n > 0,
        is_balanced_split(pieces, rows, n),
        0 <= i <= pieces.len(),
    ensures
        joined_rows(pieces.take(i)) == rows.subrange(0, piece_start(rows.len() as int, n, i)),
    decreases i,
{
    let total = rows.len() as int;
    if i == 0 {
        piece_starts_chain(total, n, 0);
        assert(rows.subrange(0, 0) =~= Seq::<(int, int)>::empty());
    } else {
        joined_prefix(pieces, rows, n, i - 1);
        piece_starts_ascend(total, n, i - 1, i);
        assert(pieces.take(i).drop_last() =~= pieces.take(i - 1));
        assert(pieces.take(i).last() == pieces[i - 1]);
        assert(rows.subrange(0, piece_start(total, n, i - 1)) + rows.subrange(
            piece_start(total, n, i - 1),
            piece_start(total, n, i),
        ) =~= rows.subrange(0, piece_start(total, n, i)));
    }
}

// ---------------------------------------------------------------------------
// Split by vector cell
// ---------------------------------------------------------------------------

/// A row was assigned to a cell that the grid does not have.
#[derive(Clone, Copy, Debug, PartialEq, Eq, Structural)]
pub struct CellOutOfRange {
    pub batch: usize,
    pub row: usize,
    pub cell: u32,
}

/// The values of a vector column do not divide across the rows of their batch.
#[derive(Clone, Copy, Debug, PartialEq, Eq, Structural)]
pub struct UnevenValues {
    pub batch: usize,
    pub column: usize,
    pub values: usize,
    pub rows: usize,
}

/// Why rows cannot be divided by cell.
#[derive(Clone, Copy, Debug, PartialEq, Eq, Structural)]
pub enum CellSplitFault {
    OutOfRange(CellOutOfRange),
    Uneven(UnevenValues),
}

/// A buffered batch whose rows are assigned to cells.
#[derive(Debug)]
pub struct AssignedBatch {
    /// The cell of each row.
    pub cells: Vec<u32>,
    /// The number of values in each vector column.
    pub column_values: Vec<usize>,
}

/// The cells of the batches' rows.
pub open spec fn cells_of(batches: Seq<AssignedBatch>) -> Seq<Vec<u32>> {
    Seq::new(batches.len(), |i: int| batches[i].cells)
}

/// The values of the batch's first `n` columns divide across its rows.
pub open spec fn divides(batch: AssignedBatch, n: int) -> bool {
    batch.cells.len() > 0 ==> forall|c: int|
        0 <= c < n && c < batch.column_values.len() ==> #[trigger] batch.column_values@[c] % batch.cells.len()
            == 0
}

/// So do those of the first `n` batches.
pub open spec fn all_divide(batches: Seq<AssignedBatch>, n: int) -> bool {
    forall|b: int|
        0 <= b < n && b < batches.len() ==> divides(
            #[trigger] batches[b],
            batches[b].column_values.len() as int,
        )
}

/// The length of the vectors when so many values are divided across so many
/// rows; none when some would be left over.
pub fn cell_split_dim(n_values: usize, n_rows: usize) -> (dim: Option<usize>)
    requires
        n_rows > 0,
    ensures
        dim == (if n_values % n_rows == 0 {
            Some((n_values / n_rows) as usize)
        } else {
            None
        }),
{
    if n_values % n_rows == 0 {
        Some(n_values / n_rows)
    } else {
        None
    }
}

/// The first column of a batch whose values do not divide across its rows.
fn uneven_column(batch: &AssignedBatch, at: usize) -> (fault: Option<UnevenValues>)
    ensures
        match fault {
            None => divides(*batch, batch.column_values.len() as int),
            Some(f) => {
                &&& f.batch == at
                &&& f.rows == batch.cells.len()
                &&& f.rows > 0
                &&& f.column < batch.column_values.len()
                &&& f.values == batch.column_values@[f.column as int]
                &&& f.values % f.rows != 0
                &&& divides(*batch, f.column as int)
            },
        },
{
    let rows: usize = batch.cells.len();
    if rows == 0 {
        return None;
    }
    let mut column: usize = 0;
    while column < batch.column_values.len()
        invariant
            column <= batch.column_values.len(),
            rows == batch.cells.len(),
            rows > 0,
            divides(*batch, column as int),
        decreases batch.column_values.len() - column,
    {
        let values: usize = batch.column_values[column];
        if cell_split_dim(values, rows).is_none() {
            return Some(UnevenValues { batch: at, column, values, rows });
        }
        column = column + 1;
    }
    None
}

/// The values of the rows, one row after another, out of rows of `dim` values.
pub open spec fn taken_rows<T>(values: Seq<T>, rows: Seq<usize>, dim: int) -> Seq<T>
    decreases rows.len(),
{
    if rows.len() == 0 {
        Seq::empty()
    } else {
        taken_rows(values, rows.drop_last(), dim) + values.subrange(
            rows.last() * dim,
            (rows.last() + 1) * dim,
        )
    }
}

/// Takes the values of rows out of a vector column of a batch.
pub fn take_rows<T: Copy>(values: &[T], rows: &Vec<usize>, dim: usize) -> (out: Vec<T>)
    requires
        forall|i: int| 0 <= i < rows.len() ==> ((#[trigger] rows@[i]) + 1) * dim <= values@.len(),
    ensures
        out@ == taken_rows(values@, rows@, dim as int),
{
    let held: usize = values.len();
    let mut out: Vec<T> = Vec::new();
    let mut i: usize = 0;
    assert(rows@.take(0) =~= Seq::<usize>::empty());
    while i < rows.len()
        invariant
            i <= rows.len(),
            held == values@.len(),
            forall|k: int| 0 <= k < rows.len() ==> ((#[trigger] rows@[k]) + 1) * dim <= values@.len(),
            out@ == taken_rows(values@, rows@.take(i as int), dim as int),
        decreases rows.len() - i,
    {
        let row: usize = rows[i];
        assert((row + 1) * dim == row * dim + dim) by (nonlinear_arith);
        assert(0 <= row * dim) by (nonlinear_arith)
            requires
                row >= 0,
                dim >= 0,
        ;
        assert((rows@[i as int] + 1) * dim <= values@.len());
        let start: usize = row * dim;
        let ghost before = out@;
        let mut k: usize = 0;
        while k < dim
            invariant
                k <= dim,
                held == values@.len(),
                start + dim <= held,
                out@ == before + values@.subrange(start as int, start + k),
            decreases dim - k,
        {
            out.push(values[start + k]);
            assert(values@.subrange(start as int, start + k + 1) =~= values@.subrange(
                start as int,
                start + k,
            ).push(values@[start + k]));
            k = k + 1;
        }
        proof {
            assert(rows@.take(i + 1).drop_last() =~= rows@.take(i as int));
            assert(rows@.take(i + 1).last() == row);
        }
        i = i + 1;
    }
    assert(rows@.take(i as int) =~= rows@);
    out
}

/// The rows of one batch that go to one cell.
#[derive(Debug)]
pub struct CellRows {
    pub batch: usize,
    pub rows: Vec<usize>,
}

/// The rows that are assigned to the cell, in order.
pub open spec fn rows_in_cell(assigned: Seq<u32>, cell: int) -> Seq<usize>
    decreases assigned.len(),
{
    if assigned.len() == 0 {
        Seq::empty()
    } else if assigned.last() == cell {
        rows_in_cell(assigned.drop_last(), cell).push((assigned.len() - 1) as usize)
    } else {
        rows_in_cell(assigned.drop_last(), cell)
    }
}

/// Where the values of a column divide across the rows of its batch, each row of
/// a cell has its values there: they can be taken, and as many come as the rows
/// need.
pub proof fn cell_rows_have_their_values<T>(values: Seq<T>, assigned: Seq<u32>, cell: int, dim: int)
    requires
        0 < assigned.len() <= usize::MAX,
        values.len() % assigned.len() == 0,
        dim == values.len() / assigned.len(),
    ensures
        ({
            let rows = rows_in_cell(assigned, cell);
            &&& forall|i: int| 0 <= i < rows.len() ==> ((#[trigger] rows[i]) + 1) * dim <= values.len()
            &&& taken_rows(values, rows, dim).len() == rows.len() * dim
        }),
{
    let rows = rows_in_cell(assigned, cell);
    let n = assigned.len() as int;
    rows_in_cell_below(assigned, cell);
    assert(n * dim == values.len()) by {
        vstd::arithmetic::div_mod::lemma_fundamental_div_mod(values.len() as int, n);
    }
    assert(dim >= 0) by {
        vstd::arithmetic::div_mod::lemma_div_pos_is_pos(values.len() as int, n);
    }
    assert forall|i: int| 0 <= i < rows.len() implies ((#[trigger] rows[i]) + 1) * dim <= values.len() by {
        let r = rows[i] as int;
        assert((r + 1) * dim <= n * dim) by (nonlinear_arith)
            requires
                r + 1 <= n,
                dim >= 0,
        ;
    }
    taken_len(values, rows, dim);
}

proof fn rows_in_cell_below(assigned: Seq<u32>, cell: int)
    requires
        assigned.len() <= usize::MAX,
    ensures
        forall|i: int|
            0 <= i < rows_in_cell(assigned, cell).len() ==> (#[trigger] rows_in_cell(assigned, cell)[i])
                < assigned.len(),
    decreases assigned.len(),
{
    if assigned.len() > 0 {
        let less = rows_in_cell(assigned.drop_last(), cell);
        let rows = rows_in_cell(assigned, cell);
        rows_in_cell_below(assigned.drop_last(), cell);
        assert forall|i: int| 0 <= i < rows.len() implies (#[trigger] rows[i]) < assigned.len() by {
            if i < less.len() {
                assert(rows[i] == less[i]);
            }
        }
    }
}

proof fn taken_len<T>(values: Seq<T>, rows: Seq<usize>, dim: int)
    requires
        dim >= 0,
        forall|i: int| 0 <= i < rows.len() ==> ((#[trigger] rows[i]) + 1) * dim <= values.len(),
    ensures
        taken_rows(values, rows, dim).len() == rows.len() * dim,
    decreases rows.len(),
{
    if rows.len() > 0 {
        let less = rows.drop_last();
        assert forall|i: int| 0 <= i < less.len() implies ((#[trigger] less[i]) + 1) * dim <= values.len() by {
            assert((rows[i] + 1) * dim <= values.len());
        }
        taken_len(values, less, dim);
        let r = rows.last() as int;
        assert((rows[rows.len() - 1] + 1) * dim <= values.len());
        assert(0 <= r * dim <= (r + 1) * dim) by (nonlinear_arith)
            requires
                r >= 0,
                dim >= 0,
        ;
        assert((r + 1) * dim - r * dim == dim) by (nonlinear_arith);
        assert(rows.len() * dim == less.len() * dim + dim) by (nonlinear_arith)
            requires
                rows.len() == less.len() + 1,
        ;
    } else {
        assert(rows.len() * dim == 0) by (nonlinear_arith)
            requires
                rows.len() == 0,
        ;
    }
}

/// Batch by batch, the rows of the cell; batches without any are left out.
pub open spec fn cell_pieces(batches: Seq<Vec<u32>>, cell: int) -> Seq<(usize, Seq<usize>)>
    decreases batches.len(),
{
    if batches.len() == 0 {
        Seq::empty()
    } else {
        let rows = rows_in_cell(batches.last()@, cell);
        let before = cell_pieces(batches.drop_last(), cell);
        if rows.len() == 0 {
            before
        } else {
            before.push(((batches.len() - 1) as usize, rows))
        }
    }
}

/// The pieces as numbers.
pub open spec fn cell_rows_view(pieces: Seq<CellRows>) -> Seq<(usize, Seq<usize>)> {
    Seq::new(pieces.len(), |i: int| (pieces[i].batch, pieces[i].rows@))
}

/// Every row before row `row` of batch `batch` goes to a cell below `k`.
pub open spec fn in_range_before(batches: Seq<Vec<u32>>, k: u32, batch: int, row: int) -> bool {
    forall|b: int, r: int|
        0 <= b <= batch && b < batches.len() && 0 <= r < batches[b].len() && (b < batch || r < row)
            ==> #[trigger] batches[b]@[r] < k
}

/// The cells that got rows, in ascending order, each with its rows.
pub open spec fn is_cell_split(split: Seq<(u32, Vec<CellRows>)>, batches: Seq<Vec<u32>>, k: u32) -> bool {
    &&& forall|i: int| 0 <= i < split.len() ==> {
        &&& (#[trigger] split[i]).0 < k
        &&& cell_rows_view(split[i].1@) == cell_pieces(batches, split[i].0 as int)
        &&& split[i].1.len() > 0
    }
    &&& forall|i: int, j: int| 0 <= i < j < split.len() ==> (#[trigger] split[i]).0 < (#[trigger] split[j]).0
    &&& forall|c: u32|
        c < k && (#[trigger] cell_pieces(batches, c as int)).len() > 0 ==> exists|i: int|
            0 <= i < split.len() && (#[trigger] split[i]).0 == c
}

fn empty_buckets<T>(k: usize) -> (buckets: Vec<Vec<T>>)
    ensures
        buckets.len() == k,
        forall|c: int| 0 <= c < k ==> (#[trigger] buckets@[c]).len() == 0,
{
    let mut buckets: Vec<Vec<T>> = Vec::new();
    let mut i: usize = 0;
    while i < k
        invariant
            i <= k,
            buckets.len() == i,
            forall|c: int| 0 <= c < i ==> (#[trigger] buckets@[c]).len() == 0,
        decreases k - i,
    {
        buckets.push(Vec::new());
        i = i + 1;
    }
    buckets
}

/// Groups one batch's rows by cell.
fn rows_by_cell(assigned: &Vec<u32>, batch: usize, k: u32) -> (result: Result<Vec<Vec<usize>>, CellOutOfRange>)
    ensures
        match result {
            Ok(groups) => {
                &&& groups.len() == k
                &&& forall|r: int| 0 <= r < assigned.len() ==> #[trigger] assigned@[r] < k
                &&& forall|c: int| 0 <= c < k ==> (#[trigger] groups@[c])@ == rows_in_cell(assigned@, c)
            },
            Err(e) => {
                &&& e.batch == batch
                &&& e.row < assigned.len()
                &&& e.cell == assigned@[e.row as int]
                &&& e.cell >= k
                &&& forall|r: int| 0 <= r < e.row ==> #[trigger] assigned@[r] < k
            },
        },
{
    let mut groups: Vec<Vec<usize>> = empty_buckets(k as usize);
    let mut row: usize = 0;
    assert(assigned@.take(0) =~= Seq::<u32>::empty());
    assert forall|c: int| 0 <= c < k implies (#[trigger] groups@[c])@ == rows_in_cell(assigned@.take(0), c) by {
        assert(groups@[c]@ =~= Seq::<usize>::empty());
    }
    while row < assigned.len()
        invariant
            row <= assigned.len(),
            groups.len() == k,
            forall|r: int| 0 <= r < row ==> #[trigger] assigned@[r] < k,
            forall|c: int|
                0 <= c < k ==> (#[trigger] groups@[c])@ == rows_in_cell(assigned@.take(row as int), c),
        decreases assigned.len() - row,
    {
        let cell: u32 = assigned[row];
        if cell >= k {
            return Err(CellOutOfRange { batch, row, cell });
        }
        let ghost before = groups@;
        groups[cell as usize].push(row);
        proof {
            assert(assigned@.take(row + 1).drop_last() =~= assigned@.take(row as int));
            assert(assigned@.take(row + 1).last() == cell);
            assert forall|c: int| 0 <= c < k implies (#[trigger] groups@[c])@ == rows_in_cell(
                assigned@.take(row + 1),
                c,
            ) by {
                assert(before[c]@ == rows_in_cell(assigned@.take(row as int), c));
            }
        }
        row = row + 1;
    }
    assert(assigned@.take(row as int) =~= assigned@);
    Ok(groups)
}

/// Divides buffered rows by the cell that each was assigned to. A row that is
/// assigned outside the `k` cells of the grid fails, and so does a vector column
/// whose values do not divide across the rows of its batch. The first batch that
/// fails is reported, with its first such row, or else its first such column.
pub fn split_buffer_by_vector_cell(batches: &Vec<AssignedBatch>, k: u32) -> (result: Result<
    Vec<(u32, Vec<CellRows>)>,
    CellSplitFault,
>)
    ensures
        match result {
            Ok(split) => {
                &&& in_range_before(cells_of(batches@), k, batches.len() as int, 0)
                &&& all_divide(batches@, batches.len() as int)
                &&& is_cell_split(split@, cells_of(batches@), k)
            },
            Err(CellSplitFault::OutOfRange(e)) => {
                &&& e.batch < batches.len()
                &&& e.row < batches@[e.batch as int].cells.len()
                &&& e.cell == batches@[e.batch as int].cells@[e.row as int]
                &&& e.cell >= k
                &&& in_range_before(cells_of(batches@), k, e.batch as int, e.row as int)
                &&& all_divide(batches@, e.batch as int)
            },
            Err(CellSplitFault::Uneven(e)) => {
                &&& e.batch < batches.len()
                &&& e.rows == batches@[e.batch as int].cells.len()
                &&& e.rows > 0
                &&& e.column < batches@[e.batch as int].column_values.len()
                &&& e.values == batches@[e.batch as int].column_values@[e.column as int]
                &&& e.values % e.rows != 0
                &&& in_range_before(cells_of(batches@), k, e.batch + 1, 0)
                &&& all_divide(batches@, e.batch as int)
                &&& divides(batches@[e.batch as int], e.column as int)
            },
        },
{
    let ghost lists = cells_of(batches@);
    let mut by_cell: Vec<Vec<CellRows>> = empty_buckets(k as usize);
    let mut b: usize = 0;
    assert forall|c: int| 0 <= c < k implies cell_rows_view((#[trigger] by_cell@[c])@) == cell_pieces(
        lists.take(0),
        c,
    ) by {
        assert(cell_rows_view(by_cell@[c]@) =~= Seq::<(usize, Seq<usize>)>::empty());
    }
    while b < batches.len()
        invariant
            b <= batches.len(),
            lists == cells_of(batches@),
            all_divide(batches@, b as int),
            by_cell.len() == k,
            in_range_before(lists, k, b as int, 0),
            forall|c: int|
                0 <= c < k ==> cell_rows_view((#[trigger] by_cell@[c])@) == cell_pieces(
                    lists.take(b as int),
                    c,
                ),
        decreases batches.len() - b,
    {
        let mut groups: Vec<Vec<usize>> = match rows_by_cell(&batches[b].cells, b, k) {
            Ok(groups) => groups,
            Err(e) => {
                return Err(CellSplitFault::OutOfRange(e));
            },
        };
        assert(in_range_before(lists, k, b + 1, 0));
        if let Some(e) = uneven_column(&batches[b], b) {
            return Err(CellSplitFault::Uneven(e));
        }
        let ghost all = groups@;
        let mut c: usize = k as usize;
        proof {
            assert(lists.take(b + 1).drop_last() =~= lists.take(b as int));
            assert(lists.take(b + 1).last() == lists[b as int]);
        }
        while c > 0
            invariant
                c <= k,
                b < batches.len(),
                lists == cells_of(batches@),
                by_cell.len() == k,
                groups.len() == c,
                all.len() == k,
                groups@ == all.take(c as int),
                lists.take(b + 1).drop_last() == lists.take(b as int),
                lists.take(b + 1).last() == lists[b as int],
                forall|q: int| 0 <= q < k ==> (#[trigger] all[q])@ == rows_in_cell(lists[b as int]@, q),
                forall|q: int|
                    0 <= q < c ==> cell_rows_view((#[trigger] by_cell@[q])@) == cell_pieces(
                        lists.take(b as int),
                        q,
                    ),
                forall|q: int|
                    c <= q < k ==> cell_rows_view((#[trigger] by_cell@[q])@) == cell_pieces(
                        lists.take(b + 1),
                        q,
                    ),
            decreases c,
        {
            let ghost before = by_cell@;
            c = c - 1;
            match groups.pop() {
                Some(rows) => {
                    assert(rows == all[c as int]);
                    if rows.len() > 0 {
                        by_cell[c].push(CellRows { batch: b, rows });
                        proof {
                            assert(cell_rows_view(by_cell@[c as int]@) =~= cell_rows_view(
                                before[c as int]@,
                            ).push((b, rows@)));
                        }
                    }
                    assert forall|q: int| c <= q < k implies cell_rows_view((#[trigger] by_cell@[q])@)
                        == cell_pieces(lists.take(b + 1), q) by {
                        if q > c {
                            assert(by_cell@[q] == before[q]);
                        }
                    }
                    assert(groups@ =~= all.take(c as int));
                },
                None => {},
            }
        }
        b = b + 1;
    }
    assert(lists.take(b as int) =~= lists);
    let ghost filled = by_cell@;
    let mut split: Vec<(u32, Vec<CellRows>)> = Vec::new();
    let mut c: u32 = 0;
    let mut rest = by_cell;
    while c < k
        invariant
            c <= k,
            filled.len() == k,
            rest.len() == k - c,
            rest@ == filled.skip(c as int),
            forall|q: int| 0 <= q < k ==> cell_rows_view((#[trigger] filled[q])@) == cell_pieces(lists, q),
            forall|i: int| 0 <= i < split.len() ==> {
                &&& (#[trigger] split@[i]).0 < c
                &&& cell_rows_view(split@[i].1@) == cell_pieces(lists, split@[i].0 as int)
                &&& split@[i].1.len() > 0
            },
            forall|i: int, j: int|
                0 <= i < j < split.len() ==> (#[trigger] split@[i]).0 < (#[trigger] split@[j]).0,
            forall|q: u32|
                q < c && (#[trigger] cell_pieces(lists, q as int)).len() > 0 ==> exists|i: int|
                    0 <= i < split.len() && (#[trigger] split@[i]).0 == q,
        decreases k - c,
    {
        let ghost before = split@;
        let pieces: Vec<CellRows> = rest.remove(0);
        assert(pieces == filled[c as int]);
        assert(rest@ =~= filled.skip(c + 1));
        if pieces.len() > 0 {
            split.push((c, pieces));
            assert(split@[before.len() as int].0 == c);
        }
        assert forall|q: u32| q < c + 1 && (#[trigger] cell_pieces(lists, q as int)).len() > 0 implies exists|
            i: int,
        |
            0 <= i < split.len() && (#[trigger] split@[i]).0 == q by {
            if q < c {
                let i = choose|i: int| 0 <= i < before.len() && (#[trigger] before[i]).0 == q;
                assert(split@[i].0 == q);
            } else {
                assert(cell_rows_view(filled[c as int]@).len() == pieces.len());
                assert(split@[before.len() as int].0 == q);
            }
        }
        c = c + 1;
    }
    Ok(split)
}

// ---------------------------------------------------------------------------
// One vector column across the buffered batches
// ---------------------------------------------------------------------------

/// A vector column that is held batch by batch, addressed by the row's number in
/// the whole commit.
pub struct VectorColumnView {
    pub dim: usize,
    /// The first row of each batch, and the number of all rows behind them.
    pub offsets: Vec<usize>,
}

/// Rows in the first `i` batches, which hold these numbers of values.
pub open spec fn rows_before(value_counts: Seq<usize>, dim: usize, i: int) -> int
    decreases i,
{
    if i <= 0 {
        0
    } else {
        rows_before(value_counts, dim, i - 1) + value_counts[i - 1] as int / (if dim == 0 {
            1
        } else {
            dim as int
        })
    }
}

/// Where a row's values stand.
#[derive(Clone, Copy, Debug, PartialEq, Eq, Structural)]
pub struct RowPlace {
    pub batch: usize,
    pub start: usize,
}

impl VectorColumnView {
    /// The view is of batches that hold these numbers of values.
    pub open spec fn is_over(self, value_counts: Seq<usize>) -> bool {
        &&& self.offsets.len() == value_counts.len() + 1
        &&& forall|i: int|
            0 <= i <= value_counts.len() ==> (#[trigger] self.offsets@[i]) == rows_before(
                value_counts,
                self.dim,
                i,
            )
        &&& forall|i: int, j: int|
            0 <= i <= j <= value_counts.len() ==> (#[trigger] self.offsets@[i]) <= (
            #[trigger] self.offsets@[j])
    }

    /// A view of batches that hold these numbers of values.
    pub fn over(value_counts: &Vec<usize>, dim: usize) -> (view: VectorColumnView)
        requires
            rows_before(value_counts@, dim, value_counts.len() as int) <= usize::MAX,
        ensures
            view.dim == dim,
            view.is_over(value_counts@),
    {
        let per: usize = if dim == 0 {
            1
        } else {
            dim
        };
        let mut offsets: Vec<usize> = Vec::new();
        let mut total: usize = 0;
        let mut i: usize = 0;
        while i < value_counts.len()
            invariant
                i <= value_counts.len(),
                per == (if dim == 0 { 1 } else { dim as int }),
                rows_before(value_counts@, dim, value_counts.len() as int) <= usize::MAX,
                offsets.len() == i,
                total == rows_before(value_counts@, dim, i as int),
                forall|k: int| 0 <= k < i ==> (#[trigger] offsets@[k]) == rows_before(value_counts@, dim, k),
                forall|k: int| 0 <= k < i ==> (#[trigger] offsets@[k]) <= total,
                forall|k: int, j: int|
                    0 <= k <= j < i ==> (#[trigger] offsets@[k]) <= (#[trigger] offsets@[j]),
            decreases value_counts.len() - i,
        {
            offsets.push(total);
            proof {
                rows_before_ascends(value_counts@, dim, i + 1, value_counts.len() as int);
            }
            total = total + value_counts[i] / per;
            i = i + 1;
        }
        offsets.push(total);
        VectorColumnView { dim, offsets }
    }

    /// The number of rows.
    pub fn n_rows(&self, value_counts: &Vec<usize>) -> (n: usize)
        requires
            self.is_over(value_counts@),
        ensures
            n == rows_before(value_counts@, self.dim, value_counts.len() as int),
    {
        self.offsets[value_counts.len()]
    }

    /// Where row `local` of the commit stands: the batch that holds it, and the
    /// place of its first value there. `None` when there is no such row.
    pub fn row(&self, value_counts: &Vec<usize>, local: usize) -> (place: Option<RowPlace>)
        requires
            self.is_over(value_counts@),
        ensures
            match place {
                Some(p) => {
                    &&& p.batch < value_counts.len()
                    &&& rows_before(value_counts@, self.dim, p.batch as int) <= local < rows_before(
                        value_counts@,
                        self.dim,
                        p.batch + 1,
                    )
                    &&& p.start == (local - rows_before(value_counts@, self.dim, p.batch as int)) * self.dim
                    &&& p.start + self.dim <= value_counts@[p.batch as int]
                },
                None => local >= rows_before(value_counts@, self.dim, value_counts.len() as int),
            },
    {
        let n: usize = value_counts.len();
        if local >= self.offsets[n] {
            return None;
        }
        // The batch is between `lo`, which starts at or before the row, and
        // `hi`, which starts after it.
        let mut lo: usize = 0;
        let mut hi: usize = n;
        while hi - lo > 1
            invariant
                self.is_over(value_counts@),
                n == value_counts.len(),
                lo < hi <= n,
                self.offsets@[lo as int] <= local < self.offsets@[hi as int],
            decreases hi - lo,
        {
            let mid: usize = lo + (hi - lo) / 2;
            if self.offsets[mid] <= local {
                lo = mid;
            } else {
                hi = mid;
            }
        }
        let in_batch: usize = local - self.offsets[lo];
        proof {
            let held = value_counts@[lo as int] as int;
            let per: int = if self.dim == 0 {
                1
            } else {
                self.dim as int
            };
            assert(rows_before(value_counts@, self.dim, lo + 1) == self.offsets@[lo as int] + held / per);
            assert(in_batch < held / per);
            assert((in_batch + 1) * self.dim <= held) by (nonlinear_arith)
                requires
                    in_batch + 1 <= held / per,
                    per > 0,
                    held >= 0,
                    self.dim == per || self.dim == 0,
            ;
            assert((in_batch + 1) * self.dim == in_batch * self.dim + self.dim) by (nonlinear_arith);
            assert(0 <= in_batch * self.dim) by (nonlinear_arith)
                requires
                    in_batch >= 0,
                    self.dim >= 0,
            ;
        }
        Some(RowPlace { batch: lo, start: in_batch * self.dim })
    }
}

proof fn rows_before_ascends(value_counts: Seq<usize>, dim: usize, i: int, j: int)
    requires
        0 <= i <= j <= value_counts.len(),
    ensures
        0 <= rows_before(value_counts, dim, i) <= rows_before(value_counts, dim, j),
    decreases j,
{
    if j > 0 {
        let per: int = if dim == 0 {
            1
        } else {
            dim as int
        };
        assert(value_counts[j - 1] as int / per >= 0) by (nonlinear_arith)
            requires
                value_counts[j - 1] >= 0,
                per > 0,
        ;
        if i < j {
            rows_before_ascends(value_counts, dim, i, j - 1);
        } else {
            rows_before_ascends(value_counts, dim, j - 1, j - 1);
        }
    }
}

} // verus!
