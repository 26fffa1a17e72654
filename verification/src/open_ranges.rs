//! The byte ranges that a reader needs to open a superfile.
//!
//! A superfile embeds a vector blob and a full-text blob. The manifest carries
//! the ranges of those blobs that hold headers, directories and cluster
//! indexes, so that a reader opens the file without a request of its own. The
//! ranges leave out everything whose size grows with the number of rows.
use vstd::prelude::*;

use crate::order::{stable_order, SortKey};
use crate::shared_bytes::{as_slice, buffer_bytes};
use crate::wire::{copy_range, le4, le8, u32_at, u64_at};

verus! {

/// Length of the file tail that an opening reader fetches first.
pub const PARQUET_TAIL_SPEC: u64 = 65536;

// ---------------------------------------------------------------------------
// Ranges
// ---------------------------------------------------------------------------

/// `p` lies in the `len` positions from `start` on.
pub open spec fn in_span(p: int, start: int, len: int) -> bool {
    start <= p < start + len
}

/// `p` lies in one of the `(offset, length)` ranges.
pub open spec fn covered(ranges: Seq<(u64, u64)>, p: int) -> bool {
    exists|i: int|
        0 <= i < ranges.len() && in_span(p, (#[trigger] ranges[i]).0 as int, ranges[i].1 as int)
}

/// Ranges in ascending order, none empty, with a gap between any two.
pub open spec fn is_coalesced(ranges: Seq<(u64, u64)>) -> bool {
    &&& forall|i: int| 0 <= i < ranges.len() ==> (#[trigger] ranges[i]).1 > 0
    &&& forall|i: int, j: int|
        0 <= i < j < ranges.len() ==> (#[trigger] ranges[i]).0 + ranges[i].1 < (
        #[trigger] ranges[j]).0
}

/// No range runs past the largest position.
pub open spec fn spans_fit(ranges: Seq<(u64, u64)>) -> bool {
    forall|i: int| 0 <= i < ranges.len() ==> (#[trigger] ranges[i]).0 + ranges[i].1 <= u64::MAX
}

/// Coalesced ranges are determined by the positions that they cover.
pub proof fn coalesced_form_is_unique(a: Seq<(u64, u64)>, b: Seq<(u64, u64)>)
    requires
        is_coalesced(a),
        is_coalesced(b),
        forall|p: int| covered(a, p) == covered(b, p),
    ensures
        a == b,
{
    let n = if a.len() <= b.len() {
        a.len()
    } else {
        b.len()
    };
    coalesced_prefixes_agree(a, b, n);
    if a.len() < b.len() {
        let p = b[n as int].0 as int;
        assert(in_span(p, b[n as int].0 as int, b[n as int].1 as int));
        assert(covered(b, p));
        assert(covered(a, p));
        let i = choose|i: int| 0 <= i < a.len() && in_span(p, a[i].0 as int, a[i].1 as int);
        assert(a[i] == b[i]);
    } else if b.len() < a.len() {
        let p = a[n as int].0 as int;
        assert(in_span(p, a[n as int].0 as int, a[n as int].1 as int));
        assert(covered(a, p));
        assert(covered(b, p));
        let i = choose|i: int| 0 <= i < b.len() && in_span(p, b[i].0 as int, b[i].1 as int);
        assert(a[i] == b[i]);
    }
    assert(a =~= b);
}

proof fn coalesced_prefixes_agree(a: Seq<(u64, u64)>, b: Seq<(u64, u64)>, n: nat)
    requires
        is_coalesced(a),
        is_coalesced(b),
        forall|p: int| covered(a, p) == covered(b, p),
        n <= a.len(),
        n <= b.len(),
    ensures
        forall|i: int| 0 <= i < n ==> a[i] == b[i],
    decreases n,
{
    if n > 0 {
        let m = (n - 1) as int;
        coalesced_prefixes_agree(a, b, (n - 1) as nat);
        coalesced_bounds(a, b, m);
        coalesced_bounds(b, a, m);
    }
}

/// With equal prefixes, the range at `m` of `b` starts no later than that of
/// `a`, and where they start together it is at least as long.
proof fn coalesced_bounds(a: Seq<(u64, u64)>, b: Seq<(u64, u64)>, m: int)
    requires
        is_coalesced(a),
        is_coalesced(b),
        forall|p: int| covered(a, p) == covered(b, p),
        0 <= m < a.len(),
        m < b.len(),
        forall|i: int| 0 <= i < m ==> a[i] == b[i],
    ensures
        b[m].0 <= a[m].0,
        b[m].0 == a[m].0 ==> b[m].1 >= a[m].1,
{
    let p = a[m].0 as int;
    assert(in_span(p, a[m].0 as int, a[m].1 as int));
    assert(covered(a, p));
    assert(covered(b, p));
    let i = choose|i: int| 0 <= i < b.len() && in_span(p, b[i].0 as int, b[i].1 as int);
    if i < m {
        assert(a[i] == b[i]);
        assert(a[i].0 + a[i].1 < a[m].0);
    }
    assert(i >= m);
    if i > m {
        assert(b[m].0 + b[m].1 < b[i].0);
    }
    assert(b[m].0 <= a[m].0);
    if b[m].0 == a[m].0 && b[m].1 < a[m].1 {
        let q = b[m].0 + b[m].1;
        assert(in_span(q, a[m].0 as int, a[m].1 as int));
        assert(covered(a, q));
        assert(covered(b, q));
        let j = choose|j: int| 0 <= j < b.len() && in_span(q, b[j].0 as int, b[j].1 as int);
        if j < m {
            assert(b[j].0 + b[j].1 < b[m].0);
        } else if j > m {
            assert(b[m].0 + b[m].1 < b[j].0);
        }
    }
}

/// Drops empty ranges and joins those that overlap or touch. The result covers
/// the same positions in ascending order with a gap between any two ranges.
pub fn merge_ranges(ranges: Vec<(u64, u64)>) -> (merged: Vec<(u64, u64)>)
    requires
        spans_fit(ranges@),
    ensures
        is_coalesced(merged@),
        spans_fit(merged@),
        forall|p: int| covered(merged@, p) == covered(ranges@, p),
{
    let mut keys: Vec<SortKey> = Vec::new();
    let mut i: usize = 0;
    while i < ranges.len()
        invariant
            i <= ranges.len(),
            keys.len() == i,
            forall|k: int| 0 <= k < i ==> #[trigger] keys@[k] == (ranges@[k].0 as i128, 0u128),
        decreases ranges.len() - i,
    {
        keys.push((ranges[i].0 as i128, 0));
        i = i + 1;
    }
    let order = stable_order(&keys);
    let mut merged: Vec<(u64, u64)> = Vec::new();
    let mut k: usize = 0;
    while k < order.len()
        invariant
            spans_fit(ranges@),
            keys.len() == ranges.len(),
            order.len() == ranges.len(),
            forall|q: int| 0 <= q < ranges.len() ==> #[trigger] keys@[q] == (ranges@[q].0 as i128, 0u128),
            crate::order::is_stable_order(keys@, order@),
            k <= order.len(),
            is_coalesced(merged@),
            spans_fit(merged@),
            forall|q: int, r: int|
                0 <= q < merged.len() && k <= r < order.len() ==> (#[trigger] merged@[q]).0
                    <= ranges@[(#[trigger] order@[r]) as int].0,
            forall|p: int| #[trigger] covered(merged@, p) ==> covered(ranges@, p),
            forall|r: int, p: int|
                0 <= r < k && #[trigger] in_span(
                    p,
                    ranges@[(#[trigger] order@[r]) as int].0 as int,
                    ranges@[order@[r] as int].1 as int,
                ) ==> covered(merged@, p),
        decreases order.len() - k,
    {
        let at: usize = order[k];
        let off: u64 = ranges[at].0;
        let len: u64 = ranges[at].1;
        let ghost prev = merged@;
        assert forall|r: int| k < r < order.len() implies off <= ranges@[(
        #[trigger] order@[r]) as int].0 by {
            assert(crate::order::comes_before(keys@, order@[k as int] as int, order@[r] as int));
        }
        if len > 0 {
            let end: u64 = off + len;
            let n: usize = merged.len();
            if n > 0 && off <= merged[n - 1].0 + merged[n - 1].1 {
                let last: (u64, u64) = merged[n - 1];
                assert(prev[n - 1].0 <= ranges@[order@[k as int] as int].0);
                let reach: u64 = end - last.0;
                let grown: u64 = if last.1 >= reach {
                    last.1
                } else {
                    reach
                };
                merged.set(n - 1, (last.0, grown));
                assert forall|p: int| #[trigger] covered(merged@, p) implies covered(ranges@, p) by {
                    let q = choose|q: int|
                        0 <= q < merged.len() && in_span(p, merged@[q].0 as int, merged@[q].1 as int);
                    if in_span(p, off as int, len as int) {
                        assert(in_span(p, ranges@[at as int].0 as int, ranges@[at as int].1 as int));
                    } else {
                        assert(in_span(p, prev[q].0 as int, prev[q].1 as int));
                        assert(covered(prev, p));
                    }
                }
                assert forall|p: int| covered(prev, p) implies covered(merged@, p) by {
                    let q = choose|q: int|
                        0 <= q < prev.len() && in_span(p, prev[q].0 as int, prev[q].1 as int);
                    assert(in_span(p, merged@[q].0 as int, merged@[q].1 as int));
                }
                assert forall|p: int| in_span(p, off as int, len as int) implies covered(
                    merged@,
                    p,
                ) by {
                    assert(in_span(p, merged@[n - 1].0 as int, merged@[n - 1].1 as int));
                }
            } else {
                merged.push((off, len));
                assert forall|q: int| 0 <= q < n implies (#[trigger] prev[q]).0 + prev[q].1 < off by {
                    if q < n - 1 {
                        assert(prev[q].0 + prev[q].1 < prev[n - 1].0);
                    }
                }
                assert forall|p: int| #[trigger] covered(merged@, p) implies covered(ranges@, p) by {
                    let q = choose|q: int|
                        0 <= q < merged.len() && in_span(p, merged@[q].0 as int, merged@[q].1 as int);
                    if q == n {
                        assert(in_span(p, ranges@[at as int].0 as int, ranges@[at as int].1 as int));
                    } else {
                        assert(in_span(p, prev[q].0 as int, prev[q].1 as int));
                        assert(covered(prev, p));
                    }
                }
                assert forall|p: int| covered(prev, p) implies covered(merged@, p) by {
                    let q = choose|q: int|
                        0 <= q < prev.len() && in_span(p, prev[q].0 as int, prev[q].1 as int);
                    assert(in_span(p, merged@[q].0 as int, merged@[q].1 as int));
                }
                assert forall|p: int| in_span(p, off as int, len as int) implies covered(
                    merged@,
                    p,
                ) by {
                    assert(in_span(p, merged@[n as int].0 as int, merged@[n as int].1 as int));
                }
            }
        }
        k = k + 1;
    }
    assert forall|p: int| covered(ranges@, p) implies covered(merged@, p) by {
        let q = choose|q: int|
            0 <= q < ranges.len() && in_span(p, ranges@[q].0 as int, ranges@[q].1 as int);
        assert(order@.contains(q as usize));
        let r = choose|r: int| 0 <= r < order.len() && order@[r] == q as usize;
        assert(in_span(p, ranges@[order@[r] as int].0 as int, ranges@[order@[r] as int].1 as int));
    }
    merged
}

// ---------------------------------------------------------------------------
// The vector blob
// ---------------------------------------------------------------------------

/// Where the fields of a vector blob stand. All numbers count bytes, except the
/// two version numbers.
#[derive(Clone, Copy)]
pub struct VectorFormat {
    pub outer_header_size: u64,
    pub crc_bytes: u64,
    pub version_single: u32,
    pub version_multi_cell: u32,
    /// Offsets in the outer header.
    pub version_off: u64,
    pub n_columns_off: u64,
    pub n_cells_off: u64,
    pub dir_offset_off: u64,
    /// One directory entry of a single-cell blob, and the offsets in it.
    pub dir_entry_size: u64,
    pub column_subsection_off: u64,
    pub column_subsection_len: u64,
    pub column_codec_meta_off: u64,
    pub column_codec_meta_size: u64,
    pub column_n_cent: u64,
    /// One directory entry of a multi-cell blob, and the offsets in it.
    pub cell_dir_entry_size: u64,
    pub cell_subsection_off: u64,
    pub cell_subsection_len: u64,
    /// The header of a subsection, and the offsets in it.
    pub sub_header_size: u64,
    pub centroids_off: u64,
    pub cluster_idx_off: u64,
    pub cluster_idx_entry_bytes: u64,
}

impl VectorFormat {
    /// Every field lies inside the header or entry that holds it, and no header
    /// or entry is longer than 64 KiB.
    pub open spec fn well_formed(self) -> bool {
        &&& self.outer_header_size <= 0x1_0000
        &&& self.crc_bytes <= 0x1_0000
        &&& self.dir_entry_size <= 0x1_0000
        &&& self.cell_dir_entry_size <= 0x1_0000
        &&& self.sub_header_size <= 0x1_0000
        &&& self.cluster_idx_entry_bytes <= 0x1_0000
        &&& self.version_off + 4 <= self.outer_header_size
        &&& self.n_columns_off + 4 <= self.outer_header_size
        &&& self.n_cells_off + 4 <= self.outer_header_size
        &&& self.dir_offset_off + 8 <= self.outer_header_size
        &&& self.column_subsection_off + 8 <= self.dir_entry_size
        &&& self.column_subsection_len + 8 <= self.dir_entry_size
        &&& self.column_codec_meta_off + 4 <= self.dir_entry_size
        &&& self.column_codec_meta_size + 4 <= self.dir_entry_size
        &&& self.column_n_cent + 4 <= self.dir_entry_size
        &&& self.cell_subsection_off + 8 <= self.cell_dir_entry_size
        &&& self.cell_subsection_len + 8 <= self.cell_dir_entry_size
        &&& self.centroids_off + 8 <= self.sub_header_size
        &&& self.cluster_idx_off + 8 <= self.sub_header_size
    }
}

/// One subsection as its directory entry and header describe it: where it
/// starts in the blob, and where its cluster index stands in it.
pub struct SubsectionSpan {
    pub start: int,
    pub index_off: int,
    pub index_len: int,
}

/// The subsection of column `i` of a single-cell blob; `None` when its entry or
/// its header points outside the bytes that are there.
pub open spec fn column_span(f: VectorFormat, blob: Seq<u8>, dir_off: int, i: int) -> Option<SubsectionSpan> {
    let entry = dir_off + i * f.dir_entry_size;
    let start = le8(blob, entry + f.column_subsection_off);
    let len = le8(blob, entry + f.column_subsection_len);
    let meta_off = le4(blob, entry + f.column_codec_meta_off);
    let meta_size = le4(blob, entry + f.column_codec_meta_size);
    let n_cent = le4(blob, entry + f.column_n_cent);
    let centroids = le8(blob, start + f.centroids_off);
    let index_off = le8(blob, start + f.cluster_idx_off);
    let index_len = n_cent * f.cluster_idx_entry_bytes;
    if start + f.sub_header_size > blob.len() || start + len > blob.len() {
        None
    } else if f.centroids_off + 8 > len || f.cluster_idx_off + 8 > len {
        None
    } else if centroids < f.sub_header_size || index_off + index_len > len {
        None
    } else if meta_size > 0 && meta_off + meta_size > len {
        None
    } else {
        Some(SubsectionSpan { start, index_off, index_len })
    }
}

/// The subsection of cell `i` of a multi-cell blob with vectors of `dim`
/// numbers of four bytes. The number of clusters follows from the bytes between
/// the centroids and the cluster index.
pub open spec fn cell_span(f: VectorFormat, blob: Seq<u8>, dir_off: int, dim: int, i: int) -> Option<
    SubsectionSpan,
> {
    let entry = dir_off + i * f.cell_dir_entry_size;
    let start = le8(blob, entry + f.cell_subsection_off);
    let len = le8(blob, entry + f.cell_subsection_len);
    let centroids = le8(blob, start + f.centroids_off);
    let index_off = le8(blob, start + f.cluster_idx_off);
    let index_len = (index_off - centroids) / (dim * 4) * f.cluster_idx_entry_bytes;
    if start + f.sub_header_size > blob.len() || start + len > blob.len() {
        None
    } else if f.centroids_off + 8 > len || f.cluster_idx_off + 8 > len {
        None
    } else if index_off < centroids || centroids < f.sub_header_size || (index_off - centroids) % (dim * 4)
        != 0 {
        None
    } else if index_off + index_len > len {
        None
    } else {
        Some(SubsectionSpan { start, index_off, index_len })
    }
}

/// Position `p` of the file belongs to the header or the cluster index of the
/// subsection, in a blob that starts at `off`.
pub open spec fn span_staged(f: VectorFormat, off: int, span: SubsectionSpan, p: int) -> bool {
    ||| in_span(p, off + span.start, f.sub_header_size as int)
    ||| in_span(p, off + span.start + span.index_off, span.index_len)
}

/// Position `p` of the file belongs to the outer header or the directory.
pub open spec fn directory_staged(f: VectorFormat, off: int, dir_off: int, dir_size: int, p: int) -> bool {
    ||| in_span(p, off, f.outer_header_size as int)
    ||| in_span(p, off + dir_off, dir_size + f.crc_bytes)
}

/// The single-cell blob can be staged: the directory and every column lie
/// inside it.
pub open spec fn single_parses(f: VectorFormat, blob: Seq<u8>) -> bool {
    let n = le4(blob, f.n_columns_off as int);
    let dir_off = le8(blob, f.dir_offset_off as int);
    &&& dir_off + n * f.dir_entry_size + f.crc_bytes <= blob.len()
    &&& forall|i: int| 0 <= i < n ==> (#[trigger] column_span(f, blob, dir_off, i)) is Some
}

/// What the open ranges of a single-cell blob at `off` cover.
pub open spec fn single_staged(f: VectorFormat, blob: Seq<u8>, off: int, p: int) -> bool {
    let n = le4(blob, f.n_columns_off as int);
    let dir_off = le8(blob, f.dir_offset_off as int);
    ||| directory_staged(f, off, dir_off, n * f.dir_entry_size, p)
    ||| exists|i: int|
        0 <= i < n && span_staged(f, off, (#[trigger] column_span(f, blob, dir_off, i))->0, p)
}

/// The multi-cell blob can be staged: the directory and every cell lie inside
/// it.
pub open spec fn multi_parses(f: VectorFormat, blob: Seq<u8>, dim: int) -> bool {
    let n = le4(blob, f.n_cells_off as int);
    let dir_off = le8(blob, f.dir_offset_off as int);
    &&& dim > 0
    &&& dir_off + n * f.cell_dir_entry_size + f.crc_bytes <= blob.len()
    &&& forall|i: int| 0 <= i < n ==> (#[trigger] cell_span(f, blob, dir_off, dim, i)) is Some
}

/// What the open ranges of a multi-cell blob at `off` cover.
pub open spec fn multi_staged(f: VectorFormat, blob: Seq<u8>, off: int, dim: int, p: int) -> bool {
    let n = le4(blob, f.n_cells_off as int);
    let dir_off = le8(blob, f.dir_offset_off as int);
    ||| directory_staged(f, off, dir_off, n * f.cell_dir_entry_size, p)
    ||| exists|i: int|
        0 <= i < n && span_staged(f, off, (#[trigger] cell_span(f, blob, dir_off, dim, i))->0, p)
}

/// Bytes of the subsection of cell `i`.
pub open spec fn cell_len(f: VectorFormat, blob: Seq<u8>, dir_off: int, i: int) -> int {
    le8(blob, dir_off + i * f.cell_dir_entry_size + f.cell_subsection_len)
}

/// What a cell's subsection holds besides its header and its cluster index, the
/// centroids and everything that grows with the rows, is never staged, when the
/// subsections overlap neither each other nor the header and the directory.
pub proof fn rows_are_not_staged(f: VectorFormat, blob: Seq<u8>, off: int, dim: int, i: int, p: int)
    requires
        f.well_formed(),
        multi_parses(f, blob, dim),
        ({
            let n = le4(blob, f.n_cells_off as int);
            let dir_off = le8(blob, f.dir_offset_off as int);
            let span = cell_span(f, blob, dir_off, dim, i)->0;
            &&& 0 <= i < n
            &&& in_span(p, off + span.start, cell_len(f, blob, dir_off, i))
            &&& !span_staged(f, off, span, p)
            &&& !directory_staged(f, off, dir_off, n * f.cell_dir_entry_size, p)
            &&& forall|j: int|
                0 <= j < n && j != i ==> !in_span(
                    p,
                    off + (#[trigger] cell_span(f, blob, dir_off, dim, j))->0.start,
                    cell_len(f, blob, dir_off, j),
                )
        }),
    ensures
        !multi_staged(f, blob, off, dim, p),
{
    let n = le4(blob, f.n_cells_off as int);
    let dir_off = le8(blob, f.dir_offset_off as int);
    assert forall|j: int| 0 <= j < n implies !span_staged(
        f,
        off,
        (#[trigger] cell_span(f, blob, dir_off, dim, j))->0,
        p,
    ) by {
        if j != i {
            let span = cell_span(f, blob, dir_off, dim, j)->0;
            assert(cell_span(f, blob, dir_off, dim, j) is Some);
            let centroids = le8(blob, span.start + f.centroids_off);
            assert(0 <= (span.index_off - centroids) / (dim * 4)) by (nonlinear_arith)
                requires
                    span.index_off >= centroids,
                    dim > 0,
            ;
            assert(0 <= (span.index_off - centroids) / (dim * 4) * f.cluster_idx_entry_bytes)
                by (nonlinear_arith)
                requires
                    0 <= (span.index_off - centroids) / (dim * 4),
                    f.cluster_idx_entry_bytes >= 0,
            ;
        }
    }
}

/// The vector blob at `off` can be staged.
pub open spec fn vector_blob_parses(f: VectorFormat, blob: Seq<u8>, dim: Option<usize>) -> bool {
    let version = le4(blob, f.version_off as int);
    &&& f.outer_header_size + f.crc_bytes <= blob.len()
    &&& if version == f.version_multi_cell {
        dim is Some && multi_parses(f, blob, dim->0 as int)
    } else {
        version == f.version_single && single_parses(f, blob)
    }
}

/// What the open ranges of the vector blob at `off` cover.
pub open spec fn vector_staged(f: VectorFormat, blob: Seq<u8>, off: int, dim: Option<usize>, p: int) -> bool {
    if le4(blob, f.version_off as int) == f.version_multi_cell {
        multi_staged(f, blob, off, dim->0 as int, p)
    } else {
        single_staged(f, blob, off, p)
    }
}

/// One more range at the end covers its own positions besides those before.
proof fn push_covers(ranges: Seq<(u64, u64)>, r: (u64, u64), p: int)
    ensures
        covered(ranges.push(r), p) == (covered(ranges, p) || in_span(p, r.0 as int, r.1 as int)),
{
    let more = ranges.push(r);
    if covered(ranges, p) {
        let i = choose|i: int| 0 <= i < ranges.len() && in_span(p, ranges[i].0 as int, ranges[i].1 as int);
        assert(in_span(p, more[i].0 as int, more[i].1 as int));
    }
    if in_span(p, r.0 as int, r.1 as int) {
        let i = ranges.len() as int;
        assert(in_span(p, more[i].0 as int, more[i].1 as int));
    }
    if covered(more, p) {
        let i = choose|i: int| 0 <= i < more.len() && in_span(p, more[i].0 as int, more[i].1 as int);
        if i < ranges.len() {
            assert(in_span(p, ranges[i].0 as int, ranges[i].1 as int));
        }
    }
}

/// Appends a range.
fn stage(ranges: &mut Vec<(u64, u64)>, start: u64, len: u64)
    requires
        start + len <= u64::MAX,
        spans_fit(old(ranges)@),
    ensures
        spans_fit(final(ranges)@),
        forall|p: int|
            #[trigger] covered(final(ranges)@, p) == (covered(old(ranges)@, p) || in_span(
                p,
                start as int,
                len as int,
            )),
{
    let ghost before = ranges@;
    ranges.push((start, len));
    assert forall|p: int| #[trigger]
        covered(ranges@, p) == (covered(before, p) || in_span(p, start as int, len as int)) by {
        push_covers(before, (start, len), p);
    }
}

/// The entry of column `i` and the header it points to.
fn read_column(f: &VectorFormat, blob: &[u8], dir_off: u64, i: u64) -> (span: Option<(u64, u64, u64)>)
    requires
        f.well_formed(),
        dir_off + (i + 1) * f.dir_entry_size <= blob.len(),
    ensures
        span is Some <==> column_span(*f, blob@, dir_off as int, i as int) is Some,
        span matches Some(s) ==> column_span(*f, blob@, dir_off as int, i as int) == Some(
            (SubsectionSpan { start: s.0 as int, index_off: s.1 as int, index_len: s.2 as int }),
        ) && s.0 + f.sub_header_size <= blob.len() && s.0 + s.1 + s.2 <= blob.len(),
{
    assert((i + 1) * f.dir_entry_size == i * f.dir_entry_size + f.dir_entry_size)
        by (nonlinear_arith);
    assert(0 <= i * f.dir_entry_size) by (nonlinear_arith)
        requires
            0 <= i,
            0 <= f.dir_entry_size,
    ;
    let entry: u64 = dir_off + i * f.dir_entry_size;
    let start: u64 = u64_at(blob, (entry + f.column_subsection_off) as usize);
    let len: u64 = u64_at(blob, (entry + f.column_subsection_len) as usize);
    let meta_off: u32 = u32_at(blob, (entry + f.column_codec_meta_off) as usize);
    let meta_size: u32 = u32_at(blob, (entry + f.column_codec_meta_size) as usize);
    let n_cent: u32 = u32_at(blob, (entry + f.column_n_cent) as usize);
    let size: u64 = blob.len() as u64;
    if start > size || f.sub_header_size > size - start || len > size - start {
        return None;
    }
    if f.centroids_off + 8 > len || f.cluster_idx_off + 8 > len {
        return None;
    }
    let centroids: u64 = u64_at(blob, (start + f.centroids_off) as usize);
    let index_off: u64 = u64_at(blob, (start + f.cluster_idx_off) as usize);
    assert(0 <= n_cent * f.cluster_idx_entry_bytes <= 0xffff_ffff * 0x1_0000) by (nonlinear_arith)
        requires
            0 <= n_cent <= 0xffff_ffff,
            0 <= f.cluster_idx_entry_bytes <= 0x1_0000,
    ;
    let index_len: u64 = n_cent as u64 * f.cluster_idx_entry_bytes;
    if centroids < f.sub_header_size || index_off > len || index_len > len - index_off {
        return None;
    }
    if meta_size > 0 && meta_off as u64 + meta_size as u64 > len {
        return None;
    }
    Some((start, index_off, index_len))
}

/// The entry of cell `i` and the header it points to.
fn read_cell_entry(f: &VectorFormat, blob: &[u8], dir_off: u64, dim: u64, i: u64) -> (span: Option<
    (u64, u64, u64),
>)
    requires
        f.well_formed(),
        dim > 0,
        dim * 4 <= u64::MAX,
        dir_off + (i + 1) * f.cell_dir_entry_size <= blob.len(),
    ensures
        span is Some <==> cell_span(*f, blob@, dir_off as int, dim as int, i as int) is Some,
        span matches Some(s) ==> cell_span(*f, blob@, dir_off as int, dim as int, i as int) == Some(
            (SubsectionSpan { start: s.0 as int, index_off: s.1 as int, index_len: s.2 as int }),
        ) && s.0 + f.sub_header_size <= blob.len() && s.0 + s.1 + s.2 <= blob.len(),
{
    assert((i + 1) * f.cell_dir_entry_size == i * f.cell_dir_entry_size + f.cell_dir_entry_size)
        by (nonlinear_arith);
    assert(0 <= i * f.cell_dir_entry_size) by (nonlinear_arith)
        requires
            0 <= i,
            0 <= f.cell_dir_entry_size,
    ;
    let entry: u64 = dir_off + i * f.cell_dir_entry_size;
    let start: u64 = u64_at(blob, (entry + f.cell_subsection_off) as usize);
    let len: u64 = u64_at(blob, (entry + f.cell_subsection_len) as usize);
    let size: u64 = blob.len() as u64;
    if start > size || f.sub_header_size > size - start || len > size - start {
        return None;
    }
    if f.centroids_off + 8 > len || f.cluster_idx_off + 8 > len {
        return None;
    }
    let centroids: u64 = u64_at(blob, (start + f.centroids_off) as usize);
    let index_off: u64 = u64_at(blob, (start + f.cluster_idx_off) as usize);
    if index_off < centroids || centroids < f.sub_header_size || (index_off - centroids) % (dim * 4) != 0 {
        return None;
    }
    let n_cent: u64 = (index_off - centroids) / (dim * 4);
    let ghost wanted = n_cent * f.cluster_idx_entry_bytes;
    match n_cent.checked_mul(f.cluster_idx_entry_bytes) {
        Some(index_len) => {
            if index_off > len || index_len > len - index_off {
                return None;
            }
            assert(index_len == wanted);
            Some((start, index_off, index_len))
        },
        None => {
            assert(wanted > u64::MAX);
            None
        },
    }
}

/// Open ranges of a single-cell blob that holds its outer header.
fn single_open_ranges(f: &VectorFormat, blob: &[u8], off: u64) -> (ranges: Option<Vec<(u64, u64)>>)
    requires
        f.well_formed(),
        f.outer_header_size + f.crc_bytes <= blob.len(),
        off + blob.len() <= u64::MAX,
    ensures
        ranges is Some <==> single_parses(*f, blob@),
        ranges matches Some(r) ==> is_coalesced(r@) && spans_fit(r@) && forall|p: int|
            covered(r@, p) == single_staged(*f, blob@, off as int, p),
{
    let n: u64 = u32_at(blob, f.n_columns_off as usize) as u64;
    let dir_off: u64 = u64_at(blob, f.dir_offset_off as usize);
    let size: u64 = blob.len() as u64;
    assert(0 <= n * f.dir_entry_size <= 0xffff_ffff * 0x1_0000) by (nonlinear_arith)
        requires
            0 <= n <= 0xffff_ffff,
            0 <= f.dir_entry_size <= 0x1_0000,
    ;
    let dir_size: u64 = n * f.dir_entry_size;
    if dir_off > size || dir_size + f.crc_bytes > size - dir_off {
        return None;
    }
    let mut raw: Vec<(u64, u64)> = Vec::new();
    stage(&mut raw, off + dir_off, dir_size + f.crc_bytes);
    stage(&mut raw, off, f.outer_header_size);
    let mut i: u64 = 0;
    while i < n
        invariant
            f.well_formed(),
            off + blob.len() <= u64::MAX,
            size == blob.len(),
            n == le4(blob@, f.n_columns_off as int),
            dir_off == le8(blob@, f.dir_offset_off as int),
            dir_size == n * f.dir_entry_size,
            dir_off + dir_size + f.crc_bytes <= size,
            i <= n,
            spans_fit(raw@),
            forall|k: int| 0 <= k < i ==> (#[trigger] column_span(*f, blob@, dir_off as int, k)) is Some,
            forall|p: int| #[trigger]
                covered(raw@, p) == (directory_staged(
                    *f,
                    off as int,
                    dir_off as int,
                    dir_size as int,
                    p,
                ) || exists|k: int|
                    0 <= k < i && span_staged(
                        *f,
                        off as int,
                        (#[trigger] column_span(*f, blob@, dir_off as int, k))->0,
                        p,
                    )),
        decreases n - i,
    {
        assert((i + 1) * f.dir_entry_size <= n * f.dir_entry_size) by (nonlinear_arith)
            requires
                i + 1 <= n,
                0 <= f.dir_entry_size,
        ;
        match read_column(f, blob, dir_off, i) {
            None => {
                return None;
            },
            Some((start, index_off, index_len)) => {
                let ghost before = raw@;
                stage(&mut raw, off + start, f.sub_header_size);
                stage(&mut raw, off + start + index_off, index_len);
                i = i + 1;
                assert forall|p: int| #[trigger]
                    covered(raw@, p) == (directory_staged(
                        *f,
                        off as int,
                        dir_off as int,
                        dir_size as int,
                        p,
                    ) || exists|k: int|
                        0 <= k < i && span_staged(
                            *f,
                            off as int,
                            (#[trigger] column_span(*f, blob@, dir_off as int, k))->0,
                            p,
                        )) by {
                    let this = column_span(*f, blob@, dir_off as int, i - 1)->0;
                    assert(covered(raw@, p) == (covered(before, p) || span_staged(*f, off as int, this, p)));
                }
            },
        }
    }
    Some(merge_ranges(raw))
}

/// Open ranges of a multi-cell blob that starts at `off`: its outer header, its
/// cell directory, and the header and cluster index of each cell. `None` when
/// an entry points outside the blob or `dim` is zero.
pub fn vector_open_ranges_multi_cell(f: &VectorFormat, blob: &[u8], off: u64, dim: usize) -> (ranges: Option<
    Vec<(u64, u64)>,
>)
    requires
        f.well_formed(),
        f.outer_header_size + f.crc_bytes <= blob.len(),
        off + blob.len() <= u64::MAX,
        dim * 4 <= usize::MAX,
    ensures
        ranges is Some <==> multi_parses(*f, blob@, dim as int),
        ranges matches Some(r) ==> is_coalesced(r@) && spans_fit(r@) && forall|p: int|
            covered(r@, p) == multi_staged(*f, blob@, off as int, dim as int, p),
{
    if dim == 0 {
        return None;
    }
    let n: u64 = u32_at(blob, f.n_cells_off as usize) as u64;
    let dir_off: u64 = u64_at(blob, f.dir_offset_off as usize);
    let size: u64 = blob.len() as u64;
    assert(0 <= n * f.cell_dir_entry_size <= 0xffff_ffff * 0x1_0000) by (nonlinear_arith)
        requires
            0 <= n <= 0xffff_ffff,
            0 <= f.cell_dir_entry_size <= 0x1_0000,
    ;
    let dir_size: u64 = n * f.cell_dir_entry_size;
    if dir_off > size || dir_size + f.crc_bytes > size - dir_off {
        return None;
    }
    let mut raw: Vec<(u64, u64)> = Vec::new();
    stage(&mut raw, off, f.outer_header_size);
    stage(&mut raw, off + dir_off, dir_size + f.crc_bytes);
    let mut i: u64 = 0;
    while i < n
        invariant
            f.well_formed(),
            off + blob.len() <= u64::MAX,
            size == blob.len(),
            0 < dim,
            dim * 4 <= usize::MAX,
            n == le4(blob@, f.n_cells_off as int),
            dir_off == le8(blob@, f.dir_offset_off as int),
            dir_size == n * f.cell_dir_entry_size,
            dir_off + dir_size + f.crc_bytes <= size,
            i <= n,
            spans_fit(raw@),
            forall|k: int|
                0 <= k < i ==> (#[trigger] cell_span(*f, blob@, dir_off as int, dim as int, k)) is Some,
            forall|p: int| #[trigger]
                covered(raw@, p) == (directory_staged(
                    *f,
                    off as int,
                    dir_off as int,
                    dir_size as int,
                    p,
                ) || exists|k: int|
                    0 <= k < i && span_staged(
                        *f,
                        off as int,
                        (#[trigger] cell_span(*f, blob@, dir_off as int, dim as int, k))->0,
                        p,
                    )),
        decreases n - i,
    {
        assert((i + 1) * f.cell_dir_entry_size <= n * f.cell_dir_entry_size) by (nonlinear_arith)
            requires
                i + 1 <= n,
                0 <= f.cell_dir_entry_size,
        ;
        match read_cell_entry(f, blob, dir_off, dim as u64, i) {
            None => {
                return None;
            },
            Some((start, index_off, index_len)) => {
                let ghost before = raw@;
                stage(&mut raw, off + start, f.sub_header_size);
                stage(&mut raw, off + (start + index_off), index_len);
                i = i + 1;
                assert forall|p: int| #[trigger]
                    covered(raw@, p) == (directory_staged(
                        *f,
                        off as int,
                        dir_off as int,
                        dir_size as int,
                        p,
                    ) || exists|k: int|
                        0 <= k < i && span_staged(
                            *f,
                            off as int,
                            (#[trigger] cell_span(*f, blob@, dir_off as int, dim as int, k))->0,
                            p,
                        )) by {
                    let this = cell_span(*f, blob@, dir_off as int, dim as int, i - 1)->0;
                    assert(covered(raw@, p) == (covered(before, p) || span_staged(*f, off as int, this, p)));
                }
            },
        }
    }
    Some(merge_ranges(raw))
}

/// Open ranges of the vector blob `bytes[off..off + len]`. `dim` is the length
/// of the table's vectors when it has exactly one vector column; a multi-cell
/// blob cannot be staged without it. `None` when the blob does not parse.
pub fn vector_open_ranges(f: &VectorFormat, bytes: &[u8], off: u64, len: u64, dim: Option<usize>) -> (ranges:
    Option<Vec<(u64, u64)>>)
    requires
        f.well_formed(),
        dim matches Some(d) ==> d * 4 <= usize::MAX,
    ensures
        ranges is Some <==> off + len <= bytes.len() && vector_blob_parses(
            *f,
            bytes@.subrange(off as int, off + len),
            dim,
        ),
        ranges matches Some(r) ==> is_coalesced(r@) && spans_fit(r@) && forall|p: int|
            covered(r@, p) == vector_staged(*f, bytes@.subrange(off as int, off + len), off as int, dim, p),
{
    let size: u64 = bytes.len() as u64;
    if off > size || len > size - off {
        return None;
    }
    let blob = vstd::slice::slice_subrange(bytes, off as usize, (off + len) as usize);
    if (blob.len() as u64) < f.outer_header_size + f.crc_bytes {
        return None;
    }
    let version: u32 = u32_at(blob, f.version_off as usize);
    if version == f.version_multi_cell {
        return match dim {
            None => None,
            Some(d) => vector_open_ranges_multi_cell(f, blob, off, d),
        };
    }
    if version != f.version_single {
        return None;
    }
    single_open_ranges(f, blob, off)
}

// ---------------------------------------------------------------------------
// The full-text blob
// ---------------------------------------------------------------------------

/// Where the fields of a full-text blob's header stand.
#[derive(Clone, Copy)]
pub struct FtsFormat {
    pub header_size: u64,
    pub postings_offset_off: u64,
    pub doc_lengths_dir_off: u64,
}

impl FtsFormat {
    /// Both fields lie inside the header, which is no longer than 64 KiB.
    pub open spec fn well_formed(self) -> bool {
        &&& self.header_size <= 0x1_0000
        &&& self.postings_offset_off + 8 <= self.header_size
        &&& self.doc_lengths_dir_off + 8 <= self.header_size
    }
}

/// The header is there and its two offsets lie in the blob, in order.
pub open spec fn fts_blob_parses(f: FtsFormat, blob: Seq<u8>) -> bool {
    let postings = le8(blob, f.postings_offset_off as int);
    let doc_lengths = le8(blob, f.doc_lengths_dir_off as int);
    f.header_size <= blob.len() && postings <= doc_lengths <= blob.len()
}

/// The open ranges of a full-text blob at `off` cover what stands before the
/// postings and what stands from the document lengths on.
pub open spec fn fts_staged(f: FtsFormat, blob: Seq<u8>, off: int, p: int) -> bool {
    let postings = le8(blob, f.postings_offset_off as int);
    let doc_lengths = le8(blob, f.doc_lengths_dir_off as int);
    in_span(p, off, postings) || in_span(p, off + doc_lengths, blob.len() - doc_lengths)
}

/// Open ranges of the full-text blob `bytes[off..off + len]`; `None` when the
/// blob does not parse.
pub fn fts_open_ranges(f: &FtsFormat, bytes: &[u8], off: u64, len: u64) -> (ranges: Option<Vec<(u64, u64)>>)
    requires
        f.well_formed(),
    ensures
        ranges is Some <==> off + len <= bytes.len() && fts_blob_parses(
            *f,
            bytes@.subrange(off as int, off + len),
        ),
        ranges matches Some(r) ==> is_coalesced(r@) && spans_fit(r@) && forall|p: int|
            covered(r@, p) == fts_staged(*f, bytes@.subrange(off as int, off + len), off as int, p),
{
    let size: u64 = bytes.len() as u64;
    if off > size || len > size - off {
        return None;
    }
    let blob = vstd::slice::slice_subrange(bytes, off as usize, (off + len) as usize);
    if (blob.len() as u64) < f.header_size {
        return None;
    }
    let postings: u64 = u64_at(blob, f.postings_offset_off as usize);
    let doc_lengths: u64 = u64_at(blob, f.doc_lengths_dir_off as usize);
    if postings > len || doc_lengths > len || postings > doc_lengths {
        return None;
    }
    let mut raw: Vec<(u64, u64)> = Vec::new();
    stage(&mut raw, off, postings);
    stage(&mut raw, off + doc_lengths, len - doc_lengths);
    Some(merge_ranges(raw))
}

// ---------------------------------------------------------------------------
// The open blob
// ---------------------------------------------------------------------------

/// The ranges that the open blob holds: the tail of a file of `total` bytes,
/// then the open ranges.
pub open spec fn open_blob_ranges(total: u64, ranges: Seq<(u64, u64)>) -> Seq<(u64, u64)> {
    let tail = if total <= PARQUET_TAIL_SPEC {
        total
    } else {
        PARQUET_TAIL_SPEC
    };
    if tail > 0 {
        seq![((total - tail) as u64, tail)] + ranges
    } else {
        ranges
    }
}

/// Every range lies in the first `size` positions.
pub open spec fn all_inside(ranges: Seq<(u64, u64)>, size: int) -> bool {
    forall|i: int| 0 <= i < ranges.len() ==> (#[trigger] ranges[i]).0 + ranges[i].1 <= size
}

/// `blob` holds the bytes of the wanted ranges in their order when all of them
/// can be had, and nothing when one cannot.
pub open spec fn is_open_blob(blob: Seq<(u64, Vec<u8>)>, bytes: Seq<u8>, wanted: Seq<(u64, u64)>) -> bool {
    if all_inside(wanted, bytes.len() as int) {
        &&& blob.len() == wanted.len()
        &&& forall|i: int|
            0 <= i < wanted.len() ==> (#[trigger] blob[i]).0 == wanted[i].0 && blob[i].1@
                == bytes.subrange(wanted[i].0 as int, wanted[i].0 + wanted[i].1)
    } else {
        blob.len() == 0
    }
}

fn push_slice(blob: &mut Vec<(u64, Vec<u8>)>, bytes: &[u8], off: u64, len: u64) -> (ok: bool)
    ensures
        ok == (off + len <= bytes.len()),
        !ok ==> final(blob)@ == old(blob)@,
        ok ==> final(blob).len() == old(blob).len() + 1 && final(blob)@.drop_last() == old(blob)@
            && final(blob)@.last().0 == off && final(blob)@.last().1@ == bytes@.subrange(
            off as int,
            off + len,
        ),
{
    let size: u64 = bytes.len() as u64;
    if off > size || len > size - off {
        return false;
    }
    blob.push((off, copy_range(bytes, off as usize, (off + len) as usize)));
    assert(blob@.drop_last() =~= old(blob)@);
    true
}

/// The bytes that a reader needs to open the file: its tail and each of the
/// open ranges, with their offsets. A range that the file does not hold makes
/// the whole blob empty, so that a reader never sees part of it.
pub fn build_open_blob(
    bytes: &[u8],
    total_size: u64,
    vec_open_ranges: &Vec<(u64, u64)>,
    fts_open_ranges: &Vec<(u64, u64)>,
) -> (blob: Vec<(u64, Vec<u8>)>)
    ensures
        is_open_blob(
            blob@,
            bytes@,
            open_blob_ranges(total_size, vec_open_ranges@ + fts_open_ranges@),
        ),
{
    let ghost wanted = open_blob_ranges(total_size, vec_open_ranges@ + fts_open_ranges@);
    let mut blob: Vec<(u64, Vec<u8>)> = Vec::new();
    let tail: u64 = if total_size <= PARQUET_TAIL_SPEC {
        total_size
    } else {
        PARQUET_TAIL_SPEC
    };
    if tail > 0 {
        assert(wanted[0] == ((total_size - tail) as u64, tail));
        if !push_slice(&mut blob, bytes, total_size - tail, tail) {
            return Vec::new();
        }
        assert(blob@[0] == blob@.last());
    }
    let ghost lead: int = if tail > 0 {
        1
    } else {
        0
    };
    let mut i: usize = 0;
    let n: usize = vec_open_ranges.len();
    while i < n
        invariant
            i <= n,
            n == vec_open_ranges.len(),
            wanted == open_blob_ranges(total_size, vec_open_ranges@ + fts_open_ranges@),
            lead == if tail > 0 { 1int } else { 0 },
            tail == if total_size <= PARQUET_TAIL_SPEC { total_size } else { PARQUET_TAIL_SPEC },
            wanted.len() == lead + vec_open_ranges.len() + fts_open_ranges.len(),
            blob.len() == lead + i,
            forall|k: int|
                0 <= k < blob.len() ==> (#[trigger] blob@[k]).0 == wanted[k].0 && wanted[k].0 + wanted[k].1
                    <= bytes.len() && blob@[k].1@ == bytes@.subrange(
                    wanted[k].0 as int,
                    wanted[k].0 + wanted[k].1,
                ),
        decreases n - i,
    {
        let ghost before = blob@;
        assert(wanted[lead + i] == vec_open_ranges@[i as int]);
        if !push_slice(&mut blob, bytes, vec_open_ranges[i].0, vec_open_ranges[i].1) {
            return Vec::new();
        }
        assert forall|k: int| 0 <= k < blob.len() implies (#[trigger] blob@[k]).0 == wanted[k].0
            && wanted[k].0 + wanted[k].1 <= bytes.len() && blob@[k].1@ == bytes@.subrange(
            wanted[k].0 as int,
            wanted[k].0 + wanted[k].1,
        ) by {
            if k < before.len() {
                assert(blob@.drop_last()[k] == before[k]);
            }
        }
        i = i + 1;
    }
    let mut j: usize = 0;
    let m: usize = fts_open_ranges.len();
    while j < m
        invariant
            j <= m,
            m == fts_open_ranges.len(),
            n == vec_open_ranges.len(),
            wanted == open_blob_ranges(total_size, vec_open_ranges@ + fts_open_ranges@),
            lead == if tail > 0 { 1int } else { 0 },
            tail == if total_size <= PARQUET_TAIL_SPEC { total_size } else { PARQUET_TAIL_SPEC },
            wanted.len() == lead + vec_open_ranges.len() + fts_open_ranges.len(),
            blob.len() == lead + n + j,
            forall|k: int|
                0 <= k < blob.len() ==> (#[trigger] blob@[k]).0 == wanted[k].0 && wanted[k].0 + wanted[k].1
                    <= bytes.len() && blob@[k].1@ == bytes@.subrange(
                    wanted[k].0 as int,
                    wanted[k].0 + wanted[k].1,
                ),
        decreases m - j,
    {
        let ghost before = blob@;
        assert(wanted[lead + n + j] == fts_open_ranges@[j as int]);
        if !push_slice(&mut blob, bytes, fts_open_ranges[j].0, fts_open_ranges[j].1) {
            return Vec::new();
        }
        assert forall|k: int| 0 <= k < blob.len() implies (#[trigger] blob@[k]).0 == wanted[k].0
            && wanted[k].0 + wanted[k].1 <= bytes.len() && blob@[k].1@ == bytes@.subrange(
            wanted[k].0 as int,
            wanted[k].0 + wanted[k].1,
        ) by {
            if k < before.len() {
                assert(blob@.drop_last()[k] == before[k]);
            }
        }
        j = j + 1;
    }
    assert(all_inside(wanted, bytes.len() as int)) by {
        assert forall|k: int| 0 <= k < wanted.len() implies (#[trigger] wanted[k]).0 + wanted[k].1
            <= bytes.len() by {
            assert(blob@[k].0 == wanted[k].0);
        }
    }
    blob
}

// ---------------------------------------------------------------------------
// Subsection offsets
// ---------------------------------------------------------------------------

/// How a superfile lays out its vectors.
#[derive(Clone, Copy, PartialEq, Eq, Structural, Debug)]
pub enum VectorLayout {
    Ivf,
    CellPosting,
    MultiCellIvf,
}

/// What the footer of a superfile says about its embedded blobs.
pub struct FooterFields {
    pub vec_offset: Option<u64>,
    pub vec_length: Option<u64>,
    pub fts_offset: Option<u64>,
    pub fts_length: Option<u64>,
    pub layout: VectorLayout,
    /// The length of the vectors of each vector column, when the footer says.
    pub column_dims: Option<Vec<usize>>,
}

/// How the blobs of a superfile are laid out.
#[derive(Clone, Copy)]
pub struct BlobFormats {
    pub vector: VectorFormat,
    pub fts: FtsFormat,
}

impl BlobFormats {
    pub open spec fn well_formed(self) -> bool {
        self.vector.well_formed() && self.fts.well_formed()
    }

    /// Tells whether both layouts hold together.
    pub fn holds_together(&self) -> (yes: bool)
        ensures
            yes == self.well_formed(),
    {
        let v = &self.vector;
        let t = &self.fts;
        let most: u64 = 0x1_0000;
        let short: bool = v.outer_header_size <= most && v.crc_bytes <= most && v.dir_entry_size <= most
            && v.cell_dir_entry_size <= most && v.sub_header_size <= most && v.cluster_idx_entry_bytes
            <= most && t.header_size <= most;
        short && field_inside(v.version_off, 4, v.outer_header_size) && field_inside(
            v.n_columns_off,
            4,
            v.outer_header_size,
        ) && field_inside(v.n_cells_off, 4, v.outer_header_size) && field_inside(
            v.dir_offset_off,
            8,
            v.outer_header_size,
        ) && field_inside(v.column_subsection_off, 8, v.dir_entry_size) && field_inside(
            v.column_subsection_len,
            8,
            v.dir_entry_size,
        ) && field_inside(v.column_codec_meta_off, 4, v.dir_entry_size) && field_inside(
            v.column_codec_meta_size,
            4,
            v.dir_entry_size,
        ) && field_inside(v.column_n_cent, 4, v.dir_entry_size) && field_inside(
            v.cell_subsection_off,
            8,
            v.cell_dir_entry_size,
        ) && field_inside(v.cell_subsection_len, 8, v.cell_dir_entry_size) && field_inside(
            v.centroids_off,
            8,
            v.sub_header_size,
        ) && field_inside(v.cluster_idx_off, 8, v.sub_header_size) && field_inside(
            t.postings_offset_off,
            8,
            t.header_size,
        ) && field_inside(t.doc_lengths_dir_off, 8, t.header_size)
    }
}

pub(crate) fn field_inside(off: u64, len: u64, size: u64) -> (yes: bool)
    ensures
        yes == (off + len <= size),
{
    len <= size && off <= size - len
}

/// The length of the table's vectors, when it has exactly one vector column.
pub open spec fn only_dim(dims: Option<Vec<usize>>) -> Option<usize> {
    match dims {
        Some(d) => if d.len() == 1 {
            Some(d@[0])
        } else {
            None
        },
        None => None,
    }
}

/// The bytes of a vector of the table can be counted.
pub open spec fn vectors_fit(footer: Option<FooterFields>) -> bool {
    footer matches Some(ft) ==> (only_dim(ft.column_dims) matches Some(d) ==> d * 4 <= usize::MAX)
}

/// Where the blobs of a superfile stand, and what a reader fetches to open it.
#[derive(Debug)]
pub struct SubsectionOffsets {
    pub total_size: u64,
    pub vec: Option<(u64, u64)>,
    pub fts: Option<(u64, u64)>,
    pub vec_open_ranges: Vec<(u64, u64)>,
    pub fts_open_ranges: Vec<(u64, u64)>,
    pub open_blob: Vec<(u64, Vec<u8>)>,
}

/// An offset and a length that are both there, the length not zero.
pub open spec fn blob_at(offset: Option<u64>, length: Option<u64>) -> Option<(u64, u64)> {
    match (offset, length) {
        (Some(o), Some(l)) => if l > 0 {
            Some((o, l))
        } else {
            None
        },
        _ => None,
    }
}

fn blob_position(offset: Option<u64>, length: Option<u64>) -> (at: Option<(u64, u64)>)
    ensures
        at == blob_at(offset, length),
{
    match offset {
        Some(o) => match length {
            Some(l) => if l > 0 {
                Some((o, l))
            } else {
                None
            },
            None => None,
        },
        None => None,
    }
}

/// The vector blob at `at` is there and can be staged.
pub open spec fn vector_stageable(f: VectorFormat, bytes: Seq<u8>, at: Option<(u64, u64)>, dim: Option<usize>) -> bool {
    at matches Some(b) && b.0 + b.1 <= bytes.len() && vector_blob_parses(
        f,
        bytes.subrange(b.0 as int, b.0 + b.1),
        dim,
    )
}

/// The full-text blob at `at` is there and can be staged.
pub open spec fn fts_stageable(f: FtsFormat, bytes: Seq<u8>, at: Option<(u64, u64)>) -> bool {
    at matches Some(b) && b.0 + b.1 <= bytes.len() && fts_blob_parses(
        f,
        bytes.subrange(b.0 as int, b.0 + b.1),
    )
}

/// `ranges` are the open ranges of the vector blob at `at`, none when it cannot
/// be staged.
pub open spec fn are_vector_ranges(
    ranges: Seq<(u64, u64)>,
    f: VectorFormat,
    bytes: Seq<u8>,
    at: Option<(u64, u64)>,
    dim: Option<usize>,
) -> bool {
    if vector_stageable(f, bytes, at, dim) {
        let b = at->0;
        is_coalesced(ranges) && forall|p: int| #[trigger]
            covered(ranges, p) == vector_staged(
                f,
                bytes.subrange(b.0 as int, b.0 + b.1),
                b.0 as int,
                dim,
                p,
            )
    } else {
        ranges.len() == 0
    }
}

/// `ranges` are the open ranges of the full-text blob at `at`, none when it
/// cannot be staged.
pub open spec fn are_fts_ranges(ranges: Seq<(u64, u64)>, f: FtsFormat, bytes: Seq<u8>, at: Option<(u64, u64)>) -> bool {
    if fts_stageable(f, bytes, at) {
        let b = at->0;
        is_coalesced(ranges) && forall|p: int| #[trigger]
            covered(ranges, p) == fts_staged(f, bytes.subrange(b.0 as int, b.0 + b.1), b.0 as int, p)
    } else {
        ranges.len() == 0
    }
}

/// The offsets that the manifest carries for a superfile with this footer, none
/// without one. A cell-posting file is read in bulk, so its offsets come without
/// open ranges and without an open blob.
pub open spec fn are_offsets(
    offsets: Option<SubsectionOffsets>,
    bytes: Seq<u8>,
    footer: Option<FooterFields>,
    formats: BlobFormats,
) -> bool {
    &&& offsets is Some <==> footer is Some
    &&& offsets matches Some(o) ==> {
        let ft = footer->0;
        let at_vec = blob_at(ft.vec_offset, ft.vec_length);
        let at_fts = blob_at(ft.fts_offset, ft.fts_length);
        &&& o.total_size == bytes.len()
        &&& o.vec == at_vec
        &&& o.fts == at_fts
        &&& ft.layout is CellPosting ==> o.vec_open_ranges.len() == 0 && o.fts_open_ranges.len() == 0
            && o.open_blob.len() == 0
        &&& !(ft.layout is CellPosting) ==> {
            &&& are_vector_ranges(
                o.vec_open_ranges@,
                formats.vector,
                bytes,
                at_vec,
                only_dim(ft.column_dims),
            )
            &&& are_fts_ranges(o.fts_open_ranges@, formats.fts, bytes, at_fts)
            &&& is_open_blob(
                o.open_blob@,
                bytes,
                open_blob_ranges(o.total_size, o.vec_open_ranges@ + o.fts_open_ranges@),
            )
        }
    }
}

/// The offsets that the manifest carries for a superfile, from the fields of
/// its footer; `None` when the footer did not parse.
pub fn build_subsection_offsets(
    file: &bytes::Bytes,
    footer: Option<FooterFields>,
    formats: &BlobFormats,
) -> (offsets: Option<SubsectionOffsets>)
    requires
        formats.well_formed(),
        vectors_fit(footer),
    ensures
        are_offsets(offsets, buffer_bytes(*file), footer, *formats),
{
    let bytes = as_slice(file);
    let ft: FooterFields = match footer {
        None => {
            return None;
        },
        Some(ft) => ft,
    };
    let at_vec = blob_position(ft.vec_offset, ft.vec_length);
    let at_fts = blob_position(ft.fts_offset, ft.fts_length);
    let total_size: u64 = bytes.len() as u64;
    if ft.layout == VectorLayout::CellPosting {
        return Some(
            SubsectionOffsets {
                total_size,
                vec: at_vec,
                fts: at_fts,
                vec_open_ranges: Vec::new(),
                fts_open_ranges: Vec::new(),
                open_blob: Vec::new(),
            },
        );
    }
    let dim: Option<usize> = match &ft.column_dims {
        Some(dims) => if dims.len() == 1 {
            Some(dims[0])
        } else {
            None
        },
        None => None,
    };
    let staged_vec: Option<Vec<(u64, u64)>> = match at_vec {
        Some((off, len)) => vector_open_ranges(&formats.vector, bytes, off, len, dim),
        None => None,
    };
    let vec_ranges: Vec<(u64, u64)> = match staged_vec {
        Some(r) => r,
        None => Vec::new(),
    };
    let staged_fts: Option<Vec<(u64, u64)>> = match at_fts {
        Some((off, len)) => fts_open_ranges(&formats.fts, bytes, off, len),
        None => None,
    };
    let fts_ranges: Vec<(u64, u64)> = match staged_fts {
        Some(r) => r,
        None => Vec::new(),
    };
    let open_blob = build_open_blob(bytes, total_size, &vec_ranges, &fts_ranges);
    Some(
        SubsectionOffsets {
            total_size,
            vec: at_vec,
            fts: at_fts,
            vec_open_ranges: vec_ranges,
            fts_open_ranges: fts_ranges,
            open_blob,
        },
    )
}

} // verus!
