//! What the slow vector state and an opened superfile hold: how their bytes are laid
//! out, and which of them are read ahead.
use vstd::prelude::*;

use core::ops::Range;

use crate::centroids::{
    all_stripped, cell_source, column_lists, composed, first_in, last_list, lists_of,
    section_opened, text_less, total_size, walk, walk_cells, walk_columns, CellSummary, CellView,
    CentroidSection, ColumnSummary, EntrySummary, ListView, SectionCell, SectionView,
};
use crate::hashing::blake3_digest;
use crate::open_ranges::{
    are_fts_ranges, are_offsets, are_vector_ranges, blob_at, cell_span, column_span, covered,
    fts_blob_parses, fts_staged, is_coalesced, is_open_blob, multi_parses, multi_staged, only_dim,
    open_blob_ranges, single_parses, single_staged, vector_blob_parses, vector_staged, BlobFormats,
    FooterFields, FtsFormat, SubsectionOffsets, VectorFormat,
};
use crate::slow_state::{
    are_stripes, chunk_views, envelope, frames, joined, parse_state, state_blob_path, write_fault,
    EnvelopeFault, ParseFault, PublishedState, SlowVectorStateError, StateFrame,
};
use crate::text::hex_of;
use crate::wal_store::StorageFault;
use crate::wire::{le4, le8, le8_bytes};

verus! {

// ---------------------------------------------------------------------------
// State blobs
// ---------------------------------------------------------------------------

/// An envelope is the magic number, the three lengths and the three parts.
pub proof fn an_envelope_is_its_parts(visible: Seq<u8>, metadata: Seq<u8>, pending: Seq<u8>)
    ensures
        envelope(visible, metadata, pending) == seq![73u8, 78, 70, 83, 86, 83, 48, 50] + le8_bytes(
            visible.len() as int,
        ) + le8_bytes(metadata.len() as int) + le8_bytes(pending.len() as int) + visible + metadata + pending,
{
}

/// Bytes without the magic number are a settled membership. With it they are read
/// only when the header is whole and the three lengths make up the rest, and then
/// the parts follow the header one after another.
pub proof fn a_blob_is_read_whole_or_not_at_all(bytes: Seq<u8>)
    requires
        bytes.len() <= usize::MAX,
    ensures
        ({
            let marked = bytes.len() >= 8 && forall|i: int|
                0 <= i < 8 ==> #[trigger] bytes[i] == seq![73u8, 78, 70, 83, 86, 83, 48, 50][i];
            let sum = le8(bytes, 8) + le8(bytes, 16) + le8(bytes, 24);
            match parse_state(bytes) {
                Ok(parts) => match parts.pending {
                    None => !marked && parts.visible == bytes,
                    Some((metadata, pending)) => {
                        &&& marked
                        &&& bytes.len() == sum + 32
                        &&& bytes == bytes.take(32) + parts.visible + metadata + pending
                        &&& parts.visible.len() == le8(bytes, 8)
                        &&& metadata.len() == le8(bytes, 16)
                        &&& pending.len() == le8(bytes, 24)
                    },
                },
                Err(EnvelopeFault::HeaderTruncated) => marked && bytes.len() < 32,
                Err(EnvelopeFault::LengthOverflow) => marked && bytes.len() >= 32 && sum > usize::MAX - 32,
                Err(EnvelopeFault::LengthMismatch) => marked && bytes.len() >= 32 && sum <= usize::MAX - 32
                    && sum != bytes.len() - 32,
            }
        }),
{
    let magic = seq![73u8, 78, 70, 83, 86, 83, 48, 50];
    if bytes.len() >= 8 {
        if bytes.take(8) == magic {
            assert forall|i: int| 0 <= i < 8 implies #[trigger] bytes[i] == magic[i] by {
                assert(bytes.take(8)[i] == bytes[i]);
            }
        }
        if forall|i: int| 0 <= i < 8 ==> #[trigger] bytes[i] == magic[i] {
            assert(bytes.take(8) =~= magic);
        }
    }
    crate::wire::le8_range(bytes, 8);
    crate::wire::le8_range(bytes, 16);
    crate::wire::le8_range(bytes, 24);
    if let Ok(parts) = parse_state(bytes) {
        if let Some((metadata, pending)) = parts.pending {
            assert(bytes =~= bytes.take(32) + parts.visible + metadata + pending);
        }
    }
}

/// A blob's path is made of the hash of its bytes.
pub proof fn a_blob_is_found_by_its_hash(
    r: PublishedState,
    blob: Seq<u8>,
    section: Seq<u8>,
    hash: Seq<u8>,
)
    ensures
        state_blob_path(hash) == "slow-vector-state/state-"@ + hex_of(hash) + ".bin"@,
        r.addresses(blob, section) <==> r.uri@ == state_blob_path(blake3_digest(blob)) && r.content_hash.bytes@
            == blake3_digest(blob) && r.centroids.uri@ == state_blob_path(blake3_digest(section))
            && r.centroids.content_hash.bytes@ == blake3_digest(section),
{
}

/// A blob that is there already is as good as written: its name is its content. Any
/// other failure is reported.
pub proof fn a_blob_that_is_there_is_written(text: String)
    ensures
        write_fault(Ok(())) is None,
        write_fault(Err((StorageFault::PreconditionFailed, text))) is None,
        write_fault(Err((StorageFault::NotFound, text))) == Some(text),
        write_fault(Err((StorageFault::Other, text))) == Some(text),
{
}

/// Stripes follow each other without a gap. All are a chunk long but the last,
/// which ends with the object.
pub proof fn stripes_follow_each_other(ranges: Seq<Range<u64>>, size: u64, chunk: u64, i: int)
    requires
        chunk > 0,
        are_stripes(ranges, size, chunk),
        0 <= i < ranges.len(),
    ensures
        ranges[0].start == 0,
        i + 1 < ranges.len() ==> ranges[i].end == ranges[i + 1].start && ranges[i].end - ranges[i].start == chunk,
        i + 1 == ranges.len() ==> ranges[i].end == size && 0 < ranges[i].end - ranges[i].start <= chunk,
{
    assert(ranges[0].start == 0);
    assert((i + 1) * chunk == i * chunk + chunk) by (nonlinear_arith);
    if i + 1 < ranges.len() {
        assert(ranges[i + 1].start == (i + 1) * chunk);
    } else {
        assert(ranges.len() * chunk == (i + 1) * chunk) by (nonlinear_arith)
            requires
                ranges.len() == i + 1,
        ;
        assert(ranges[i].start == i * chunk);
    }
}

/// Chunks are put together one after another.
pub proof fn chunks_are_put_together(chunks: Seq<Seq<u8>>, chunk: Seq<u8>, list: Seq<Vec<u8>>, i: int)
    ensures
        joined(Seq::empty()).len() == 0,
        joined(chunks.push(chunk)) == joined(chunks) + chunk,
        chunk_views(list).len() == list.len(),
        0 <= i < list.len() ==> chunk_views(list)[i] == list[i]@,
{
    assert(chunks.push(chunk).drop_last() =~= chunks);
}

// ---------------------------------------------------------------------------
// Centroid sections
// ---------------------------------------------------------------------------

/// Every cell of every column of every file is met once, in order, with its own
/// numbers and bytes.
pub proof fn a_walk_meets_every_cell(
    entries: Seq<EntrySummary>,
    entry: EntrySummary,
    columns: Seq<ColumnSummary>,
    column: ColumnSummary,
    id: u128,
    name: Seq<char>,
    cells: Seq<CellSummary>,
    i: int,
)
    requires
        0 <= i < cells.len(),
    ensures
        walk(Seq::empty()).len() == 0,
        walk(entries.push(entry)) == walk(entries) + walk_columns(entry.id(), entry.parts()),
        walk_columns(id, Seq::empty()).len() == 0,
        walk_columns(id, columns.push(column)) == walk_columns(id, columns) + walk_cells(
            id,
            column.column@,
            column.cells@,
        ),
        walk_cells(id, name, cells).len() == cells.len(),
        ({
            let v = walk_cells(id, name, cells)[i];
            &&& v.superfile_id == id && v.column == name && v.cell_id == cells[i].cell_id
            &&& v.n_cent == cells[i].n_cent && v.dim == cells[i].dim
            &&& v.resident is Some <==> cells[i].resident is Some
            &&& cells[i].resident matches Some(b) ==> v.resident->0 == b@
            &&& v.size() == 4 * (cells[i].n_cent * cells[i].dim)
        }),
{
    assert(entries.push(entry).drop_last() =~= entries);
    assert(columns.push(column).drop_last() =~= columns);
    let n = cells[i].n_cent as int;
    let d = cells[i].dim as int;
    assert(n * d * 4 == 4 * (n * d)) by (nonlinear_arith);
}

/// A column's cells stand together, behind those of the columns before it.
pub proof fn a_column_is_listed_with_its_cells(
    entries: Seq<EntrySummary>,
    entry: EntrySummary,
    columns: Seq<ColumnSummary>,
    column: ColumnSummary,
    id: u128,
    base: int,
)
    ensures
        lists_of(Seq::empty()).len() == 0,
        lists_of(entries.push(entry)) == lists_of(entries) + column_lists(
            entry.id(),
            entry.parts(),
            walk(entries).len() as int,
        ),
        column_lists(id, Seq::empty(), base).len() == 0,
        ({
            let lists = column_lists(id, columns.push(column), base);
            let list = lists.last();
            &&& lists.drop_last() == column_lists(id, columns, base)
            &&& lists.len() == columns.len() + 1
            &&& list.superfile_id == id && list.column == column.column@
            &&& list.start == base + walk_columns(id, columns).len()
            &&& list.end - list.start == column.cells.len()
        }),
{
    assert(entries.push(entry).drop_last() =~= entries);
    assert(columns.push(column).drop_last() =~= columns);
    a_list_a_column(id, columns, base);
    assert(column_lists(id, columns.push(column), base).drop_last() =~= column_lists(id, columns, base));
}

proof fn a_list_a_column(id: u128, columns: Seq<ColumnSummary>, base: int)
    ensures
        column_lists(id, columns, base).len() == columns.len(),
    decreases columns.len(),
{
    if columns.len() > 0 {
        a_list_a_column(id, columns.drop_last(), base);
    }
}

/// The size of cells together.
pub proof fn sizes_are_added_up(cells: Seq<CellView>, cell: CellView, previous: Option<SectionView>)
    ensures
        total_size(Seq::empty()) == 0,
        total_size(cells.push(cell)) == total_size(cells) + cell.size(),
        composed(Seq::empty(), previous).len() == 0,
        cell_source(cell, previous) matches Some(bytes) ==> composed(cells.push(cell), previous) == composed(
            cells,
            previous,
        ) + bytes,
{
    assert(cells.push(cell).drop_last() =~= cells);
}

/// A column is found at the last list that has its file and name, a cell at the
/// first place of the list that has its number.
pub proof fn a_cell_is_found_where_it_is(
    lists: Seq<ListView>,
    id: u128,
    column: Seq<char>,
    index: Seq<SectionCell>,
    start: int,
    end: int,
    cell_id: Option<u32>,
)
    ensures
        match last_list(lists, id, column) {
            Some(list) => exists|q: int|
                {
                    &&& 0 <= q < lists.len()
                    &&& #[trigger] lists[q] == list
                    &&& list.superfile_id == id && list.column == column
                    &&& forall|k: int|
                        q < k < lists.len() ==> !((#[trigger] lists[k]).superfile_id == id && lists[k].column
                            == column)
                },
            None => forall|k: int|
                0 <= k < lists.len() ==> !((#[trigger] lists[k]).superfile_id == id && lists[k].column == column),
        },
        match first_in(index, start, end, cell_id) {
            Some(i) => {
                &&& start <= i < end
                &&& index[i].cell_id == cell_id
                &&& forall|k: int| start <= k < i ==> (#[trigger] index[k]).cell_id != cell_id
            },
            None => forall|k: int| start <= k < end ==> (#[trigger] index[k]).cell_id != cell_id,
        },
    decreases lists.len(), end - start,
{
    if start < end && index[start].cell_id != cell_id {
        first_place(index, start, end, cell_id);
    }
    if lists.len() > 0 {
        let less = lists.drop_last();
        let n = lists.len() - 1;
        assert(lists.last() == lists[n]);
        if !(lists[n].superfile_id == id && lists[n].column == column) {
            a_cell_is_found_where_it_is(less, id, column, index, start, end, cell_id);
            if let Some(list) = last_list(less, id, column) {
                let q = choose|q: int|
                    {
                        &&& 0 <= q < less.len()
                        &&& #[trigger] less[q] == list
                        &&& list.superfile_id == id && list.column == column
                        &&& forall|k: int|
                            q < k < less.len() ==> !((#[trigger] less[k]).superfile_id == id && less[k].column
                                == column)
                    };
                assert(lists[q] == list);
                assert forall|k: int| q < k < lists.len() implies !((#[trigger] lists[k]).superfile_id == id
                    && lists[k].column == column) by {
                    if k < n {
                        assert(less[k] == lists[k]);
                    }
                }
            } else {
                assert forall|k: int| 0 <= k < lists.len() implies !((#[trigger] lists[k]).superfile_id == id
                    && lists[k].column == column) by {
                    if k < n {
                        assert(less[k] == lists[k]);
                    }
                }
            }
        }
    }
}

proof fn first_place(index: Seq<SectionCell>, start: int, end: int, cell_id: Option<u32>)
    ensures
        match first_in(index, start, end, cell_id) {
            Some(i) => {
                &&& start <= i < end
                &&& index[i].cell_id == cell_id
                &&& forall|k: int| start <= k < i ==> (#[trigger] index[k]).cell_id != cell_id
            },
            None => forall|k: int| start <= k < end ==> (#[trigger] index[k]).cell_id != cell_id,
        },
    decreases end - start,
{
    if start < end && index[start].cell_id != cell_id {
        first_place(index, start + 1, end, cell_id);
    }
}

/// A section gives back the bytes that its index points to. A cell without
/// centroids needs none; one that holds its own gives these; any other takes those
/// that the section before has of it, when there are as many.
pub proof fn bytes_come_from_the_cell_or_the_section_before(
    cell: CellView,
    section: SectionView,
    cells: Seq<CellView>,
    i: int,
)
    ensures
        cell.size() == 0 ==> cell_source(cell, Some(section)) == Some(Seq::<u8>::empty()) && cell_source(cell, None)
            == Some(Seq::<u8>::empty()),
        cell.size() != 0 && cell.resident is Some ==> cell_source(cell, Some(section)) == cell.resident
            && cell_source(cell, None) == cell.resident,
        cell.size() != 0 && cell.resident is None ==> cell_source(cell, None) is None,
        cell.size() != 0 && cell.resident is None ==> {
            let place = section.find(cell.superfile_id, cell.column, cell.cell_id);
            let start = section.cells[place->0].offset as int;
            let bytes = section.bytes.subrange(start, start + section.cells[place->0].len);
            &&& place is None ==> cell_source(cell, Some(section)) is None
            &&& place is Some && bytes.len() == cell.size() ==> cell_source(cell, Some(section)) == Some(bytes)
            &&& place is Some && bytes.len() != cell.size() ==> cell_source(cell, Some(section)) is None
        },
        all_stripped(cells).len() == cells.len(),
        0 <= i < cells.len() ==> {
            let s = all_stripped(cells)[i];
            &&& s.resident is None
            &&& s.superfile_id == cells[i].superfile_id && s.column == cells[i].column
            &&& s.cell_id == cells[i].cell_id && s.n_cent == cells[i].n_cent && s.dim == cells[i].dim
        },
{
}

/// Texts compare by the first place at which they differ; a text comes before its
/// continuations.
pub proof fn texts_compare_at_the_first_difference(a: Seq<char>, b: Seq<char>, i: int)
    requires
        0 <= i <= a.len(),
        i <= b.len(),
        a.take(i) == b.take(i),
    ensures
        i == a.len() && i < b.len() ==> text_less(a, b),
        i == b.len() ==> !text_less(a, b),
        i < a.len() && i < b.len() && a[i] != b[i] ==> (text_less(a, b) <==> a[i] < b[i]),
    decreases i,
{
    if i > 0 {
        assert(a.take(i)[0] == a[0] && b.take(i)[0] == b[0]);
        let x = a.skip(1);
        let y = b.skip(1);
        assert(x.take(i - 1) =~= y.take(i - 1)) by {
            assert forall|k: int| 0 <= k < i - 1 implies x[k] == y[k] by {
                assert(a.take(i)[k + 1] == a[k + 1] && b.take(i)[k + 1] == b[k + 1]);
            }
        }
        texts_compare_at_the_first_difference(x, y, i - 1);
    }
}

// ---------------------------------------------------------------------------
// What is read ahead
// ---------------------------------------------------------------------------

/// A column's subsection is used when its entry, its header, its cluster index and
/// what the codec noted lie within it, and it within the blob.
pub proof fn a_column_is_used_when_it_is_whole(f: VectorFormat, blob: Seq<u8>, dir_off: int, i: int)
    ensures
        ({
            let entry = dir_off + i * f.dir_entry_size;
            let start = le8(blob, entry + f.column_subsection_off);
            let len = le8(blob, entry + f.column_subsection_len);
            let meta_off = le4(blob, entry + f.column_codec_meta_off);
            let meta_size = le4(blob, entry + f.column_codec_meta_size);
            let index_off = le8(blob, start + f.cluster_idx_off);
            let index_len = le4(blob, entry + f.column_n_cent) * f.cluster_idx_entry_bytes;
            let whole = {
                &&& start + f.sub_header_size <= blob.len() && start + len <= blob.len()
                &&& f.centroids_off + 8 <= len && f.cluster_idx_off + 8 <= len
                &&& f.sub_header_size <= le8(blob, start + f.centroids_off)
                &&& index_off + index_len <= len
                &&& meta_size <= 0 || meta_off + meta_size <= len
            };
            &&& column_span(f, blob, dir_off, i) is Some <==> whole
            &&& column_span(f, blob, dir_off, i) matches Some(s) ==> s.start == start && s.index_off == index_off
                && s.index_len == index_len
        }),
{
}

/// A cell's subsection is used when its header and its cluster index lie within it,
/// its centroids fill what is between them, and it lies within the blob.
pub proof fn a_cell_is_used_when_it_is_whole(
    f: VectorFormat,
    blob: Seq<u8>,
    dir_off: int,
    dim: int,
    i: int,
    n_cent: int,
)
    requires
        dim > 0,
    ensures
        ({
            let entry = dir_off + i * f.cell_dir_entry_size;
            let start = le8(blob, entry + f.cell_subsection_off);
            let len = le8(blob, entry + f.cell_subsection_len);
            let centroids = le8(blob, start + f.centroids_off);
            let index_off = le8(blob, start + f.cluster_idx_off);
            let span = cell_span(f, blob, dir_off, dim, i);
            let room = {
                &&& start + f.sub_header_size <= blob.len() && start + len <= blob.len()
                &&& f.centroids_off + 8 <= len && f.cluster_idx_off + 8 <= len
                &&& f.sub_header_size <= centroids <= index_off
            };
            &&& span matches Some(s) ==> {
                &&& room && (index_off - centroids) % (dim * 4) == 0
                &&& s.start == start && s.index_off == index_off
                &&& s.index_off + s.index_len <= len
            }
            &&& n_cent * (dim * 4) == index_off - centroids ==> {
                &&& span is Some <==> room && index_off + n_cent * f.cluster_idx_entry_bytes <= len
                &&& span is Some ==> span->0.index_len == n_cent * f.cluster_idx_entry_bytes
            }
        }),
{
    let entry = dir_off + i * f.cell_dir_entry_size;
    let start = le8(blob, entry + f.cell_subsection_off);
    let centroids = le8(blob, start + f.centroids_off);
    let index_off = le8(blob, start + f.cluster_idx_off);
    let w = dim * 4;
    if n_cent * w == index_off - centroids {
        vstd::arithmetic::div_mod::lemma_mod_multiples_basic(n_cent, w);
        vstd::arithmetic::div_mod::lemma_div_multiples_vanish(n_cent, w);
        assert(w * n_cent == n_cent * w) by (nonlinear_arith);
    }
}

/// Of a blob of one cell are read ahead the header, the directory with its
/// checksum, and of every column the header and the cluster index; and nothing
/// else.
pub proof fn headers_and_indexes_are_read_ahead(f: VectorFormat, blob: Seq<u8>, off: int, p: int)
    ensures
        ({
            let n = le4(blob, f.n_columns_off as int);
            let dir = le8(blob, f.dir_offset_off as int);
            single_staged(f, blob, off, p) <==> {
                ||| off <= p < off + f.outer_header_size
                ||| off + dir <= p < off + dir + n * f.dir_entry_size + f.crc_bytes
                ||| exists|i: int|
                    {
                        let s = (#[trigger] column_span(f, blob, dir, i))->0;
                        &&& 0 <= i < n
                        &&& off + s.start <= p < off + s.start + f.sub_header_size || off + s.start + s.index_off
                            <= p < off + s.start + s.index_off + s.index_len
                    }
            }
        }),
        ({
            let n = le4(blob, f.n_columns_off as int);
            let dir = le8(blob, f.dir_offset_off as int);
            single_parses(f, blob) <==> dir + n * f.dir_entry_size + f.crc_bytes <= blob.len() && !(exists|i: int|
                0 <= i < n && (#[trigger] column_span(f, blob, dir, i)) is None)
        }),
{
}

/// The same of a blob of many cells.
pub proof fn headers_and_indexes_of_cells_are_read_ahead(
    f: VectorFormat,
    blob: Seq<u8>,
    off: int,
    dim: int,
    p: int,
)
    ensures
        ({
            let n = le4(blob, f.n_cells_off as int);
            let dir = le8(blob, f.dir_offset_off as int);
            multi_staged(f, blob, off, dim, p) <==> {
                ||| off <= p < off + f.outer_header_size
                ||| off + dir <= p < off + dir + n * f.cell_dir_entry_size + f.crc_bytes
                ||| exists|i: int|
                    {
                        let s = (#[trigger] cell_span(f, blob, dir, dim, i))->0;
                        &&& 0 <= i < n
                        &&& off + s.start <= p < off + s.start + f.sub_header_size || off + s.start + s.index_off
                            <= p < off + s.start + s.index_off + s.index_len
                    }
            }
        }),
        ({
            let n = le4(blob, f.n_cells_off as int);
            let dir = le8(blob, f.dir_offset_off as int);
            multi_parses(f, blob, dim) <==> dim > 0 && dir + n * f.cell_dir_entry_size + f.crc_bytes <= blob.len()
                && !(exists|i: int| 0 <= i < n && (#[trigger] cell_span(f, blob, dir, dim, i)) is None)
        }),
{
}

/// A blob's version says whether it holds one cell or many; another version is not
/// understood, and many cells only with a dimension.
pub proof fn the_version_tells_the_layout(f: VectorFormat, blob: Seq<u8>, off: int, dim: Option<usize>, p: int)
    ensures
        ({
            let version = le4(blob, f.version_off as int);
            let fits = f.outer_header_size + f.crc_bytes <= blob.len();
            &&& !fits ==> !vector_blob_parses(f, blob, dim)
            &&& fits && version == f.version_multi_cell && dim is None ==> !vector_blob_parses(f, blob, dim)
            &&& fits && version == f.version_multi_cell ==> (dim matches Some(d) ==> vector_blob_parses(f, blob, dim)
                == multi_parses(f, blob, d as int) && vector_staged(f, blob, off, dim, p) == multi_staged(
                f,
                blob,
                off,
                d as int,
                p,
            ))
            &&& fits && version != f.version_multi_cell && version == f.version_single ==> vector_blob_parses(f, blob, dim)
                == single_parses(f, blob) && vector_staged(f, blob, off, dim, p) == single_staged(f, blob, off, p)
            &&& version != f.version_multi_cell && version != f.version_single ==> !vector_blob_parses(f, blob, dim)
        }),
{
}

/// Of a text index all is read ahead but the postings.
pub proof fn all_but_the_postings_is_read_ahead(f: FtsFormat, blob: Seq<u8>, off: int, p: int)
    requires
        fts_blob_parses(f, blob),
    ensures
        ({
            let postings = le8(blob, f.postings_offset_off as int);
            let lengths = le8(blob, f.doc_lengths_dir_off as int);
            &&& f.header_size <= blob.len() && postings <= lengths <= blob.len()
            &&& off <= p < off + blob.len() ==> (fts_staged(f, blob, off, p) <==> !(off + postings <= p < off
                + lengths))
            &&& !(off <= p < off + blob.len()) ==> !fts_staged(f, blob, off, p)
        }),
{
    crate::wire::le8_range(blob, f.postings_offset_off as int);
    crate::wire::le8_range(blob, f.doc_lengths_dir_off as int);
}

/// With the ranges the end of the file is read ahead, 64 KiB of it or all there is.
pub proof fn the_end_of_the_file_is_read_ahead(total: u64, ranges: Seq<(u64, u64)>)
    ensures
        total == 0 ==> open_blob_ranges(total, ranges) == ranges,
        0 < total <= 65536 ==> open_blob_ranges(total, ranges) == seq![(0u64, total)] + ranges,
        total > 65536 ==> open_blob_ranges(total, ranges) == seq![((total - 65536) as u64, 65536u64)] + ranges,
{
}

/// A blob has a place when the footer gives one and a length that is not zero. A
/// dimension is that of the only column.
pub proof fn a_blob_has_a_place_and_a_length(offset: u64, length: u64, dims: Vec<usize>)
    ensures
        blob_at(None, Some(length)) is None,
        blob_at(Some(offset), None) is None,
        blob_at(None, None) is None,
        blob_at(Some(offset), Some(0)) is None,
        length != 0 ==> blob_at(Some(offset), Some(length)) == Some((offset, length)),
        only_dim(None) is None,
        dims.len() == 1 ==> only_dim(Some(dims)) == Some(dims@[0]),
        dims.len() != 1 ==> only_dim(Some(dims)) is None,
{
}

// ---------------------------------------------------------------------------
// What opening gives
// ---------------------------------------------------------------------------

/// A blob is framed as it is read, and a fault is told as it was found.
pub proof fn a_frame_is_what_was_read<'a>(result: Result<StateFrame<'a>, SlowVectorStateError>, bytes: Seq<u8>)
    requires
        frames(result, bytes),
    ensures
        result is Ok <==> parse_state(bytes) is Ok,
        result matches Ok(frame) ==> {
            let parts = parse_state(bytes)->Ok_0;
            &&& frame.visible@ == parts.visible
            &&& frame.pending is Some <==> parts.pending is Some
            &&& frame.pending matches Some((metadata, entries)) ==> parts.pending == Some((metadata@, entries@))
        },
        parse_state(bytes) == Err::<crate::slow_state::StateParts, EnvelopeFault>(EnvelopeFault::HeaderTruncated)
            ==> result matches Err(SlowVectorStateError::Parse(ParseFault::HeaderTruncated)),
        parse_state(bytes) == Err::<crate::slow_state::StateParts, EnvelopeFault>(EnvelopeFault::LengthOverflow)
            ==> result matches Err(SlowVectorStateError::Parse(ParseFault::LengthOverflow)),
        parse_state(bytes) == Err::<crate::slow_state::StateParts, EnvelopeFault>(EnvelopeFault::LengthMismatch)
            ==> result matches Err(SlowVectorStateError::Parse(ParseFault::LengthMismatch)),
{
}

/// A section opens when it has the size of its cells and the hash that it is found
/// by. It then knows of every cell where it starts, behind those before it, and how
/// long it is.
pub proof fn a_section_opens_with_its_size_and_hash(
    result: Result<CentroidSection, SlowVectorStateError>,
    uri: String,
    entries: Seq<EntrySummary>,
    size: int,
    hash_matches: bool,
    i: int,
)
    requires
        section_opened(result, uri, entries, size, hash_matches),
        0 <= i < walk(entries).len(),
    ensures
        result is Ok <==> hash_matches && size == total_size(walk(entries)),
        size == total_size(walk(entries)) && !hash_matches ==> result is Err && result->Err_0 is HashMismatch,
        size != total_size(walk(entries)) ==> result is Err && result->Err_0 is Parse,
        result matches Ok(section) ==> {
            let cell = section.cells@[i];
            &&& section.uri == uri
            &&& section.cells.len() == walk(entries).len()
            &&& cell.superfile_id == walk(entries)[i].superfile_id
            &&& cell.column@ == walk(entries)[i].column
            &&& cell.cell_id == walk(entries)[i].cell_id
            &&& cell.offset == total_size(walk(entries).take(i))
            &&& cell.len == walk(entries)[i].n_cent * walk(entries)[i].dim * 4
        },
{
    if let Ok(section) = result {
        assert(section.cells@[i].len == walk(entries)[i].size());
    }
}

/// A file's offsets are there when its footer is: the size of the file and the
/// places of its blobs. Of a cell's file nothing is read ahead; of any other the
/// ranges are, and the bytes of each.
pub proof fn offsets_tell_what_is_read_ahead(
    offsets: Option<SubsectionOffsets>,
    bytes: Seq<u8>,
    footer: Option<FooterFields>,
    formats: BlobFormats,
)
    requires
        are_offsets(offsets, bytes, footer, formats),
    ensures
        footer is None ==> offsets is None,
        footer matches Some(ft) ==> offsets is Some && {
            let o = offsets->0;
            &&& o.total_size == bytes.len()
            &&& o.vec == blob_at(ft.vec_offset, ft.vec_length)
            &&& o.fts == blob_at(ft.fts_offset, ft.fts_length)
            &&& ft.layout is CellPosting ==> o.vec_open_ranges.len() == 0 && o.fts_open_ranges.len() == 0
                && o.open_blob.len() == 0
            &&& !(ft.layout is CellPosting) ==> are_vector_ranges(
                o.vec_open_ranges@,
                formats.vector,
                bytes,
                o.vec,
                only_dim(ft.column_dims),
            ) && are_fts_ranges(o.fts_open_ranges@, formats.fts, bytes, o.fts) && is_open_blob(
                o.open_blob@,
                bytes,
                open_blob_ranges(o.total_size, o.vec_open_ranges@ + o.fts_open_ranges@),
            )
        },
{
}

/// The ranges hold the bytes that are read ahead and no others, each range apart
/// from the next; without a blob that is understood there are none.
pub proof fn ranges_hold_what_is_read_ahead(
    ranges: Seq<(u64, u64)>,
    vector: VectorFormat,
    fts: FtsFormat,
    bytes: Seq<u8>,
    at: (u64, u64),
    dim: Option<usize>,
    p: int,
)
    ensures
        are_vector_ranges(ranges, vector, bytes, None, dim) ==> ranges.len() == 0,
        are_fts_ranges(ranges, fts, bytes, None) ==> ranges.len() == 0,
        at.0 + at.1 > bytes.len() ==> (are_vector_ranges(ranges, vector, bytes, Some(at), dim) ==> ranges.len() == 0)
            && (are_fts_ranges(ranges, fts, bytes, Some(at)) ==> ranges.len() == 0),
        at.0 + at.1 <= bytes.len() ==> {
            let blob = bytes.subrange(at.0 as int, at.0 + at.1);
            &&& are_vector_ranges(ranges, vector, bytes, Some(at), dim) && vector_blob_parses(vector, blob, dim)
                ==> is_coalesced(ranges) && (covered(ranges, p) <==> vector_staged(
                vector,
                blob,
                at.0 as int,
                dim,
                p,
            ))
            &&& are_vector_ranges(ranges, vector, bytes, Some(at), dim) && !vector_blob_parses(vector, blob, dim)
                ==> ranges.len() == 0
            &&& are_fts_ranges(ranges, fts, bytes, Some(at)) && fts_blob_parses(fts, blob) ==> is_coalesced(ranges)
                && (covered(ranges, p) <==> fts_staged(fts, blob, at.0 as int, p))
            &&& are_fts_ranges(ranges, fts, bytes, Some(at)) && !fts_blob_parses(fts, blob) ==> ranges.len() == 0
        },
        covered(ranges, p) <==> exists|i: int|
            0 <= i < ranges.len() && (#[trigger] ranges[i]).0 <= p < ranges[i].0 + ranges[i].1,
{
}

/// The bytes of every wanted range are taken, each from its place; if one of them is
/// not within the file, none are.
pub proof fn wanted_bytes_are_taken_from_their_place(
    blob: Seq<(u64, Vec<u8>)>,
    bytes: Seq<u8>,
    wanted: Seq<(u64, u64)>,
    i: int,
)
    requires
        is_open_blob(blob, bytes, wanted),
        0 <= i < wanted.len(),
    ensures
        wanted[i].0 + wanted[i].1 > bytes.len() ==> blob.len() == 0,
        blob.len() == 0 ==> exists|k: int|
            0 <= k < wanted.len() && (#[trigger] wanted[k]).0 + wanted[k].1 > bytes.len(),
        blob.len() > 0 ==> {
            &&& blob.len() == wanted.len()
            &&& blob[i].0 == wanted[i].0
            &&& blob[i].1@ == bytes.subrange(wanted[i].0 as int, wanted[i].0 + wanted[i].1)
        },
{
}

} // verus!
