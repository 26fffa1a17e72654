use bytes::Bytes;
use supertable::open_ranges::{
    build_open_blob, build_subsection_offsets, fts_open_ranges, merge_ranges, vector_open_ranges,
    vector_open_ranges_multi_cell, BlobFormats, FooterFields, FtsFormat, VectorFormat, VectorLayout,
};

const DIM: usize = 2;
const ENTRY_BYTES: u64 = 8;

fn vector_format() -> VectorFormat {
    VectorFormat {
        outer_header_size: 32,
        crc_bytes: 4,
        version_single: 1,
        version_multi_cell: 2,
        version_off: 4,
        n_columns_off: 8,
        n_cells_off: 12,
        dir_offset_off: 16,
        dir_entry_size: 32,
        column_subsection_off: 0,
        column_subsection_len: 8,
        column_codec_meta_off: 16,
        column_codec_meta_size: 20,
        column_n_cent: 24,
        cell_dir_entry_size: 16,
        cell_subsection_off: 0,
        cell_subsection_len: 8,
        sub_header_size: 16,
        centroids_off: 0,
        cluster_idx_off: 8,
        cluster_idx_entry_bytes: ENTRY_BYTES,
    }
}

fn fts_format() -> FtsFormat {
    FtsFormat { header_size: 16, postings_offset_off: 0, doc_lengths_dir_off: 8 }
}

fn put4(bytes: &mut [u8], at: usize, v: u32) {
    bytes[at..at + 4].copy_from_slice(&v.to_le_bytes());
}

fn put8(bytes: &mut [u8], at: usize, v: u64) {
    bytes[at..at + 8].copy_from_slice(&v.to_le_bytes());
}

/// A subsection: header, `n_cent` centroids, cluster index, `rows` bytes.
fn subsection(n_cent: usize, rows: usize) -> Vec<u8> {
    let index = 16 + n_cent * DIM * 4;
    let mut sub = vec![7u8; index + n_cent * ENTRY_BYTES as usize + rows];
    put8(&mut sub, 0, 16);
    put8(&mut sub, 8, index as u64);
    sub
}

/// A multi-cell blob of the given subsections, the directory at the end.
fn multi_blob(subs: &[Vec<u8>]) -> Vec<u8> {
    let mut blob = vec![0u8; 32];
    let mut places = Vec::new();
    for sub in subs {
        places.push((blob.len() as u64, sub.len() as u64));
        blob.extend_from_slice(sub);
    }
    let dir = blob.len();
    put4(&mut blob, 4, 2);
    put4(&mut blob, 12, subs.len() as u32);
    put8(&mut blob, 16, dir as u64);
    blob.resize(dir + subs.len() * 16 + 4, 0);
    for (i, (off, len)) in places.iter().enumerate() {
        put8(&mut blob, dir + i * 16, *off);
        put8(&mut blob, dir + i * 16 + 8, *len);
    }
    blob
}

/// A single-cell blob with one column.
fn single_blob(n_cent: usize, rows: usize, meta: (u32, u32)) -> Vec<u8> {
    let sub = subsection(n_cent, rows);
    let mut blob = vec![0u8; 32];
    blob.extend_from_slice(&sub);
    let dir = blob.len();
    put4(&mut blob, 4, 1);
    put4(&mut blob, 8, 1);
    put8(&mut blob, 16, dir as u64);
    blob.resize(dir + 32 + 4, 0);
    put8(&mut blob, dir, 32);
    put8(&mut blob, dir + 8, sub.len() as u64);
    put4(&mut blob, dir + 16, meta.0);
    put4(&mut blob, dir + 20, meta.1);
    put4(&mut blob, dir + 24, n_cent as u32);
    blob
}

fn staged(ranges: &[(u64, u64)]) -> u64 {
    ranges.iter().map(|r| r.1).sum()
}

#[test]
fn merge_ranges_coalesces_overlapping_and_adjacent_drops_empty() {
    let input = vec![(100u64, 10u64), (0, 0), (10, 10), (15, 10), (25, 5)];
    let merged = merge_ranges(input);
    assert_eq!(merged, vec![(10, 20), (100, 10)]);
}

#[test]
fn merge_ranges_empty_input_is_empty() {
    assert!(merge_ranges(Vec::new()).is_empty());
}

#[test]
fn merge_ranges_keeps_the_longer_of_nested_ranges() {
    assert_eq!(merge_ranges(vec![(0, 100), (10, 5), (20, 1)]), vec![(0, 100)]);
    assert_eq!(merge_ranges(vec![(5, 1), (3, 1)]), vec![(3, 1), (5, 1)]);
}

#[test]
fn merge_ranges_does_not_depend_on_the_order_of_its_input() {
    let a = merge_ranges(vec![(10, 5), (0, 5), (5, 5), (30, 1)]);
    let b = merge_ranges(vec![(30, 1), (5, 5), (10, 5), (0, 5)]);
    assert_eq!(a, b);
    assert_eq!(a, vec![(0, 15), (30, 1)]);
}

#[test]
fn multi_cell_open_ranges_exclude_row_proportional_regions() {
    let f = vector_format();
    let few = multi_blob(&[subsection(1, 10), subsection(1, 10)]);
    let many = multi_blob(&[subsection(1, 100_000), subsection(1, 100_000)]);
    let of = |blob: &Vec<u8>| {
        vector_open_ranges(&f, blob, 0, blob.len() as u64, Some(DIM)).expect("ranges")
    };
    assert_eq!(staged(&of(&few)), staged(&of(&many)));
    assert_eq!(staged(&of(&many)), 32 + (2 * 16 + 4) + 2 * (16 + 8));
}

#[test]
fn multi_cell_ranges_hold_headers_directory_and_indexes() {
    let f = vector_format();
    let blob = multi_blob(&[subsection(2, 5)]);
    // Header 0..32, sub-header 32..48, centroids 48..64, index 64..80, rows
    // 80..85, directory and checksum 85..105.
    let ranges = vector_open_ranges_multi_cell(&f, &blob, 1000, DIM).expect("ranges");
    assert_eq!(ranges, vec![(1000, 48), (1064, 16), (1085, 20)]);
    let mut file = vec![9u8; 3];
    file.extend_from_slice(&blob);
    assert_eq!(
        vector_open_ranges(&f, &file, 3, blob.len() as u64, Some(DIM)),
        Some(vec![(3, 48), (67, 16), (88, 20)])
    );
}

#[test]
fn multi_cell_blobs_that_do_not_parse_are_not_staged() {
    let f = vector_format();
    let blob = multi_blob(&[subsection(2, 5)]);
    let n = blob.len() as u64;
    assert!(vector_open_ranges(&f, &blob, 0, n, None).is_none());
    assert!(vector_open_ranges(&f, &blob, 0, n, Some(0)).is_none());
    assert!(vector_open_ranges(&f, &blob, 0, n, Some(3)).is_none());
    assert!(vector_open_ranges(&f, &blob, 0, n + 1, Some(DIM)).is_none());
    assert!(vector_open_ranges(&f, &blob, u64::MAX, n, Some(DIM)).is_none());
    assert!(vector_open_ranges(&f, &blob, 0, 35, Some(DIM)).is_none());
    let mut outside = blob.clone();
    put8(&mut outside, 85, 1000);
    assert!(vector_open_ranges(&f, &outside, 0, n, Some(DIM)).is_none());
    let mut backwards = blob.clone();
    put8(&mut backwards, 32, 100);
    assert!(vector_open_ranges(&f, &backwards, 0, n, Some(DIM)).is_none());
    let mut version = blob;
    put4(&mut version, 4, 3);
    assert!(vector_open_ranges(&f, &version, 0, n, Some(DIM)).is_none());
}

#[test]
fn single_cell_ranges_hold_header_directory_and_index() {
    let f = vector_format();
    let blob = single_blob(2, 5, (0, 0));
    // Header 0..32, sub-header 32..48, centroids 48..64, index 64..80, rows
    // 80..85, directory and checksum 85..121.
    let n = blob.len() as u64;
    assert_eq!(vector_open_ranges(&f, &blob, 0, n, None), Some(vec![(0, 48), (64, 16), (85, 36)]));
    let meta_inside = single_blob(2, 5, (48, 5));
    assert!(vector_open_ranges(&f, &meta_inside, 0, n, None).is_some());
    let meta_outside = single_blob(2, 5, (50, 5));
    assert!(vector_open_ranges(&f, &meta_outside, 0, n, None).is_none());
    let mut index_outside = blob;
    put4(&mut index_outside, 85 + 24, 3);
    assert!(vector_open_ranges(&f, &index_outside, 0, n, None).is_none());
}

fn fts_blob(postings: u64, doc_lengths: u64, size: usize) -> Vec<u8> {
    let mut blob = vec![3u8; size];
    put8(&mut blob, 0, postings);
    put8(&mut blob, 8, doc_lengths);
    blob
}

#[test]
fn full_text_ranges_leave_the_postings_out() {
    let f = fts_format();
    assert_eq!(fts_open_ranges(&f, &fts_blob(20, 40, 50), 0, 50), Some(vec![(0, 20), (40, 10)]));
    assert_eq!(fts_open_ranges(&f, &fts_blob(20, 20, 50), 0, 50), Some(vec![(0, 50)]));
    assert_eq!(fts_open_ranges(&f, &fts_blob(0, 50, 50), 0, 50), Some(vec![]));
    assert!(fts_open_ranges(&f, &fts_blob(41, 40, 50), 0, 50).is_none());
    assert!(fts_open_ranges(&f, &fts_blob(20, 51, 50), 0, 50).is_none());
    assert!(fts_open_ranges(&f, &fts_blob(20, 40, 50), 0, 15).is_none());
    assert!(fts_open_ranges(&f, &fts_blob(20, 40, 50), 1, 50).is_none());
}

#[test]
fn the_open_blob_holds_the_tail_and_the_ranges() {
    let bytes: Vec<u8> = (0..70_000u32).map(|i| i as u8).collect();
    let blob = build_open_blob(&bytes, 70_000, &vec![(1, 2)], &vec![(10, 3)]);
    assert_eq!(blob.len(), 3);
    assert_eq!(blob[0].0, 70_000 - 65_536);
    assert_eq!(blob[0].1, bytes[4464..]);
    assert_eq!(blob[1], (1, vec![1, 2]));
    assert_eq!(blob[2], (10, vec![10, 11, 12]));
    assert!(build_open_blob(&bytes, 70_000, &vec![(69_999, 2)], &vec![]).is_empty());
    assert!(build_open_blob(&bytes, 70_001, &vec![], &vec![]).is_empty());
    assert_eq!(build_open_blob(&[], 0, &vec![], &vec![]), vec![]);
}

fn footer(fts: Option<(u64, u64)>, layout: VectorLayout) -> FooterFields {
    FooterFields {
        vec_offset: None,
        vec_length: None,
        fts_offset: fts.map(|b| b.0),
        fts_length: fts.map(|b| b.1),
        layout,
        column_dims: None,
    }
}

fn formats() -> BlobFormats {
    BlobFormats { vector: vector_format(), fts: fts_format() }
}

#[test]
fn build_subsection_offsets_captures_total_size_and_fts_range() {
    let bytes = fts_blob(20, 40, 50);
    let offsets = build_subsection_offsets(
        &Bytes::from(bytes),
        Some(footer(Some((0, 50)), VectorLayout::Ivf)),
        &formats(),
    )
    .expect("offsets captured at commit");
    assert!(offsets.total_size > 0);
    assert_eq!(offsets.total_size, 50);
    assert!(offsets.fts.is_some(), "an FTS superfile must record an FTS subsection");
    assert!(
        !offsets.fts_open_ranges.is_empty(),
        "FTS open ranges should be populated for the cold-open fast path"
    );
    assert!(offsets.vec.is_none());
    assert!(offsets.vec_open_ranges.is_empty());
    assert_eq!(offsets.open_blob.len(), 3);
}

#[test]
fn build_subsection_offsets_on_garbage_returns_none() {
    let garbage = Bytes::from_static(b"not a parquet file at all");
    assert!(build_subsection_offsets(&garbage, None, &formats()).is_none());
}

#[test]
fn cell_posting_files_carry_offsets_alone() {
    let bytes = fts_blob(20, 40, 50);
    let offsets = build_subsection_offsets(
        &Bytes::from(bytes),
        Some(footer(Some((0, 50)), VectorLayout::CellPosting)),
        &formats(),
    )
    .expect("offsets");
    assert_eq!(offsets.fts, Some((0, 50)));
    assert!(offsets.fts_open_ranges.is_empty());
    assert!(offsets.open_blob.is_empty());
}

#[test]
fn an_empty_blob_is_no_blob() {
    let offsets = build_subsection_offsets(
        &Bytes::from_static(&[1, 2, 3]),
        Some(footer(Some((0, 0)), VectorLayout::MultiCellIvf)),
        &formats(),
    )
    .expect("offsets");
    assert!(offsets.fts.is_none());
    assert_eq!(offsets.open_blob, vec![(0, vec![1, 2, 3])]);
}

#[test]
fn the_only_vector_column_says_how_long_a_vector_is() {
    let blob = multi_blob(&[subsection(2, 5)]);
    let n = blob.len() as u64;
    let of = |dims: Option<Vec<usize>>| {
        let footer = FooterFields {
            vec_offset: Some(0),
            vec_length: Some(n),
            fts_offset: None,
            fts_length: None,
            layout: VectorLayout::MultiCellIvf,
            column_dims: dims,
        };
        build_subsection_offsets(&Bytes::from(blob.clone()), Some(footer), &formats()).expect("offsets")
    };
    let staged_ranges = vec![(0, 48), (64, 16), (85, 20)];
    assert_eq!(of(Some(vec![DIM])).vec_open_ranges, staged_ranges);
    assert_eq!(of(Some(vec![DIM])).open_blob.len(), 4);
    for dims in [None, Some(vec![]), Some(vec![DIM, DIM])] {
        let offsets = of(dims);
        assert_eq!(offsets.vec, Some((0, n)));
        assert!(offsets.vec_open_ranges.is_empty());
        assert_eq!(offsets.open_blob.len(), 1);
    }
}

#[test]
fn a_field_lies_inside_its_header() {
    assert!(formats().holds_together());
    let mut long = formats();
    long.vector.sub_header_size = 65_537;
    assert!(!long.holds_together());
    let mut outside = formats();
    outside.vector.dir_offset_off = 25;
    assert!(!outside.holds_together());
    let mut text = formats();
    text.fts.doc_lengths_dir_off = 9;
    assert!(!text.holds_together());
}
