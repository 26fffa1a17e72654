use supertable::cells::ReplicaCandidate;
use supertable::drain_run::PackedCell;
use supertable::packed::{
    assemble_shard_ids, cell_doc_counts, check_commit_rows, collect_commit_shards,
    encode_stable_ids, id_batches, load_merged_from_spilled, plan_commit_shards,
    read_spilled_stable_ids, spill_packed_cell, CellFormat, CommitRowsFault, EntryCells,
    IdCountMismatch, MergedLayout, ShardCell, ShardFault, SpilledCellFault,
};

#[test]
fn an_id_file_gives_its_ids_back() {
    let ids = vec![5i128, -1, i128::MAX, i128::MIN];
    let bytes = encode_stable_ids(&ids);
    assert_eq!(bytes.len(), 64);
    assert_eq!(&bytes[16..32], &(-1i128).to_le_bytes());
    assert_eq!(read_spilled_stable_ids(&bytes, 4), Some(ids));
    assert_eq!(read_spilled_stable_ids(&bytes, 1), Some(vec![5]));
    assert_eq!(read_spilled_stable_ids(&bytes[..63], 4), None);
    assert_eq!(read_spilled_stable_ids(&[], 0), Some(vec![]));
}

#[test]
fn a_cell_is_spilled_with_one_id_for_each_row() {
    let (cell, file) = spill_packed_cell(3, 2, 100, 7, &vec![10, 11]).expect("spill");
    assert_eq!(cell, PackedCell { cell_id: 3, n_docs: 2, subsection_len: 100, rerank_codec_id: 7 });
    assert_eq!(read_spilled_stable_ids(&file, 2), Some(vec![10, 11]));
    assert_eq!(
        spill_packed_cell(3, 3, 100, 7, &vec![10, 11]).expect_err("mismatch"),
        IdCountMismatch { cell: 3, ids: 2, n_docs: 3 }
    );
}

fn format() -> CellFormat {
    CellFormat {
        header_size: 32,
        crc_bytes: 4,
        centroids_off: 0,
        cluster_idx_off: 8,
        summary_off: 16,
        codec_meta_size_off: 24,
        cluster_idx_entry_bytes: 8,
    }
}

fn cell_bytes(centroids: u64, index: u64, meta: u32) -> Vec<u8> {
    let mut bytes = vec![0u8; 100];
    bytes[0..8].copy_from_slice(&centroids.to_le_bytes());
    bytes[8..16].copy_from_slice(&index.to_le_bytes());
    bytes[16..24].copy_from_slice(&40u64.to_le_bytes());
    bytes[24..28].copy_from_slice(&meta.to_le_bytes());
    bytes
}

#[test]
fn a_spilled_cell_is_read_back() {
    let cell = PackedCell { cell_id: 3, n_docs: 2, subsection_len: 100, rerank_codec_id: 7 };
    let ids = encode_stable_ids(&vec![10, 11]);
    let load = |bytes: &[u8], ids: &[u8]| load_merged_from_spilled(&cell, bytes, ids, 2, &format());
    let layout = MergedLayout {
        n_cent: 3,
        summary_offset: 40,
        codec_meta_offset: 56 + 24,
        codec_meta_size: 9,
    };
    assert_eq!(load(&cell_bytes(32, 56, 9), &ids), Ok((layout, vec![10, 11])));
    let bare = MergedLayout { codec_meta_offset: 0, codec_meta_size: 0, ..layout };
    assert_eq!(load(&cell_bytes(32, 56, 0), &ids), Ok((bare, vec![10, 11])));
    assert_eq!(
        load(&cell_bytes(32, 56, 9)[..99], &ids),
        Err(SpilledCellFault::Length { cell: 3, expected: 100, found: 99 })
    );
    assert_eq!(load(&cell_bytes(32, 57, 9), &ids), Err(SpilledCellFault::CentroidRegion { cell: 3 }));
    assert_eq!(load(&cell_bytes(56, 32, 9), &ids), Err(SpilledCellFault::CentroidRegion { cell: 3 }));
    assert_eq!(
        load(&cell_bytes(7, u64::MAX, 9), &ids),
        Err(SpilledCellFault::OffsetOverflow { cell: 3 })
    );
    assert_eq!(load(&cell_bytes(32, 56, 9), &ids[..31]), Err(SpilledCellFault::Ids { cell: 3 }));
    let short = PackedCell { subsection_len: 35, ..cell };
    assert_eq!(
        load_merged_from_spilled(&short, &[0u8; 35], &ids, 2, &format()),
        Err(SpilledCellFault::TooShort { cell: 3 })
    );
}

fn shard_cell(cell_id: u32, stable_ids: Vec<i128>) -> ShardCell {
    ShardCell { cell_id, n_docs: stable_ids.len() as u32, stable_ids }
}

#[test]
fn a_shard_lists_ids_in_the_order_of_its_cells() {
    let ids = assemble_shard_ids(&vec![shard_cell(9, vec![5, 1]), shard_cell(2, vec![7])])
        .expect("shard");
    assert_eq!(ids.order, vec![1, 0]);
    assert_eq!(ids.ids, vec![7, 5, 1]);
    assert_eq!((ids.id_min, ids.id_max), (1, 7));
    assert!(matches!(assemble_shard_ids(&vec![]), Err(ShardFault::NoDocsToBuild)));
    let broken = ShardCell { cell_id: 2, n_docs: 3, stable_ids: vec![7] };
    assert!(matches!(
        assemble_shard_ids(&vec![shard_cell(9, vec![5]), broken]),
        Err(ShardFault::IdCount(IdCountMismatch { cell: 2, ids: 1, n_docs: 3 }))
    ));
}

#[test]
fn ids_are_read_in_full_batches() {
    assert!(id_batches(0).is_empty());
    assert_eq!(id_batches(1), vec![1]);
    assert_eq!(id_batches(65_536), vec![65_536]);
    assert_eq!(id_batches(131_073), vec![65_536, 65_536, 1]);
}

#[test]
fn commit_rows_fit_the_grid() {
    assert_eq!(check_commit_rows(4, 4, 3, 3), Ok(true));
    assert_eq!(check_commit_rows(4, 4, 0, 3), Ok(false));
    assert_eq!(check_commit_rows(4, 8, 0, 0), Err(CommitRowsFault::Dim { dim: 4, grid_dim: 8 }));
    assert_eq!(
        check_commit_rows(4, 4, 3, 2),
        Err(CommitRowsFault::VectorRows { vectors: 2, ids: 3 })
    );
}

#[test]
fn a_commit_goes_to_cells_and_cells_to_shards() {
    let candidates = vec![ReplicaCandidate { row: 0, cell: 3, margin: 0 }];
    let shards = plan_commit_shards(&vec![30, 10, 20], &vec![1, 2, 1], &candidates, 1, 2);
    assert_eq!(shards.len(), 2);
    assert_eq!(shards[0].0, 0);
    assert_eq!(shards[0].1[0].0, 2);
    assert_eq!(shards[1].0, 1);
    let cells: Vec<u32> = shards[1].1.iter().map(|c| c.0).collect();
    assert_eq!(cells, vec![1, 3]);
    let ids: Vec<i128> = shards[1].1[0].1.members.iter().map(|m| m.stable_id).collect();
    assert_eq!(ids, vec![20, 30]);
    assert!(!shards[1].1[1].1.members[0].is_primary);
}

#[test]
fn shards_without_rows_have_no_file() {
    let out = collect_commit_shards(vec![Some((0, 'a')), None, Some((2, 'b'))]);
    assert_eq!(out, (vec!['a', 'b'], vec![Some(0), Some(2)]));
}

#[test]
fn superseded_cells_are_not_counted() {
    let file = EntryCells::Packed(vec![(1, Some(5)), (2, None), (3, Some(7)), (4, Some(9))]);
    assert_eq!(cell_doc_counts(&file, &vec![3]), vec![(1, 5), (4, 9)]);
    let single = EntryCells::Single { partition_hint: Some(6), n_docs: 11 };
    assert_eq!(cell_doc_counts(&single, &vec![]), vec![(6, 11)]);
    assert!(cell_doc_counts(&single, &vec![6]).is_empty());
    let wide = EntryCells::Single { partition_hint: None, n_docs: (1 << 32) + 2 };
    assert_eq!(cell_doc_counts(&wide, &vec![]), vec![(0, 2)]);
}

#[test]
fn the_fields_of_a_cell_lie_in_its_header() {
    assert!(format().holds_together());
    assert!(CellFormat { codec_meta_size_off: 28, ..format() }.holds_together());
    assert!(!CellFormat { codec_meta_size_off: 29, ..format() }.holds_together());
    assert!(!CellFormat { centroids_off: 25, ..format() }.holds_together());
    assert!(!CellFormat { cluster_idx_off: u64::MAX, ..format() }.holds_together());
    assert!(!CellFormat { summary_off: 25, ..format() }.holds_together());
    assert!(!CellFormat { header_size: 0x1_0001, ..format() }.holds_together());
    assert!(!CellFormat { crc_bytes: 0x1_0001, ..format() }.holds_together());
}
