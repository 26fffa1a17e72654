use supertable::fanout::{
    cell_split_dim, reserve_build_scratch, split_buffer_by_vector_cell,
    split_buffer_into_superfile_inputs, superfiles_per_commit, take_rows, AssignedBatch,
    CellOutOfRange, CellRows, CellSplitFault, RowPlace, RowSlice, UnevenValues, VectorColumnView,
    BUILD_FTS_NUM, BUILD_SCALAR_NUM, BUILD_SCRATCH_DENOM, BUILD_VECTOR_NUM,
};

const T: usize = 64 << 20;

#[test]
fn superfiles_per_commit_follows_bytes_capped_by_pool() {
    assert_eq!(superfiles_per_commit(1_000_000, 10 << 20, 192, T), 1);
    assert_eq!(superfiles_per_commit(1_000_000, 1 << 30, 192, T), 16);
    assert_eq!(superfiles_per_commit(1_000_000, 1 << 30, 8, T), 8);
    assert_eq!(superfiles_per_commit(3, 1 << 30, 192, T), 3);
    assert_eq!(superfiles_per_commit(1, 1, 0, T), 1);
}

#[test]
fn superfiles_per_commit_split_boundaries() {
    assert_eq!(superfiles_per_commit(1_000_000, T, 192, T), 1);
    assert_eq!(superfiles_per_commit(1_000_000, T + 1, 192, T), 2);
    assert_eq!(superfiles_per_commit(1_000_000, 4 * T, 192, T), 4);
    assert_eq!(superfiles_per_commit(1_000_000, 4 * T + 1, 192, T), 5);
    assert_eq!(superfiles_per_commit(10, 0, 192, T), 1);
    for bytes in [T + 1, 2 * T - 1, 3 * T + T / 2, 10 * T + 1] {
        let n = superfiles_per_commit(1_000_000, bytes, 192, T);
        assert!(bytes.div_ceil(n) >= T / 2, "bytes={bytes} n={n}");
    }
}

#[test]
fn superfiles_per_commit_zero_split_restores_thread_fanout() {
    assert_eq!(superfiles_per_commit(1_000_000, 10 << 20, 192, 0), 192);
    assert_eq!(superfiles_per_commit(1_000_000, 1 << 30, 8, 0), 8);
    assert_eq!(superfiles_per_commit(3, 1 << 30, 192, 0), 3);
}

#[test]
fn reserve_build_scratch_weights_each_input_class() {
    let (scalar, vector, fts) = (1000usize, 2000usize, 400usize);
    let expected = (BUILD_SCALAR_NUM * scalar + BUILD_VECTOR_NUM * vector + BUILD_FTS_NUM * fts)
        / BUILD_SCRATCH_DENOM;
    assert_eq!(reserve_build_scratch(scalar, vector, fts), expected);
    assert_eq!(expected, 16_100);
    let scalar_only = reserve_build_scratch(1000, 0, 0);
    let vector_only = reserve_build_scratch(0, 1000, 0);
    let scalar_plus_fts = reserve_build_scratch(1000, 0, 1000);
    assert!(vector_only > scalar_only);
    assert!(scalar_plus_fts > scalar_only);
}

#[test]
fn reserve_build_scratch_stops_at_the_largest_number() {
    assert_eq!(reserve_build_scratch(usize::MAX, 1, 1), usize::MAX / 2);
    assert_eq!(reserve_build_scratch(0, 0, 0), 0);
}

fn slice(batch: usize, start: usize, len: usize) -> RowSlice {
    RowSlice { batch, start, len }
}

#[test]
fn a_buffer_is_split_evenly_and_in_order() {
    let pieces = split_buffer_into_superfile_inputs(&vec![3, 0, 4], 3);
    assert_eq!(
        pieces,
        vec![
            vec![slice(0, 0, 3)],
            vec![slice(2, 0, 2)],
            vec![slice(2, 2, 2)],
        ]
    );
    let pieces = split_buffer_into_superfile_inputs(&vec![2, 2], 3);
    assert_eq!(
        pieces,
        vec![vec![slice(0, 0, 2)], vec![slice(1, 0, 1)], vec![slice(1, 1, 1)]]
    );
    let pieces = split_buffer_into_superfile_inputs(&vec![1, 3], 2);
    assert_eq!(pieces, vec![vec![slice(0, 0, 1), slice(1, 0, 1)], vec![slice(1, 1, 2)]]);
}

#[test]
fn a_split_makes_no_empty_piece() {
    assert_eq!(split_buffer_into_superfile_inputs(&vec![2], 5).len(), 2);
    assert!(split_buffer_into_superfile_inputs(&vec![0, 0], 5).is_empty());
    assert!(split_buffer_into_superfile_inputs(&vec![], 1).is_empty());
}

fn rows_of(pieces: &[CellRows]) -> Vec<(usize, Vec<usize>)> {
    pieces.iter().map(|p| (p.batch, p.rows.clone())).collect()
}

fn batch(cells: Vec<u32>, column_values: Vec<usize>) -> AssignedBatch {
    AssignedBatch { cells, column_values }
}

#[test]
fn split_buffer_by_vector_cell_routes_rows_to_nearest_cell() {
    let centroids = [[1.0f32, 0.0, 0.0, 0.0], [0.0, 1.0, 0.0, 0.0]];
    let vectors = [
        0.9f32, 0.1, 0.0, 0.0, // near e_0
        1.0, 0.0, 0.0, 0.0, // e_0
        0.0, 0.9, 0.1, 0.0, // near e_1
        0.0, 1.0, 0.0, 0.0, // e_1
    ];
    let nearest = |row: &[f32]| -> u32 {
        let score = |c: &[f32; 4]| c.iter().zip(row).map(|(a, b)| a * b).sum::<f32>();
        if score(&centroids[0]) >= score(&centroids[1]) { 0 } else { 1 }
    };
    let cells: Vec<u32> = vectors.chunks_exact(4).map(nearest).collect();
    let out = split_buffer_by_vector_cell(&vec![batch(cells, vec![vectors.len()])], 2)
        .expect("split buffer by vector cell");
    let rows_in = |cell: u32| {
        out.iter()
            .find(|(c, _)| *c == cell)
            .map(|(_, pieces)| pieces.iter().map(|p| p.rows.len()).sum::<usize>())
    };
    assert_eq!(rows_in(0), Some(2), "two rows must route to the e_0 cell");
    assert_eq!(rows_in(1), Some(2), "two rows must route to the e_1 cell");
}

#[test]
fn cells_come_in_order_without_the_empty_ones() {
    let batches =
        vec![batch(vec![5, 1], vec![4]), batch(vec![], vec![1]), batch(vec![1, 3, 1], vec![0])];
    let out = split_buffer_by_vector_cell(&batches, 6).expect("split");
    let cells: Vec<u32> = out.iter().map(|(c, _)| *c).collect();
    assert_eq!(cells, vec![1, 3, 5]);
    assert_eq!(rows_of(&out[0].1), vec![(0, vec![1]), (2, vec![0, 2])]);
    assert_eq!(rows_of(&out[1].1), vec![(2, vec![1])]);
    assert_eq!(rows_of(&out[2].1), vec![(0, vec![0])]);
}

#[test]
fn a_row_outside_the_grid_is_reported() {
    let outside = CellSplitFault::OutOfRange(CellOutOfRange { batch: 1, row: 1, cell: 2 });
    let batches = vec![batch(vec![0], vec![]), batch(vec![1, 2, 7], vec![4])];
    assert_eq!(split_buffer_by_vector_cell(&batches, 2).expect_err("outside"), outside);
}

#[test]
fn values_that_do_not_divide_across_the_rows_are_reported() {
    let uneven =
        CellSplitFault::Uneven(UnevenValues { batch: 1, column: 1, values: 7, rows: 2 });
    let batches = vec![
        batch(vec![0, 1, 1], vec![6, 9]),
        batch(vec![1, 0], vec![8, 7, 5]),
        batch(vec![9], vec![1]),
    ];
    assert_eq!(split_buffer_by_vector_cell(&batches, 2).expect_err("uneven"), uneven);
    assert_eq!(cell_split_dim(12, 4), Some(3));
    assert_eq!(cell_split_dim(0, 4), Some(0));
    assert_eq!(cell_split_dim(13, 4), None);
}

#[test]
fn the_rows_of_a_cell_have_their_values() {
    let values: Vec<f32> = vec![0.0, 0.5, 1.0, 1.5, 2.0, 2.5];
    let split = split_buffer_by_vector_cell(&vec![batch(vec![1, 0, 1], vec![values.len()])], 2)
        .expect("split");
    let dim = cell_split_dim(values.len(), 3).expect("even");
    assert_eq!(take_rows(&values, &split[0].1[0].rows, dim), vec![1.0, 1.5]);
    assert_eq!(take_rows(&values, &split[1].1[0].rows, dim), vec![0.0, 0.5, 2.0, 2.5]);
    assert!(take_rows(&values, &vec![], dim).is_empty());
}

#[test]
fn a_vector_row_is_found_in_its_batch() {
    let counts = vec![6, 0, 4];
    let view = VectorColumnView::over(&counts, 2);
    assert_eq!(view.n_rows(&counts), 5);
    assert_eq!(view.row(&counts, 0), Some(RowPlace { batch: 0, start: 0 }));
    assert_eq!(view.row(&counts, 2), Some(RowPlace { batch: 0, start: 4 }));
    assert_eq!(view.row(&counts, 3), Some(RowPlace { batch: 2, start: 0 }));
    assert_eq!(view.row(&counts, 4), Some(RowPlace { batch: 2, start: 2 }));
    assert_eq!(view.row(&counts, 5), None);
}
