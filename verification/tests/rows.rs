use std::collections::HashSet;

use roaring::RoaringBitmap;
use supertable::rows::{
    deleted_locals, distinct_rows_for_drain, first_of_each_id, group_multicell_rows,
    materialized_ivf_rows_in_doc_order, number_rows, numbers_fit_file, IvfRow,
};

fn row(local_doc_id: u32, stable_id: i128, payload: char) -> IvfRow<char> {
    IvfRow { local_doc_id, stable_id, cluster: 0, payload }
}

fn bitmap(values: &[u32]) -> RoaringBitmap {
    let mut bitmap = RoaringBitmap::new();
    for v in values {
        bitmap.insert(*v);
    }
    bitmap
}

fn listed(rows: &[IvfRow<char>]) -> Vec<(u32, i128, char)> {
    rows.iter().map(|r| (r.local_doc_id, r.stable_id, r.payload)).collect()
}

#[test]
fn rows_come_back_in_the_order_of_their_numbers() {
    let rows = vec![row(2, 0, 'c'), row(0, 100, 'a'), row(1, 0, 'b')];
    let out = materialized_ivf_rows_in_doc_order(rows, &vec![100, 101, 102], None);
    assert_eq!(listed(&out), vec![(0, 100, 'a'), (1, 101, 'b'), (2, 102, 'c')]);
}

#[test]
fn deleted_rows_are_left_out() {
    let dead = bitmap(&[1]);
    let rows = vec![row(2, 0, 'c'), row(0, 0, 'a'), row(1, 0, 'b'), row(9, 0, 'x')];
    let out = materialized_ivf_rows_in_doc_order(rows, &vec![100, 101, 102], Some(&dead));
    assert_eq!(listed(&out), vec![(0, 100, 'a'), (2, 102, 'c')]);
}

#[test]
fn of_rows_with_the_same_number_the_last_stays() {
    let rows = vec![row(0, 7, 'a'), row(0, 8, 'b')];
    let out = materialized_ivf_rows_in_doc_order(rows, &vec![100], None);
    assert_eq!(listed(&out), vec![(0, 8, 'b')]);
}

#[test]
fn a_bitmap_counts_through_the_cells_of_a_file() {
    // Cell 5 holds the file's rows 0..2, cell 3 the rows 2..5.
    let directory = vec![(5, 2), (3, 3)];
    let dead = bitmap(&[1, 3]);
    let cells = vec![
        (3, vec![row(0, 30, 'a'), row(1, 31, 'b'), row(2, 32, 'c')]),
        (5, vec![row(0, 50, 'd'), row(1, 51, 'e')]),
    ];
    let groups = group_multicell_rows(cells, &directory, Some(&dead));
    assert_eq!(groups[0].0, 3);
    assert_eq!(listed(&groups[0].1), vec![(0, 30, 'a'), (2, 32, 'c')]);
    assert_eq!(groups[1].0, 5);
    assert_eq!(listed(&groups[1].1), vec![(0, 50, 'd')]);
}

#[test]
fn without_a_bitmap_every_row_stays() {
    let cells = vec![(3, vec![row(0, 30, 'a'), row(1, 31, 'b')])];
    let groups = group_multicell_rows(cells, &vec![(3, 2)], None);
    assert_eq!(listed(&groups[0].1), vec![(0, 30, 'a'), (1, 31, 'b')]);
}

#[test]
fn deleted_numbers_are_listed_in_order() {
    assert_eq!(deleted_locals(Some(&bitmap(&[70_000, 3, 9]))), Some(vec![3, 9, 70_000]));
    assert_eq!(deleted_locals(Some(&bitmap(&[]))), None);
    assert_eq!(deleted_locals(None), None);
}

#[test]
fn a_drain_moves_each_live_row_once() {
    let rows = vec![row(0, 30, 'a'), row(1, 10, 'b'), row(2, 30, 'c'), row(3, 20, 'd')];
    let mut deleted: HashSet<i128> = HashSet::new();
    deleted.insert(20);
    let out = distinct_rows_for_drain(&rows, &deleted);
    assert_eq!(listed(&out), vec![(0, 10, 'b'), (1, 30, 'a')]);
}

#[test]
fn a_batch_places_the_first_row_of_each_id() {
    assert_eq!(first_of_each_id(&vec![7, 3, 7, 7, 3, 9]), vec![0, 1, 5]);
    assert!(first_of_each_id(&vec![]).is_empty());
}

#[test]
fn rows_of_a_cell_are_numbered_in_order() {
    let mut rows = vec![row(9, 4, 'a'), row(9, 2, 'b')];
    number_rows(&mut rows);
    assert_eq!(listed(&rows), vec![(0, 4, 'a'), (1, 2, 'b')]);
}

#[test]
fn a_row_past_the_largest_number_does_not_fit_its_file() {
    let cells = vec![(3, vec![row(u32::MAX, 30, 'a')]), (5, vec![row(7, 50, 'b')])];
    assert!(numbers_fit_file(&cells, &vec![(3, 8), (5, u32::MAX - 8)]));
    assert!(!numbers_fit_file(&cells, &vec![(5, 1), (3, 1)]));
    assert!(numbers_fit_file(&cells, &vec![(4, u32::MAX - 7), (5, 8)]));
    assert!(!numbers_fit_file(&cells, &vec![(4, u32::MAX), (6, 9), (5, 8)]));
    assert!(numbers_fit_file(&cells, &vec![]));
}
