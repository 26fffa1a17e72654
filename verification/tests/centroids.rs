use supertable::centroids::{
    checked_section_len, compose_centroid_section, fetch_centroid_section, index_section,
    open_hashed_section, section_len, sorted_summaries, CellSummary, ColumnSummary, EntrySummary,
};
use supertable::slow_state::{content_address, ContentHash, ParseFault, SlowVectorStateError};

const DIM: u32 = 16;

fn bytes_of(values: &[f32]) -> Vec<u8> {
    values.iter().flat_map(|v| v.to_le_bytes()).collect()
}

fn fixture(cell: u32) -> Vec<f32> {
    let mut flat = vec![0.0f32; 2 * DIM as usize];
    flat[0] = 1.0 + cell as f32;
    flat[DIM as usize + 3] = -1.0;
    flat
}

fn entry(superfile_id: u128, cell: u32, resident: bool) -> EntrySummary {
    EntrySummary::new(
        superfile_id,
        vec![ColumnSummary {
            column: "emb".to_string(),
            cells: vec![CellSummary {
                cell_id: Some(cell),
                n_cent: 2,
                dim: DIM,
                resident: if resident { Some(bytes_of(&fixture(cell))) } else { None },
            }],
        }],
    )
}

#[test]
fn centroid_section_roundtrip_serves_cell_fp32() {
    let entries = vec![entry(11, 1, true), entry(12, 6, true)];
    let section = compose_centroid_section(&entries, None).expect("compose from resident");
    assert_eq!(section.len(), section_len(&entries));
    assert!(!section.is_empty(), "fixture summaries carry fp32");
    let (uri, hash) = content_address(&section);
    let fetched = fetch_centroid_section(uri.clone(), &hash, &entries, &section).expect("fetch section");
    assert_eq!(fetched.uri, uri);
    for (id, cell) in [(11u128, 1u32), (12, 6)] {
        let got = fetched.read_cell_bytes(&section, id, "emb", Some(cell)).expect("cell served");
        assert_eq!(got, bytes_of(&fixture(cell)), "fp32 must round-trip");
    }
    assert!(fetched.read_cell_bytes(&section, 11, "emb", Some(999)).is_none());
    assert!(fetched.read_cell_bytes(&section, 11, "other", Some(1)).is_none());
    assert!(fetched.read_cell_bytes(&section, 11, "emb", None).is_none());
}

#[test]
fn compose_section_from_previous_generation() {
    let resident = vec![entry(11, 1, true), entry(12, 6, true)];
    let expected_section = compose_centroid_section(&resident, None).expect("resident bytes");
    let stripped = vec![entry(11, 1, false), entry(12, 6, false)];
    match compose_centroid_section(&stripped, None) {
        Err(SlowVectorStateError::Parse(ParseFault::NoCentroidSource {
            superfile_id,
            column,
            cell_id,
        })) => {
            assert_eq!((superfile_id, column.as_str(), cell_id), (11, "emb", Some(1)));
        }
        other => panic!("no fp32 source must fail loudly; got {other:?}"),
    }
    let (uri, hash) = content_address(&expected_section);
    let previous =
        fetch_centroid_section(uri, &hash, &resident, &expected_section).expect("previous section");
    let composed = compose_centroid_section(&stripped, Some((&previous, &expected_section)))
        .expect("compose from previous");
    assert_eq!(composed, expected_section, "carried-forward cells must compose byte-identical fp32");
    assert!(ContentHash::of(&composed).same_as(&hash));
}

#[test]
fn a_cell_of_another_size_is_not_carried() {
    let resident = vec![entry(11, 1, true)];
    let section = compose_centroid_section(&resident, None).expect("section");
    let previous = index_section("uri".to_string(), &resident);
    let grown = vec![EntrySummary::new(
        11,
        vec![ColumnSummary {
            column: "emb".to_string(),
            cells: vec![CellSummary { cell_id: Some(1), n_cent: 3, dim: DIM, resident: None }],
        }],
    )];
    assert!(compose_centroid_section(&grown, Some((&previous, &section))).is_err());
    let empty = vec![EntrySummary::new(
        11,
        vec![ColumnSummary {
            column: "emb".to_string(),
            cells: vec![CellSummary { cell_id: Some(1), n_cent: 0, dim: DIM, resident: None }],
        }],
    )];
    assert!(compose_centroid_section(&empty, None).expect("nothing to find").is_empty());
}

#[test]
fn a_section_of_another_size_or_hash_is_refused() {
    let entries = vec![entry(11, 1, true)];
    let section = compose_centroid_section(&entries, None).expect("section");
    let (uri, hash) = content_address(&section);
    match fetch_centroid_section(uri.clone(), &hash, &entries, &section[1..]) {
        Err(SlowVectorStateError::Parse(ParseFault::SectionSize { size, expected })) => {
            assert_eq!((size, expected), (127, 128));
        }
        other => panic!("unexpected {other:?}"),
    }
    let wrong = ContentHash::of(b"wrong");
    assert!(matches!(
        fetch_centroid_section(uri.clone(), &wrong, &entries, &section),
        Err(SlowVectorStateError::HashMismatch)
    ));
    assert!(open_hashed_section(uri.clone(), &hash, &entries, 128, &hash).is_ok());
    assert!(open_hashed_section(uri, &hash, &entries, 128, &wrong).is_err());
}

fn column(name: &str) -> ColumnSummary {
    ColumnSummary {
        column: name.to_string(),
        cells: vec![CellSummary { cell_id: None, n_cent: 1, dim: 1, resident: Some(name.bytes().cycle().take(4).collect()) }],
    }
}

#[test]
fn columns_stand_in_the_order_of_their_names() {
    let sorted = sorted_summaries(vec![column("b"), column("ab"), column("a"), column("")]);
    let names: Vec<&str> = sorted.iter().map(|c| c.column.as_str()).collect();
    assert_eq!(names, vec!["", "a", "ab", "b"]);
    let one = EntrySummary::new(1, vec![column("b"), column("a")]);
    let other = EntrySummary::new(1, vec![column("a"), column("b")]);
    let names: Vec<&str> = one.columns().iter().map(|c| c.column.as_str()).collect();
    assert_eq!(names, vec!["a", "b"]);
    let section = compose_centroid_section(&vec![one], None).expect("section");
    assert_eq!(section, b"aaaabbbb");
    assert_eq!(compose_centroid_section(&vec![other], None).expect("section"), section);
}

#[test]
fn cells_stand_one_behind_the_other() {
    let entries = vec![entry(11, 1, true), entry(12, 6, true)];
    let section = index_section("uri".to_string(), &entries);
    assert_eq!(section.locate(11, "emb", Some(1)), Some((0, 128)));
    assert_eq!(section.locate(12, "emb", Some(6)), Some((128, 128)));
    assert_eq!(section.locate(12, "emb", Some(1)), None);
    assert_eq!(section_len(&entries), 256);
    assert_eq!(checked_section_len(&entries), Some(256));
}

#[test]
fn a_superfile_that_is_named_twice_is_served_from_its_last_list() {
    let entries = vec![entry(11, 1, true), entry(11, 2, true)];
    let section = index_section("uri".to_string(), &entries);
    assert_eq!(section.locate(11, "emb", Some(1)), None);
    assert_eq!(section.locate(11, "emb", Some(2)), Some((128, 128)));
    let again = vec![entry(11, 1, true), entry(12, 5, true), entry(11, 1, true)];
    assert_eq!(index_section("uri".to_string(), &again).locate(11, "emb", Some(1)), Some((256, 128)));
}

#[test]
fn a_section_that_cannot_be_counted_has_no_length() {
    let huge = || CellSummary { cell_id: None, n_cent: u32::MAX, dim: u32::MAX, resident: None };
    let cells = vec![huge(), huge()];
    let entries =
        vec![EntrySummary::new(1, vec![ColumnSummary { column: "emb".to_string(), cells }])];
    assert_eq!(checked_section_len(&entries), None);
    assert_eq!(checked_section_len(&vec![]), Some(0));
}
