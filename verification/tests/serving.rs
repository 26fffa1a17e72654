use supertable::serving::{
    count_docs, graph_population_key, has_slow_state, id_bounds, is_stamped, merge_deleted_ids,
    published_graph, section_source, Extension, FullBuild, GraphBuild, RowRange, SectionSource,
    SlowStamp,
};
use supertable::slow_state::ContentHash;

fn range(n_docs: u64, id_min: i128, id_max: i128) -> RowRange {
    RowRange { n_docs, id_min, id_max }
}

fn fnv(bytes: &[u8]) -> u64 {
    let mut h: u64 = 0xcbf2_9ce4_8422_2325;
    for b in bytes {
        h ^= *b as u64;
        h = h.wrapping_mul(0x0000_0100_0000_01b3);
    }
    h
}

#[test]
fn a_population_is_keyed_by_count_range_and_deletes() {
    let entries = vec![range(3, 10, 20), range(4, -5, 12)];
    assert_eq!(count_docs(&entries), 7);
    assert_eq!(id_bounds(&entries), (-5, 20));
    let mut bytes: Vec<u8> = Vec::new();
    bytes.extend_from_slice(&7u64.to_le_bytes());
    bytes.extend_from_slice(&(-5i128).to_le_bytes());
    bytes.extend_from_slice(&20i128.to_le_bytes());
    assert_eq!(graph_population_key(&entries, None), fnv(&bytes));
    bytes.extend_from_slice(&[1, 2, 3]);
    assert_eq!(graph_population_key(&entries, Some(&[1, 2, 3])), fnv(&bytes));
    assert_eq!(id_bounds(&vec![]), (0, 0));
}

#[test]
fn repacking_rows_keeps_the_key() {
    let whole = vec![range(1, 1, 1), range(9, 3, 30)];
    let parted = vec![range(1, 1, 1), range(4, 3, 12), range(5, 13, 30)];
    assert_eq!(graph_population_key(&whole, None), graph_population_key(&parted, None));
    let grown = vec![range(1, 1, 1), range(10, 3, 30)];
    assert_ne!(graph_population_key(&whole, None), graph_population_key(&grown, None));
}

#[test]
fn the_order_of_superfiles_keeps_the_key() {
    let a = vec![range(1, 1, 1), range(9, 3, 30), range(2, -4, 0)];
    let b = vec![range(2, -4, 0), range(1, 1, 1), range(9, 3, 30)];
    assert_eq!(graph_population_key(&a, Some(&[7])), graph_population_key(&b, Some(&[7])));
}

fn start(has_column: bool, max_docs: u64) -> GraphBuild<char> {
    GraphBuild::start(&vec![range(3, 10, 20), range(4, -5, 12)], None, has_column, max_docs)
}

#[test]
fn a_graph_is_extended_or_built_or_absent() {
    let want = graph_population_key(&vec![range(3, 10, 20), range(4, -5, 12)], None);
    assert!(matches!(start(true, 6), GraphBuild::NoGraph));
    assert!(matches!(start(false, 7), GraphBuild::NoGraph));
    match start(true, 7).after_extension(Extension::Extended('g', 19)) {
        GraphBuild::Publish { key, high_water, graph } => {
            assert_eq!((key, high_water, graph), (want, 19, 'g'));
        }
        other => panic!("unexpected {other:?}"),
    }
    for reply in [Extension::NoPrior, Extension::NotAnAppend, Extension::Failed] {
        match start(true, 7).after_extension(reply).after_full_build(FullBuild::Built('w')) {
            GraphBuild::Publish { key, high_water, graph } => {
                assert_eq!((key, high_water, graph), (want, 20, 'w'));
            }
            other => panic!("unexpected {other:?}"),
        }
    }
    for reply in [FullBuild::NoRows, FullBuild::Failed] {
        let built = start(true, 7).after_extension(Extension::NoPrior).after_full_build(reply);
        assert!(matches!(built, GraphBuild::NoGraph));
    }
    assert_eq!(published_graph::<char, ()>(Ok('r')), Some('r'));
    assert_eq!(published_graph::<char, ()>(Err(())), None);
}

fn stamp(uri: &str, bytes: &[u8]) -> SlowStamp {
    SlowStamp {
        uri: uri.to_string(),
        content_hash: ContentHash::of(bytes),
        centroids_uri: "c".to_string(),
        centroids_hash: ContentHash::of(b"c"),
    }
}

#[test]
fn a_state_that_is_stamped_is_not_published_again() {
    assert!(is_stamped(Some(&stamp("a", b"x")), &stamp("a", b"x")));
    assert!(!is_stamped(Some(&stamp("a", b"x")), &stamp("b", b"x")));
    assert!(!is_stamped(Some(&stamp("a", b"x")), &stamp("a", b"y")));
    assert!(!is_stamped(None, &stamp("a", b"x")));
    assert!(has_slow_state(1, false));
    assert!(has_slow_state(0, true));
    assert!(!has_slow_state(0, false));
}

#[test]
fn the_last_section_is_kept_under_its_path() {
    let a = "a".to_string();
    let b = "b".to_string();
    assert_eq!(section_source(None, Some(&a)), SectionSource::Absent);
    assert_eq!(section_source(Some(&a), Some(&a)), SectionSource::Kept);
    assert_eq!(section_source(Some(&a), Some(&b)), SectionSource::Fetch);
    assert_eq!(section_source(Some(&a), None), SectionSource::Fetch);
}

#[test]
fn deleted_ids_are_recorded_once() {
    assert_eq!(merge_deleted_ids(&vec![1, 5], &vec![9, 3, 5, 3]), Some(vec![1, 3, 5, 9]));
    assert_eq!(merge_deleted_ids(&vec![1, 5], &vec![5, 1, 5]), None);
    assert_eq!(merge_deleted_ids(&vec![], &vec![]), None);
    assert_eq!(merge_deleted_ids(&vec![], &vec![2]), Some(vec![2]));
}
