use std::ops::Range;

use supertable::slow_state::{
    assemble_state, blob_written, content_address, decode_state, encode_checkpoint_state,
    fetch_graph_section, fetch_plan, join_chunks, load_full_state, load_hashed_state, storage_path,
    striped_ranges, ContentHash, ParseFault, PublishedState, SlowVectorStateError,
};
use supertable::wal_store::StorageFault;

/// The entries of a membership, one byte for each.
fn encode_entries(entries: &[u8]) -> Vec<u8> {
    let mut bytes = b"part".to_vec();
    bytes.extend_from_slice(entries);
    bytes
}

fn decode_entries(bytes: &[u8]) -> Result<Vec<u8>, String> {
    match bytes.strip_prefix(b"part") {
        Some(entries) => Ok(entries.to_vec()),
        None => Err("not a part".to_string()),
    }
}

#[test]
fn entries_roundtrip_and_deterministic() {
    let entries = vec![42u8, 7];
    let bytes = encode_entries(&entries);
    let frame = decode_state(&bytes).expect("decode");
    assert_eq!(decode_entries(frame.visible).expect("decode"), entries);
    assert!(frame.pending.is_none());
    let again = encode_entries(&entries);
    assert_eq!(bytes, again);
    assert_eq!(storage_path(&ContentHash::of(&bytes)), storage_path(&ContentHash::of(&again)));
}

#[test]
fn decode_garbage_is_parse_error() {
    let bytes = [0u8; 16];
    let frame = decode_state(&bytes).expect("no envelope");
    let err = match assemble_state(decode_entries(frame.visible), None) {
        Ok(_) => panic!("garbage"),
        Err(e) => e,
    };
    assert!(matches!(err, SlowVectorStateError::Parse(_)), "{err:?}");
}

#[test]
fn pending_drain_envelope_round_trips_visible_and_pending_entries() {
    let visible = vec![42u8];
    let pending_entries = vec![7u8];
    let metadata = b"checkpoint metadata".to_vec();
    let bytes = encode_checkpoint_state(
        &encode_entries(&visible),
        &metadata,
        &encode_entries(&pending_entries),
    );
    let frame = decode_state(&bytes).expect("decode checkpoint envelope");
    let (meta, pending) = frame.pending.expect("pending drain");
    let decoded = match assemble_state(
        decode_entries(frame.visible),
        Some((meta.to_vec(), decode_entries(pending))),
    ) {
        Ok(state) => state,
        Err(e) => panic!("unexpected {e:?}"),
    };
    assert_eq!(decoded.entries, visible);
    let decoded_pending = decoded.pending_drain.expect("pending drain");
    assert_eq!(decoded_pending.metadata, metadata);
    assert_eq!(decoded_pending.entries, pending_entries);
}

#[test]
fn an_envelope_has_its_magic_and_three_lengths() {
    let bytes = encode_checkpoint_state(&[1, 2], &[3], &[]);
    assert_eq!(&bytes[..8], b"INFSVS02");
    assert_eq!(&bytes[8..16], &2u64.to_le_bytes());
    assert_eq!(&bytes[16..24], &1u64.to_le_bytes());
    assert_eq!(&bytes[24..32], &0u64.to_le_bytes());
    assert_eq!(&bytes[32..], &[1, 2, 3]);
}

fn parse_fault(bytes: &[u8]) -> ParseFault {
    match decode_state(bytes) {
        Err(SlowVectorStateError::Parse(fault)) => fault,
        _ => panic!("expected a parse fault"),
    }
}

#[test]
fn broken_envelopes_are_told_apart() {
    let whole = encode_checkpoint_state(&[1, 2], &[3], &[4]);
    assert!(matches!(parse_fault(&whole[..31]), ParseFault::HeaderTruncated));
    assert!(matches!(parse_fault(&whole[..whole.len() - 1]), ParseFault::LengthMismatch));
    let mut longer = whole.clone();
    longer.push(0);
    assert!(matches!(parse_fault(&longer), ParseFault::LengthMismatch));
    let mut huge = whole.clone();
    huge[8..16].copy_from_slice(&u64::MAX.to_le_bytes());
    assert!(matches!(parse_fault(&huge), ParseFault::LengthOverflow));
    let mut sum = whole;
    sum[16..24].copy_from_slice(&(u64::MAX - 40).to_le_bytes());
    sum[24..32].copy_from_slice(&100u64.to_le_bytes());
    assert!(matches!(parse_fault(&sum), ParseFault::LengthOverflow));
}

#[test]
fn a_broken_visible_membership_is_reported_first() {
    let visible: Result<Vec<u8>, String> = Err("visible".to_string());
    match assemble_state(visible, Some((Vec::new(), Err("pending".to_string())))) {
        Err(SlowVectorStateError::Parse(ParseFault::Entries(text))) => assert_eq!(text, "visible"),
        _ => panic!("expected an entries fault"),
    }
    let visible: Result<Vec<u8>, String> = Ok(Vec::new());
    match assemble_state(visible, Some((Vec::new(), Err("pending".to_string())))) {
        Err(SlowVectorStateError::Parse(ParseFault::Entries(text))) => assert_eq!(text, "pending"),
        _ => panic!("expected an entries fault"),
    }
}

fn fetch_striped(object: &[u8], chunk: u64) -> Vec<u8> {
    match fetch_plan(object.len() as u64, chunk) {
        None => object.to_vec(),
        Some(ranges) => {
            let chunks: Vec<Vec<u8>> = ranges
                .iter()
                .map(|r| object[r.start as usize..r.end as usize].to_vec())
                .collect();
            join_chunks(&chunks)
        }
    }
}

#[test]
fn striped_fetch_reassembles_byte_exact() {
    let whole: Vec<u8> = (0..1000u32).map(|i| (i * 7) as u8).collect();
    let chunk: u64 = 64;
    assert!(whole.len() as u64 > chunk, "fixture must exceed one stripe chunk");
    assert_eq!(fetch_striped(&whole, chunk), whole, "striped reassembly must be byte-exact");
}

fn range(start: u64, end: u64) -> Range<u64> {
    Range { start, end }
}

#[test]
fn stripes_cover_the_object() {
    assert_eq!(striped_ranges(10, 4), vec![range(0, 4), range(4, 8), range(8, 10)]);
    assert_eq!(striped_ranges(8, 4), vec![range(0, 4), range(4, 8)]);
    assert!(striped_ranges(0, 4).is_empty());
    assert_eq!(striped_ranges(2, 0), vec![range(0, 0), range(1, 1)]);
    assert_eq!(striped_ranges(u64::MAX, u64::MAX), vec![range(0, u64::MAX)]);
    assert_eq!(
        striped_ranges(u64::MAX, u64::MAX - 1),
        vec![range(0, u64::MAX - 1), range(u64::MAX - 1, u64::MAX)]
    );
    assert!(fetch_plan(4, 4).is_none());
    assert_eq!(fetch_plan(5, 4), Some(vec![range(0, 4), range(4, 5)]));
}

#[test]
fn graph_section_roundtrips_and_verifies_hash() {
    let bytes: Vec<u8> = (0..4096u32).map(|i| (i * 31) as u8).collect();
    let (uri, hash) = content_address(&bytes);
    let (again, hash_again) = content_address(&bytes);
    assert_eq!(uri, again);
    assert!(hash.same_as(&hash_again));
    let fetched = fetch_graph_section(&bytes, &hash).expect("fetch graph section");
    assert_eq!(fetched, bytes, "graph section must round-trip byte-exact");
    let tampered = ContentHash::of(b"different");
    let err = fetch_graph_section(&bytes, &tampered).expect_err("hash mismatch");
    assert!(matches!(err, SlowVectorStateError::HashMismatch), "{err:?}");
}

#[test]
fn write_load_verifies_hash_and_is_idempotent() {
    let blob = encode_entries(&[42]);
    let section = vec![1u8, 2, 3, 4];
    let published =
        PublishedState::of(&blob, &section).once_written(Ok(()), Ok(())).expect("write");
    let taken = || Err((StorageFault::PreconditionFailed, "taken".to_string()));
    let republished =
        PublishedState::of(&blob, &section).once_written(taken(), taken()).expect("rewrite");
    assert_eq!(published.uri, republished.uri);
    assert!(published.content_hash.same_as(&republished.content_hash));
    assert_eq!(published.centroids.uri, republished.centroids.uri);
    assert_ne!(published.uri, published.centroids.uri);
    match load_full_state(&blob, &published.content_hash) {
        Ok(frame) => assert_eq!(decode_entries(frame.visible).expect("decode"), vec![42]),
        Err(e) => panic!("unexpected {e:?}"),
    }
    let wrong = ContentHash::of(b"wrong");
    assert!(matches!(load_full_state(&blob, &wrong), Err(SlowVectorStateError::HashMismatch)));
    let a = ContentHash::of(b"a");
    assert!(load_hashed_state(&blob, &a, &a).is_ok());
    assert!(matches!(
        load_hashed_state(&blob, &a, &wrong),
        Err(SlowVectorStateError::HashMismatch)
    ));
}

#[test]
fn a_failed_blob_is_reported_before_a_failed_section() {
    let fail = |text: &str| Err((StorageFault::Other, text.to_string()));
    match PublishedState::of(b"a", b"b").once_written(fail("blob"), fail("section")) {
        Err(SlowVectorStateError::Storage(text)) => assert_eq!(text, "blob"),
        _ => panic!("expected a storage failure"),
    }
    match PublishedState::of(b"a", b"b").once_written(Ok(()), fail("section")) {
        Err(SlowVectorStateError::Storage(text)) => assert_eq!(text, "section"),
        _ => panic!("expected a storage failure"),
    }
    assert!(blob_written(Err((StorageFault::PreconditionFailed, String::new()))).is_ok());
    assert!(blob_written(Err((StorageFault::NotFound, String::new()))).is_err());
}

#[test]
fn a_blob_is_addressed_by_its_hash() {
    let hash = ContentHash::of(b"hello");
    let hex = blake3::hash(b"hello").to_hex().to_string();
    assert_eq!(hash.to_hex(), hex);
    assert_eq!(storage_path(&hash), format!("slow-vector-state/state-{hex}.bin"));
    assert_ne!(storage_path(&hash), storage_path(&ContentHash::of(b"world")));
}
