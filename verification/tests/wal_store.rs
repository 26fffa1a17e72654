use std::collections::BTreeMap;

use supertable::wal_store::{
    Etag, PutCondition, PutRequest, StorageError, StorageFault, WalStore, WalStoreError,
};

#[derive(Clone, Debug, PartialEq)]
enum Stage {
    Intent,
    Appended,
    Complete,
}

#[derive(Clone, Debug, PartialEq)]
struct Doc {
    wal_id: i128,
    stage: Stage,
    predicate: String,
}

fn sample_state(wal_id: i128) -> Doc {
    Doc { wal_id, stage: Stage::Intent, predicate: "for tests".to_string() }
}

fn hex(id: i128) -> String {
    format!("{:032x}", id)
}

fn fault(kind: StorageFault) -> StorageError {
    StorageError {
        fault: kind,
        conflict: kind == StorageFault::PreconditionFailed,
        permission_denied: false,
        detail: "refused".to_string(),
    }
}

/// Conditional storage in memory: every write gets the next version.
struct Memory<B> {
    objects: BTreeMap<String, (B, String)>,
    written: u64,
    gone: StorageFault,
}

impl<B: Clone> Memory<B> {
    fn new() -> Self {
        Memory { objects: BTreeMap::new(), written: 0, gone: StorageFault::PreconditionFailed }
    }

    fn put(&mut self, request: PutRequest<B>) -> Result<Option<Etag>, StorageError> {
        let current = self.objects.get(&request.path).map(|o| o.1.clone());
        match (&request.condition, &current) {
            (PutCondition::Absent, Some(_)) => {
                return Err(fault(StorageFault::PreconditionFailed));
            }
            (PutCondition::Version(_), None) => return Err(fault(self.gone)),
            (PutCondition::Version(want), Some(have)) if want != have => {
                return Err(fault(StorageFault::PreconditionFailed));
            }
            _ => {}
        }
        self.written += 1;
        let etag = format!("v{}", self.written);
        self.objects.insert(request.path, (request.body, etag.clone()));
        Ok(Some(etag))
    }

    fn get(&self, path: &str) -> Result<(B, Option<Etag>), StorageError> {
        match self.objects.get(path) {
            Some((body, etag)) => Ok((body.clone(), Some(etag.clone()))),
            None => Err(fault(StorageFault::NotFound)),
        }
    }

    fn delete(&mut self, path: &str) -> Result<(), StorageError> {
        self.objects.remove(path);
        Ok(())
    }
}

fn store() -> (Memory<Doc>, WalStore<&'static str>) {
    (Memory::new(), WalStore::new("memory"))
}

fn create(
    memory: &mut Memory<Doc>,
    ws: &WalStore<&'static str>,
    doc: &Doc,
) -> Result<Etag, WalStoreError> {
    let request = ws.create_request(&hex(doc.wal_id), Ok(doc.clone()))?;
    ws.create(&hex(doc.wal_id), memory.put(request))
}

fn read(
    memory: &Memory<Doc>,
    ws: &WalStore<&'static str>,
    id: i128,
) -> Result<(Doc, Etag), WalStoreError> {
    let path = WalStore::<&'static str>::state_path(&hex(id));
    ws.read(&hex(id), memory.get(&path).map(|(d, e)| (Ok(d), e)))
}

fn update(
    memory: &mut Memory<Doc>,
    ws: &WalStore<&'static str>,
    etag: &Etag,
    doc: &Doc,
) -> Result<Etag, WalStoreError> {
    let request = ws.update_request(&hex(doc.wal_id), etag, Ok(doc.clone()))?;
    ws.update_with_etag(&hex(doc.wal_id), memory.put(request))
}

#[test]
fn create_then_read_roundtrips_state() {
    let (mut memory, ws) = store();
    let state = sample_state(7);
    let etag = create(&mut memory, &ws, &state).expect("create");
    let (read_state, read_etag) = read(&memory, &ws, 7).expect("read");
    assert_eq!(read_state, state);
    assert_eq!(read_etag, etag);
}

#[test]
fn read_missing_returns_not_found() {
    let (memory, ws) = store();
    let err = read(&memory, &ws, 9999).expect_err("must error");
    assert!(matches!(err, WalStoreError::NotFound { .. }), "{err:?}");
}

#[test]
fn create_twice_fails_with_already_exists() {
    let (mut memory, ws) = store();
    let state = sample_state(11);
    create(&mut memory, &ws, &state).expect("first create");
    let err = create(&mut memory, &ws, &state).expect_err("second must fail");
    assert!(matches!(err, WalStoreError::AlreadyExists { .. }), "{err:?}");
    assert!(!err.is_conflict());
}

#[test]
fn update_with_correct_etag_advances_state() {
    let (mut memory, ws) = store();
    let mut state = sample_state(13);
    let e1 = create(&mut memory, &ws, &state).expect("create");
    state.stage = Stage::Appended;
    let e2 = update(&mut memory, &ws, &e1, &state).expect("update");
    assert_ne!(e1, e2, "etag must advance after a real write");
    let (read_state, read_etag) = read(&memory, &ws, 13).expect("read");
    assert_eq!(read_state.stage, Stage::Appended);
    assert_eq!(read_etag, e2);
}

#[test]
fn update_with_stale_etag_fails_cas() {
    let (mut memory, ws) = store();
    let mut state = sample_state(17);
    let e1 = create(&mut memory, &ws, &state).expect("create");
    state.stage = Stage::Appended;
    update(&mut memory, &ws, &e1, &state).expect("first update");
    state.stage = Stage::Complete;
    let err = update(&mut memory, &ws, &e1, &state).expect_err("stale etag must lose");
    assert!(matches!(err, WalStoreError::CasFailed { .. }), "{err:?}");
    assert!(err.is_conflict());
}

#[test]
fn concurrent_updates_have_exactly_one_winner() {
    let (mut memory, ws) = store();
    let state = sample_state(23);
    let initial_etag = create(&mut memory, &ws, &state).expect("create");
    let n: usize = 12;
    let mut ok_count: usize = 0;
    let mut cas_failed: usize = 0;
    let mut other_err: usize = 0;
    for i in 0..n {
        let mut s = state.clone();
        s.stage = Stage::Appended;
        s.predicate = format!("racer {i}");
        match update(&mut memory, &ws, &initial_etag, &s) {
            Ok(_) => ok_count += 1,
            Err(WalStoreError::CasFailed { .. }) => cas_failed += 1,
            Err(_) => other_err += 1,
        }
    }
    assert_eq!(ok_count, 1, "exactly one task must win CAS");
    assert_eq!(cas_failed, n - 1, "all losers must report CasFailed");
    assert_eq!(other_err, 0, "no spurious failures");
    assert_eq!(read(&memory, &ws, 23).expect("read").0.predicate, "racer 0");
}

fn put_arrow(
    memory: &mut Memory<Vec<u8>>,
    ws: &WalStore<&'static str>,
    id: i128,
    bytes: &[u8],
) -> Result<(), WalStoreError> {
    let request = ws.arrow_request(&hex(id), bytes.to_vec());
    ws.put_arrow(&hex(id), memory.put(request))
}

fn get_arrow(
    memory: &Memory<Vec<u8>>,
    ws: &WalStore<&'static str>,
    id: i128,
    want: Option<&str>,
) -> Result<Vec<u8>, WalStoreError> {
    let path = WalStore::<&'static str>::arrow_path(&hex(id));
    match memory.get(&path) {
        Ok((bytes, _)) => ws.get_arrow(&hex(id), want, Ok(&bytes)).map(|b| b.to_vec()),
        Err(e) => ws.get_arrow(&hex(id), want, Err(e)).map(|b| b.to_vec()),
    }
}

#[test]
fn arrow_sidecar_round_trips_with_hash_verify() {
    let (mut memory, ws) = (Memory::new(), WalStore::new("memory"));
    let payload = b"hello-payload";
    put_arrow(&mut memory, &ws, 29, payload).expect("put");
    let hash = blake3::hash(payload).to_hex().to_string();
    let got = get_arrow(&memory, &ws, 29, Some(&hash)).expect("hashed read");
    assert_eq!(got, payload);
}

#[test]
fn arrow_sidecar_overwrite_is_legal() {
    let (mut memory, ws) = (Memory::new(), WalStore::new("memory"));
    put_arrow(&mut memory, &ws, 31, b"first").expect("first");
    put_arrow(&mut memory, &ws, 31, b"first").expect("idempotent re-write");
    put_arrow(&mut memory, &ws, 31, b"second").expect("replacement");
    assert_eq!(get_arrow(&memory, &ws, 31, None).expect("read"), b"first");
}

#[test]
fn arrow_sidecar_hash_mismatch_surfaces_typed_error() {
    let (mut memory, ws) = (Memory::new(), WalStore::new("memory"));
    put_arrow(&mut memory, &ws, 37, b"actual").expect("put");
    let bogus_hash = "00".repeat(32);
    let err = get_arrow(&memory, &ws, 37, Some(&bogus_hash)).expect_err("hash check must fail");
    match err {
        WalStoreError::SidecarContentHashMismatch { expected, got, .. } => {
            assert_eq!(expected, bogus_hash);
            assert_ne!(got, bogus_hash);
            assert_eq!(got, blake3::hash(b"actual").to_hex().to_string());
        }
        other => panic!("expected SidecarContentHashMismatch; got {other:?}"),
    }
}

#[derive(Clone, Debug)]
struct Sidecar {
    bitmap: roaring::RoaringBitmap,
}

fn put_tombstones(
    memory: &mut Memory<Sidecar>,
    ws: &WalStore<&'static str>,
    id: u128,
    etag: Option<&Etag>,
    sidecar: &Sidecar,
) -> Result<Etag, WalStoreError> {
    let request = ws.tombstones_request(id, etag, Ok(sidecar.clone()))?;
    ws.put_tombstones(id, memory.put(request))
}

fn get_tombstones(
    memory: &Memory<Sidecar>,
    ws: &WalStore<&'static str>,
    id: u128,
) -> Result<Option<(Sidecar, Etag)>, WalStoreError> {
    let path = WalStore::<&'static str>::tombstones_path(id);
    ws.get_tombstones(id, memory.get(&path).map(|(s, e)| (Ok(s), e)))
}

#[test]
fn tombstones_sidecar_absent_returns_none() {
    let (memory, ws) = (Memory::new(), WalStore::new("memory"));
    let got = get_tombstones(&memory, &ws, 0).expect("query");
    assert!(got.is_none());
}

#[test]
fn tombstones_sidecar_roundtrips_through_storage() {
    let (mut memory, ws) = (Memory::new(), WalStore::new("memory"));
    let superfile_id: u128 = 0xCAFE_BABE_DEAD_BEEF;
    let mut bitmap = roaring::RoaringBitmap::new();
    bitmap.insert(7);
    bitmap.insert(42);
    let sidecar = Sidecar { bitmap: bitmap.clone() };
    let etag1 = put_tombstones(&mut memory, &ws, superfile_id, None, &sidecar).expect("first put");
    let (got, etag_read) = get_tombstones(&memory, &ws, superfile_id).expect("get").expect("present");
    let got_ids: Vec<u32> = got.bitmap.iter().collect();
    let expected_ids: Vec<u32> = bitmap.iter().collect();
    assert_eq!(got_ids, expected_ids);
    assert_eq!(etag_read, etag1);
}

#[test]
fn tombstones_sidecar_stale_etag_fails_cas() {
    let (mut memory, ws) = (Memory::new(), WalStore::new("memory"));
    let superfile_id: u128 = 0xFEED_FACE_BEEF_CAFE;
    let initial = Sidecar { bitmap: roaring::RoaringBitmap::new() };
    let etag1 = put_tombstones(&mut memory, &ws, superfile_id, None, &initial).expect("first put");
    let mut bumped_bitmap = roaring::RoaringBitmap::new();
    bumped_bitmap.insert(3);
    let bumped = Sidecar { bitmap: bumped_bitmap };
    put_tombstones(&mut memory, &ws, superfile_id, Some(&etag1), &bumped).expect("update");
    let err = put_tombstones(&mut memory, &ws, superfile_id, Some(&etag1), &bumped)
        .expect_err("stale etag");
    assert!(matches!(err, WalStoreError::CasFailed { .. }), "{err:?}");
}

#[test]
fn delete_state_is_idempotent() {
    let (mut memory, ws) = store();
    let state = sample_state(41);
    create(&mut memory, &ws, &state).expect("create");
    let path = WalStore::<&'static str>::state_path(&hex(41));
    ws.delete_state(&hex(41), memory.delete(&path)).expect("first delete");
    ws.delete_state(&hex(41), memory.delete(&path)).expect("second delete");
    assert!(read(&memory, &ws, 41).is_err());
}

#[test]
fn delete_arrow_is_idempotent_and_removes_sidecar() {
    let (mut memory, ws) = (Memory::new(), WalStore::new("memory"));
    put_arrow(&mut memory, &ws, 43, b"payload").expect("put_arrow");
    let path = WalStore::<&'static str>::arrow_path(&hex(43));
    ws.delete_arrow(&hex(43), memory.delete(&path)).expect("first delete");
    get_arrow(&memory, &ws, 43, None).expect_err("sidecar must be gone after delete");
    ws.delete_arrow(&hex(43), memory.delete(&path)).expect("second delete");
}

fn listed(memory: &Memory<Doc>) -> Vec<String> {
    memory.objects.keys().cloned().collect()
}

fn from_hex(digits: String) -> Option<i128> {
    i128::from_str_radix(&digits, 16).ok()
}

#[test]
fn list_wal_ids_returns_only_state_docs_sorted_ascending() {
    let (mut memory, ws) = store();
    for id in [50i128, 10, 30] {
        create(&mut memory, &ws, &sample_state(id)).expect("create");
    }
    let request = ws.arrow_request(&hex(99), sample_state(99));
    ws.put_arrow(&hex(99), memory.put(request)).expect("put_arrow");
    let ids = ws.list_wal_ids(Ok(listed(&memory)), from_hex).expect("list");
    assert_eq!(ids, vec![10, 30, 50], "ascending oldest-first order");
}

#[test]
fn list_wal_ids_on_empty_prefix_is_empty() {
    let (memory, ws) = store();
    let ids = ws.list_wal_ids(Ok(listed(&memory)), from_hex).expect("list");
    assert!(ids.is_empty());
}

#[test]
fn list_wal_ids_sorts_in_whatever_order_they_are_listed() {
    let (_memory, ws) = store();
    let ids = ws
        .list_wal_ids(
            Ok(vec![
                "wal/mutations/5.json".to_string(),
                "wal/mutations/zz.json".to_string(),
                "-1.json".to_string(),
                "wal/mutations/4.arrow".to_string(),
                "wal/mutations/3.json".to_string(),
            ]),
            from_hex,
        )
        .expect("list");
    assert_eq!(ids, vec![-1, 3, 5]);
}

#[test]
fn list_tombstone_ids_returns_superfiles_with_sidecars() {
    let (mut memory, ws) = (Memory::new(), WalStore::new("memory"));
    let empty = Sidecar { bitmap: roaring::RoaringBitmap::new() };
    put_tombstones(&mut memory, &ws, 0x1111, None, &empty).expect("put a");
    put_tombstones(&mut memory, &ws, 0x2222, None, &empty).expect("put b");
    let paths: Vec<String> = memory.objects.keys().cloned().collect();
    let mut ids = ws.list_tombstone_ids(Ok(paths)).expect("list");
    ids.sort();
    assert_eq!(ids, vec![0x1111, 0x2222]);
}

#[test]
fn list_tombstone_ids_skips_objects_that_are_no_sidecars() {
    let ws = WalStore::new("memory");
    let paths = vec![
        "superfiles/00000000-0000-0000-0000-000000001111.parquet".to_string(),
        "superfiles/not-an-id.tombstones".to_string(),
        "00000000-0000-0000-0000-000000002222.tombstones".to_string(),
        "superfiles/00000000000000000000000000003333.tombstones".to_string(),
    ];
    assert_eq!(ws.list_tombstone_ids(Ok(paths)).expect("list"), vec![0x2222, 0x3333]);
}

#[test]
fn an_id_is_read_in_any_of_its_forms() {
    let ws = WalStore::new("memory");
    let id = 0x936d_a01f_9abd_4d9d_80c7_02af_85c8_22a8;
    let forms = [
        "936da01f-9abd-4d9d-80c7-02af85c822a8",
        "936DA01F-9ABD-4D9D-80C7-02AF85C822A8",
        "936da01f9abd4d9d80c702af85c822a8",
        "{936da01f-9abd-4d9d-80c7-02af85c822a8}",
        "URN:uuid:936da01f-9abd-4d9d-80c7-02af85c822a8",
        "(936da01f-9abd-4d9d-80c7-02af85c822a8)",
        "{936da01f9abd4d9d80c702af85c822a8}",
        "936da01f-9abd4-d9d-80c7-02af85c822a8",
        "936da01g-9abd-4d9d-80c7-02af85c822a8",
        "urn:guid:936da01f-9abd-4d9d-80c7-02af85c822a8",
    ];
    let paths = forms.iter().map(|form| format!("superfiles/{form}.tombstones")).collect();
    assert_eq!(ws.list_tombstone_ids(Ok(paths)).expect("list"), vec![id; 5]);
}

#[test]
fn list_tombstone_ids_on_empty_prefix_is_empty() {
    let ws = WalStore::new("memory");
    let ids = ws.list_tombstone_ids(Ok(Vec::new())).expect("list");
    assert!(ids.is_empty());
}

#[test]
fn failed_listings_name_their_directory() {
    let ws = WalStore::new("memory");
    match ws.list_wal_ids(Err(fault(StorageFault::Other)), from_hex) {
        Err(WalStoreError::Storage { path, .. }) => assert_eq!(path, "wal/mutations"),
        other => panic!("unexpected {other:?}"),
    }
    match ws.list_tombstone_ids(Err(fault(StorageFault::Other))) {
        Err(WalStoreError::Storage { path, .. }) => assert_eq!(path, "superfiles"),
        other => panic!("unexpected {other:?}"),
    }
}

#[test]
fn put_tombstones_with_empty_expected_etag_is_create_only() {
    let (mut memory, ws) = (Memory::new(), WalStore::new("memory"));
    let superfile_id: u128 = 0xABCD;
    let mut bitmap = roaring::RoaringBitmap::new();
    bitmap.insert(1);
    let sidecar = Sidecar { bitmap };
    let empty_etag: Etag = String::new();
    put_tombstones(&mut memory, &ws, superfile_id, Some(&empty_etag), &sidecar)
        .expect("first create-only put lands");
    let err = put_tombstones(&mut memory, &ws, superfile_id, Some(&empty_etag), &sidecar)
        .expect_err("second create-only put must lose CAS");
    assert!(matches!(err, WalStoreError::CasFailed { .. }), "{err:?}");
}

#[test]
fn get_tombstones_surfaces_codec_error_on_corrupt_bytes() {
    let ws = WalStore::new("memory");
    let reply: Result<(Result<Sidecar, String>, Option<Etag>), StorageError> =
        Ok((Err("bad magic".to_string()), Some("v1".to_string())));
    let err = ws.get_tombstones(0xDEAD, reply).expect_err("decode must fail");
    assert!(matches!(err, WalStoreError::SidecarCodec { .. }), "{err:?}");
}

#[test]
fn paths_follow_the_layout() {
    assert_eq!(WalStore::<()>::state_path("0a"), "wal/mutations/0a.json");
    assert_eq!(WalStore::<()>::arrow_path("0a"), "wal/mutations/0a.arrow");
    assert_eq!(
        WalStore::<()>::tombstones_path(0x1234_5678_9abc_def0_1122_3344_5566_7788),
        "superfiles/12345678-9abc-def0-1122-334455667788.tombstones"
    );
    assert_eq!(WalStore::<()>::state_stem("a/b/0a.json"), Some("0a".to_string()));
    assert_eq!(WalStore::<()>::state_stem("a/b/0a.arrow"), None);
    assert_eq!(*WalStore::new(5).storage(), 5);
}

#[test]
fn unencodable_documents_make_no_request() {
    let ws = WalStore::new("memory");
    let encoded: Result<Doc, String> = Err("nan".to_string());
    match ws.create_request("0a", encoded) {
        Err(WalStoreError::Serde { path, source }) => {
            assert_eq!(path, "wal/mutations/0a.json");
            assert_eq!(source, "nan");
        }
        other => panic!("unexpected {other:?}"),
    }
    let encoded: Result<Doc, String> = Err("nan".to_string());
    assert!(matches!(
        ws.update_request("0a", &"v1".to_string(), encoded),
        Err(WalStoreError::Serde { .. })
    ));
    let encoded: Result<Doc, String> = Err("nan".to_string());
    assert!(matches!(
        ws.tombstones_request(1, None, encoded),
        Err(WalStoreError::SidecarCodec { .. })
    ));
    let reply: Result<(Result<Doc, String>, Option<Etag>), StorageError> =
        Ok((Err("bad json".to_string()), None));
    assert!(matches!(ws.read("0a", reply), Err(WalStoreError::Serde { .. })));
}

#[test]
fn an_update_of_a_deleted_document_loses_whatever_the_storage_says() {
    let (mut memory, ws) = store();
    for gone in [StorageFault::PreconditionFailed, StorageFault::NotFound] {
        memory.gone = gone;
        let err = update(&mut memory, &ws, &"v1".to_string(), &sample_state(3)).expect_err("gone");
        assert!(matches!(err, WalStoreError::CasFailed { .. }), "{err:?}");
    }
}

#[test]
fn a_version_that_is_not_reported_reads_as_empty() {
    let ws = WalStore::new("memory");
    assert_eq!(ws.create("0a", Ok(None)).expect("create"), "");
    assert_eq!(ws.update_with_etag("0a", Ok(None)).expect("update"), "");
    assert_eq!(ws.put_tombstones(1, Ok(None)).expect("put"), "");
}

#[test]
fn other_storage_failures_are_passed_on() {
    let ws = WalStore::new("memory");
    let denied = StorageError {
        fault: StorageFault::Other,
        conflict: false,
        permission_denied: true,
        detail: "denied".to_string(),
    };
    let err = ws.create("0a", Err(denied)).expect_err("denied");
    assert!(matches!(&err, WalStoreError::Storage { .. }));
    assert!(err.is_permission_denied());
    assert!(!err.is_conflict());
    let raced = StorageError {
        fault: StorageFault::Other,
        conflict: true,
        permission_denied: false,
        detail: "raced".to_string(),
    };
    let err = ws.update_with_etag("0a", Err(raced)).expect_err("raced");
    assert!(err.is_conflict());
    assert!(!err.is_permission_denied());
    let err = ws.create("0a", Err(fault(StorageFault::NotFound))).expect_err("not found");
    assert!(matches!(err, WalStoreError::Storage { .. }));
    let err = ws.put_tombstones(1, Err(fault(StorageFault::NotFound))).expect_err("not found");
    assert!(matches!(err, WalStoreError::Storage { .. }));
    let err = ws.put_arrow("0a", Err(fault(StorageFault::Other))).expect_err("other");
    assert!(matches!(err, WalStoreError::Storage { .. }));
}
