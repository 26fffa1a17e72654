//! The write-ahead log's objects on conditional storage.
//!
//! Every transition of a write-ahead log document is a conditional write. A
//! [`WalStore`] says which object a call touches and under which condition it is
//! written, and turns what the storage replied into the caller's result. The
//! storage itself is whatever handle the store was made with.
use vstd::prelude::*;

use crate::hashing::{
    blake3_digest, blake3_hash_hex, parse_uuid, uuid_of_text, uuid_text, uuid_text_round_trip,
    uuid_to_text,
};
use crate::order::{sorted_by, stable_order, SortKey};
use crate::text::{file_name, file_stem, hex_of, join3, same_text, without_suffix};

verus! {

/// The version tag of a stored object. The empty tag stands for an object whose
/// version the storage does not report.
pub type Etag = String;

/// How a storage request failed, as far as the log tells failures apart.
#[derive(Clone, Copy, PartialEq, Eq, Structural, Debug)]
pub enum StorageFault {
    NotFound,
    PreconditionFailed,
    Other,
}

/// A failed storage request.
#[derive(Debug)]
pub struct StorageError {
    pub fault: StorageFault,
    /// A write that lost a race, so that reading again and repeating it can
    /// succeed.
    pub conflict: bool,
    /// The storage refused the credentials.
    pub permission_denied: bool,
    pub detail: String,
}

impl StorageError {
    pub fn is_conflict(&self) -> (r: bool)
        ensures
            r == self.conflict,
    {
        self.conflict
    }

    pub fn is_permission_denied(&self) -> (r: bool)
        ensures
            r == self.permission_denied,
    {
        self.permission_denied
    }
}

/// What a [`WalStore`] call can fail with. Each names the object's path.
#[derive(Debug)]
#[allow(inconsistent_fields)]
pub enum WalStoreError {
    /// The object changed or was deleted since its version was read.
    CasFailed { path: String },
    /// A new document's path is already taken.
    AlreadyExists { path: String },
    /// There is no object at the path.
    NotFound { path: String },
    /// The storage failed in another way.
    Storage { path: String, source: StorageError },
    /// A document could not be encoded or decoded.
    Serde { path: String, source: String },
    /// A tombstone sidecar could not be encoded or decoded.
    SidecarCodec { path: String, source: String },
    /// A payload's bytes do not have the hash that the caller pinned.
    SidecarContentHashMismatch { path: String, expected: String, got: String },
}

impl WalStoreError {
    /// The path of the object that the failure is about.
    pub open spec fn at(self) -> Seq<char> {
        match self {
            WalStoreError::CasFailed { path } => path@,
            WalStoreError::AlreadyExists { path } => path@,
            WalStoreError::NotFound { path } => path@,
            WalStoreError::Storage { path, .. } => path@,
            WalStoreError::Serde { path, .. } => path@,
            WalStoreError::SidecarCodec { path, .. } => path@,
            WalStoreError::SidecarContentHashMismatch { path, .. } => path@,
        }
    }

    /// The write lost a race, so that reading again and repeating it can
    /// succeed. A taken path is none: repeating the same create cannot succeed.
    pub fn is_conflict(&self) -> (r: bool)
        ensures
            r == (self is CasFailed || (self is Storage && self->Storage_source.conflict)),
    {
        match self {
            WalStoreError::CasFailed { .. } => true,
            WalStoreError::Storage { source, .. } => source.is_conflict(),
            _ => false,
        }
    }

    /// The storage refused the credentials.
    pub fn is_permission_denied(&self) -> (r: bool)
        ensures
            r == (self is Storage && self->Storage_source.permission_denied),
    {
        match self {
            WalStoreError::Storage { source, .. } => source.is_permission_denied(),
            _ => false,
        }
    }
}

/// Directory of the log's documents and payloads.
pub const WAL_DIR: &'static str = "wal/mutations";

/// Directory of the superfiles' sidecars.
pub const SUPERFILES_DIR: &'static str = "superfiles";

pub open spec fn state_path_of(hex: Seq<char>) -> Seq<char> {
    "wal/mutations/"@ + hex + ".json"@
}

pub open spec fn arrow_path_of(hex: Seq<char>) -> Seq<char> {
    "wal/mutations/"@ + hex + ".arrow"@
}

pub open spec fn tombstones_path_of(id: u128) -> Seq<char> {
    "superfiles/"@ + uuid_text(id) + ".tombstones"@
}

/// The condition under which an object is written: that it is absent, or that
/// its version is the given one.
#[derive(Debug)]
pub enum PutCondition {
    Absent,
    Version(Etag),
}

/// The condition as the storage sees it: the expected version, if any.
pub open spec fn condition_view(c: PutCondition) -> Option<Seq<char>> {
    match c {
        PutCondition::Absent => None,
        PutCondition::Version(etag) => Some(etag@),
    }
}

/// The version that a caller expects; none, or an empty one, means that the
/// object must be absent.
pub open spec fn expected_version(etag: Option<Seq<char>>) -> Option<Seq<char>> {
    match etag {
        Some(e) => if e.len() == 0 {
            None
        } else {
            Some(e)
        },
        None => None,
    }
}

/// One conditional write.
#[derive(Debug)]
pub struct PutRequest<B> {
    pub path: String,
    pub body: B,
    pub condition: PutCondition,
}

/// What the storage replied to a write: the new version, or how it failed.
pub enum PutReply {
    Written(Option<Seq<char>>),
    Failed(StorageFault),
}

pub open spec fn put_reply(reply: Result<Option<Etag>, StorageError>) -> PutReply {
    match reply {
        Ok(Some(etag)) => PutReply::Written(Some(etag@)),
        Ok(None) => PutReply::Written(None),
        Err(e) => PutReply::Failed(e.fault),
    }
}

/// What a write comes to for the caller: the version for the next write, or the
/// kind of failure.
pub enum WriteOutcome {
    Version(Seq<char>),
    AlreadyExists,
    CasFailed,
    Storage,
}

pub open spec fn version_or_empty(etag: Option<Seq<char>>) -> Seq<char> {
    match etag {
        Some(e) => e,
        None => Seq::empty(),
    }
}

/// A create fails as a taken path exactly when the storage found one.
pub open spec fn create_outcome(reply: PutReply) -> WriteOutcome {
    match reply {
        PutReply::Written(etag) => WriteOutcome::Version(version_or_empty(etag)),
        PutReply::Failed(StorageFault::PreconditionFailed) => WriteOutcome::AlreadyExists,
        PutReply::Failed(_) => WriteOutcome::Storage,
    }
}

/// An update loses when the version moved on and also when the object is gone.
pub open spec fn update_outcome(reply: PutReply) -> WriteOutcome {
    match reply {
        PutReply::Written(etag) => WriteOutcome::Version(version_or_empty(etag)),
        PutReply::Failed(StorageFault::Other) => WriteOutcome::Storage,
        PutReply::Failed(_) => WriteOutcome::CasFailed,
    }
}

/// A sidecar write loses only when the version moved on.
pub open spec fn sidecar_outcome(reply: PutReply) -> WriteOutcome {
    match reply {
        PutReply::Written(etag) => WriteOutcome::Version(version_or_empty(etag)),
        PutReply::Failed(StorageFault::PreconditionFailed) => WriteOutcome::CasFailed,
        PutReply::Failed(_) => WriteOutcome::Storage,
    }
}

/// `result` reports `outcome` for the object at `path`, and a storage failure
/// with the storage's own error.
pub open spec fn reports(
    result: Result<Etag, WalStoreError>,
    outcome: WriteOutcome,
    path: Seq<char>,
    reply: Result<Option<Etag>, StorageError>,
) -> bool {
    match outcome {
        WriteOutcome::Version(etag) => result is Ok && result->Ok_0@ == etag,
        WriteOutcome::AlreadyExists => result is Err && result->Err_0 is AlreadyExists
            && result->Err_0.at() == path,
        WriteOutcome::CasFailed => result is Err && result->Err_0 is CasFailed && result->Err_0.at()
            == path,
        WriteOutcome::Storage => result is Err && result->Err_0 is Storage && result->Err_0.at() == path
            && result->Err_0->Storage_source == reply->Err_0,
    }
}

fn etag_or_empty(etag: Option<Etag>) -> (out: Etag)
    ensures
        out@ == version_or_empty(
            match etag {
                Some(e) => Some(e@),
                None => None,
            },
        ),
{
    match etag {
        Some(e) => e,
        None => {
            let e = String::new();
            assert(e@ =~= Seq::<char>::empty());
            e
        },
    }
}

/// The write condition for an expected version.
fn condition_for(etag: Option<&Etag>) -> (c: PutCondition)
    ensures
        condition_view(c) == expected_version(
            match etag {
                Some(e) => Some(e@),
                None => None,
            },
        ),
{
    match etag {
        None => PutCondition::Absent,
        Some(e) => {
            let text = crate::text::char_list(e.as_str());
            if text.len() == 0 {
                PutCondition::Absent
            } else {
                PutCondition::Version(e.clone())
            }
        },
    }
}

/// Access to the write-ahead log on one storage handle.
#[derive(Clone, Debug)]
pub struct WalStore<S> {
    storage: S,
}

impl<S> WalStore<S> {
    /// The handle that the store was made with.
    pub closed spec fn handle(self) -> S {
        self.storage
    }

    /// A store on the given storage handle. Makes no request.
    pub fn new(storage: S) -> (store: Self)
        ensures
            store.handle() == storage,
    {
        WalStore { storage }
    }

    /// The storage handle.
    pub fn storage(&self) -> (s: &S)
        ensures
            *s == self.handle(),
    {
        &self.storage
    }

    /// Path of the document whose id has these hexadecimal digits.
    pub fn state_path(hex: &str) -> (path: String)
        ensures
            path@ == state_path_of(hex@),
    {
        join3("wal/mutations/", hex, ".json")
    }

    /// Path of the payload that belongs to a document.
    pub fn arrow_path(hex: &str) -> (path: String)
        ensures
            path@ == arrow_path_of(hex@),
    {
        join3("wal/mutations/", hex, ".arrow")
    }

    /// Path of a superfile's tombstone sidecar.
    pub fn tombstones_path(superfile_id: u128) -> (path: String)
        ensures
            path@ == tombstones_path_of(superfile_id),
    {
        let id = uuid_to_text(superfile_id);
        join3("superfiles/", id.as_str(), ".tombstones")
    }

    /// The digits in the name of a listed document; `None` for objects that are
    /// no documents.
    pub fn state_stem(path: &str) -> (stem: Option<String>)
        ensures
            match without_suffix(file_name(path@), ".json"@) {
                Some(text) => stem is Some && stem->0@ == text,
                None => stem is None,
            },
    {
        file_stem(path, ".json")
    }

    /// The ids of the documents on storage in ascending order, from the listed
    /// paths. `from_hex` reads the digits of a document's name; objects that
    /// are no documents, and names it cannot read, are left out. A failed
    /// listing is reported for the directory.
    pub fn list_wal_ids<F: Fn(String) -> Option<i128>>(
        &self,
        listed: Result<Vec<String>, StorageError>,
        from_hex: F,
    ) -> (ids: Result<Vec<i128>, WalStoreError>)
        requires
            forall|digits: String| call_requires(from_hex, (digits,)),
        ensures
            match listed {
                Ok(paths) => ids is Ok && exists|found: Seq<Option<i128>>|
                    reads_ids(from_hex, paths@, found) && ids->Ok_0@ == sorted_by(
                        #[trigger] present(found),
                        wal_id_keys(present(found)),
                    ),
                Err(e) => ids is Err && ids->Err_0 is Storage && ids->Err_0.at() == "wal/mutations"@
                    && ids->Err_0->Storage_source == e,
            },
    {
        let paths = match listed {
            Ok(paths) => paths,
            Err(source) => {
                return Err(WalStoreError::Storage { path: WAL_DIR.to_owned(), source });
            },
        };
        let mut ids: Vec<i128> = Vec::new();
        let mut keys: Vec<SortKey> = Vec::new();
        let mut i: usize = 0;
        let ghost mut found: Seq<Option<i128>> = Seq::empty();
        while i < paths.len()
            invariant
                i <= paths.len(),
                forall|digits: String| call_requires(from_hex, (digits,)),
                reads_ids(from_hex, paths@.take(i as int), found),
                ids@ == present(found),
                keys@ == wal_id_keys(ids@),
            decreases paths.len() - i,
        {
            let ghost before = found;
            let read: Option<i128> = match Self::state_stem(paths[i].as_str()) {
                Some(digits) => from_hex(digits),
                None => None,
            };
            proof {
                found = before.push(read);
                assert(found.drop_last() =~= before);
                assert(reads_id(from_hex, paths@[i as int]@, read));
                assert forall|k: int| 0 <= k < found.len() implies reads_id(
                    from_hex,
                    paths@.take(i + 1)[k]@,
                    #[trigger] found[k],
                ) by {
                    if k < i {
                        assert(reads_id(from_hex, paths@.take(i as int)[k]@, before[k]));
                    }
                }
            }
            if let Some(id) = read {
                ids.push(id);
                keys.push((id, 0));
                assert(keys@ =~= wal_id_keys(ids@));
            }
            i = i + 1;
        }
        assert(paths@.take(i as int) =~= paths@);
        let order = stable_order(&keys);
        let mut out: Vec<i128> = Vec::new();
        let mut k: usize = 0;
        while k < order.len()
            invariant
                k <= order.len(),
                crate::order::is_stable_order(keys@, order@),
                order@ == crate::order::the_order(keys@),
                keys@ == wal_id_keys(ids@),
                out@ == sorted_by(ids@, keys@).take(k as int),
            decreases order.len() - k,
        {
            out.push(ids[order[k]]);
            k = k + 1;
            assert(out@ =~= sorted_by(ids@, keys@).take(k as int));
        }
        assert(out@ =~= sorted_by(ids@, keys@));
        Ok(out)
    }

    /// The superfiles that have a tombstone sidecar, from the listed paths, in
    /// the order of the listing. Objects that are no sidecars are left out.
    pub fn list_tombstone_ids(&self, listed: Result<Vec<String>, StorageError>) -> (ids: Result<
        Vec<u128>,
        WalStoreError,
    >)
        ensures
            match listed {
                Ok(paths) => {
                    &&& ids is Ok
                    &&& ids->Ok_0@ == tombstone_ids(paths@)
                    &&& forall|i: int, v: u128|
                        0 <= i < paths.len() && (#[trigger] paths@[i])@ == #[trigger] tombstones_path_of(v)
                            ==> ids->Ok_0@.contains(v)
                },
                Err(e) => ids is Err && ids->Err_0 is Storage && ids->Err_0.at() == "superfiles"@
                    && ids->Err_0->Storage_source == e,
            },
    {
        let paths = match listed {
            Ok(paths) => paths,
            Err(source) => {
                return Err(WalStoreError::Storage { path: SUPERFILES_DIR.to_owned(), source });
            },
        };
        let mut ids: Vec<u128> = Vec::new();
        let mut i: usize = 0;
        while i < paths.len()
            invariant
                i <= paths.len(),
                ids@ == tombstone_ids(paths@.take(i as int)),
                forall|k: int, v: u128|
                    0 <= k < i && (#[trigger] paths@[k])@ == #[trigger] tombstones_path_of(v)
                        ==> ids@.contains(v),
            decreases paths.len() - i,
        {
            let ghost before = ids@;
            proof {
                assert(paths@.take(i + 1).drop_last() =~= paths@.take(i as int));
            }
            let stem = file_stem(paths[i].as_str(), ".tombstones");
            let found: Option<u128> = match &stem {
                Some(text) => parse_uuid(text.as_str()),
                None => None,
            };
            proof {
                assert forall|v: u128| paths@[i as int]@ == #[trigger] tombstones_path_of(v) implies found
                    == Some(v) by {
                    tombstones_stem(v);
                    uuid_text_round_trip(v);
                }
            }
            if let Some(id) = found {
                ids.push(id);
                assert(ids@[before.len() as int] == id);
                assert forall|v: u128| before.contains(v) implies ids@.contains(v) by {
                    let q = choose|q: int| 0 <= q < before.len() && before[q] == v;
                    assert(ids@[q] == v);
                }
            }
            i = i + 1;
        }
        assert(paths@.take(i as int) =~= paths@);
        Ok(ids)
    }

    /// The write of a new document. Fails when the document could not be
    /// encoded; no request is made then.
    pub fn create_request<B>(&self, hex: &str, encoded: Result<B, String>) -> (request: Result<
        PutRequest<B>,
        WalStoreError,
    >)
        ensures
            match encoded {
                Ok(body) => request is Ok && request->Ok_0.path@ == state_path_of(hex@)
                    && request->Ok_0.body == body && condition_view(request->Ok_0.condition) is None,
                Err(e) => request is Err && request->Err_0 is Serde && request->Err_0.at()
                    == state_path_of(hex@) && request->Err_0->Serde_source == e,
            },
    {
        let path = Self::state_path(hex);
        match encoded {
            Ok(body) => Ok(PutRequest { path, body, condition: PutCondition::Absent }),
            Err(source) => Err(WalStoreError::Serde { path, source }),
        }
    }

    /// The version of a new document, from the storage's reply to its write.
    /// A taken path fails with `AlreadyExists`.
    pub fn create(&self, hex: &str, reply: Result<Option<Etag>, StorageError>) -> (result: Result<
        Etag,
        WalStoreError,
    >)
        ensures
            reports(result, create_outcome(put_reply(reply)), state_path_of(hex@), reply),
    {
        let path = Self::state_path(hex);
        match reply {
            Ok(etag) => Ok(etag_or_empty(etag)),
            Err(source) => match source.fault {
                StorageFault::PreconditionFailed => Err(WalStoreError::AlreadyExists { path }),
                _ => Err(WalStoreError::Storage { path, source }),
            },
        }
    }

    /// A document and its version, from the storage's reply to a read and what
    /// its bytes decoded to.
    pub fn read<D>(&self, hex: &str, reply: Result<(Result<D, String>, Option<Etag>), StorageError>) -> (result:
        Result<(D, Etag), WalStoreError>)
        ensures
            match reply {
                Ok((Ok(doc), etag)) => result is Ok && result->Ok_0.0 == doc && result->Ok_0.1@
                    == version_or_empty(
                    match etag {
                        Some(e) => Some(e@),
                        None => None,
                    },
                ),
                Ok((Err(e), _)) => result is Err && result->Err_0 is Serde && result->Err_0.at()
                    == state_path_of(hex@) && result->Err_0->Serde_source == e,
                Err(e) => result is Err && result->Err_0.at() == state_path_of(hex@) && if e.fault
                    == StorageFault::NotFound {
                    result->Err_0 is NotFound
                } else {
                    result->Err_0 is Storage && result->Err_0->Storage_source == e
                },
            },
    {
        let path = Self::state_path(hex);
        match reply {
            Ok((decoded, etag)) => match decoded {
                Ok(doc) => Ok((doc, etag_or_empty(etag))),
                Err(source) => Err(WalStoreError::Serde { path, source }),
            },
            Err(source) => match source.fault {
                StorageFault::NotFound => Err(WalStoreError::NotFound { path }),
                _ => Err(WalStoreError::Storage { path, source }),
            },
        }
    }

    /// The write that replaces a document of the expected version. An empty
    /// version means that none was ever observed, and makes the write a create.
    pub fn update_request<B>(&self, hex: &str, expected_etag: &Etag, encoded: Result<B, String>) -> (request: Result<
        PutRequest<B>,
        WalStoreError,
    >)
        ensures
            match encoded {
                Ok(body) => request is Ok && request->Ok_0.path@ == state_path_of(hex@)
                    && request->Ok_0.body == body && condition_view(request->Ok_0.condition)
                    == expected_version(Some(expected_etag@)),
                Err(e) => request is Err && request->Err_0 is Serde && request->Err_0.at()
                    == state_path_of(hex@) && request->Err_0->Serde_source == e,
            },
    {
        let path = Self::state_path(hex);
        match encoded {
            Ok(body) => Ok(PutRequest { path, body, condition: condition_for(Some(expected_etag)) }),
            Err(source) => Err(WalStoreError::Serde { path, source }),
        }
    }

    /// The next version of a replaced document, from the storage's reply. A
    /// document that changed or is gone fails with `CasFailed`.
    pub fn update_with_etag(&self, hex: &str, reply: Result<Option<Etag>, StorageError>) -> (result: Result<
        Etag,
        WalStoreError,
    >)
        ensures
            reports(result, update_outcome(put_reply(reply)), state_path_of(hex@), reply),
    {
        let path = Self::state_path(hex);
        match reply {
            Ok(etag) => Ok(etag_or_empty(etag)),
            Err(source) => match source.fault {
                StorageFault::Other => Err(WalStoreError::Storage { path, source }),
                _ => Err(WalStoreError::CasFailed { path }),
            },
        }
    }

    /// The result of deleting a document.
    pub fn delete_state(&self, hex: &str, reply: Result<(), StorageError>) -> (result: Result<(), WalStoreError>)
        ensures
            match reply {
                Ok(()) => result is Ok,
                Err(e) => result is Err && result->Err_0 is Storage && result->Err_0.at() == state_path_of(
                    hex@,
                ) && result->Err_0->Storage_source == e,
            },
    {
        match reply {
            Ok(()) => Ok(()),
            Err(source) => Err(WalStoreError::Storage { path: Self::state_path(hex), source }),
        }
    }

    /// The result of deleting a payload.
    pub fn delete_arrow(&self, hex: &str, reply: Result<(), StorageError>) -> (result: Result<(), WalStoreError>)
        ensures
            match reply {
                Ok(()) => result is Ok,
                Err(e) => result is Err && result->Err_0 is Storage && result->Err_0.at() == arrow_path_of(
                    hex@,
                ) && result->Err_0->Storage_source == e,
            },
    {
        match reply {
            Ok(()) => Ok(()),
            Err(source) => Err(WalStoreError::Storage { path: Self::arrow_path(hex), source }),
        }
    }

    /// The write of a payload, which must be absent.
    pub fn arrow_request<B>(&self, hex: &str, body: B) -> (request: PutRequest<B>)
        ensures
            request.path@ == arrow_path_of(hex@),
            request.body == body,
            condition_view(request.condition) is None,
    {
        PutRequest { path: Self::arrow_path(hex), body, condition: PutCondition::Absent }
    }

    /// The result of writing a payload, which is written only where there is
    /// none. A payload is a function of its document, so that one that is
    /// already there is the right one.
    pub fn put_arrow(&self, hex: &str, reply: Result<Option<Etag>, StorageError>) -> (result: Result<
        (),
        WalStoreError,
    >)
        ensures
            match reply {
                Ok(_) => result is Ok,
                Err(e) => if e.fault == StorageFault::PreconditionFailed {
                    result is Ok
                } else {
                    result is Err && result->Err_0 is Storage && result->Err_0.at() == arrow_path_of(hex@)
                        && result->Err_0->Storage_source == e
                },
            },
    {
        match reply {
            Ok(_) => Ok(()),
            Err(source) => match source.fault {
                StorageFault::PreconditionFailed => Ok(()),
                _ => Err(WalStoreError::Storage { path: Self::arrow_path(hex), source }),
            },
        }
    }

    /// A payload's bytes, from the storage's reply to a read. With a pinned
    /// hash, bytes that hash to something else fail.
    pub fn get_arrow<'a>(
        &self,
        hex: &str,
        expected_blake3_hex: Option<&str>,
        reply: Result<&'a [u8], StorageError>,
    ) -> (result: Result<&'a [u8], WalStoreError>)
        ensures
            match reply {
                Ok(bytes) => payload_checked(
                    result,
                    arrow_path_of(hex@),
                    match expected_blake3_hex {
                        Some(w) => Some(w@),
                        None => None,
                    },
                    hex_of(blake3_digest(bytes@)),
                    bytes@,
                ),
                Err(e) => result is Err && result->Err_0 is Storage && result->Err_0.at() == arrow_path_of(
                    hex@,
                ) && result->Err_0->Storage_source == e,
            },
    {
        match reply {
            Ok(bytes) => match expected_blake3_hex {
                None => Ok(bytes),
                Some(want) => {
                    let got = blake3_hash_hex(bytes);
                    self.check_arrow_hash(hex, want, got, bytes)
                },
            },
            Err(source) => Err(WalStoreError::Storage { path: Self::arrow_path(hex), source }),
        }
    }

    /// Payload bytes whose hash came out as `got`, where the caller pinned
    /// `want`.
    pub fn check_arrow_hash<'a>(&self, hex: &str, want: &str, got: String, bytes: &'a [u8]) -> (result: Result<
        &'a [u8],
        WalStoreError,
    >)
        ensures
            payload_checked(result, arrow_path_of(hex@), Some(want@), got@, bytes@),
    {
        if same_text(got.as_str(), want) {
            Ok(bytes)
        } else {
            Err(
                WalStoreError::SidecarContentHashMismatch {
                    path: Self::arrow_path(hex),
                    expected: want.to_owned(),
                    got,
                },
            )
        }
    }

    /// A superfile's tombstone sidecar and its version, from the storage's reply
    /// to a read and what the bytes decoded to. `None` when there is none yet.
    pub fn get_tombstones<D>(
        &self,
        superfile_id: u128,
        reply: Result<(Result<D, String>, Option<Etag>), StorageError>,
    ) -> (result: Result<Option<(D, Etag)>, WalStoreError>)
        ensures
            match reply {
                Ok((Ok(sidecar), etag)) => result is Ok && result->Ok_0 is Some && (result->Ok_0->Some_0).0 == sidecar
                    && (result->Ok_0->Some_0).1@ == version_or_empty(
                    match etag {
                        Some(e) => Some(e@),
                        None => None,
                    },
                ),
                Ok((Err(e), _)) => result is Err && result->Err_0 is SidecarCodec && result->Err_0.at()
                    == tombstones_path_of(superfile_id) && result->Err_0->SidecarCodec_source == e,
                Err(e) => if e.fault == StorageFault::NotFound {
                    result is Ok && result->Ok_0 is None
                } else {
                    result is Err && result->Err_0 is Storage && result->Err_0.at() == tombstones_path_of(
                        superfile_id,
                    ) && result->Err_0->Storage_source == e
                },
            },
    {
        match reply {
            Ok((decoded, etag)) => match decoded {
                Ok(sidecar) => Ok(Some((sidecar, etag_or_empty(etag)))),
                Err(source) => Err(
                    WalStoreError::SidecarCodec { path: Self::tombstones_path(superfile_id), source },
                ),
            },
            Err(source) => match source.fault {
                StorageFault::NotFound => Ok(None),
                _ => Err(
                    WalStoreError::Storage { path: Self::tombstones_path(superfile_id), source },
                ),
            },
        }
    }

    /// The write of a tombstone sidecar. Without an expected version, or with
    /// an empty one, the sidecar must be absent.
    pub fn tombstones_request<B>(
        &self,
        superfile_id: u128,
        expected_etag: Option<&Etag>,
        encoded: Result<B, String>,
    ) -> (request: Result<PutRequest<B>, WalStoreError>)
        ensures
            match encoded {
                Ok(body) => request is Ok && request->Ok_0.path@ == tombstones_path_of(superfile_id)
                    && request->Ok_0.body == body && condition_view(request->Ok_0.condition)
                    == expected_version(
                    match expected_etag {
                        Some(e) => Some(e@),
                        None => None,
                    },
                ),
                Err(e) => request is Err && request->Err_0 is SidecarCodec && request->Err_0.at()
                    == tombstones_path_of(superfile_id) && request->Err_0->SidecarCodec_source == e,
            },
    {
        let path = Self::tombstones_path(superfile_id);
        match encoded {
            Ok(body) => Ok(PutRequest { path, body, condition: condition_for(expected_etag) }),
            Err(source) => Err(WalStoreError::SidecarCodec { path, source }),
        }
    }

    /// The next version of a tombstone sidecar, from the storage's reply to its
    /// write.
    pub fn put_tombstones(&self, superfile_id: u128, reply: Result<Option<Etag>, StorageError>) -> (result: Result<
        Etag,
        WalStoreError,
    >)
        ensures
            reports(result, sidecar_outcome(put_reply(reply)), tombstones_path_of(superfile_id), reply),
    {
        let path = Self::tombstones_path(superfile_id);
        match reply {
            Ok(etag) => Ok(etag_or_empty(etag)),
            Err(source) => match source.fault {
                StorageFault::PreconditionFailed => Err(WalStoreError::CasFailed { path }),
                _ => Err(WalStoreError::Storage { path, source }),
            },
        }
    }
}

/// Whether `found` is what `from_hex` makes of a listed path: nothing, unless
/// the path is a document's.
pub open spec fn reads_id<F: Fn(String) -> Option<i128>>(
    from_hex: F,
    path: Seq<char>,
    found: Option<i128>,
) -> bool {
    match without_suffix(file_name(path), ".json"@) {
        Some(stem) => exists|digits: String|
            digits@ == stem && #[trigger] call_ensures(from_hex, (digits,), found),
        None => found is None,
    }
}

/// Whether `found` is what `from_hex` makes of each listed path.
pub open spec fn reads_ids<F: Fn(String) -> Option<i128>>(
    from_hex: F,
    paths: Seq<String>,
    found: Seq<Option<i128>>,
) -> bool {
    &&& found.len() == paths.len()
    &&& forall|i: int| 0 <= i < found.len() ==> reads_id(from_hex, paths[i]@, #[trigger] found[i])
}

/// The values that are there, in order.
pub open spec fn present(found: Seq<Option<i128>>) -> Seq<i128>
    decreases found.len(),
{
    if found.len() == 0 {
        Seq::empty()
    } else {
        match found.last() {
            Some(id) => present(found.drop_last()).push(id),
            None => present(found.drop_last()),
        }
    }
}

/// Ids sort by their value.
pub open spec fn wal_id_keys(ids: Seq<i128>) -> Seq<SortKey> {
    Seq::new(ids.len(), |i: int| (ids[i], 0u128))
}

/// The superfile that a listed path is the tombstone sidecar of.
pub open spec fn tombstone_id(path: Seq<char>) -> Option<u128> {
    match without_suffix(file_name(path), ".tombstones"@) {
        Some(stem) => uuid_of_text(stem),
        None => None,
    }
}

/// The superfiles of the listed sidecars, in the order of the listing.
pub open spec fn tombstone_ids(paths: Seq<String>) -> Seq<u128>
    decreases paths.len(),
{
    if paths.len() == 0 {
        Seq::empty()
    } else {
        match tombstone_id(paths.last()@) {
            Some(id) => tombstone_ids(paths.drop_last()).push(id),
            None => tombstone_ids(paths.drop_last()),
        }
    }
}

/// `result` hands the payload out when no hash is pinned or the hashes agree,
/// and else reports both hashes.
pub open spec fn payload_checked(
    result: Result<&[u8], WalStoreError>,
    path: Seq<char>,
    want: Option<Seq<char>>,
    got: Seq<char>,
    bytes: Seq<u8>,
) -> bool {
    if want is None || want->0 == got {
        result is Ok && result->Ok_0@ == bytes
    } else {
        result is Err && result->Err_0 is SidecarContentHashMismatch && result->Err_0.at() == path
            && result->Err_0->expected@ == want->0 && result->Err_0->got@ == got
    }
}

/// Hexadecimal digits are no slashes.
proof fn hex_digits_have_no_slash(v: nat, n: nat)
    ensures
        crate::text::hex_digits(v, n).len() == n,
        forall|i: int| 0 <= i < n ==> #[trigger] crate::text::hex_digits(v, n)[i] != '/',
    decreases n,
{
    if n > 0 {
        hex_digits_have_no_slash(v / 16, (n - 1) as nat);
    }
}

/// The stem of a tombstone path is the text of the superfile's id.
pub proof fn tombstones_stem(id: u128)
    ensures
        without_suffix(file_name(tombstones_path_of(id)), ".tombstones"@) == Some(uuid_text(id)),
{
    reveal_strlit("superfiles/");
    reveal_strlit(".tombstones");
    hex_digits_have_no_slash(id as nat, 32);
    let name = uuid_text(id) + ".tombstones"@;
    assert(!name.contains('/')) by {
        if name.contains('/') {
            let i = choose|i: int| 0 <= i < name.len() && name[i] == '/';
            if i >= uuid_text(id).len() {
                assert(".tombstones"@[i - uuid_text(id).len()] == '/');
            }
        }
    }
    let dir = seq!['s', 'u', 'p', 'e', 'r', 'f', 'i', 'l', 'e', 's'];
    assert(dir.push('/') =~= "superfiles/"@);
    assert(tombstones_path_of(id) =~= dir.push('/') + name);
    crate::text::file_name_of_joined(dir, name);
    crate::text::suffix_round_trip(uuid_text(id), ".tombstones"@);
}

/// The stem of a document's path is the digits that it was made from.
pub proof fn state_stem_round_trip(hex: Seq<char>)
    requires
        !hex.contains('/'),
    ensures
        without_suffix(file_name(state_path_of(hex)), ".json"@) == Some(hex),
{
    reveal_strlit("wal/mutations/");
    reveal_strlit(".json");
    let name = hex + ".json"@;
    assert(!name.contains('/')) by {
        if name.contains('/') {
            let i = choose|i: int| 0 <= i < name.len() && name[i] == '/';
            if i < hex.len() {
                assert(hex[i] == '/');
            } else {
                assert(".json"@[i - hex.len()] == '/');
            }
        }
    }
    let dir = seq!['w', 'a', 'l', '/', 'm', 'u', 't', 'a', 't', 'i', 'o', 'n', 's'];
    assert(dir.push('/') =~= "wal/mutations/"@);
    assert(state_path_of(hex) =~= dir.push('/') + name);
    crate::text::file_name_of_joined(dir, name);
    crate::text::suffix_round_trip(hex, ".json"@);
}

/// A payload is never listed as a document.
pub proof fn payload_is_no_document(hex: Seq<char>)
    requires
        !hex.contains('/'),
    ensures
        without_suffix(file_name(arrow_path_of(hex)), ".json"@) is None,
{
    reveal_strlit("wal/mutations/");
    reveal_strlit(".json");
    reveal_strlit(".arrow");
    let name = hex + ".arrow"@;
    assert(!name.contains('/')) by {
        if name.contains('/') {
            let i = choose|i: int| 0 <= i < name.len() && name[i] == '/';
            if i < hex.len() {
                assert(hex[i] == '/');
            } else {
                assert(".arrow"@[i - hex.len()] == '/');
            }
        }
    }
    let dir = seq!['w', 'a', 'l', '/', 'm', 'u', 't', 'a', 't', 'i', 'o', 'n', 's'];
    assert(dir.push('/') =~= "wal/mutations/"@);
    assert(arrow_path_of(hex) =~= dir.push('/') + name);
    crate::text::file_name_of_joined(dir, name);
    assert(name.skip(name.len() - 5)[4] == 'w');
    assert(".json"@[4] == 'n');
}

} // verus!
