//! What the write-ahead log's calls come to on conditional storage.
//!
//! An [`ObjectStore`] is storage as its users rely on it: a write happens only
//! under its condition, and every write gives the object a version that no
//! object had before. The laws below hold of the log's calls on such storage.
use vstd::prelude::*;

use crate::wal_store::{
    create_outcome, expected_version, sidecar_outcome, state_path_of, tombstones_path_of, update_outcome,
    PutReply, StorageFault, WriteOutcome,
};

verus! {

/// One stored object.
pub struct StoredObject {
    pub body: Seq<u8>,
    pub version: Seq<char>,
}

/// Conditional storage: the objects by path, and every version ever given out.
pub struct ObjectStore {
    pub objects: Map<Seq<char>, StoredObject>,
    pub versions: Set<Seq<char>>,
}

impl ObjectStore {
    /// Every object's version was given out, and no version is empty.
    pub open spec fn well_formed(self) -> bool {
        &&& forall|path: Seq<char>| #[trigger]
            self.objects.contains_key(path) ==> self.versions.contains(self.objects[path].version)
        &&& forall|v: Seq<char>| #[trigger] self.versions.contains(v) ==> v.len() > 0
    }

    /// A version that the next write can give.
    pub open spec fn is_fresh(self, v: Seq<char>) -> bool {
        v.len() > 0 && !self.versions.contains(v)
    }

    /// The condition holds: no version is expected and the object is absent, or
    /// the object has the expected version.
    pub open spec fn admits(self, path: Seq<char>, expected: Option<Seq<char>>) -> bool {
        match expected {
            None => !self.objects.contains_key(path),
            Some(v) => self.objects.contains_key(path) && self.objects[path].version == v,
        }
    }

    /// The storage after a write under a condition.
    pub open spec fn after_put(
        self,
        path: Seq<char>,
        body: Seq<u8>,
        expected: Option<Seq<char>>,
        fresh: Seq<char>,
    ) -> ObjectStore {
        if self.admits(path, expected) {
            ObjectStore {
                objects: self.objects.insert(path, StoredObject { body, version: fresh }),
                versions: self.versions.insert(fresh),
            }
        } else {
            self
        }
    }

    /// The reply to a write under a condition. A write that expects a version of
    /// an absent object is refused with `gone`, one of the two faults that
    /// storages use for it.
    pub open spec fn put(
        self,
        path: Seq<char>,
        expected: Option<Seq<char>>,
        fresh: Seq<char>,
        gone: StorageFault,
    ) -> PutReply {
        if self.admits(path, expected) {
            PutReply::Written(Some(fresh))
        } else if expected is Some && !self.objects.contains_key(path) {
            PutReply::Failed(gone)
        } else {
            PutReply::Failed(StorageFault::PreconditionFailed)
        }
    }

    /// The storage after a delete. Deleting an absent object changes nothing.
    pub open spec fn after_delete(self, path: Seq<char>) -> ObjectStore {
        ObjectStore { objects: self.objects.remove(path), versions: self.versions }
    }
}

/// A fault that a storage reports for a conditional write to an absent object.
pub open spec fn is_gone_fault(fault: StorageFault) -> bool {
    fault != StorageFault::Other
}

/// A write keeps the storage well formed.
pub proof fn put_keeps_well_formed(
    store: ObjectStore,
    path: Seq<char>,
    body: Seq<u8>,
    expected: Option<Seq<char>>,
    fresh: Seq<char>,
)
    requires
        store.well_formed(),
        store.is_fresh(fresh),
    ensures
        store.after_put(path, body, expected, fresh).well_formed(),
{
}

/// A new document is created at a free path, and is then there with the version
/// that the create returned.
pub proof fn create_then_read(store: ObjectStore, hex: Seq<char>, body: Seq<u8>, fresh: Seq<char>, gone: StorageFault)
    requires
        store.well_formed(),
        store.is_fresh(fresh),
        !store.objects.contains_key(state_path_of(hex)),
    ensures
        ({
            let path = state_path_of(hex);
            let after = store.after_put(path, body, None, fresh);
            &&& create_outcome(store.put(path, None, fresh, gone)) == WriteOutcome::Version(fresh)
            &&& after.objects.contains_key(path)
            &&& after.objects[path] == (StoredObject { body, version: fresh })
        }),
{
}

/// A create at a taken path reports that, and leaves the document as it is.
pub proof fn create_twice(store: ObjectStore, hex: Seq<char>, body: Seq<u8>, fresh: Seq<char>, gone: StorageFault)
    requires
        store.well_formed(),
        store.is_fresh(fresh),
        store.objects.contains_key(state_path_of(hex)),
    ensures
        create_outcome(store.put(state_path_of(hex), None, fresh, gone)) == WriteOutcome::AlreadyExists,
        store.after_put(state_path_of(hex), body, None, fresh) == store,
{
}

/// An update with the document's version replaces it.
pub proof fn update_with_current_version(
    store: ObjectStore,
    hex: Seq<char>,
    body: Seq<u8>,
    fresh: Seq<char>,
    gone: StorageFault,
)
    requires
        store.well_formed(),
        store.is_fresh(fresh),
        store.objects.contains_key(state_path_of(hex)),
    ensures
        ({
            let path = state_path_of(hex);
            let expected = expected_version(Some(store.objects[path].version));
            let after = store.after_put(path, body, expected, fresh);
            &&& update_outcome(store.put(path, expected, fresh, gone)) == WriteOutcome::Version(fresh)
            &&& after.objects[path] == (StoredObject { body, version: fresh })
        }),
{
}

/// An update with any other version loses, and leaves the document as it is.
pub proof fn update_with_stale_version(
    store: ObjectStore,
    hex: Seq<char>,
    body: Seq<u8>,
    stale: Seq<char>,
    fresh: Seq<char>,
    gone: StorageFault,
)
    requires
        store.well_formed(),
        store.is_fresh(fresh),
        is_gone_fault(gone),
        store.objects.contains_key(state_path_of(hex)),
        store.objects[state_path_of(hex)].version != stale,
    ensures
        update_outcome(store.put(state_path_of(hex), expected_version(Some(stale)), fresh, gone))
            == WriteOutcome::CasFailed,
        store.after_put(state_path_of(hex), body, expected_version(Some(stale)), fresh) == store,
{
}

/// One update among several: what it writes, and the version that the storage
/// would give it.
pub struct Update {
    pub body: Seq<u8>,
    pub fresh: Seq<char>,
}

/// The storage after updates of a document that all expect the same version.
pub open spec fn after_updates(
    store: ObjectStore,
    path: Seq<char>,
    expected: Option<Seq<char>>,
    updates: Seq<Update>,
) -> ObjectStore
    decreases updates.len(),
{
    if updates.len() == 0 {
        store
    } else {
        after_updates(store, path, expected, updates.drop_last()).after_put(
            path,
            updates.last().body,
            expected,
            updates.last().fresh,
        )
    }
}

/// Of any number of updates from the same read exactly one wins: the one that
/// comes first. Every other one loses, and the document ends up as the winner
/// wrote it.
pub proof fn one_of_many_updates_wins(
    store: ObjectStore,
    hex: Seq<char>,
    updates: Seq<Update>,
    gone: StorageFault,
    i: int,
)
    requires
        store.well_formed(),
        is_gone_fault(gone),
        store.objects.contains_key(state_path_of(hex)),
        forall|k: int| 0 <= k < updates.len() ==> store.is_fresh((#[trigger] updates[k]).fresh),
        0 <= i < updates.len(),
    ensures
        ({
            let path = state_path_of(hex);
            let expected = expected_version(Some(store.objects[path].version));
            let before = after_updates(store, path, expected, updates.take(i));
            let outcome = update_outcome(before.put(path, expected, updates[i].fresh, gone));
            &&& outcome == if i == 0 {
                WriteOutcome::Version(updates[0].fresh)
            } else {
                WriteOutcome::CasFailed
            }
            &&& after_updates(store, path, expected, updates.take(i + 1)).objects == store.objects.insert(
                path,
                StoredObject { body: updates[0].body, version: updates[0].fresh },
            )
        }),
    decreases i,
{
    let path = state_path_of(hex);
    let expected = expected_version(Some(store.objects[path].version));
    assert(updates.take(i + 1).drop_last() =~= updates.take(i));
    assert(updates.take(i + 1).last() == updates[i]);
    assert(store.versions.contains(store.objects[path].version));
    assert(store.is_fresh(updates[0].fresh));
    if i == 0 {
        assert(updates.take(0) =~= Seq::<Update>::empty());
        assert(after_updates(store, path, expected, updates.take(0)) == store);
    } else {
        one_of_many_updates_wins(store, hex, updates, gone, i - 1);
        assert(after_updates(store, path, expected, updates.take(i)).objects[path].version
            == updates[0].fresh);
    }
}

/// Of two updates from the same read, whichever comes first wins and the other
/// loses: the document ends up as the winner wrote it.
pub proof fn one_of_two_updates_wins(
    store: ObjectStore,
    hex: Seq<char>,
    first: Seq<u8>,
    second: Seq<u8>,
    fresh1: Seq<char>,
    fresh2: Seq<char>,
    gone: StorageFault,
)
    requires
        store.well_formed(),
        store.is_fresh(fresh1),
        store.is_fresh(fresh2),
        fresh1 != fresh2,
        is_gone_fault(gone),
        store.objects.contains_key(state_path_of(hex)),
    ensures
        ({
            let path = state_path_of(hex);
            let expected = expected_version(Some(store.objects[path].version));
            let between = store.after_put(path, first, expected, fresh1);
            let after = between.after_put(path, second, expected, fresh2);
            &&& update_outcome(store.put(path, expected, fresh1, gone)) == WriteOutcome::Version(fresh1)
            &&& update_outcome(between.put(path, expected, fresh2, gone)) == WriteOutcome::CasFailed
            &&& after.objects[path] == (StoredObject { body: first, version: fresh1 })
        }),
{
    let path = state_path_of(hex);
    assert(store.versions.contains(store.objects[path].version));
}

/// An update of a deleted document loses, whichever fault the storage reports.
pub proof fn update_after_delete(
    store: ObjectStore,
    hex: Seq<char>,
    body: Seq<u8>,
    version: Seq<char>,
    fresh: Seq<char>,
    gone: StorageFault,
)
    requires
        store.well_formed(),
        store.is_fresh(fresh),
        is_gone_fault(gone),
        version.len() > 0,
    ensures
        ({
            let path = state_path_of(hex);
            let deleted = store.after_delete(path);
            let expected = expected_version(Some(version));
            &&& update_outcome(deleted.put(path, expected, fresh, gone)) == WriteOutcome::CasFailed
            &&& deleted.after_put(path, body, expected, fresh) == deleted
        }),
{
}

/// Deleting twice is deleting once, and the object is gone.
pub proof fn delete_is_idempotent(store: ObjectStore, path: Seq<char>)
    ensures
        store.after_delete(path).after_delete(path) == store.after_delete(path),
        !store.after_delete(path).objects.contains_key(path),
{
    assert(store.objects.remove(path).remove(path) =~= store.objects.remove(path));
}

/// Writing a payload again keeps the one that is there.
pub proof fn payload_is_written_once(
    store: ObjectStore,
    path: Seq<char>,
    first: Seq<u8>,
    second: Seq<u8>,
    fresh1: Seq<char>,
    fresh2: Seq<char>,
)
    requires
        store.well_formed(),
        store.is_fresh(fresh1),
        store.is_fresh(fresh2),
        !store.objects.contains_key(path),
    ensures
        ({
            let once = store.after_put(path, first, None, fresh1);
            &&& once.objects[path].body == first
            &&& once.after_put(path, second, None, fresh2) == once
        }),
{
}

/// An empty expected version asks for the same write as none: the sidecar must
/// be absent.
pub proof fn empty_version_creates_only(
    store: ObjectStore,
    id: u128,
    body: Seq<u8>,
    fresh: Seq<char>,
    gone: StorageFault,
)
    requires
        store.well_formed(),
        store.is_fresh(fresh),
    ensures
        ({
            let path = tombstones_path_of(id);
            let expected = expected_version(Some(Seq::<char>::empty()));
            let outcome = sidecar_outcome(store.put(path, expected, fresh, gone));
            &&& expected == expected_version(None)
            &&& store.objects.contains_key(path) ==> outcome == WriteOutcome::CasFailed
            &&& !store.objects.contains_key(path) ==> outcome == WriteOutcome::Version(fresh)
            &&& store.objects.contains_key(path) ==> store.after_put(path, body, expected, fresh) == store
        }),
{
}

/// A sidecar that is replaced under its version is there with the next one; with
/// any other version the write loses and the sidecar stays.
pub proof fn sidecar_versions_chain(
    store: ObjectStore,
    id: u128,
    body: Seq<u8>,
    version: Seq<char>,
    fresh: Seq<char>,
    gone: StorageFault,
)
    requires
        store.well_formed(),
        store.is_fresh(fresh),
        store.objects.contains_key(tombstones_path_of(id)),
        version.len() > 0,
    ensures
        ({
            let path = tombstones_path_of(id);
            let expected = expected_version(Some(version));
            let outcome = sidecar_outcome(store.put(path, expected, fresh, gone));
            let after = store.after_put(path, body, expected, fresh);
            if version == store.objects[path].version {
                &&& outcome == WriteOutcome::Version(fresh)
                &&& after.objects[path] == (StoredObject { body, version: fresh })
            } else {
                &&& outcome == WriteOutcome::CasFailed
                &&& after == store
            }
        }),
{
}

} // verus!
