//! The slow vector state: one content-addressed blob per generation.
//!
//! A settled generation's blob is the encoded membership alone. While a drain is
//! under way the blob is an envelope of three parts: the visible membership, the
//! drain's own metadata, and the entries that are uploaded but not yet visible.
use vstd::prelude::*;

use core::ops::Range;

use crate::hashing::{blake3_digest, blake3_hash};
use crate::text::{hex_char, hex_char_tells_apart, hex_of, join3};
use crate::wal_store::StorageFault;
use crate::wire::{
    le8, le8_bytes, le8_round_trip, le8_shift, push_bytes, push_u64_le, u64_at,
};

verus! {

/// Bytes of the magic number and the three lengths behind it.
pub const CHECKPOINT_HEADER_BYTES: usize = 32;

/// Bytes of one range request when a large blob is fetched.
pub const STRIPED_FETCH_CHUNK_BYTES: u64 = 67108864;

/// Range requests of one fetch that are under way at a time.
pub const STRIPED_FETCH_MAX_IN_FLIGHT: usize = 16;

/// From this size on a state blob is written in parts.
pub const SLOW_STATE_MULTIPART_THRESHOLD_BYTES: u64 = 104857600;

/// The eight bytes `INFSVS02` that an envelope starts with.
pub open spec fn checkpoint_magic() -> Seq<u8> {
    seq![73u8, 78, 70, 83, 86, 83, 48, 50]
}

/// Why a blob or a section could not be understood.
#[derive(Debug)]
pub enum ParseFault {
    /// The envelope ends inside its header.
    HeaderTruncated,
    /// The lengths in the header add up to more than a length can be.
    LengthOverflow,
    /// The lengths in the header do not add up to the blob's own.
    LengthMismatch,
    /// The membership could not be decoded.
    Entries(String),
    /// A centroid section has another size than the membership calls for.
    SectionSize { size: u64, expected: u64 },
    /// A cell's centroids are neither resident nor in the previous section.
    NoCentroidSource { superfile_id: u128, column: String, cell_id: Option<u32> },
}

/// What an operation on the slow state can fail with.
#[derive(Debug)]
pub enum SlowVectorStateError {
    Storage(String),
    /// The bytes do not have the hash that they are addressed by.
    HashMismatch,
    Parse(ParseFault),
}

// ---------------------------------------------------------------------------
// Content addresses
// ---------------------------------------------------------------------------

/// The hash that a blob is addressed by.
#[derive(Clone, Copy, Debug)]
pub struct ContentHash {
    pub bytes: [u8; 32],
}

/// The path of the blob with this hash.
pub open spec fn state_blob_path(hash: Seq<u8>) -> Seq<char> {
    "slow-vector-state/state-"@ + hex_of(hash) + ".bin"@
}

fn hex_digit(d: u8) -> (c: char)
    requires
        d < 16,
    ensures
        c == hex_char(d as int),
{
    if d < 10 {
        (d + 48) as char
    } else {
        (d + 87) as char
    }
}

impl ContentHash {
    /// The hash of a byte string.
    pub fn of(bytes: &[u8]) -> (hash: ContentHash)
        ensures
            hash.bytes@ == blake3_digest(bytes@),
    {
        ContentHash { bytes: blake3_hash(bytes) }
    }

    /// The hash as hexadecimal digits, two for each byte.
    pub fn to_hex(&self) -> (hex: String)
        ensures
            hex@ == hex_of(self.bytes@),
    {
        let mut hex = String::new();
        assert(hex@ =~= Seq::<char>::empty());
        let mut i: usize = 0;
        while i < 32
            invariant
                i <= 32,
                hex@ == hex_of(self.bytes@).take(2 * i),
            decreases 32 - i,
        {
            let b: u8 = self.bytes[i];
            hex.push(hex_digit(b / 16));
            hex.push(hex_digit(b % 16));
            i = i + 1;
            assert(hex@ =~= hex_of(self.bytes@).take(2 * i));
        }
        assert(hex@ =~= hex_of(self.bytes@));
        hex
    }

    /// The two hashes are equal.
    pub fn same_as(&self, other: &ContentHash) -> (same: bool)
        ensures
            same == (self.bytes@ == other.bytes@),
    {
        let mut i: usize = 0;
        while i < 32
            invariant
                i <= 32,
                forall|k: int| 0 <= k < i ==> self.bytes@[k] == other.bytes@[k],
            decreases 32 - i,
        {
            if self.bytes[i] != other.bytes[i] {
                return false;
            }
            i = i + 1;
        }
        assert(self.bytes@ =~= other.bytes@);
        true
    }
}

/// The path of the blob with this hash.
pub fn storage_path(hash: &ContentHash) -> (path: String)
    ensures
        path@ == state_blob_path(hash.bytes@),
{
    let hex = hash.to_hex();
    join3("slow-vector-state/state-", hex.as_str(), ".bin")
}

/// The path and the hash that a blob is written under.
pub fn content_address(bytes: &[u8]) -> (address: (String, ContentHash))
    ensures
        address.1.bytes@ == blake3_digest(bytes@),
        address.0@ == state_blob_path(blake3_digest(bytes@)),
{
    let hash = ContentHash::of(bytes);
    (storage_path(&hash), hash)
}

/// Blobs with different hashes have different paths.
pub proof fn paths_tell_hashes_apart(a: Seq<u8>, b: Seq<u8>)
    requires
        a.len() == b.len(),
        state_blob_path(a) == state_blob_path(b),
    ensures
        a == b,
{
    let p = "slow-vector-state/state-"@.len() as int;
    let x = state_blob_path(a);
    let y = state_blob_path(b);
    assert forall|i: int| 0 <= i < a.len() implies a[i] == b[i] by {
        assert(x[p + 2 * i] == hex_of(a)[2 * i]);
        assert(y[p + 2 * i] == hex_of(b)[2 * i]);
        assert(x[p + 2 * i + 1] == hex_of(a)[2 * i + 1]);
        assert(y[p + 2 * i + 1] == hex_of(b)[2 * i + 1]);
        hex_char_tells_apart(a[i] as int / 16, b[i] as int / 16);
        hex_char_tells_apart(a[i] as int % 16, b[i] as int % 16);
    }
    assert(a =~= b);
}

/// A blob that the storage already holds under its own hash is the same blob,
/// so that finding it there is success.
pub fn blob_written(reply: Result<(), (StorageFault, String)>) -> (result: Result<(), SlowVectorStateError>)
    ensures
        match write_fault(reply) {
            None => result is Ok,
            Some(text) => result is Err && result->Err_0 is Storage && result->Err_0->Storage_0 == text,
        },
{
    match reply {
        Ok(()) => Ok(()),
        Err((fault, text)) => match fault {
            StorageFault::PreconditionFailed => Ok(()),
            _ => Err(SlowVectorStateError::Storage(text)),
        },
    }
}

/// Where a published object is and the hash that it is addressed by.
#[derive(Debug)]
pub struct RoutingRef {
    pub uri: String,
    pub content_hash: ContentHash,
}

/// The two objects of one published generation: the state blob, and the section
/// of the centroids.
#[derive(Debug)]
pub struct PublishedState {
    pub uri: String,
    pub content_hash: ContentHash,
    pub centroids: RoutingRef,
}

impl PublishedState {
    /// The generation's objects are `blob` and `section`, each under its own
    /// hash.
    pub open spec fn addresses(self, blob: Seq<u8>, section: Seq<u8>) -> bool {
        &&& self.uri@ == state_blob_path(blake3_digest(blob))
        &&& self.content_hash.bytes@ == blake3_digest(blob)
        &&& self.centroids.uri@ == state_blob_path(blake3_digest(section))
        &&& self.centroids.content_hash.bytes@ == blake3_digest(section)
    }

    /// The generation that a blob and a section make up. Where each is written
    /// follows from its bytes.
    pub fn of(blob: &[u8], section: &[u8]) -> (state: PublishedState)
        ensures
            state.addresses(blob@, section@),
    {
        let (uri, content_hash) = content_address(blob);
        let (centroids_uri, centroids_hash) = content_address(section);
        PublishedState {
            uri,
            content_hash,
            centroids: RoutingRef { uri: centroids_uri, content_hash: centroids_hash },
        }
    }

    /// The generation once both writes have been answered. It is published when
    /// both objects are there; a failed blob is reported before a failed
    /// section.
    pub fn once_written(
        self,
        blob: Result<(), (StorageFault, String)>,
        section: Result<(), (StorageFault, String)>,
    ) -> (result: Result<PublishedState, SlowVectorStateError>)
        ensures
            match (write_fault(blob), write_fault(section)) {
                (Some(text), _) => result is Err && result->Err_0 is Storage && result->Err_0->Storage_0 == text,
                (None, Some(text)) => result is Err && result->Err_0 is Storage && result->Err_0->Storage_0 == text,
                (None, None) => result == Ok::<PublishedState, SlowVectorStateError>(self),
            },
    {
        match blob_written(blob) {
            Err(e) => Err(e),
            Ok(()) => match blob_written(section) {
                Err(e) => Err(e),
                Ok(()) => Ok(self),
            },
        }
    }
}

/// What a write of a content-addressed object failed with. An object that is
/// already there is no failure.
pub open spec fn write_fault(reply: Result<(), (StorageFault, String)>) -> Option<String> {
    match reply {
        Ok(()) => None,
        Err((fault, text)) => if fault == StorageFault::PreconditionFailed {
            None
        } else {
            Some(text)
        },
    }
}

// ---------------------------------------------------------------------------
// The envelope
// ---------------------------------------------------------------------------

/// The parts of a state blob. `pending` is there while a drain is under way:
/// the drain's metadata and its entries that are not yet visible.
pub struct StateParts {
    pub visible: Seq<u8>,
    pub pending: Option<(Seq<u8>, Seq<u8>)>,
}

/// The envelope of a visible membership, metadata and pending entries.
pub open spec fn envelope(visible: Seq<u8>, metadata: Seq<u8>, pending: Seq<u8>) -> Seq<u8> {
    checkpoint_magic() + le8_bytes(visible.len() as int) + le8_bytes(metadata.len() as int) + le8_bytes(
        pending.len() as int,
    ) + visible + metadata + pending
}

/// The blob starts with the magic number.
pub open spec fn is_envelope(bytes: Seq<u8>) -> bool {
    8 <= bytes.len() && bytes.take(8) == checkpoint_magic()
}

/// How a blob that starts with the magic number can fail to be an envelope.
pub enum EnvelopeFault {
    HeaderTruncated,
    LengthOverflow,
    LengthMismatch,
}

/// What a state blob holds.
pub open spec fn parse_state(bytes: Seq<u8>) -> Result<StateParts, EnvelopeFault> {
    let visible_end = 32 + le8(bytes, 8);
    let metadata_end = visible_end + le8(bytes, 16);
    let pending_end = metadata_end + le8(bytes, 24);
    if !is_envelope(bytes) {
        Ok(StateParts { visible: bytes, pending: None })
    } else if bytes.len() < 32 {
        Err(EnvelopeFault::HeaderTruncated)
    } else if pending_end > usize::MAX {
        Err(EnvelopeFault::LengthOverflow)
    } else if pending_end != bytes.len() {
        Err(EnvelopeFault::LengthMismatch)
    } else {
        Ok(
            StateParts {
                visible: bytes.subrange(32, visible_end),
                pending: Some(
                    (
                        bytes.subrange(visible_end, metadata_end),
                        bytes.subrange(metadata_end, pending_end),
                    ),
                ),
            },
        )
    }
}

/// Opening an envelope gives its three parts back.
pub proof fn envelope_round_trip(visible: Seq<u8>, metadata: Seq<u8>, pending: Seq<u8>)
    requires
        32 + visible.len() + metadata.len() + pending.len() <= usize::MAX,
    ensures
        parse_state(envelope(visible, metadata, pending)) == Ok::<StateParts, EnvelopeFault>(
            StateParts { visible, pending: Some((metadata, pending)) },
        ),
{
    let a = le8_bytes(visible.len() as int);
    let b = le8_bytes(metadata.len() as int);
    let c = le8_bytes(pending.len() as int);
    le8_round_trip(visible.len() as int);
    le8_round_trip(metadata.len() as int);
    le8_round_trip(pending.len() as int);
    parse_of_parts(a, b, c, visible, metadata, pending);
}

/// An envelope parses to its parts, whatever eight-byte strings stand for the
/// lengths.
proof fn parse_of_parts(a: Seq<u8>, b: Seq<u8>, c: Seq<u8>, x: Seq<u8>, y: Seq<u8>, z: Seq<u8>)
    requires
        a.len() == 8,
        b.len() == 8,
        c.len() == 8,
        le8(a, 0) == x.len(),
        le8(b, 0) == y.len(),
        le8(c, 0) == z.len(),
        32 + x.len() + y.len() + z.len() <= usize::MAX,
    ensures
        parse_state(checkpoint_magic() + a + b + c + x + y + z) == Ok::<StateParts, EnvelopeFault>(
            StateParts { visible: x, pending: Some((y, z)) },
        ),
{
    let e = checkpoint_magic() + a + b + c + x + y + z;
    concatenation_parts(checkpoint_magic(), a, b, c, x, y, z);
    le8_shift(e, a, 8);
    le8_shift(e, b, 16);
    le8_shift(e, c, 24);
}

/// Each part of a concatenation stands behind the parts before it.
proof fn concatenation_parts(
    m: Seq<u8>,
    a: Seq<u8>,
    b: Seq<u8>,
    c: Seq<u8>,
    x: Seq<u8>,
    y: Seq<u8>,
    z: Seq<u8>,
)
    requires
        m.len() == 8,
        a.len() == 8,
        b.len() == 8,
        c.len() == 8,
    ensures
        ({
            let e = m + a + b + c + x + y + z;
            &&& e.len() == 32int + x.len() + y.len() + z.len()
            &&& e.take(8) == m
            &&& e.subrange(8, 16) == a
            &&& e.subrange(16, 24) == b
            &&& e.subrange(24, 32) == c
            &&& e.subrange(32, 32int + x.len()) == x
            &&& e.subrange(32int + x.len(), 32int + x.len() + y.len()) == y
            &&& e.subrange(32int + x.len() + y.len(), 32int + x.len() + y.len() + z.len()) == z
        }),
{
    let e = m + a + b + c + x + y + z;
    assert(e.take(8) =~= m);
    assert(e.subrange(8, 16) =~= a);
    assert(e.subrange(16, 24) =~= b);
    assert(e.subrange(24, 32) =~= c);
    assert(e.subrange(32, 32int + x.len()) =~= x);
    assert(e.subrange(32int + x.len(), 32int + x.len() + y.len()) =~= y);
    assert(e.subrange(32int + x.len() + y.len(), 32int + x.len() + y.len() + z.len()) =~= z);
}

/// A settled blob is its own membership, unless it starts like an envelope.
pub proof fn settled_round_trip(visible: Seq<u8>)
    requires
        !is_envelope(visible),
    ensures
        parse_state(visible) == Ok::<StateParts, EnvelopeFault>(StateParts { visible, pending: None }),
{
}

/// The blob of a drain that is under way.
pub fn encode_checkpoint_state(visible: &[u8], metadata: &[u8], pending: &[u8]) -> (bytes: Vec<u8>)
    ensures
        bytes@ == envelope(visible@, metadata@, pending@),
{
    let mut bytes: Vec<u8> = Vec::new();
    bytes.push(73);
    bytes.push(78);
    bytes.push(70);
    bytes.push(83);
    bytes.push(86);
    bytes.push(83);
    bytes.push(48);
    bytes.push(50);
    assert(bytes@ =~= checkpoint_magic());
    push_u64_le(&mut bytes, visible.len() as u64);
    push_u64_le(&mut bytes, metadata.len() as u64);
    push_u64_le(&mut bytes, pending.len() as u64);
    push_bytes(&mut bytes, visible);
    push_bytes(&mut bytes, metadata);
    push_bytes(&mut bytes, pending);
    bytes
}

/// A state blob's parts as slices of it.
pub struct StateFrame<'a> {
    pub visible: &'a [u8],
    pub pending: Option<(&'a [u8], &'a [u8])>,
}

impl<'a> StateFrame<'a> {
    pub open spec fn parts(self) -> StateParts {
        StateParts {
            visible: self.visible@,
            pending: match self.pending {
                Some((metadata, entries)) => Some((metadata@, entries@)),
                None => None,
            },
        }
    }
}

fn starts_with_magic(bytes: &[u8]) -> (r: bool)
    ensures
        r == is_envelope(bytes@),
{
    if bytes.len() < 8 {
        return false;
    }
    let r: bool = bytes[0] == 73 && bytes[1] == 78 && bytes[2] == 70 && bytes[3] == 83 && bytes[4] == 86
        && bytes[5] == 83 && bytes[6] == 48 && bytes[7] == 50;
    proof {
        let m = checkpoint_magic();
        if r {
            assert(bytes@.take(8) =~= m);
        } else if bytes@.take(8) == m {
            assert(forall|k: int| 0 <= k < 8 ==> bytes@[k] == bytes@.take(8)[k]);
        }
    }
    r
}

/// `result` is what `parse_state` says of `bytes`.
pub open spec fn frames(result: Result<StateFrame, SlowVectorStateError>, bytes: Seq<u8>) -> bool {
    match parse_state(bytes) {
        Ok(parts) => result is Ok && result->Ok_0.parts() == parts,
        Err(EnvelopeFault::HeaderTruncated) => result is Err && result->Err_0 is Parse
            && result->Err_0->Parse_0 is HeaderTruncated,
        Err(EnvelopeFault::LengthOverflow) => result is Err && result->Err_0 is Parse
            && result->Err_0->Parse_0 is LengthOverflow,
        Err(EnvelopeFault::LengthMismatch) => result is Err && result->Err_0 is Parse
            && result->Err_0->Parse_0 is LengthMismatch,
    }
}

/// Takes a state blob apart. Without the magic number the whole blob is the
/// membership.
pub fn decode_state<'a>(bytes: &'a [u8]) -> (result: Result<StateFrame<'a>, SlowVectorStateError>)
    ensures
        frames(result, bytes@),
{
    if !starts_with_magic(bytes) {
        return Ok(StateFrame { visible: bytes, pending: None });
    }
    if bytes.len() < CHECKPOINT_HEADER_BYTES {
        return Err(SlowVectorStateError::Parse(ParseFault::HeaderTruncated));
    }
    let max: u64 = usize::MAX as u64;
    let visible_len: u64 = u64_at(bytes, 8);
    let metadata_len: u64 = u64_at(bytes, 16);
    let pending_len: u64 = u64_at(bytes, 24);
    if visible_len > max - 32 {
        return Err(SlowVectorStateError::Parse(ParseFault::LengthOverflow));
    }
    let visible_end: u64 = 32 + visible_len;
    if metadata_len > max - visible_end {
        return Err(SlowVectorStateError::Parse(ParseFault::LengthOverflow));
    }
    let metadata_end: u64 = visible_end + metadata_len;
    if pending_len > max - metadata_end {
        return Err(SlowVectorStateError::Parse(ParseFault::LengthOverflow));
    }
    let pending_end: u64 = metadata_end + pending_len;
    if pending_end != bytes.len() as u64 {
        return Err(SlowVectorStateError::Parse(ParseFault::LengthMismatch));
    }
    Ok(
        StateFrame {
            visible: vstd::slice::slice_subrange(bytes, 32, visible_end as usize),
            pending: Some(
                (
                    vstd::slice::slice_subrange(bytes, visible_end as usize, metadata_end as usize),
                    vstd::slice::slice_subrange(bytes, metadata_end as usize, pending_end as usize),
                ),
            ),
        },
    )
}

/// Takes a fetched state blob apart after holding it to the hash that it is
/// addressed by.
pub fn load_full_state<'a>(bytes: &'a [u8], expected: &ContentHash) -> (result: Result<
    StateFrame<'a>,
    SlowVectorStateError,
>)
    ensures
        blake3_digest(bytes@) == expected.bytes@ ==> frames(result, bytes@),
        blake3_digest(bytes@) != expected.bytes@ ==> result is Err && result->Err_0 is HashMismatch,
{
    let got = ContentHash::of(bytes);
    load_hashed_state(bytes, &got, expected)
}

/// Takes a fetched state blob apart whose hash came out as `got`.
pub fn load_hashed_state<'a>(bytes: &'a [u8], got: &ContentHash, expected: &ContentHash) -> (result: Result<
    StateFrame<'a>,
    SlowVectorStateError,
>)
    ensures
        got.bytes@ == expected.bytes@ ==> frames(result, bytes@),
        got.bytes@ != expected.bytes@ ==> result is Err && result->Err_0 is HashMismatch,
{
    if !got.same_as(expected) {
        return Err(SlowVectorStateError::HashMismatch);
    }
    decode_state(bytes)
}

/// A fetched graph section after holding it to the hash that it is addressed
/// by.
pub fn fetch_graph_section<'a>(bytes: &'a [u8], expected: &ContentHash) -> (result: Result<
    &'a [u8],
    SlowVectorStateError,
>)
    ensures
        blake3_digest(bytes@) == expected.bytes@ ==> result is Ok && result->Ok_0@ == bytes@,
        blake3_digest(bytes@) != expected.bytes@ ==> result is Err && result->Err_0 is HashMismatch,
{
    let got = ContentHash::of(bytes);
    if got.same_as(expected) {
        Ok(bytes)
    } else {
        Err(SlowVectorStateError::HashMismatch)
    }
}

/// A drain's state that is not yet visible.
pub struct PendingDrainState<E> {
    pub metadata: Vec<u8>,
    pub entries: Vec<E>,
}

/// A decoded state: the visible entries, and the pending ones of a drain that is
/// under way.
pub struct SlowVectorState<E> {
    pub entries: Vec<E>,
    pub pending_drain: Option<PendingDrainState<E>>,
}

/// A decoded state from the decoded memberships of its parts. The visible
/// membership is decoded first, so that its failure is the one reported.
pub fn assemble_state<E>(
    visible: Result<Vec<E>, String>,
    pending: Option<(Vec<u8>, Result<Vec<E>, String>)>,
) -> (result: Result<SlowVectorState<E>, SlowVectorStateError>)
    ensures
        match (visible, pending) {
            (Err(e), _) => result is Err && result->Err_0 is Parse && result->Err_0->Parse_0 is Entries
                && result->Err_0->Parse_0->Entries_0 == e,
            (Ok(_), Some((_, Err(e)))) => result is Err && result->Err_0 is Parse && result->Err_0->Parse_0 is Entries
                && result->Err_0->Parse_0->Entries_0 == e,
            (Ok(entries), Some((metadata, Ok(uploaded)))) => result is Ok && result->Ok_0.entries == entries
                && result->Ok_0.pending_drain is Some && result->Ok_0.pending_drain->0.metadata == metadata
                && result->Ok_0.pending_drain->0.entries == uploaded,
            (Ok(entries), None) => result is Ok && result->Ok_0.entries == entries
                && result->Ok_0.pending_drain is None,
        },
{
    let entries = match visible {
        Ok(entries) => entries,
        Err(e) => {
            return Err(SlowVectorStateError::Parse(ParseFault::Entries(e)));
        },
    };
    match pending {
        None => Ok(SlowVectorState { entries, pending_drain: None }),
        Some((metadata, decoded)) => match decoded {
            Ok(uploaded) => Ok(
                SlowVectorState {
                    entries,
                    pending_drain: Some(PendingDrainState { metadata, entries: uploaded }),
                },
            ),
            Err(e) => Err(SlowVectorStateError::Parse(ParseFault::Entries(e))),
        },
    }
}

// ---------------------------------------------------------------------------
// Striped fetches
// ---------------------------------------------------------------------------

/// The distance between the starts of two stripes.
pub open spec fn stripe_step(chunk: u64) -> int {
    if chunk == 0 {
        1
    } else {
        chunk as int
    }
}

/// The `i`th stripe of an object of `size` bytes starts at the `i`th multiple of
/// the step, below `size`, and ends after `chunk` bytes or with the object.
pub open spec fn is_stripe(range: Range<u64>, i: int, size: u64, chunk: u64) -> bool {
    let start = i * stripe_step(chunk);
    &&& range.start == start
    &&& start < size
    &&& range.end == if start + chunk <= size {
        start + chunk
    } else {
        size as int
    }
}

/// The stripes of an object of `size` bytes: one starts at every multiple of the
/// step below `size`.
pub open spec fn are_stripes(ranges: Seq<Range<u64>>, size: u64, chunk: u64) -> bool {
    &&& forall|i: int| 0 <= i < ranges.len() ==> is_stripe(#[trigger] ranges[i], i, size, chunk)
    &&& ranges.len() * stripe_step(chunk) >= size
}

/// The ranges in which a large object is fetched.
pub fn striped_ranges(size: u64, chunk_bytes: u64) -> (ranges: Vec<Range<u64>>)
    ensures
        are_stripes(ranges@, size, chunk_bytes),
{
    let step: u64 = if chunk_bytes == 0 {
        1
    } else {
        chunk_bytes
    };
    let mut ranges: Vec<Range<u64>> = Vec::new();
    let mut start: u64 = 0;
    let mut more: bool = size > 0;
    assert(0 * stripe_step(chunk_bytes) == 0) by (nonlinear_arith);
    while more
        invariant
            step == stripe_step(chunk_bytes),
            more ==> start == ranges.len() * stripe_step(chunk_bytes),
            more ==> start < size,
            !more ==> ranges@.len() * stripe_step(chunk_bytes) >= size,
            forall|i: int|
                0 <= i < ranges.len() ==> is_stripe(#[trigger] ranges@[i], i, size, chunk_bytes),
        decreases
                if more {
                    size - start
                } else {
                    0
                },
    {
        let left: u64 = size - start;
        let end: u64 = if chunk_bytes <= left {
            start + chunk_bytes
        } else {
            size
        };
        assert((ranges.len() + 1) * stripe_step(chunk_bytes) == start + step) by (nonlinear_arith)
            requires
                start == ranges.len() * stripe_step(chunk_bytes),
                step == stripe_step(chunk_bytes),
        ;
        ranges.push(Range { start, end });
        if step < left {
            start = start + step;
        } else {
            more = false;
        }
    }
    ranges
}

/// The chunks one after the other.
pub open spec fn joined(chunks: Seq<Seq<u8>>) -> Seq<u8>
    decreases chunks.len(),
{
    if chunks.len() == 0 {
        Seq::empty()
    } else {
        joined(chunks.drop_last()) + chunks.last()
    }
}

/// The bytes of each stripe.
pub open spec fn stripe_bytes(object: Seq<u8>, ranges: Seq<Range<u64>>) -> Seq<Seq<u8>> {
    Seq::new(ranges.len(), |i: int| object.subrange(ranges[i].start as int, ranges[i].end as int))
}

/// The stripes of an object, one after the other, are the object.
pub proof fn stripes_reassemble(object: Seq<u8>, ranges: Seq<Range<u64>>, chunk: u64)
    requires
        object.len() <= u64::MAX,
        chunk > 0,
        are_stripes(ranges, object.len() as u64, chunk),
    ensures
        joined(stripe_bytes(object, ranges)) == object,
{
    let size = object.len() as u64;
    let n = ranges.len();
    stripe_prefix(object, ranges, chunk, n);
    if n > 0 {
        let last = (n - 1) as int;
        assert(ranges[last].start == last * stripe_step(chunk));
        assert(n * stripe_step(chunk) == last * stripe_step(chunk) + stripe_step(chunk)) by (nonlinear_arith)
            requires
                last == n - 1,
        ;
    } else {
        assert(n * stripe_step(chunk) == 0) by (nonlinear_arith)
            requires
                n == 0,
        ;
        assert(size == 0);
    }
    assert(ranges.take(n as int) =~= ranges);
    assert(object.take(reach(size, chunk, n)) =~= object);
}

/// How far the first `n` stripes reach.
spec fn reach(size: u64, chunk: u64, n: nat) -> int {
    if n * stripe_step(chunk) <= size {
        n * stripe_step(chunk)
    } else {
        size as int
    }
}

proof fn stripe_prefix(object: Seq<u8>, ranges: Seq<Range<u64>>, chunk: u64, n: nat)
    requires
        object.len() <= u64::MAX,
        chunk > 0,
        are_stripes(ranges, object.len() as u64, chunk),
        n <= ranges.len(),
    ensures
        joined(stripe_bytes(object, ranges.take(n as int))) == object.take(
            reach(object.len() as u64, chunk, n),
        ),
    decreases n,
{
    let size = object.len() as u64;
    let step = stripe_step(chunk);
    let all = stripe_bytes(object, ranges.take(n as int));
    if n == 0 {
        assert(all =~= Seq::<Seq<u8>>::empty());
        assert(object.take(0) =~= Seq::<u8>::empty());
        assert(0 * step == 0) by (nonlinear_arith);
        assert(reach(size, chunk, 0) == 0);
    } else {
        let m = (n - 1) as nat;
        stripe_prefix(object, ranges, chunk, m);
        assert(all.drop_last() =~= stripe_bytes(object, ranges.take(m as int)));
        assert(all.last() == object.subrange(ranges[m as int].start as int, ranges[m as int].end as int));
        assert(ranges[m as int].start == m * step);
        assert(n * step == m * step + step) by (nonlinear_arith)
            requires
                n == m + 1,
        ;
        assert(object.take(reach(size, chunk, m)) + all.last() =~= object.take(reach(size, chunk, n)));
    }
}

/// Puts fetched chunks together in their order.
pub fn join_chunks(chunks: &Vec<Vec<u8>>) -> (bytes: Vec<u8>)
    ensures
        bytes@ == joined(chunk_views(chunks@)),
{
    let mut bytes: Vec<u8> = Vec::new();
    let mut i: usize = 0;
    assert(chunk_views(chunks@).take(0) =~= Seq::<Seq<u8>>::empty());
    assert(bytes@ =~= joined(chunk_views(chunks@).take(0)));
    while i < chunks.len()
        invariant
            i <= chunks.len(),
            bytes@ == joined(chunk_views(chunks@).take(i as int)),
        decreases chunks.len() - i,
    {
        push_bytes(&mut bytes, chunks[i].as_slice());
        proof {
            let v = chunk_views(chunks@);
            assert(v.take(i + 1).drop_last() =~= v.take(i as int));
            assert(v.take(i + 1).last() == chunks@[i as int]@);
        }
        i = i + 1;
    }
    assert(chunk_views(chunks@).take(i as int) =~= chunk_views(chunks@));
    bytes
}

/// The chunks as byte strings.
pub open spec fn chunk_views(chunks: Seq<Vec<u8>>) -> Seq<Seq<u8>> {
    Seq::new(chunks.len(), |i: int| chunks[i]@)
}

/// How an object is fetched: whole when it is at most one chunk, and else in
/// stripes.
pub fn fetch_plan(size: u64, chunk_bytes: u64) -> (plan: Option<Vec<Range<u64>>>)
    ensures
        plan is None <==> size <= chunk_bytes,
        plan matches Some(ranges) ==> are_stripes(ranges@, size, chunk_bytes),
{
    if size <= chunk_bytes {
        None
    } else {
        Some(striped_ranges(size, chunk_bytes))
    }
}

} // verus!
