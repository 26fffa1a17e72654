//! Publishing a commit: what is stamped on the manifest, how an attempt that
//! lost a race is repeated, and what becomes of the superfiles that are written.
use vstd::arithmetic::power2::{lemma2_to64, lemma_pow2_strictly_increases, lemma_pow2_unfold, pow2};
use vstd::prelude::*;

use std::ops::Range;

use crate::arith::capped;
use crate::slow_state::{are_stripes, striped_ranges};
use crate::superseded::SupersededCells;
use crate::wal_store::{Etag, StorageFault};

verus! {

/// The size of the parts of a large upload.
pub const SUPERFILE_MULTIPART_PART_BYTES: u64 = 8388608;

/// How many manifest ids one retry looks at.
pub const MAX_ORPHAN_RUN_PROBES: u64 = 32;

/// The most reads that a drain has under way when it picks the number itself.
pub const DRAIN_READ_CONCURRENCY_CAP: usize = 64;

// ---------------------------------------------------------------------------
// Stamps
// ---------------------------------------------------------------------------

/// What a commit stamps on the manifest besides its superfiles. `P`, `G` and `R`
/// are handles of the partition strategy, the global grid and the graph.
#[derive(Debug)]
pub struct CommitListMetadata<P, G, R> {
    pub partition_strategy: Option<P>,
    pub global_vector_index: Option<G>,
    pub drained_ranges: Option<Vec<(u64, u64)>>,
    pub superseded_cells_additions: Option<SupersededCells>,
    /// The graph to stamp; `Some(None)` stamps that there is none.
    pub graph_ref: Option<Option<R>>,
}

/// The stamps of a manifest.
#[derive(Debug)]
pub struct ManifestStamps<P, G, R> {
    pub partition_strategy: P,
    pub global_vector_index: Option<G>,
    pub drained_ranges: Vec<(u64, u64)>,
    pub superseded_cells: SupersededCells,
    pub graph_ref: Option<R>,
}

fn copy_ranges(ranges: &Vec<(u64, u64)>) -> (out: Vec<(u64, u64)>)
    ensures
        out@ == ranges@,
{
    let mut out: Vec<(u64, u64)> = Vec::new();
    let mut i: usize = 0;
    while i < ranges.len()
        invariant
            i <= ranges.len(),
            out@ == ranges@.take(i as int),
        decreases ranges.len() - i,
    {
        out.push(ranges[i]);
        i = i + 1;
        assert(out@ =~= ranges@.take(i as int));
    }
    assert(out@ =~= ranges@);
    out
}

impl<P: Copy, G: Copy, R: Copy> CommitListMetadata<P, G, R> {
    /// Nothing is stamped.
    pub fn empty() -> (m: CommitListMetadata<P, G, R>)
        ensures
            m.stamps_nothing(),
    {
        CommitListMetadata {
            partition_strategy: None,
            global_vector_index: None,
            drained_ranges: None,
            superseded_cells_additions: None,
            graph_ref: None,
        }
    }

    pub open spec fn stamps_nothing(self) -> bool {
        &&& self.partition_strategy is None
        &&& self.global_vector_index is None
        &&& self.drained_ranges is None
        &&& self.superseded_cells_additions is None
        &&& self.graph_ref is None
    }

    /// Nothing is stamped.
    pub fn is_empty(&self) -> (r: bool)
        ensures
            r == self.stamps_nothing(),
    {
        self.partition_strategy.is_none() && self.global_vector_index.is_none()
            && self.drained_ranges.is_none() && self.superseded_cells_additions.is_none()
            && self.graph_ref.is_none()
    }

    /// What the manifest has after the stamps: each that is given in place of
    /// the old one, the superseded cells besides the old ones, and the rest as
    /// it was.
    pub open spec fn stamped(self, base: ManifestStamps<P, G, R>, out: ManifestStamps<P, G, R>) -> bool {
        &&& out.partition_strategy == match self.partition_strategy {
            Some(p) => p,
            None => base.partition_strategy,
        }
        &&& out.global_vector_index == match self.global_vector_index {
            Some(g) => Some(g),
            None => base.global_vector_index,
        }
        &&& out.drained_ranges@ == match self.drained_ranges {
            Some(d) => d@,
            None => base.drained_ranges@,
        }
        &&& out.superseded_cells@ == match self.superseded_cells_additions {
            Some(s) => base.superseded_cells@.union(s@),
            None => base.superseded_cells@,
        }
        &&& out.graph_ref == match self.graph_ref {
            Some(r) => r,
            None => base.graph_ref,
        }
    }

    /// Puts the stamps on a manifest. Every attempt does so anew, on the
    /// manifest that it starts from.
    pub fn apply(&self, base: &ManifestStamps<P, G, R>) -> (out: ManifestStamps<P, G, R>)
        ensures
            self.stamped(*base, out),
    {
        let partition_strategy = match self.partition_strategy {
            Some(p) => p,
            None => base.partition_strategy,
        };
        let global_vector_index = match self.global_vector_index {
            Some(g) => Some(g),
            None => base.global_vector_index,
        };
        let drained_ranges = match &self.drained_ranges {
            Some(d) => copy_ranges(d),
            None => copy_ranges(&base.drained_ranges),
        };
        let mut superseded_cells = SupersededCells::new();
        superseded_cells.absorb(&base.superseded_cells);
        assert(superseded_cells@ =~= base.superseded_cells@);
        if let Some(s) = &self.superseded_cells_additions {
            superseded_cells.absorb(s);
        }
        let graph_ref = match self.graph_ref {
            Some(r) => r,
            None => base.graph_ref,
        };
        ManifestStamps {
            partition_strategy,
            global_vector_index,
            drained_ranges,
            superseded_cells,
            graph_ref,
        }
    }
}

/// Stamps that are put on once more, after a retry, change nothing more.
pub proof fn stamps_are_idempotent<P: Copy, G: Copy, R: Copy>(
    m: CommitListMetadata<P, G, R>,
    base: ManifestStamps<P, G, R>,
    once: ManifestStamps<P, G, R>,
    twice: ManifestStamps<P, G, R>,
)
    requires
        m.stamped(base, once),
        m.stamped(once, twice),
    ensures
        twice.partition_strategy == once.partition_strategy,
        twice.global_vector_index == once.global_vector_index,
        twice.drained_ranges@ == once.drained_ranges@,
        twice.superseded_cells@ == once.superseded_cells@,
        twice.graph_ref == once.graph_ref,
{
    assert(twice.superseded_cells@ =~= once.superseded_cells@);
}

/// Empty stamps leave the manifest as it is, and no stamps ever take a
/// superseded cell back.
pub proof fn stamps_keep_what_they_do_not_name<P: Copy, G: Copy, R: Copy>(
    m: CommitListMetadata<P, G, R>,
    base: ManifestStamps<P, G, R>,
    out: ManifestStamps<P, G, R>,
)
    requires
        m.stamped(base, out),
    ensures
        base.superseded_cells@.subset_of(out.superseded_cells@),
        m.stamps_nothing() ==> {
            &&& out.partition_strategy == base.partition_strategy
            &&& out.global_vector_index == base.global_vector_index
            &&& out.drained_ranges@ == base.drained_ranges@
            &&& out.superseded_cells@ == base.superseded_cells@
            &&& out.graph_ref == base.graph_ref
        },
{
}

/// Whether new superfiles are born with the commit or keep their versions.
#[derive(Clone, Copy, PartialEq, Eq, Structural, Debug)]
pub enum NewEntryBirthVersions {
    /// Rows that users wrote are born in the commit that publishes them.
    StampCommit,
    /// A compaction moves rows and keeps when they were born.
    Preserve,
}

impl NewEntryBirthVersions {
    /// The version that a new superfile is born with.
    pub fn birth_version(self, own: u64, commit: u64) -> (version: u64)
        ensures
            version == match self {
                NewEntryBirthVersions::StampCommit => commit,
                NewEntryBirthVersions::Preserve => own,
            },
    {
        match self {
            NewEntryBirthVersions::StampCommit => commit,
            NewEntryBirthVersions::Preserve => own,
        }
    }
}

/// A table routed by cells has its members in the slow state, which a commit
/// must write anew with them. It goes by the strategy of the manifest that is
/// published, not by the handle's options.
pub fn needs_slow_state(routed_by_cells: bool, n_entries: usize) -> (r: bool)
    ensures
        r == (routed_by_cells && n_entries > 0),
{
    routed_by_cells && n_entries > 0
}

/// A step of one attempt to publish.
#[derive(Clone, Copy, PartialEq, Eq, Structural, Debug)]
pub enum AttemptStep {
    WriteSuperfiles,
    UpdateManifest,
    WriteSlowState,
    /// The version of the pointer that the attempt replaces.
    ReadPointer,
    /// The manifest, and then the pointer to it, if it is still that version.
    WriteManifest,
}

/// The steps of one attempt, in order. All that a manifest points to is written
/// before it, and the pointer comes last.
pub fn attempt_steps(needs_slow_state: bool) -> (steps: Vec<AttemptStep>)
    ensures
        steps@ == if needs_slow_state {
            seq![
                AttemptStep::WriteSuperfiles,
                AttemptStep::UpdateManifest,
                AttemptStep::WriteSlowState,
                AttemptStep::ReadPointer,
                AttemptStep::WriteManifest,
            ]
        } else {
            seq![
                AttemptStep::WriteSuperfiles,
                AttemptStep::UpdateManifest,
                AttemptStep::ReadPointer,
                AttemptStep::WriteManifest,
            ]
        },
{
    let mut steps: Vec<AttemptStep> = Vec::new();
    steps.push(AttemptStep::WriteSuperfiles);
    steps.push(AttemptStep::UpdateManifest);
    if needs_slow_state {
        steps.push(AttemptStep::WriteSlowState);
    }
    steps.push(AttemptStep::ReadPointer);
    steps.push(AttemptStep::WriteManifest);
    steps
}

/// What reading the manifest anew gave.
#[derive(Debug)]
pub enum ManifestRefresh<M> {
    Loaded(M),
    /// The handle has the latest one.
    AlreadyLoaded,
    /// There is no pointer.
    PointerNotFound,
    Failed(String),
}

/// What a refresh between two attempts comes to: a newer manifest, the old one,
/// or a failure.
pub fn refresh_outcome<M>(reply: ManifestRefresh<M>) -> (outcome: Result<Option<M>, String>)
    ensures
        outcome == match reply {
            ManifestRefresh::Loaded(m) => Ok::<Option<M>, String>(Some(m)),
            ManifestRefresh::AlreadyLoaded => Ok(None),
            ManifestRefresh::PointerNotFound => Ok(None),
            ManifestRefresh::Failed(e) => Err(e),
        },
{
    match reply {
        ManifestRefresh::Loaded(m) => Ok(Some(m)),
        ManifestRefresh::AlreadyLoaded => Ok(None),
        ManifestRefresh::PointerNotFound => Ok(None),
        ManifestRefresh::Failed(e) => Err(e),
    }
}

// ---------------------------------------------------------------------------
// Attempts
// ---------------------------------------------------------------------------

/// How an attempt to publish ended.
#[derive(Clone, Copy, PartialEq, Eq, Structural, Debug)]
pub enum AttemptReply {
    Published,
    /// Another writer was first.
    Contention,
    Failed,
}

/// What follows an attempt.
#[derive(Clone, Copy, PartialEq, Eq, Structural, Debug)]
pub enum AfterAttempt {
    Done,
    /// Refresh, wait, and try again.
    Retry,
    /// No attempt is left: the contention is the result.
    Exhausted,
    Fail,
}

/// What is stamped on a manifest whose superfiles stay as they are.
#[derive(Clone, Copy, PartialEq, Eq, Structural, Debug)]
pub enum ListStamp {
    /// The versions of the tombstones of superfiles.
    TombstoneSeqs,
    /// Where the slow state is.
    SlowState,
    /// The ids that are deleted.
    DeletedIds,
}

/// How the look at the pointer that a stamp replaces ended.
#[derive(Clone, Copy, PartialEq, Eq, Structural, Debug)]
pub enum PointerReply {
    Read,
    /// It is another writer's by now.
    Moved,
    Failed,
}

/// What follows the look at the pointer that a stamp replaces.
#[derive(Clone, Copy, PartialEq, Eq, Structural, Debug)]
pub enum AfterPointer {
    Write,
    /// Refresh, wait, and try again; no id was taken.
    Reload,
    Fail,
}

/// The attempts of one commit.
#[derive(Clone, Copy, PartialEq, Eq, Structural, Debug)]
pub struct OccLoop {
    /// The attempt that is under way, from zero.
    pub attempt: u32,
    pub max_retries: u32,
    /// No manifest id below this is free; zero when nothing is known.
    pub next_id_floor: u64,
}

impl OccLoop {
    pub open spec fn well_formed(self) -> bool {
        self.attempt < self.max_retries
    }

    /// The attempts that are left after this one.
    pub open spec fn left(self) -> int {
        self.max_retries - self.attempt - 1
    }

    /// At least one attempt is made.
    pub fn start(configured_retries: u32) -> (l: OccLoop)
        ensures
            l.well_formed(),
            l.attempt == 0,
            l.next_id_floor == 0,
            l.max_retries == if configured_retries == 0 {
                1
            } else {
                configured_retries
            },
    {
        OccLoop {
            attempt: 0,
            max_retries: if configured_retries == 0 {
                1
            } else {
                configured_retries
            },
            next_id_floor: 0,
        }
    }

    /// What follows the attempt that is under way.
    pub fn after(&self, reply: AttemptReply) -> (next: AfterAttempt)
        requires
            self.well_formed(),
        ensures
            next == match reply {
                AttemptReply::Published => AfterAttempt::Done,
                AttemptReply::Contention => if self.left() > 0 {
                    AfterAttempt::Retry
                } else {
                    AfterAttempt::Exhausted
                },
                AttemptReply::Failed => AfterAttempt::Fail,
            },
    {
        match reply {
            AttemptReply::Published => AfterAttempt::Done,
            AttemptReply::Contention => {
                if self.attempt < self.max_retries - 1 {
                    AfterAttempt::Retry
                } else {
                    AfterAttempt::Exhausted
                }
            },
            AttemptReply::Failed => AfterAttempt::Fail,
        }
    }

    /// What follows the look at the pointer in the attempt that is under way. Only
    /// the versions of tombstones are stamped anew when another writer has moved
    /// it.
    pub fn after_pointer(&self, stamp: ListStamp, reply: PointerReply) -> (next: AfterPointer)
        requires
            self.well_formed(),
        ensures
            next == match reply {
                PointerReply::Read => AfterPointer::Write,
                PointerReply::Moved => if stamp is TombstoneSeqs && self.left() > 0 {
                    AfterPointer::Reload
                } else {
                    AfterPointer::Fail
                },
                PointerReply::Failed => AfterPointer::Fail,
            },
    {
        match reply {
            PointerReply::Read => AfterPointer::Write,
            PointerReply::Moved => {
                if matches!(stamp, ListStamp::TombstoneSeqs) && self.attempt < self.max_retries - 1 {
                    AfterPointer::Reload
                } else {
                    AfterPointer::Fail
                }
            },
            PointerReply::Failed => AfterPointer::Fail,
        }
    }

    /// Goes to the next attempt. The floor never falls.
    pub fn retry(&mut self, orphan_floor: u64)
        requires
            old(self).well_formed(),
            old(self).left() > 0,
        ensures
            final(self).well_formed(),
            final(self).max_retries == old(self).max_retries,
            final(self).attempt == old(self).attempt + 1,
            final(self).left() == old(self).left() - 1,
            final(self).next_id_floor == if orphan_floor > old(self).next_id_floor {
                orphan_floor
            } else {
                old(self).next_id_floor
            },
    {
        self.attempt = self.attempt + 1;
        if orphan_floor > self.next_id_floor {
            self.next_id_floor = orphan_floor;
        }
    }

    /// The id that this attempt publishes under: the one after the manifest's,
    /// past the floor.
    pub fn manifest_id(&self, next_id: u64) -> (id: u64)
        ensures
            id >= next_id,
            id >= self.next_id_floor,
            id == next_id || id == self.next_id_floor,
    {
        if self.next_id_floor > next_id {
            self.next_id_floor
        } else {
            next_id
        }
    }
}

/// The wait before an attempt, in milliseconds, before it is varied: ten at
/// first, twice as long with each attempt, and never more than a second.
pub open spec fn backoff_base(attempt: int) -> int {
    capped(10 * pow2(attempt as nat) as int, 1000)
}

/// How long to wait before an attempt, in milliseconds: the base, varied by up
/// to thirty percent either way. The share is cut off towards zero.
pub open spec fn backoff_millis(attempt: int, nanos: int) -> int {
    let base = backoff_base(attempt);
    let percent = nanos % 61 - 30;
    base + if percent >= 0 {
        base * percent / 100
    } else {
        0 - (base * (0 - percent)) / 100
    }
}

fn wait_before(attempt: u32) -> (base: u64)
    ensures
        base == backoff_base(attempt as int),
        10 <= base <= 1000,
{
    let mut base: u64 = 10;
    let mut i: u32 = 0;
    proof {
        lemma2_to64();
    }
    while i < attempt && base < 1000
        invariant
            i <= attempt,
            10 <= base <= 1000,
            base == backoff_base(i as int),
        decreases attempt - i,
    {
        proof {
            lemma_pow2_unfold((i + 1) as nat);
        }
        base = if base < 500 {
            2 * base
        } else {
            1000
        };
        i = i + 1;
    }
    proof {
        if i < attempt {
            lemma_pow2_strictly_increases(i as nat, attempt as nat);
        }
    }
    base
}

/// How long to wait before the next attempt. `nanos` is where the clock stands.
pub fn backoff_delay_ms(attempt: u32, nanos: u32) -> (millis: u64)
    ensures
        millis == backoff_millis(attempt as int, nanos as int),
        7 * backoff_base(attempt as int) <= 10 * millis <= 13 * backoff_base(attempt as int),
        7 <= millis <= 1300,
{
    let base: i64 = wait_before(attempt) as i64;
    let percent: i64 = (nanos % 61) as i64 - 30;
    if percent >= 0 {
        assert(base * percent <= base * 30) by (nonlinear_arith)
            requires
                10 <= base,
                0 <= percent <= 30,
        ;
        assert(base * percent >= 0) by (nonlinear_arith)
            requires
                10 <= base,
                0 <= percent,
        ;
        (base + base * percent / 100) as u64
    } else {
        let less: i64 = 0 - percent;
        assert(base * less <= base * 30) by (nonlinear_arith)
            requires
                10 <= base,
                0 <= less <= 30,
        ;
        assert(base * less >= 0) by (nonlinear_arith)
            requires
                10 <= base,
                0 <= less,
        ;
        (base - base * less / 100) as u64
    }
}

/// What a look at a manifest list found.
#[derive(Clone, Copy, PartialEq, Eq, Structural, Debug)]
pub enum HeadReply {
    Found,
    Missing,
    Failed,
}

/// A look for the first free manifest id after one that was taken by a list
/// nothing points to.
#[derive(Clone, Copy, PartialEq, Eq, Structural, Debug)]
pub struct OrphanWalk {
    pub attempted: u64,
    pub next: u64,
    pub open: bool,
}

impl OrphanWalk {
    /// Where the walk ends at the latest.
    pub open spec fn limit(self) -> int {
        crate::arith::capped(self.attempted + MAX_ORPHAN_RUN_PROBES, u64::MAX as int)
    }

    pub open spec fn well_formed(self) -> bool {
        self.attempted <= self.next <= self.limit()
    }

    /// Starts the walk, unless the manifest has moved past the attempted id: it
    /// was then an ordinary race, and no id is skipped.
    pub fn start(refreshed_id: u64, attempted_id: u64) -> (w: OrphanWalk)
        ensures
            w.well_formed(),
            w.attempted == attempted_id,
            w.next == attempted_id,
            w.open == (refreshed_id < attempted_id),
    {
        OrphanWalk { attempted: attempted_id, next: attempted_id, open: refreshed_id < attempted_id }
    }

    /// The id to look at next.
    pub fn probe(&self) -> (id: Option<u64>)
        requires
            self.well_formed(),
        ensures
            id == if self.open && self.next < self.limit() {
                Some(self.next)
            } else {
                None
            },
    {
        let limit: u64 = self.attempted.saturating_add(MAX_ORPHAN_RUN_PROBES);
        if self.open && self.next < limit {
            Some(self.next)
        } else {
            None
        }
    }

    /// Takes in what the look found. A free id and a failed look both end the
    /// walk where it is.
    pub fn step(&mut self, reply: HeadReply)
        requires
            old(self).well_formed(),
            old(self).open,
            old(self).next < old(self).limit(),
        ensures
            final(self).well_formed(),
            final(self).attempted == old(self).attempted,
            final(self).limit() == old(self).limit(),
            final(self).open == (reply is Found),
            final(self).next == if reply is Found {
                old(self).next + 1
            } else {
                old(self).next as int
            },
    {
        match reply {
            HeadReply::Found => {
                self.next = self.next + 1;
            },
            _ => {
                self.open = false;
            },
        }
    }

    /// The floor for the next attempt: the end of the run of taken ids, or zero
    /// when the attempted id was not taken.
    pub fn floor(&self) -> (floor: u64)
        ensures
            floor == if self.next > self.attempted {
                self.next
            } else {
                0
            },
    {
        if self.next > self.attempted {
            self.next
        } else {
            0
        }
    }
}

/// The walk after these looks.
pub open spec fn walked(attempted: u64, replies: Seq<HeadReply>) -> OrphanWalk
    decreases replies.len(),
{
    if replies.len() == 0 {
        OrphanWalk { attempted, next: attempted, open: true }
    } else {
        let before = walked(attempted, replies.drop_last());
        if before.open && before.next < before.limit() {
            OrphanWalk {
                next: if replies.last() is Found {
                    (before.next + 1) as u64
                } else {
                    before.next
                },
                open: replies.last() is Found,
                ..before
            }
        } else {
            before
        }
    }
}

/// Every id below the floor was found taken: a walk skips no free id.
pub proof fn walk_skips_only_taken_ids(attempted: u64, replies: Seq<HeadReply>, i: int)
    requires
        0 <= i < walked(attempted, replies).next - attempted,
    ensures
        walked(attempted, replies).next - attempted <= replies.len(),
        walked(attempted, replies).next <= walked(attempted, replies).limit(),
        replies[i] is Found,
    decreases replies.len(),
{
    walk_bounds(attempted, replies);
    let init = replies.drop_last();
    let before = walked(attempted, init);
    walk_bounds(attempted, init);
    if i < before.next - attempted {
        walk_skips_only_taken_ids(attempted, init, i);
        assert(init[i] == replies[i]);
    } else {
        open_walk_counts(attempted, init);
        assert(i == init.len());
    }
}

proof fn walk_bounds(attempted: u64, replies: Seq<HeadReply>)
    ensures
        walked(attempted, replies).attempted == attempted,
        walked(attempted, replies).well_formed(),
        walked(attempted, replies).next - attempted <= replies.len(),
    decreases replies.len(),
{
    if replies.len() > 0 {
        walk_bounds(attempted, replies.drop_last());
    }
}

proof fn open_walk_counts(attempted: u64, replies: Seq<HeadReply>)
    requires
        walked(attempted, replies).open,
        walked(attempted, replies).next < walked(attempted, replies).limit(),
    ensures
        walked(attempted, replies).next - attempted == replies.len(),
    decreases replies.len(),
{
    if replies.len() > 0 {
        let before = walked(attempted, replies.drop_last());
        walk_bounds(attempted, replies.drop_last());
        if before.open && before.next < before.limit() {
            open_walk_counts(attempted, replies.drop_last());
        }
    }
}

// ---------------------------------------------------------------------------
// Writing superfiles
// ---------------------------------------------------------------------------

/// What replacing a superfile comes to, by what its path holds.
#[derive(Debug)]
pub enum ReplaceStep {
    /// Overwrite the version that is there.
    PutIfMatch(Option<Etag>),
    /// Nothing is there: create it.
    PutAtomic,
    Fail(StorageFault),
}

/// Decides how a superfile is replaced.
pub fn replace_step(head: Result<Option<Etag>, StorageFault>) -> (step: ReplaceStep)
    ensures
        match head {
            Ok(etag) => step == ReplaceStep::PutIfMatch(etag),
            Err(f) => if f is NotFound {
                step == ReplaceStep::PutAtomic
            } else {
                step == ReplaceStep::Fail(f)
            },
        },
{
    match head {
        Ok(etag) => ReplaceStep::PutIfMatch(etag),
        Err(StorageFault::NotFound) => ReplaceStep::PutAtomic,
        Err(f) => ReplaceStep::Fail(f),
    }
}

/// A superfile this long is uploaded in parts.
pub fn uploads_in_parts(len: u64, threshold: u64) -> (parts: bool)
    ensures
        parts == (len >= threshold),
{
    len >= threshold
}

/// What a new superfile's upload comes to. Its path is its own, so one that is
/// there already was put there by an earlier attempt, with the same bytes.
pub fn new_superfile_outcome(reply: Result<(), StorageFault>) -> (outcome: Result<(), StorageFault>)
    ensures
        outcome == match reply {
            Err(f) => if f is PreconditionFailed {
                Ok::<(), StorageFault>(())
            } else {
                Err(f)
            },
            Ok(_) => Ok(()),
        },
{
    match reply {
        Ok(_) => Ok(()),
        Err(StorageFault::PreconditionFailed) => Ok(()),
        Err(f) => Err(f),
    }
}

/// An upload in parts carries no condition, so what is there is looked at
/// first: an object that is there ends it as a failed condition does.
pub fn multipart_check(head: Result<(), StorageFault>) -> (go: Result<(), StorageFault>)
    ensures
        go == match head {
            Ok(_) => Err::<(), StorageFault>(StorageFault::PreconditionFailed),
            Err(f) => if f is NotFound {
                Ok(())
            } else {
                Err(f)
            },
        },
{
    match head {
        Ok(_) => Err(StorageFault::PreconditionFailed),
        Err(StorageFault::NotFound) => Ok(()),
        Err(f) => Err(f),
    }
}

/// The parts of an upload.
pub fn multipart_parts(len: u64) -> (parts: Vec<Range<u64>>)
    ensures
        are_stripes(parts@, len, SUPERFILE_MULTIPART_PART_BYTES),
{
    striped_ranges(len, SUPERFILE_MULTIPART_PART_BYTES)
}

/// How one of several writes ended.
#[derive(Debug)]
pub struct WriteReply<E> {
    pub index: usize,
    pub result: Result<(), E>,
}

/// The write at `i` landed.
pub open spec fn landed<E>(replies: Seq<WriteReply<E>>, i: int) -> bool {
    exists|k: int| 0 <= k < replies.len() && (#[trigger] replies[k]).index == i && replies[k].result is Ok
}

/// What is still to be written, from `i` on.
pub open spec fn still_pending<T, E>(pending: Seq<T>, replies: Seq<WriteReply<E>>, i: int) -> Seq<T>
    decreases pending.len() - i,
{
    if i >= pending.len() || i < 0 {
        Seq::empty()
    } else {
        let rest = still_pending(pending, replies, i + 1);
        if landed(replies, i) {
            rest
        } else {
            seq![pending[i]] + rest
        }
    }
}

/// The error that is reported: the last one that came.
pub open spec fn last_error<E>(replies: Seq<WriteReply<E>>) -> Option<E>
    decreases replies.len(),
{
    if replies.len() == 0 {
        None
    } else {
        match replies.last().result {
            Err(e) => Some(e),
            Ok(_) => last_error(replies.drop_last()),
        }
    }
}

/// Takes the replies to a set of writes in: what landed is no longer pending,
/// the rest stays in its order, and the last error is reported.
pub fn settle_writes<T, E>(pending: &mut Vec<T>, replies: Vec<WriteReply<E>>) -> (result: Result<(), E>)
    ensures
        final(pending)@ == still_pending(old(pending)@, replies@, 0),
        match last_error(replies@) {
            Some(e) => result == Err::<(), E>(e),
            None => result == Ok::<(), E>(()),
        },
{
    let ghost was = pending@;
    let ghost all = replies@;
    let mut done: Vec<bool> = Vec::new();
    let mut d: usize = 0;
    while d < pending.len()
        invariant
            d <= pending.len(),
            done.len() == d,
            forall|i: int| 0 <= i < d ==> !#[trigger] done@[i],
        decreases pending.len() - d,
    {
        done.push(false);
        d = d + 1;
    }
    let mut k: usize = 0;
    while k < replies.len()
        invariant
            k <= replies.len(),
            done.len() == pending.len(),
            forall|i: int| 0 <= i < done.len() ==> #[trigger] done@[i] == landed(replies@.take(k as int), i),
        decreases replies.len() - k,
    {
        let ok: bool = replies[k].result.is_ok();
        let at: usize = replies[k].index;
        let ghost before = done@;
        let ghost less = replies@.take(k as int);
        let ghost more = replies@.take(k + 1);
        if ok && at < done.len() {
            done.set(at, true);
        }
        proof {
            assert forall|i: int| 0 <= i < done.len() implies #[trigger] done@[i] == landed(more, i) by {
                assert(before[i] == landed(less, i));
                if landed(less, i) {
                    let q = choose|q: int|
                        0 <= q < less.len() && (#[trigger] less[q]).index == i && less[q].result is Ok;
                    assert(more[q] == less[q]);
                }
                if landed(more, i) {
                    let q = choose|q: int|
                        0 <= q < more.len() && (#[trigger] more[q]).index == i && more[q].result is Ok;
                    if q < k {
                        assert(less[q] == more[q]);
                    }
                }
                if ok && at == i {
                    assert(more[k as int].index == i && more[k as int].result is Ok);
                }
            }
        }
        k = k + 1;
    }
    assert(replies@.take(k as int) =~= replies@);
    let mut i: usize = pending.len();
    assert(was.take(i as int) + still_pending(was, all, i as int) =~= pending@);
    while i > 0
        invariant
            i <= was.len(),
            done.len() == was.len(),
            all == replies@,
            pending@ == was.take(i as int) + still_pending(was, all, i as int),
            forall|q: int| 0 <= q < done.len() ==> #[trigger] done@[q] == landed(all, q),
        decreases i,
    {
        let ghost before = pending@;
        let ghost rest = still_pending(was, all, i as int);
        i = i - 1;
        if done[i] {
            let gone = pending.remove(i);
            assert(pending@ =~= was.take(i as int) + still_pending(was, all, i as int));
        } else {
            assert(before =~= was.take(i as int) + (seq![was[i as int]] + rest));
        }
    }
    assert(pending@ =~= still_pending(was, all, 0));
    let mut rest = replies;
    while rest.len() > 0
        invariant
            last_error(rest@) == last_error(all),
            pending@ == still_pending(was, all, 0),
            was == old(pending)@,
            all == replies@,
        decreases rest.len(),
    {
        let ghost before = rest@;
        let next = rest.pop();
        assert(rest@ =~= before.drop_last());
        if let Some(reply) = next {
            assert(reply == before.last());
            if let Err(e) = reply.result {
                return Err(e);
            }
        }
    }
    Ok(())
}

/// Where the writing of a commit's superfiles stands.
#[derive(Debug)]
pub enum ListStep<E> {
    /// The files that are replaced are sent.
    SendReplaces,
    /// The new files are sent.
    SendWrites,
    /// Nothing more is sent.
    Done(Result<(), E>),
}

/// Takes the replies of one round of a commit's writes in. The files that are
/// replaced go first; the new ones are sent only when those have all landed, so
/// that no new file is written after a replacement has failed.
pub fn write_superfile_list<T, E>(
    step: ListStep<E>,
    pending_writes: &mut Vec<T>,
    pending_replaces: &mut Vec<T>,
    replies: Vec<WriteReply<E>>,
) -> (next: ListStep<E>)
    ensures
        match step {
            ListStep::SendReplaces => {
                &&& final(pending_replaces)@ == still_pending(old(pending_replaces)@, replies@, 0)
                &&& final(pending_writes)@ == old(pending_writes)@
                &&& match last_error(replies@) {
                    Some(e) => next == ListStep::Done(Err::<(), E>(e)),
                    None => next == ListStep::<E>::SendWrites,
                }
            },
            ListStep::SendWrites => {
                &&& final(pending_replaces)@ == old(pending_replaces)@
                &&& final(pending_writes)@ == still_pending(old(pending_writes)@, replies@, 0)
                &&& match last_error(replies@) {
                    Some(e) => next == ListStep::Done(Err::<(), E>(e)),
                    None => next == ListStep::Done(Ok::<(), E>(())),
                }
            },
            ListStep::Done(_) => {
                &&& final(pending_replaces)@ == old(pending_replaces)@
                &&& final(pending_writes)@ == old(pending_writes)@
                &&& next == step
            },
        },
{
    match step {
        ListStep::SendReplaces => match settle_writes(pending_replaces, replies) {
            Err(e) => ListStep::Done(Err(e)),
            Ok(_) => ListStep::SendWrites,
        },
        ListStep::SendWrites => ListStep::Done(settle_writes(pending_writes, replies)),
        ListStep::Done(result) => ListStep::Done(result),
    }
}

/// A file that landed is never written again, and one that did not stays
/// pending.
pub proof fn pending_files_are_those_not_landed<T, E>(
    pending: Seq<T>,
    replies: Seq<WriteReply<E>>,
    from: int,
    i: int,
)
    requires
        0 <= from <= i < pending.len(),
        pending.no_duplicates(),
    ensures
        still_pending(pending, replies, from).contains(pending[i]) <==> !landed(replies, i),
        still_pending(pending, replies, from).len() <= pending.len() - from,
    decreases pending.len() - from,
{
    let all = still_pending(pending, replies, from);
    let rest = still_pending(pending, replies, from + 1);
    pending_from(pending, replies, from + 1);
    if from < i {
        pending_files_are_those_not_landed(pending, replies, from + 1, i);
        if rest.contains(pending[i]) {
            let k = choose|k: int| 0 <= k < rest.len() && rest[k] == pending[i];
            if landed(replies, from) {
                assert(all[k] == pending[i]);
            } else {
                assert(all[k + 1] == pending[i]);
            }
        }
        if all.contains(pending[i]) {
            let k = choose|k: int| 0 <= k < all.len() && all[k] == pending[i];
            if landed(replies, from) {
                assert(rest[k] == pending[i]);
            } else {
                assert(k > 0);
                assert(rest[k - 1] == pending[i]);
            }
        }
    } else {
        if !landed(replies, i) {
            assert(all[0] == pending[i]);
        } else if all.contains(pending[i]) {
            let k = choose|k: int| 0 <= k < all.len() && all[k] == pending[i];
            assert(rest[k] == pending[i]);
        }
    }
}

proof fn pending_from<T, E>(pending: Seq<T>, replies: Seq<WriteReply<E>>, from: int)
    requires
        0 <= from <= pending.len(),
    ensures
        still_pending(pending, replies, from).len() <= pending.len() - from,
        forall|k: int|
            0 <= k < still_pending(pending, replies, from).len() ==> exists|q: int|
                from <= q < pending.len() && #[trigger] pending[q] == #[trigger] still_pending(
                    pending,
                    replies,
                    from,
                )[k],
    decreases pending.len() - from,
{
    if from < pending.len() {
        pending_from(pending, replies, from + 1);
        let all = still_pending(pending, replies, from);
        let rest = still_pending(pending, replies, from + 1);
        assert forall|k: int| 0 <= k < all.len() implies exists|q: int|
            from <= q < pending.len() && #[trigger] pending[q] == #[trigger] all[k] by {
            if landed(replies, from) {
                let q = choose|q: int| from + 1 <= q < pending.len() && #[trigger] pending[q] == rest[k];
                assert(pending[q] == all[k]);
            } else if k == 0 {
                assert(pending[from] == all[0]);
            } else {
                let q = choose|q: int|
                    from + 1 <= q < pending.len() && #[trigger] pending[q] == rest[k - 1];
                assert(pending[q] == all[k]);
            }
        }
    }
}

/// How many writes a commit has under way: half the processors, at least one.
pub fn commit_write_concurrency(cpus: Option<usize>) -> (n: usize)
    ensures
        n == match cpus {
            Some(c) => if c / 2 > 0 {
                c / 2
            } else {
                1
            },
            None => 1,
        },
{
    match cpus {
        Some(c) => {
            if c / 2 > 0 {
                c / 2
            } else {
                1
            }
        },
        None => 1,
    }
}

/// How many reads a drain has under way: the configured number, or one for each
/// processor within bounds.
pub fn drain_read_concurrency(fixed: Option<usize>, cpus: Option<usize>, prefetch: usize) -> (n: usize)
    requires
        prefetch <= DRAIN_READ_CONCURRENCY_CAP,
    ensures
        (fixed matches Some(f) && f > 0) ==> n == fixed->0,
        !(fixed matches Some(f) && f > 0) ==> {
            let c = match cpus {
                Some(c) => c,
                None => 1,
            };
            n == if c < prefetch {
                prefetch
            } else if c > DRAIN_READ_CONCURRENCY_CAP {
                DRAIN_READ_CONCURRENCY_CAP
            } else {
                c
            }
        },
{
    if let Some(f) = fixed {
        if f > 0 {
            return f;
        }
    }
    let c: usize = match cpus {
        Some(c) => c,
        None => 1,
    };
    if c < prefetch {
        prefetch
    } else if c > DRAIN_READ_CONCURRENCY_CAP {
        DRAIN_READ_CONCURRENCY_CAP
    } else {
        c
    }
}

} // verus!
