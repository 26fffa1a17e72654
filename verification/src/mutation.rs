//! Updates and deletes: the documents that the log keeps of them, and the steps
//! in which they are carried out.
use vstd::prelude::*;

verus! {

// ---------------------------------------------------------------------------
// Errors and results
// ---------------------------------------------------------------------------

/// Why the manifest that a mutation is resolved against could not be read.
#[derive(Debug)]
pub enum ManifestLoadError {
    /// The pointer was there and is gone.
    PointerVanished,
    PointerNotFound,
    Other(String),
}

/// Why the rows of a mutation could not be found.
#[derive(Debug)]
pub enum ResolveError {
    Manifest(ManifestLoadError),
    Predicate(String),
}

/// Why a mutation was not taken in, or not carried out.
#[allow(inconsistent_fields)]
#[derive(Debug)]
pub enum MutationError {
    NoStorageAttached,
    SchemaMismatch,
    InvalidNewRows(String),
    /// The table was dropped.
    TableGone,
    TargetResolve(String),
    PredicateEval(String),
    MatchCountExceedsCap { matched: usize, cap: usize },
    CardinalityMismatch { matched: usize, new_rows: usize },
    Storage(String),
    WalStore(String),
    Phase(String),
}

/// A table without a pointer was dropped; any other failure to read the
/// manifest is reported as such, and no older manifest is used instead.
pub open spec fn resolve_failure(e: ResolveError) -> MutationError {
    match e {
        ResolveError::Manifest(ManifestLoadError::PointerVanished) => MutationError::TableGone,
        ResolveError::Manifest(ManifestLoadError::PointerNotFound) => MutationError::TableGone,
        ResolveError::Manifest(ManifestLoadError::Other(s)) => MutationError::TargetResolve(s),
        ResolveError::Predicate(s) => MutationError::PredicateEval(s),
    }
}

/// What a failure to find a mutation's rows comes to.
pub fn target_resolve_err(e: ResolveError) -> (m: MutationError)
    ensures
        m == resolve_failure(e),
{
    match e {
        ResolveError::Manifest(ManifestLoadError::PointerVanished) => MutationError::TableGone,
        ResolveError::Manifest(ManifestLoadError::PointerNotFound) => MutationError::TableGone,
        ResolveError::Manifest(ManifestLoadError::Other(s)) => MutationError::TargetResolve(s),
        ResolveError::Predicate(s) => MutationError::PredicateEval(s),
    }
}

/// What a mutation did.
#[derive(Clone, Copy, PartialEq, Eq, Structural, Debug)]
pub struct MutationStats {
    pub wal_id: i128,
    pub matched: usize,
    pub n_tombstoned: usize,
    pub n_not_found: usize,
}

impl MutationStats {
    /// A mutation that matched no rows.
    pub fn empty() -> (s: MutationStats)
        ensures
            s == (MutationStats { wal_id: 0, matched: 0, n_tombstoned: 0, n_not_found: 0 }),
    {
        MutationStats { wal_id: 0, matched: 0, n_tombstoned: 0, n_not_found: 0 }
    }
}

/// The mutations of a commit, in the order in which they were buffered.
#[derive(Debug)]
pub struct CommitResult {
    pub wal_ids: Vec<i128>,
    pub outcomes: Vec<MutationStats>,
}

/// The outcome of a commit of a single mutation: the first there is.
pub fn single_outcome(result: &CommitResult) -> (outcome: Option<MutationStats>)
    ensures
        outcome == if result.outcomes.len() > 0 {
            Some(result.outcomes@[0])
        } else {
            None
        },
{
    if result.outcomes.len() > 0 {
        Some(result.outcomes[0])
    } else {
        None
    }
}

// ---------------------------------------------------------------------------
// Documents
// ---------------------------------------------------------------------------

#[derive(Clone, Copy, PartialEq, Eq, Structural, Debug)]
pub enum OpKind {
    Update,
    Delete,
}

#[derive(Clone, Copy, PartialEq, Eq, Structural, Debug)]
pub enum WalState {
    /// Nothing of the mutation is done yet.
    Intent,
    Appended,
    Complete,
}

/// The handle that works on a document. Times are microseconds since the epoch.
#[derive(Clone, Copy, PartialEq, Eq, Structural, Debug)]
pub struct Lease {
    pub owner: u128,
    pub acquired_at: i64,
    pub expires_at: i64,
}

#[derive(Clone, Copy, PartialEq, Eq, Structural, Debug)]
pub enum TombstoneOutcome {
    Pending,
    Tombstoned,
    NotFound,
}

/// How far a target is.
#[derive(Clone, Copy, PartialEq, Eq, Structural, Debug)]
pub struct TombstoneEntry {
    pub target_id: i128,
    pub outcome: TombstoneOutcome,
    pub tombstoned_in_superfile: Option<u128>,
}

/// A run of ids that was set aside.
#[derive(Clone, Copy, PartialEq, Eq, Structural, Debug)]
pub struct IdSpan {
    pub first: i128,
    pub last: i128,
}

/// What the log keeps of a mutation.
#[derive(Debug)]
pub struct WalStateDoc {
    pub wal_id: i128,
    pub schema_version: u32,
    pub op_kind: OpKind,
    pub state: WalState,
    pub created_at: i64,
    pub lease: Option<Lease>,
    pub predicate_repr: String,
    pub target_ids: Vec<i128>,
    pub new_row_count: Option<u32>,
    pub new_row_content_hash: Option<String>,
    pub preallocated_superfile_id: Option<u128>,
    pub minted_id_spans: Vec<IdSpan>,
    pub tombstone_progress: Vec<TombstoneEntry>,
}

/// A buffered update: the rows it replaces, and the new rows as they were given.
#[derive(Debug)]
pub struct PendingUpdateEntry {
    pub wal_id: i128,
    pub target_ids: Vec<i128>,
    pub preallocated_superfile_id: u128,
    pub minted_id_spans: Vec<IdSpan>,
    pub new_row_count: u32,
    pub new_row_content_hash: String,
    pub ipc_bytes: Vec<u8>,
}

/// A buffered delete.
#[derive(Debug)]
pub struct PendingDeleteEntry {
    pub wal_id: i128,
    pub target_ids: Vec<i128>,
}

/// The handle that writes documents.
#[derive(Clone, Copy, PartialEq, Eq, Structural, Debug)]
pub struct DocAuthor {
    pub owner: u128,
    pub schema_version: u32,
    /// How long a lease lasts, in microseconds.
    pub lease_micros: i64,
}

/// Every target is still to be done.
pub open spec fn all_pending(targets: Seq<i128>) -> Seq<TombstoneEntry> {
    Seq::new(
        targets.len(),
        |i: int|
            TombstoneEntry {
                target_id: targets[i],
                outcome: TombstoneOutcome::Pending,
                tombstoned_in_superfile: None,
            },
    )
}

/// The lease that a document is born with: its author's, from the moment it is
/// written.
pub open spec fn birth_lease(author: DocAuthor, now: i64) -> Lease {
    Lease {
        owner: author.owner,
        acquired_at: now,
        expires_at: (now + author.lease_micros) as i64,
    }
}

fn pending_progress(targets: &Vec<i128>) -> (out: Vec<TombstoneEntry>)
    ensures
        out@ == all_pending(targets@),
{
    let mut out: Vec<TombstoneEntry> = Vec::new();
    let mut i: usize = 0;
    while i < targets.len()
        invariant
            i <= targets.len(),
            out@ == all_pending(targets@).take(i as int),
        decreases targets.len() - i,
    {
        out.push(
            TombstoneEntry {
                target_id: targets[i],
                outcome: TombstoneOutcome::Pending,
                tombstoned_in_superfile: None,
            },
        );
        i = i + 1;
        assert(out@ =~= all_pending(targets@).take(i as int));
    }
    assert(out@ =~= all_pending(targets@));
    out
}

fn copy_ids(ids: &Vec<i128>) -> (out: Vec<i128>)
    ensures
        out@ == ids@,
{
    let mut out: Vec<i128> = Vec::new();
    let mut i: usize = 0;
    while i < ids.len()
        invariant
            i <= ids.len(),
            out@ == ids@.take(i as int),
        decreases ids.len() - i,
    {
        out.push(ids[i]);
        i = i + 1;
        assert(out@ =~= ids@.take(i as int));
    }
    assert(out@ =~= ids@);
    out
}

fn copy_spans(spans: &Vec<IdSpan>) -> (out: Vec<IdSpan>)
    ensures
        out@ == spans@,
{
    let mut out: Vec<IdSpan> = Vec::new();
    let mut i: usize = 0;
    while i < spans.len()
        invariant
            i <= spans.len(),
            out@ == spans@.take(i as int),
        decreases spans.len() - i,
    {
        out.push(spans[i]);
        i = i + 1;
        assert(out@ =~= spans@.take(i as int));
    }
    assert(out@ =~= spans@);
    out
}

/// The document of an update. It is born with its author's lease, so that no
/// other handle ever sees it without an owner.
pub fn update_wal_doc(author: &DocAuthor, entry: &PendingUpdateEntry, now: i64) -> (doc: WalStateDoc)
    requires
        i64::MIN <= now + author.lease_micros <= i64::MAX,
    ensures
        doc.wal_id == entry.wal_id,
        doc.schema_version == author.schema_version,
        doc.op_kind is Update,
        doc.state is Intent,
        doc.created_at == now,
        doc.lease == Some(birth_lease(*author, now)),
        doc.predicate_repr@ == "writer.update()"@,
        doc.target_ids@ == entry.target_ids@,
        doc.new_row_count == Some(entry.new_row_count),
        doc.new_row_content_hash == Some(entry.new_row_content_hash),
        doc.preallocated_superfile_id == Some(entry.preallocated_superfile_id),
        doc.minted_id_spans@ == entry.minted_id_spans@,
        doc.tombstone_progress@ == all_pending(entry.target_ids@),
{
    WalStateDoc {
        wal_id: entry.wal_id,
        schema_version: author.schema_version,
        op_kind: OpKind::Update,
        state: WalState::Intent,
        created_at: now,
        lease: Some(
            Lease { owner: author.owner, acquired_at: now, expires_at: now + author.lease_micros },
        ),
        predicate_repr: "writer.update()".to_owned(),
        target_ids: copy_ids(&entry.target_ids),
        new_row_count: Some(entry.new_row_count),
        new_row_content_hash: Some(entry.new_row_content_hash.clone()),
        preallocated_superfile_id: Some(entry.preallocated_superfile_id),
        minted_id_spans: copy_spans(&entry.minted_id_spans),
        tombstone_progress: pending_progress(&entry.target_ids),
    }
}

/// The document of a delete. It too is born with its author's lease.
pub fn delete_wal_doc(author: &DocAuthor, entry: &PendingDeleteEntry, now: i64) -> (doc: WalStateDoc)
    requires
        i64::MIN <= now + author.lease_micros <= i64::MAX,
    ensures
        doc.wal_id == entry.wal_id,
        doc.schema_version == author.schema_version,
        doc.op_kind is Delete,
        doc.state is Intent,
        doc.created_at == now,
        doc.lease == Some(birth_lease(*author, now)),
        doc.predicate_repr@ == "writer.delete()"@,
        doc.target_ids@ == entry.target_ids@,
        doc.new_row_count is None,
        doc.new_row_content_hash is None,
        doc.preallocated_superfile_id is None,
        doc.minted_id_spans.len() == 0,
        doc.tombstone_progress@ == all_pending(entry.target_ids@),
{
    WalStateDoc {
        wal_id: entry.wal_id,
        schema_version: author.schema_version,
        op_kind: OpKind::Delete,
        state: WalState::Intent,
        created_at: now,
        lease: Some(
            Lease { owner: author.owner, acquired_at: now, expires_at: now + author.lease_micros },
        ),
        predicate_repr: "writer.delete()".to_owned(),
        target_ids: copy_ids(&entry.target_ids),
        new_row_count: None,
        new_row_content_hash: None,
        preallocated_superfile_id: None,
        minted_id_spans: Vec::new(),
        tombstone_progress: pending_progress(&entry.target_ids),
    }
}

// ---------------------------------------------------------------------------
// Carrying a mutation out
// ---------------------------------------------------------------------------

/// What is to be done next for a mutation.
#[derive(Clone, Copy, PartialEq, Eq, Structural, Debug)]
pub enum DriveStep {
    /// Put the new rows into the log.
    PutPayload,
    /// Put the document into the log.
    CreateDoc,
    /// Publish the new rows.
    AppendPhase,
    /// Tombstone the targets.
    TombstonePhase,
    /// Hand the lease back, so that recovery can go on at once.
    ReleaseLease,
    /// Take the new rows out of the log.
    RemovePayload,
    /// Take the document out of the log.
    RemoveDoc,
    /// Tell the hidden index which ids are gone.
    RecordDeleted,
    Done,
    Failed,
}

/// The first step of a mutation.
pub open spec fn first_drive_step(kind: OpKind) -> DriveStep {
    match kind {
        OpKind::Update => DriveStep::PutPayload,
        OpKind::Delete => DriveStep::CreateDoc,
    }
}

/// The step after one that ended well or not. What comes after the tombstones
/// is best effort: the mutation is durable by then.
pub open spec fn drive_step_after(kind: OpKind, hidden_index: bool, step: DriveStep, ok: bool) -> DriveStep {
    match step {
        DriveStep::PutPayload => if ok {
            DriveStep::CreateDoc
        } else {
            DriveStep::Failed
        },
        DriveStep::CreateDoc => if !ok {
            DriveStep::Failed
        } else if kind is Update {
            DriveStep::AppendPhase
        } else {
            DriveStep::TombstonePhase
        },
        DriveStep::AppendPhase => if ok {
            DriveStep::TombstonePhase
        } else {
            DriveStep::ReleaseLease
        },
        DriveStep::TombstonePhase => if !ok {
            DriveStep::ReleaseLease
        } else if kind is Update {
            DriveStep::RemovePayload
        } else {
            DriveStep::RemoveDoc
        },
        DriveStep::ReleaseLease => DriveStep::Failed,
        DriveStep::RemovePayload => DriveStep::RemoveDoc,
        DriveStep::RemoveDoc => if kind is Delete && hidden_index {
            DriveStep::RecordDeleted
        } else {
            DriveStep::Done
        },
        DriveStep::RecordDeleted => DriveStep::Done,
        DriveStep::Done => DriveStep::Done,
        DriveStep::Failed => DriveStep::Failed,
    }
}

/// A mutation that is being carried out.
#[derive(Clone, Copy, PartialEq, Eq, Structural, Debug)]
pub struct MutationDrive {
    pub kind: OpKind,
    /// The table has a hidden vector index.
    pub hidden_index: bool,
    pub step: DriveStep,
}

impl MutationDrive {
    /// Starts to carry a mutation out. A table without storage cannot.
    pub fn start(kind: OpKind, has_storage: bool, hidden_index: bool) -> (drive: Option<MutationDrive>)
        ensures
            drive == if has_storage {
                Some(MutationDrive { kind, hidden_index, step: first_drive_step(kind) })
            } else {
                None
            },
    {
        if !has_storage {
            return None;
        }
        let step = match kind {
            OpKind::Update => DriveStep::PutPayload,
            OpKind::Delete => DriveStep::CreateDoc,
        };
        Some(MutationDrive { kind, hidden_index, step })
    }

    /// Takes in how the step that was under way ended.
    pub fn advance(&mut self, ok: bool)
        ensures
            final(self).kind == old(self).kind,
            final(self).hidden_index == old(self).hidden_index,
            final(self).step == drive_step_after(
                old(self).kind,
                old(self).hidden_index,
                old(self).step,
                ok,
            ),
    {
        let update: bool = match self.kind {
            OpKind::Update => true,
            OpKind::Delete => false,
        };
        self.step = match self.step {
            DriveStep::PutPayload => if ok {
                DriveStep::CreateDoc
            } else {
                DriveStep::Failed
            },
            DriveStep::CreateDoc => if !ok {
                DriveStep::Failed
            } else if update {
                DriveStep::AppendPhase
            } else {
                DriveStep::TombstonePhase
            },
            DriveStep::AppendPhase => if ok {
                DriveStep::TombstonePhase
            } else {
                DriveStep::ReleaseLease
            },
            DriveStep::TombstonePhase => if !ok {
                DriveStep::ReleaseLease
            } else if update {
                DriveStep::RemovePayload
            } else {
                DriveStep::RemoveDoc
            },
            DriveStep::ReleaseLease => DriveStep::Failed,
            DriveStep::RemovePayload => DriveStep::RemoveDoc,
            DriveStep::RemoveDoc => if !update && self.hidden_index {
                DriveStep::RecordDeleted
            } else {
                DriveStep::Done
            },
            DriveStep::RecordDeleted => DriveStep::Done,
            DriveStep::Done => DriveStep::Done,
            DriveStep::Failed => DriveStep::Failed,
        };
    }
}

/// The steps of a mutation, each with how the one before ended.
pub open spec fn drive_path(kind: OpKind, hidden_index: bool, replies: Seq<bool>) -> DriveStep
    decreases replies.len(),
{
    if replies.len() == 0 {
        first_drive_step(kind)
    } else {
        drive_step_after(
            kind,
            hidden_index,
            drive_path(kind, hidden_index, replies.drop_last()),
            replies.last(),
        )
    }
}

/// The mutation came through a step, and it ended well where that is asked.
pub open spec fn came_through(
    kind: OpKind,
    hidden_index: bool,
    replies: Seq<bool>,
    step: DriveStep,
    well: bool,
) -> bool
    decreases replies.len(),
{
    if replies.len() == 0 {
        false
    } else {
        ||| came_through(kind, hidden_index, replies.drop_last(), step, well)
        ||| drive_path(kind, hidden_index, replies.drop_last()) == step && (well ==> replies.last())
    }
}

/// The document was put into the log.
pub open spec fn doc_created(kind: OpKind, hidden_index: bool, replies: Seq<bool>) -> bool {
    came_through(kind, hidden_index, replies, DriveStep::CreateDoc, true)
}

/// The lease was handed back, or was tried to be.
pub open spec fn lease_released(kind: OpKind, hidden_index: bool, replies: Seq<bool>) -> bool {
    came_through(kind, hidden_index, replies, DriveStep::ReleaseLease, false)
}

/// The targets were tombstoned.
pub open spec fn tombstoned(kind: OpKind, hidden_index: bool, replies: Seq<bool>) -> bool {
    came_through(kind, hidden_index, replies, DriveStep::TombstonePhase, true)
}

/// What stands in the log is only ever taken out after the targets are
/// tombstoned, and a mutation that fails after its document was written has
/// handed its lease back.
pub proof fn log_outlives_the_work(kind: OpKind, hidden_index: bool, replies: Seq<bool>)
    ensures
        ({
            let step = drive_path(kind, hidden_index, replies);
            &&& (step is RemovePayload || step is RemoveDoc || step is RecordDeleted || step is Done)
                ==> tombstoned(kind, hidden_index, replies)
            &&& (step is AppendPhase || step is TombstonePhase || step is ReleaseLease) ==> doc_created(
                kind,
                hidden_index,
                replies,
            )
            &&& step is Failed && doc_created(kind, hidden_index, replies) ==> lease_released(
                kind,
                hidden_index,
                replies,
            )
            &&& (step is PutPayload || step is CreateDoc) ==> !doc_created(kind, hidden_index, replies)
        }),
    decreases replies.len(),
{
    if replies.len() > 0 {
        log_outlives_the_work(kind, hidden_index, replies.drop_last());
    }
}

/// How far a step is from the end.
pub open spec fn steps_left(step: DriveStep) -> nat {
    match step {
        DriveStep::PutPayload => 7,
        DriveStep::CreateDoc => 6,
        DriveStep::AppendPhase => 5,
        DriveStep::TombstonePhase => 4,
        DriveStep::RemovePayload => 3,
        DriveStep::RemoveDoc => 2,
        DriveStep::RecordDeleted => 1,
        DriveStep::ReleaseLease => 1,
        DriveStep::Done => 0,
        DriveStep::Failed => 0,
    }
}

/// A mutation is done or has failed after at most seven steps.
pub proof fn drive_ends(kind: OpKind, hidden_index: bool, step: DriveStep, ok: bool)
    ensures
        steps_left(step) <= 7,
        steps_left(step) > 0 ==> steps_left(drive_step_after(kind, hidden_index, step, ok)) < steps_left(
            step,
        ),
{
}

/// What the targets of a mutation came to.
#[derive(Clone, Copy, PartialEq, Eq, Structural, Debug)]
pub enum TombstonePhaseOutcome {
    Applied { n_tombstoned: usize, n_not_found: usize },
    AlreadyComplete { n_tombstoned: usize, n_not_found: usize },
}

/// The statistics of a mutation that was carried out.
pub fn mutation_stats(wal_id: i128, matched: usize, outcome: TombstonePhaseOutcome) -> (stats: MutationStats)
    ensures
        stats.wal_id == wal_id,
        stats.matched == matched,
        match outcome {
            TombstonePhaseOutcome::Applied { n_tombstoned, n_not_found } => stats.n_tombstoned
                == n_tombstoned && stats.n_not_found == n_not_found,
            TombstonePhaseOutcome::AlreadyComplete { n_tombstoned, n_not_found } => stats.n_tombstoned
                == n_tombstoned && stats.n_not_found == n_not_found,
        },
{
    match outcome {
        TombstonePhaseOutcome::Applied { n_tombstoned, n_not_found } => MutationStats {
            wal_id,
            matched,
            n_tombstoned,
            n_not_found,
        },
        TombstonePhaseOutcome::AlreadyComplete { n_tombstoned, n_not_found } => MutationStats {
            wal_id,
            matched,
            n_tombstoned,
            n_not_found,
        },
    }
}

} // verus!
