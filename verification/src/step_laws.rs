//! The steps of a mutation and of a drain's end, and what they are told.
use vstd::prelude::*;

use crate::drain::{
    file_of_source, files_of_sources, layout_of, layout_view, name_of, names_of, source_name,
    source_names, versions_of, DrainCheckpointSource, SourceFile, SourceName,
};
use crate::drain_finish::{
    assignment_grid, assignment_shape, finish_path, finish_step_after, DrainFacts, FinishStep,
};
use crate::drain_run::{cell_sources, DrainCellSource, PackedCell};
use crate::hashing::uuid_text;
use crate::mutation::{
    all_pending, birth_lease, drive_path, drive_step_after, resolve_failure, DocAuthor, DriveStep,
    ManifestLoadError, MutationError, OpKind, ResolveError,
};

verus! {

// ---------------------------------------------------------------------------
// Mutations
// ---------------------------------------------------------------------------

/// A mutation of a table that is gone says so; any other failure is reported with
/// its words.
pub proof fn failures_keep_their_words(text: String)
    ensures
        resolve_failure(ResolveError::Manifest(ManifestLoadError::PointerVanished)) is TableGone,
        resolve_failure(ResolveError::Manifest(ManifestLoadError::PointerNotFound)) is TableGone,
        resolve_failure(ResolveError::Manifest(ManifestLoadError::Other(text))) == MutationError::TargetResolve(
            text,
        ),
        resolve_failure(ResolveError::Predicate(text)) == MutationError::PredicateEval(text),
{
}

/// A document starts with every target pending, and with a lease from now on.
pub proof fn a_document_starts_with_all_targets(targets: Seq<i128>, author: DocAuthor, now: i64, i: int)
    requires
        0 <= i < targets.len(),
        i64::MIN <= now + author.lease_micros <= i64::MAX,
    ensures
        all_pending(targets).len() == targets.len(),
        all_pending(targets)[i].target_id == targets[i],
        all_pending(targets)[i].outcome is Pending,
        all_pending(targets)[i].tombstoned_in_superfile is None,
        birth_lease(author, now).owner == author.owner,
        birth_lease(author, now).acquired_at == now,
        birth_lease(author, now).expires_at - now == author.lease_micros,
{
}

/// An update puts its payload, creates its document, appends its rows, buries the
/// old ones and removes what it put. A delete has no payload and no rows; with a
/// hidden index it is recorded there at the end.
pub proof fn a_mutation_goes_well(hidden: bool, last: Seq<bool>)
    requires
        last.len() == 2,
    ensures
        drive_path(OpKind::Update, hidden, Seq::empty()) is PutPayload,
        drive_path(OpKind::Update, hidden, seq![true]) is CreateDoc,
        drive_path(OpKind::Update, hidden, seq![true, true]) is AppendPhase,
        drive_path(OpKind::Update, hidden, seq![true, true, true]) is TombstonePhase,
        drive_path(OpKind::Update, hidden, seq![true, true, true, true]) is RemovePayload,
        drive_path(OpKind::Update, hidden, seq![true, true, true, true, last[0]]) is RemoveDoc,
        drive_path(OpKind::Update, hidden, seq![true, true, true, true, last[0], last[1]]) is Done,
        drive_path(OpKind::Delete, hidden, Seq::empty()) is CreateDoc,
        drive_path(OpKind::Delete, hidden, seq![true]) is TombstonePhase,
        drive_path(OpKind::Delete, hidden, seq![true, true]) is RemoveDoc,
        hidden ==> drive_path(OpKind::Delete, hidden, seq![true, true, last[0]]) is RecordDeleted,
        hidden ==> drive_path(OpKind::Delete, hidden, seq![true, true, last[0], last[1]]) is Done,
        !hidden ==> drive_path(OpKind::Delete, hidden, seq![true, true, last[0]]) is Done,
{
    reveal_with_fuel(drive_path, 7);
    let a = last[0];
    let b = last[1];
    assert(seq![true].drop_last() =~= Seq::<bool>::empty());
    assert(seq![true, true].drop_last() =~= seq![true]);
    assert(seq![true, true, true].drop_last() =~= seq![true, true]);
    assert(seq![true, true, true, true].drop_last() =~= seq![true, true, true]);
    assert(seq![true, true, true, true, a].drop_last() =~= seq![true, true, true, true]);
    assert(seq![true, true, true, true, a, b].drop_last() =~= seq![true, true, true, true, a]);
    assert(seq![true, true, a].drop_last() =~= seq![true, true]);
    assert(seq![true, true, a, b].drop_last() =~= seq![true, true, a]);
}

/// A mutation that fails before its document is there has nothing to undo. Behind it
/// a failure of the rows or of the burial gives the lease back, and then it has
/// failed. What is removed at the end may fail without harm.
pub proof fn a_mutation_that_fails_gives_its_lease_back(kind: OpKind, hidden: bool, ok: bool)
    ensures
        drive_step_after(kind, hidden, DriveStep::PutPayload, false) is Failed,
        drive_step_after(kind, hidden, DriveStep::CreateDoc, false) is Failed,
        drive_step_after(kind, hidden, DriveStep::AppendPhase, false) is ReleaseLease,
        drive_step_after(kind, hidden, DriveStep::TombstonePhase, false) is ReleaseLease,
        drive_step_after(kind, hidden, DriveStep::ReleaseLease, ok) is Failed,
        drive_step_after(kind, hidden, DriveStep::RemovePayload, ok) is RemoveDoc,
        drive_step_after(kind, hidden, DriveStep::RecordDeleted, ok) is Done,
        drive_step_after(kind, hidden, DriveStep::Done, ok) is Done,
        drive_step_after(kind, hidden, DriveStep::Failed, ok) is Failed,
        drive_step_after(kind, hidden, DriveStep::RemoveDoc, true) == drive_step_after(
            kind,
            hidden,
            DriveStep::RemoveDoc,
            false,
        ),
{
}

// ---------------------------------------------------------------------------
// A drain's end
// ---------------------------------------------------------------------------

/// A drain that builds a graph warms and builds before its members are committed,
/// whatever comes of it; one that builds none warms behind the commit. Then the
/// scratch is removed and the drain settled.
pub proof fn a_drain_ends_well(r: Seq<bool>)
    requires
        r.len() == 4,
    ensures
        finish_path(true, Seq::empty()) is WarmForGraph,
        finish_path(true, seq![r[0]]) is BuildGraph,
        finish_path(true, seq![r[0], r[1]]) is CommitMembers,
        finish_path(true, seq![r[0], r[1], true]) is StoreInserts,
        finish_path(true, seq![r[0], r[1], true, r[2]]) is RemoveScratch,
        finish_path(true, seq![r[0], r[1], true, r[2], r[3]]) is Settle,
        finish_path(false, Seq::empty()) is CommitMembers,
        finish_path(false, seq![true]) is StoreInserts,
        finish_path(false, seq![true, r[0]]) is WarmAfterCommit,
        finish_path(false, seq![true, r[0], r[1]]) is RemoveScratch,
        finish_path(false, seq![true, r[0], r[1], r[2]]) is Settle,
{
    reveal_with_fuel(finish_path, 6);
    let a = r[0];
    let b = r[1];
    let c = r[2];
    let d = r[3];
    assert(seq![a].drop_last() =~= Seq::<bool>::empty());
    assert(seq![a, b].drop_last() =~= seq![a]);
    assert(seq![a, b, true].drop_last() =~= seq![a, b]);
    assert(seq![a, b, true, c].drop_last() =~= seq![a, b, true]);
    assert(seq![a, b, true, c, d].drop_last() =~= seq![a, b, true, c]);
    assert(seq![true].drop_last() =~= Seq::<bool>::empty());
    assert(seq![true, a].drop_last() =~= seq![true]);
    assert(seq![true, a, b].drop_last() =~= seq![true, a]);
    assert(seq![true, a, b, c].drop_last() =~= seq![true, a, b]);
}

/// Only a commit or a settlement that fails makes the drain's end fail.
pub proof fn only_the_commit_and_the_settlement_can_fail(graph: bool, step: FinishStep, ok: bool)
    ensures
        finish_step_after(graph, step, ok) is Failed <==> step is Failed || (!ok && (step is CommitMembers
            || step is Settle)),
        finish_step_after(graph, step, ok) is Done <==> step is Done || (ok && step is Settle),
{
}

/// Rows are assigned by the hidden index's own grid once something was drained into
/// it, before that by the table's.
pub proof fn rows_are_assigned_by_the_grid_in_use(facts: DrainFacts)
    ensures
        assignment_grid(facts) is Hidden <==> facts.drained_before && facts.hidden_grid is Some,
        facts.drained_before && facts.hidden_grid is Some ==> Some(assignment_shape(facts)) == facts.hidden_grid,
        !(facts.drained_before && facts.hidden_grid is Some) && facts.user_grid is Some ==> Some(
            assignment_shape(facts),
        ) == facts.user_grid,
{
}

/// The cells of a drain are those that were packed and those that were spilled.
pub proof fn cells_come_from_packs_and_rows(packed: Seq<PackedCell>, spilled: Seq<u32>, i: int)
    requires
        0 <= i < packed.len() + spilled.len(),
    ensures
        cell_sources(packed, spilled).len() == packed.len() + spilled.len(),
        i < packed.len() ==> cell_sources(packed, spilled)[i] == (
            packed[i].cell_id,
            DrainCellSource::Packed(packed[i]),
        ),
        i >= packed.len() ==> cell_sources(packed, spilled)[i] == (
            spilled[i - packed.len()],
            DrainCellSource::Rows,
        ),
{
}

/// A checkpoint names every source by its id, its path and its version, and gives
/// the versions of every batch.
pub proof fn a_checkpoint_names_its_sources(
    files: Seq<SourceFile>,
    sources: Seq<DrainCheckpointSource>,
    names: Seq<SourceName>,
    batches: Seq<Seq<SourceFile>>,
    layout: Seq<Vec<u64>>,
    i: int,
)
    requires
        0 <= i,
    ensures
        names_of(files).len() == files.len(),
        i < files.len() ==> {
            let n = names_of(files)[i];
            &&& n == name_of(files[i])
            &&& n.superfile_id == uuid_text(files[i].superfile_id) && n.uri == uuid_text(files[i].uri)
            &&& n.birth_version == files[i].birth_version
        },
        source_names(sources).len() == sources.len(),
        i < sources.len() ==> {
            let n = source_names(sources)[i];
            &&& n == source_name(sources[i])
            &&& n.superfile_id == sources[i].superfile_id@ && n.uri == sources[i].uri@
            &&& n.birth_version == sources[i].birth_version
        },
        files_of_sources(files, names).len() == names.len(),
        i < names.len() ==> Some(files_of_sources(files, names)[i]) == file_of_source(files, names[i])
            || file_of_source(files, names[i]) is None,
        layout_of(batches).len() == batches.len(),
        i < batches.len() ==> layout_of(batches)[i] == versions_of(batches[i]),
        layout_view(layout).len() == layout.len(),
        i < layout.len() ==> layout_view(layout)[i] == layout[i]@,
{
}

} // verus!
