//! The two ends of a drain: whether it starts at all, and how what it built is
//! published.
use vstd::prelude::*;

use crate::drain::drain_budget;
use crate::publish::CommitListMetadata;
use crate::superfile::GridShape;

verus! {

// ---------------------------------------------------------------------------
// The start
// ---------------------------------------------------------------------------

/// What a drain finds when it is asked for.
#[derive(Clone, Copy, PartialEq, Eq, Structural, Debug)]
pub struct DrainFacts {
    /// Another reorganisation of the hidden index is under way.
    pub busy: bool,
    /// The grid of the user table.
    pub user_grid: Option<GridShape>,
    /// The grid of the hidden index, when it is routed by cells.
    pub hidden_grid: Option<GridShape>,
    /// Something was drained before.
    pub drained_before: bool,
    pub n_sources: usize,
    pub batch_superfiles: i64,
    pub has_storage: bool,
}

/// The grid that rows are assigned by.
#[derive(Clone, Copy, PartialEq, Eq, Structural, Debug)]
pub enum AssignmentGrid {
    /// The user table's, until the first drain has landed.
    User,
    /// The hidden index's own, which splits have grown since.
    Hidden,
}

/// How a drain starts.
#[derive(Clone, Copy, PartialEq, Eq, Structural, Debug)]
pub enum DrainStart {
    /// There is nothing to do.
    Skip,
    Go {
        grid: AssignmentGrid,
        /// Queries go on by the routing that the hidden index has.
        keeps_routing: bool,
        budget: usize,
    },
}

/// The hidden index has no storage to drain to.
#[derive(Clone, Copy, PartialEq, Eq, Structural, Debug)]
pub struct NoDrainStorage;

/// The grid that a drain assigns rows by. Once the hidden index has drained
/// rows its own grid is the one to extend: the user's would undo its splits.
pub open spec fn assignment_grid(facts: DrainFacts) -> AssignmentGrid {
    if facts.hidden_grid is Some && facts.drained_before {
        AssignmentGrid::Hidden
    } else {
        AssignmentGrid::User
    }
}

/// The shape of the grid that a drain assigns rows by.
pub open spec fn assignment_shape(facts: DrainFacts) -> GridShape {
    match assignment_grid(facts) {
        AssignmentGrid::Hidden => facts.hidden_grid->0,
        AssignmentGrid::User => facts.user_grid->0,
    }
}

/// Decides whether and how a drain starts.
pub fn drain_start(facts: &DrainFacts) -> (start: Result<DrainStart, NoDrainStorage>)
    ensures
        if facts.busy || facts.user_grid is None || assignment_shape(*facts).n_cent == 0
            || assignment_shape(*facts).dim == 0 || facts.n_sources == 0 || facts.batch_superfiles == 0 {
            start == Ok::<DrainStart, NoDrainStorage>(DrainStart::Skip)
        } else if !facts.has_storage {
            start == Err::<DrainStart, NoDrainStorage>(NoDrainStorage)
        } else {
            &&& start is Ok
            &&& start->Ok_0 matches DrainStart::Go { grid, keeps_routing, budget }
            &&& grid == assignment_grid(*facts)
            &&& keeps_routing == facts.hidden_grid is Some
            &&& budget == if facts.batch_superfiles < 0 || facts.batch_superfiles > usize::MAX {
                usize::MAX as int
            } else {
                facts.batch_superfiles as int
            }
        },
{
    if facts.busy {
        return Ok(DrainStart::Skip);
    }
    let user = match facts.user_grid {
        Some(g) => g,
        None => {
            return Ok(DrainStart::Skip);
        },
    };
    let (grid, shape) = match facts.hidden_grid {
        Some(h) => {
            if facts.drained_before {
                (AssignmentGrid::Hidden, h)
            } else {
                (AssignmentGrid::User, user)
            }
        },
        None => (AssignmentGrid::User, user),
    };
    if shape.n_cent == 0 || shape.dim == 0 || facts.n_sources == 0 {
        return Ok(DrainStart::Skip);
    }
    match drain_budget(facts.batch_superfiles) {
        None => Ok(DrainStart::Skip),
        Some(budget) => {
            if !facts.has_storage {
                Err(NoDrainStorage)
            } else {
                Ok(DrainStart::Go { grid, keeps_routing: facts.hidden_grid.is_some(), budget })
            }
        },
    }
}

// ---------------------------------------------------------------------------
// The end
// ---------------------------------------------------------------------------

/// What is stamped with the members of a finished drain. Whatever decides
/// whether a row is seen is in it: the grid with the new cells, the versions
/// that are drained, and the graph, or that there is none.
pub fn membership_metadata<P: Copy, G: Copy, R: Copy>(
    strategy: P,
    drained: Vec<(u64, u64)>,
    graph: Option<R>,
) -> (m: CommitListMetadata<P, G, R>)
    ensures
        m.partition_strategy == Some(strategy),
        m.drained_ranges == Some(drained),
        m.graph_ref == Some(graph),
        m.global_vector_index is None,
        m.superseded_cells_additions is None,
{
    CommitListMetadata {
        partition_strategy: Some(strategy),
        global_vector_index: None,
        drained_ranges: Some(drained),
        superseded_cells_additions: None,
        graph_ref: Some(graph),
    }
}

/// A step of publishing a finished drain.
#[derive(Clone, Copy, PartialEq, Eq, Structural, Debug)]
pub enum FinishStep {
    /// The new cells go into the cache on disk, where the build of the graph
    /// reads them.
    WarmForGraph,
    BuildGraph,
    /// The members, the drained versions and the graph, in one commit.
    CommitMembers,
    /// The bytes go into the store in memory.
    StoreInserts,
    /// The new cells go into the cache on disk.
    WarmAfterCommit,
    RemoveScratch,
    /// The slow state, of which queries do without.
    Settle,
    Done,
    Failed,
}

/// The first step of publishing a drain.
pub open spec fn first_finish_step(builds_graph: bool) -> FinishStep {
    if builds_graph {
        FinishStep::WarmForGraph
    } else {
        FinishStep::CommitMembers
    }
}

/// The step after one that ended well or not. Only the commit and the slow
/// state can fail a drain.
pub open spec fn finish_step_after(builds_graph: bool, step: FinishStep, ok: bool) -> FinishStep {
    match step {
        FinishStep::WarmForGraph => FinishStep::BuildGraph,
        FinishStep::BuildGraph => FinishStep::CommitMembers,
        FinishStep::CommitMembers => if ok {
            FinishStep::StoreInserts
        } else {
            FinishStep::Failed
        },
        FinishStep::StoreInserts => if builds_graph {
            FinishStep::RemoveScratch
        } else {
            FinishStep::WarmAfterCommit
        },
        FinishStep::WarmAfterCommit => FinishStep::RemoveScratch,
        FinishStep::RemoveScratch => FinishStep::Settle,
        FinishStep::Settle => if ok {
            FinishStep::Done
        } else {
            FinishStep::Failed
        },
        FinishStep::Done => FinishStep::Done,
        FinishStep::Failed => FinishStep::Failed,
    }
}

/// A finished drain that is being published.
#[derive(Clone, Copy, PartialEq, Eq, Structural, Debug)]
pub struct DrainFinish {
    /// Queries walk a graph, so one is built.
    pub builds_graph: bool,
    pub step: FinishStep,
}

impl DrainFinish {
    pub fn start(builds_graph: bool) -> (f: DrainFinish)
        ensures
            f.builds_graph == builds_graph,
            f.step == first_finish_step(builds_graph),
    {
        DrainFinish {
            builds_graph,
            step: if builds_graph {
                FinishStep::WarmForGraph
            } else {
                FinishStep::CommitMembers
            },
        }
    }

    /// Takes in how the step that was under way ended.
    pub fn advance(&mut self, ok: bool)
        ensures
            final(self).builds_graph == old(self).builds_graph,
            final(self).step == finish_step_after(old(self).builds_graph, old(self).step, ok),
    {
        self.step = match self.step {
            FinishStep::WarmForGraph => FinishStep::BuildGraph,
            FinishStep::BuildGraph => FinishStep::CommitMembers,
            FinishStep::CommitMembers => if ok {
                FinishStep::StoreInserts
            } else {
                FinishStep::Failed
            },
            FinishStep::StoreInserts => if self.builds_graph {
                FinishStep::RemoveScratch
            } else {
                FinishStep::WarmAfterCommit
            },
            FinishStep::WarmAfterCommit => FinishStep::RemoveScratch,
            FinishStep::RemoveScratch => FinishStep::Settle,
            FinishStep::Settle => if ok {
                FinishStep::Done
            } else {
                FinishStep::Failed
            },
            FinishStep::Done => FinishStep::Done,
            FinishStep::Failed => FinishStep::Failed,
        };
    }
}

/// The step that a drain is at after these replies.
pub open spec fn finish_path(builds_graph: bool, replies: Seq<bool>) -> FinishStep
    decreases replies.len(),
{
    if replies.len() == 0 {
        first_finish_step(builds_graph)
    } else {
        finish_step_after(
            builds_graph,
            finish_path(builds_graph, replies.drop_last()),
            replies.last(),
        )
    }
}

/// The drain came through a step, and it ended well where that is asked.
pub open spec fn finish_came_through(
    builds_graph: bool,
    replies: Seq<bool>,
    step: FinishStep,
    well: bool,
) -> bool
    decreases replies.len(),
{
    if replies.len() == 0 {
        false
    } else {
        ||| finish_came_through(builds_graph, replies.drop_last(), step, well)
        ||| finish_path(builds_graph, replies.drop_last()) == step && (well ==> replies.last())
    }
}

/// The scratch files and the store in memory are touched only after the members
/// are committed, and the members only after the graph that they are seen by is
/// there, when there is to be one. The slow state comes last, so a drain that
/// stops before it has lost no row.
pub proof fn members_come_with_their_graph(builds_graph: bool, replies: Seq<bool>)
    ensures
        ({
            let step = finish_path(builds_graph, replies);
            &&& (step is StoreInserts || step is WarmAfterCommit || step is RemoveScratch || step is Settle
                || step is Done) ==> finish_came_through(
                builds_graph,
                replies,
                FinishStep::CommitMembers,
                true,
            )
            &&& step is CommitMembers && builds_graph ==> finish_came_through(
                builds_graph,
                replies,
                FinishStep::BuildGraph,
                false,
            )
            &&& step is WarmAfterCommit ==> !builds_graph
            &&& (step is WarmForGraph || step is BuildGraph) ==> builds_graph
        }),
    decreases replies.len(),
{
    if replies.len() > 0 {
        members_come_with_their_graph(builds_graph, replies.drop_last());
    }
}

/// How far a step is from the end.
pub open spec fn finish_steps_left(step: FinishStep) -> nat {
    match step {
        FinishStep::WarmForGraph => 7,
        FinishStep::BuildGraph => 6,
        FinishStep::CommitMembers => 5,
        FinishStep::StoreInserts => 4,
        FinishStep::WarmAfterCommit => 3,
        FinishStep::RemoveScratch => 2,
        FinishStep::Settle => 1,
        FinishStep::Done => 0,
        FinishStep::Failed => 0,
    }
}

/// Publishing a drain ends.
pub proof fn finish_ends(builds_graph: bool, step: FinishStep, ok: bool)
    ensures
        finish_steps_left(step) > 0 ==> finish_steps_left(finish_step_after(builds_graph, step, ok))
            < finish_steps_left(step),
{
}

} // verus!
