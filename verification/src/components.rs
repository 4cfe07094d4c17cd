//! The attribute types that task and fork entities carry, and the capability
//! interface that a payload implements so the runner can advance it.

use vstd::prelude::*;

verus! {

/// Work-state flags of a task entity.
///
/// `is_complete` is written by the task runner when the payload reports that
/// its work is done; `is_unblocked` is written by the maintenance engine once
/// the task's dependency is satisfied, and is monotonic: once set it is never
/// cleared while the attribute exists.
#[derive(Clone, Copy, Debug, PartialEq, Eq, Structural)]
pub struct TaskProgress {
    pub is_complete: bool,
    pub is_unblocked: bool,
}

impl TaskProgress {
    /// Fresh progress: pending and blocked.
    pub fn new() -> (p: TaskProgress)
        ensures
            !p.is_complete,
            !p.is_unblocked,
    {
        TaskProgress { is_complete: false, is_unblocked: false }
    }
}

impl Default for TaskProgress {
    fn default() -> (p: Self)
        ensures
            !p.is_complete,
            !p.is_unblocked,
    {
        TaskProgress::new()
    }
}

/// The single mandatory predecessor of a node: the node cannot be considered
/// complete before `child` is. At most one per entity, ever.
#[derive(Clone, Copy, Debug, PartialEq, Eq, Structural)]
pub struct SingleEdge {
    pub child: usize,
}

/// The ordered prongs of a fork node: independent dependencies that must all
/// complete before the fork is considered complete.
#[derive(Clone, Debug)]
pub struct MultiEdge {
    pub children: Vec<usize>,
}

/// Marks the root of a finalized graph, making it eligible for maintenance,
/// and records what to do with the graph once it completes.
#[derive(Clone, Copy, Debug)]
pub struct FinalTag {
    pub on_completion: OnCompletion,
}

/// What the maintenance engine does to a finalized root and its descendents
/// when it observes the root complete.
#[derive(Clone, Copy, Debug, PartialEq, Eq, Structural)]
pub enum OnCompletion {
    /// Keep the graph; only the `FinalTag` is removed, so the inert graph is
    /// not re-scanned.
    Keep,
    /// Delete the root and all of its descendents.
    Delete,
    /// Delete only the descendents, leaving the root and its completion state.
    DeleteDescendents,
}

impl Default for OnCompletion {
    fn default() -> (r: Self)
        ensures
            r == OnCompletion::Keep,
    {
        OnCompletion::Keep
    }
}

/// A payload that needs access to `Data` to advance its work. The runner
/// invokes `run` tick after tick for the same entity until it reports
/// completion, so an implementation must be resumable across calls and must
/// not assume it is called exactly once.
pub trait TaskComponent {
    type Data;

    /// Advance the work one step; returns `true` iff the task is complete.
    fn run(&mut self, data: &mut Self::Data) -> bool;
}

/// A contract violation surfaced by the graph-building interface.
#[derive(Clone, Copy, Debug, PartialEq, Eq, Structural)]
pub enum TaskError {
    /// The expression to assemble normalizes to nothing: a graph must contain
    /// at least one task.
    EmptyGraph,
    /// The entity named does not exist or is no longer alive.
    DeadEntity,
    /// The entity already has a `SingleEdge`; attaching a second is refused.
    SecondSingleEdge,
    /// The entity has no `MultiEdge`, so it cannot take a prong.
    ProngOnNonFork,
}

} // verus!
