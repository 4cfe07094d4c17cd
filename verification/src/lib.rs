//! Fork-join multitasking over an entity/attribute store.
//!
//! Units of work ("tasks") are entities in a typed attribute store. A caller
//! describes a task graph once, as a tree built from sequential and concurrent
//! composition; the assembler turns the tree into entities connected by
//! dependency edges. Each tick, the maintenance engine walks the graph from
//! its finalized roots, unblocks tasks whose dependencies are satisfied, and
//! garbage-collects finished subtrees; a task runner executes the work of
//! every unblocked, incomplete task and records completion.
//!
//! Structural mutations discovered during a maintenance traversal are queued
//! on a [`CommandLog`] and applied atomically afterwards, so a traversal never
//! observes the graph changing shape under it.

pub mod components;
pub mod graph_builder;
pub mod log;
pub mod manager;
pub mod runner;
pub mod store;

pub use components::{FinalTag, MultiEdge, OnCompletion, SingleEdge, TaskComponent, TaskError,
    TaskProgress};
pub use graph_builder::{Cons, TaskFactory};
pub use log::{Command, CommandLog};
pub use runner::{record_run_result, run_tasks};
pub use manager::{delete_descendents, delete_entity_and_descendents, entity_is_complete,
    fork_is_complete, maintain_all_finalized, task_is_complete};
pub use store::{add_prong, finalize, join, make_fork, make_task, Store};
