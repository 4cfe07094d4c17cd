//! The deferred command log: structural mutations discovered while a
//! maintenance traversal walks the graph are recorded here and applied
//! atomically afterwards, so the traversal never observes the graph changing
//! shape under it.
//!
//! Every command is a removal, so applying a log is order-insensitive and
//! idempotent: the resulting store depends only on which commands the log
//! contains.

use vstd::prelude::*;

use crate::store::{cleared_at, edges_unchanged_at, slot_unchanged, Store};

verus! {

/// One deferred structural mutation.
#[derive(Clone, Copy, Debug, PartialEq, Eq, Structural)]
pub enum Command {
    /// Remove the progress attribute of a task observed complete, collecting
    /// the completion signal so the task is never re-executed.
    RemoveProgress(usize),
    /// Remove a root's `FinalTag` so maintenance stops re-scanning an inert,
    /// already-finished graph.
    RemoveFinalTag(usize),
    /// Delete an entity and clear all of its attributes.
    DeleteEntity(usize),
}

/// A queue of deferred structural mutations, applied in enqueue order.
pub struct CommandLog {
    commands: Vec<Command>,
}

impl View for CommandLog {
    type V = Seq<Command>;

    closed spec fn view(&self) -> Seq<Command> {
        self.commands@
    }
}

/// The log contains a deletion of entity `e`.
pub open spec fn log_deletes(cmds: Seq<Command>, e: int) -> bool {
    exists|j: int| 0 <= j < cmds.len()
        && (#[trigger] cmds[j] matches Command::DeleteEntity(x) && x as int == e)
}

/// The log contains a progress removal for entity `e`.
pub open spec fn log_removes_progress(cmds: Seq<Command>, e: int) -> bool {
    exists|j: int| 0 <= j < cmds.len()
        && (#[trigger] cmds[j] matches Command::RemoveProgress(x) && x as int == e)
}

/// The log contains a `FinalTag` removal for entity `e`.
pub open spec fn log_removes_final(cmds: Seq<Command>, e: int) -> bool {
    exists|j: int| 0 <= j < cmds.len()
        && (#[trigger] cmds[j] matches Command::RemoveFinalTag(x) && x as int == e)
}

/// What applying a log containing exactly `cmds` does to entity `x`: a
/// deleted entity is cleared; otherwise its attributes survive except those
/// that a removal command names.
pub open spec fn applied_at<P>(pre: Store<P>, post: Store<P>, cmds: Seq<Command>, x: int) -> bool {
    if log_deletes(cmds, x) {
        cleared_at(post, x)
    } else {
        &&& post.alive(x) == pre.alive(x)
        &&& edges_unchanged_at(pre, post, x)
        &&& post.payload(x) == pre.payload(x)
        &&& post.has_progress(x) == (pre.has_progress(x) && !log_removes_progress(cmds, x))
        &&& post.complete_flag(x) == (pre.complete_flag(x) && !log_removes_progress(cmds, x))
        &&& post.unblocked(x) == (pre.unblocked(x) && !log_removes_progress(cmds, x))
        &&& post.final_tag(x) == (if log_removes_final(cmds, x) {
                None
            } else {
                pre.final_tag(x)
            })
    }
}

/// Extending a log by one command extends exactly that command's membership.
pub proof fn lemma_log_push(cmds: Seq<Command>, c: Command)
    ensures
        forall|e: int| log_deletes(cmds.push(c), e)
            == (log_deletes(cmds, e) || (c matches Command::DeleteEntity(x) && x as int == e)),
        forall|e: int| log_removes_progress(cmds.push(c), e)
            == (log_removes_progress(cmds, e)
                || (c matches Command::RemoveProgress(x) && x as int == e)),
        forall|e: int| log_removes_final(cmds.push(c), e)
            == (log_removes_final(cmds, e)
                || (c matches Command::RemoveFinalTag(x) && x as int == e)),
{
    let pushed = cmds.push(c);
    assert(pushed[cmds.len() as int] == c);
    assert(forall|j: int| 0 <= j < cmds.len() ==> pushed[j] == #[trigger] cmds[j]);
    assert forall|e: int| log_deletes(cmds, e) implies log_deletes(pushed, e) by {
        let j = choose|j: int| 0 <= j < cmds.len()
            && (#[trigger] cmds[j] matches Command::DeleteEntity(x) && x as int == e);
        assert(pushed[j] == cmds[j]);
    }
    assert forall|e: int| log_removes_progress(cmds, e)
        implies log_removes_progress(pushed, e) by {
        let j = choose|j: int| 0 <= j < cmds.len()
            && (#[trigger] cmds[j] matches Command::RemoveProgress(x) && x as int == e);
        assert(pushed[j] == cmds[j]);
    }
    assert forall|e: int| log_removes_final(cmds, e) implies log_removes_final(pushed, e) by {
        let j = choose|j: int| 0 <= j < cmds.len()
            && (#[trigger] cmds[j] matches Command::RemoveFinalTag(x) && x as int == e);
        assert(pushed[j] == cmds[j]);
    }
}

impl CommandLog {
    /// An empty log.
    pub fn new() -> (log: CommandLog)
        ensures
            log@ == Seq::<Command>::empty(),
    {
        let log = CommandLog { commands: Vec::new() };
        proof {
            assert(log@ =~= Seq::<Command>::empty());
        }
        log
    }

    /// Queues removal of `e`'s progress attribute.
    pub fn push_remove_progress(&mut self, e: usize)
        ensures
            final(self)@ == old(self)@.push(Command::RemoveProgress(e)),
    {
        self.commands.push(Command::RemoveProgress(e));
    }

    /// Queues removal of `e`'s `FinalTag`.
    pub fn push_remove_final(&mut self, e: usize)
        ensures
            final(self)@ == old(self)@.push(Command::RemoveFinalTag(e)),
    {
        self.commands.push(Command::RemoveFinalTag(e));
    }

    /// Queues deletion of entity `e`.
    pub fn push_delete(&mut self, e: usize)
        ensures
            final(self)@ == old(self)@.push(Command::DeleteEntity(e)),
    {
        self.commands.push(Command::DeleteEntity(e));
    }

    /// Applies every queued command to the store, in enqueue order. Since all
    /// commands are removals, the result depends only on which commands the
    /// log contains, and applying the same log twice is idempotent.
    pub fn apply<P>(&self, store: &mut Store<P>)
        ensures
            final(store).num_entities() == old(store).num_entities(),
            forall|x: int| applied_at(*old(store), *final(store), self@, x),
            old(store).wf() ==> final(store).wf(),
    {
        let n = self.commands.len();
        let mut i: usize = 0;
        while i < n
            invariant
                n == self@.len(),
                i <= n,
                store.num_entities() == old(store).num_entities(),
                forall|x: int| applied_at(*old(store), *store, self@.take(i as int), x),
                old(store).wf() ==> store.wf(),
            decreases n - i,
        {
            let ghost prefix = self@.take(i as int);
            let ghost pre_step = *store;
            let cmd = self.commands[i];
            match cmd {
                Command::RemoveProgress(e) => store.remove_progress_now(e),
                Command::RemoveFinalTag(e) => store.remove_final_now(e),
                Command::DeleteEntity(e) => store.delete_now(e),
            }
            proof {
                let pref2 = self@.take(i as int + 1);
                assert(pref2 =~= prefix.push(self@[i as int]));
                lemma_log_push(prefix, self@[i as int]);
                let t = cmd_target(cmd);
                let post_step = *store;
                assert forall|x: int| applied_at(*old(store), post_step, pref2, x) by {
                    assert(applied_at(*old(store), pre_step, prefix, x));
                    if x != t {
                        assert(slot_unchanged(pre_step, post_step, x));
                    }
                }
            }
            i += 1;
        }
        proof {
            assert(self@.take(n as int) =~= self@);
        }
    }
}

/// The entity a command names.
pub open spec fn cmd_target(c: Command) -> int {
    match c {
        Command::RemoveProgress(x) => x as int,
        Command::RemoveFinalTag(x) => x as int,
        Command::DeleteEntity(x) => x as int,
    }
}

} // verus!
