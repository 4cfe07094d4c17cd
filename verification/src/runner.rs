//! The task runner: advances the work of every unblocked, incomplete task
//! of the store's payload kind and records completion.

use vstd::prelude::*;

use crate::components::TaskComponent;
use crate::store::{edges_unchanged_at, slot_unchanged, Store};

verus! {

/// Task `e` is due to run: it carries a payload and pending progress, and
/// its dependency was observed satisfied.
pub open spec fn runnable<P>(s: Store<P>, e: int) -> bool {
    &&& s.has_progress(e)
    &&& s.payload(e).is_some()
    &&& s.unblocked(e)
    &&& !s.complete_flag(e)
}

/// Records the outcome of one invocation of a task's work step: sets the
/// completion flag iff the step reported completion. This is a data write,
/// not a structural mutation, so it is applied directly, never logged.
pub fn record_run_result<P>(store: &mut Store<P>, entity: usize, completed: bool)
    requires
        old(store).has_progress(entity as int),
        old(store).unblocked(entity as int),
        !old(store).complete_flag(entity as int),
    ensures
        final(store).num_entities() == old(store).num_entities(),
        final(store).complete_flag(entity as int) == completed,
        final(store).has_progress(entity as int),
        final(store).unblocked(entity as int),
        final(store).alive(entity as int) == old(store).alive(entity as int),
        edges_unchanged_at(*old(store), *final(store), entity as int),
        final(store).payload(entity as int) == old(store).payload(entity as int),
        final(store).final_tag(entity as int) == old(store).final_tag(entity as int),
        forall|x: int| x != entity as int ==> slot_unchanged(*old(store), *final(store), x),
        final(store).wf() == old(store).wf(),
{
    if completed {
        store.set_complete(entity);
    }
}

/// Runs one step of every runnable task: invokes the payload's work step
/// with the caller's shared state and records completion for exactly those
/// tasks whose step reported it. Blocked, completed and collected tasks are
/// untouched; the graph structure never changes.
///
/// The work step is invoked repeatedly, tick after tick, for the same
/// entity until it reports completion, so payloads must be resumable across
/// calls.
pub fn run_tasks<P: TaskComponent>(store: &mut Store<P>, data: &mut P::Data)
    requires
        old(store).wf(),
    ensures
        final(store).wf(),
        final(store).num_entities() == old(store).num_entities(),
        forall|x: int| #![auto] final(store).alive(x) == old(store).alive(x),
        forall|x: int| edges_unchanged_at(*old(store), *final(store), x),
        forall|x: int| #![auto] final(store).final_tag(x) == old(store).final_tag(x),
        forall|x: int| #![auto] final(store).has_progress(x) == old(store).has_progress(x),
        forall|x: int| #![auto] final(store).unblocked(x) == old(store).unblocked(x),
        forall|x: int| #![auto] final(store).payload(x).is_some()
            == old(store).payload(x).is_some(),
        forall|x: int| #![auto] old(store).complete_flag(x) ==> final(store).complete_flag(x),
        forall|x: int| #![auto] final(store).complete_flag(x) && !old(store).complete_flag(x)
            ==> runnable(*old(store), x),
        forall|x: int| #![auto] !runnable(*old(store), x)
            ==> final(store).payload(x) == old(store).payload(x)
                && final(store).complete_flag(x) == old(store).complete_flag(x),
{
    let n = store.num();
    let mut e: usize = 0;
    while e < n
        invariant
            store.wf(),
            n as int == old(store).num_entities(),
            e <= n,
            store.num_entities() == old(store).num_entities(),
            forall|x: int| #![auto] store.alive(x) == old(store).alive(x),
            forall|x: int| edges_unchanged_at(*old(store), *store, x),
            forall|x: int| #![auto] store.final_tag(x) == old(store).final_tag(x),
            forall|x: int| #![auto] store.has_progress(x) == old(store).has_progress(x),
            forall|x: int| #![auto] store.unblocked(x) == old(store).unblocked(x),
            forall|x: int| #![auto] store.payload(x).is_some()
                == old(store).payload(x).is_some(),
            forall|x: int| #![auto] old(store).complete_flag(x) ==> store.complete_flag(x),
            forall|x: int| #![auto] store.complete_flag(x) && !old(store).complete_flag(x)
                ==> runnable(*old(store), x),
            forall|x: int| #![auto] !runnable(*old(store), x)
                ==> store.payload(x) == old(store).payload(x)
                    && store.complete_flag(x) == old(store).complete_flag(x),
        decreases n - e,
    {
        let eligible = match store.progress_of(e) {
            Some(progress) => progress.is_unblocked && !progress.is_complete,
            None => false,
        };
        if eligible {
            let has_payload = store.payload_ref(e).is_some();
            if has_payload {
                let ghost s_pre = *store;
                proof {
                    assert(runnable(*old(store), e as int));
                }
                let mut payload = store.take_payload(e);
                let done = payload.run(data);
                let ghost s_taken = *store;
                store.put_payload(e, payload);
                let ghost s_put = *store;
                record_run_result(store, e, done);
                proof {
                    assert forall|x: int| x != e as int
                        implies slot_unchanged(s_pre, *store, x) by {
                        assert(slot_unchanged(s_pre, s_taken, x));
                        assert(slot_unchanged(s_taken, s_put, x));
                        assert(slot_unchanged(s_put, *store, x));
                    }
                    assert forall|x: int| edges_unchanged_at(*old(store), *store, x) by {
                        assert(edges_unchanged_at(*old(store), s_pre, x));
                        if x != e as int {
                            assert(slot_unchanged(s_pre, *store, x));
                        }
                    }
                    assert(s_taken.alive(e as int) == s_pre.alive(e as int));
                    assert(s_put.alive(e as int) == s_taken.alive(e as int));
                    assert(store.alive(e as int) == s_put.alive(e as int));
                    assert(s_taken.final_tag(e as int) == s_pre.final_tag(e as int));
                    assert(s_put.final_tag(e as int) == s_taken.final_tag(e as int));
                    assert(store.final_tag(e as int) == s_put.final_tag(e as int));
                    assert forall|x: int| #![auto] store.alive(x) == old(store).alive(x)
                        && store.final_tag(x) == old(store).final_tag(x)
                        && store.has_progress(x) == old(store).has_progress(x)
                        && store.unblocked(x) == old(store).unblocked(x)
                        && store.payload(x).is_some() == old(store).payload(x).is_some()
                        && (old(store).complete_flag(x) ==> store.complete_flag(x))
                        && ((store.complete_flag(x) && !old(store).complete_flag(x))
                            ==> runnable(*old(store), x))
                        && (!runnable(*old(store), x)
                            ==> store.payload(x) == old(store).payload(x)
                                && store.complete_flag(x)
                                    == old(store).complete_flag(x)) by {
                        if x != e as int {
                            assert(slot_unchanged(s_pre, *store, x));
                        }
                    }
                }
            }
        }
        e += 1;
    }
}

} // verus!