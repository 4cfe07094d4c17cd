//! The maintenance engine: per-tick traversal from every finalized root that
//! determines completion, unblocks tasks whose dependency is satisfied, and
//! garbage-collects finished subtrees through the deferred command log.

use vstd::prelude::*;

use crate::components::OnCompletion;
use crate::log::{applied_at, log_deletes, log_removes_final, log_removes_progress, Command,
    CommandLog};
use crate::store::{cleared_at, edges_unchanged_at, lemma_wf_edges_unchanged, slot_unchanged,
    Store};

verus! {

/// A task entity reads as complete to the maintenance traversal: its
/// progress was already collected, or its completion flag is set (the
/// collection is then queued this very pass).
pub open spec fn task_observed_complete<P>(s: Store<P>, e: int) -> bool {
    !s.has_progress(e) || s.complete_flag(e)
}

/// What one maintenance pass observes for entity `e`: a fork is observed
/// complete when its `SingleEdge` child (if any) and all of its prongs are;
/// a task when its progress is absent or its completion flag is set.
pub open spec fn observed_complete<P>(s: Store<P>, e: int) -> bool
    decreases e, 1int, 0int,
        when s.wf()
{
    if s.has_multi(e) {
        &&& (s.has_single(e) ==> observed_complete(s, s.the_single(e)))
        &&& all_observed_complete(s, s.multi_children(e), e)
    } else {
        task_observed_complete(s, e)
    }
}

/// Every entity in `kids` (all created before `bound`) is observed complete.
pub open spec fn all_observed_complete<P>(s: Store<P>, kids: Seq<int>, bound: int) -> bool
    decreases bound, 0int, kids.len(),
        when s.wf() && (forall|i: int| 0 <= i < kids.len() ==> 0 <= #[trigger] kids[i] < bound)
{
    if kids.len() == 0 {
        true
    } else {
        observed_complete(s, kids[0]) && all_observed_complete(s, kids.drop_first(), bound)
    }
}

/// Entity `e` is complete: a fork iff its `SingleEdge` child (if any) and all
/// of its prongs are complete; a task iff its progress attribute is absent.
pub open spec fn entity_complete<P>(s: Store<P>, e: int) -> bool
    decreases e, 1int, 0int,
        when s.wf()
{
    if s.has_multi(e) {
        &&& (s.has_single(e) ==> entity_complete(s, s.the_single(e)))
        &&& all_entities_complete(s, s.multi_children(e), e)
    } else {
        !s.has_progress(e)
    }
}

/// Every entity in `kids` (all created before `bound`) is complete.
pub open spec fn all_entities_complete<P>(s: Store<P>, kids: Seq<int>, bound: int) -> bool
    decreases bound, 0int, kids.len(),
        when s.wf() && (forall|i: int| 0 <= i < kids.len() ==> 0 <= #[trigger] kids[i] < bound)
{
    if kids.len() == 0 {
        true
    } else {
        entity_complete(s, kids[0]) && all_entities_complete(s, kids.drop_first(), bound)
    }
}

/// Unfolds the sequence recursion into a quantifier.
pub proof fn lemma_all_observed_iff<P>(s: Store<P>, kids: Seq<int>, bound: int)
    requires
        s.wf(),
        forall|i: int| 0 <= i < kids.len() ==> 0 <= #[trigger] kids[i] < bound,
    ensures
        all_observed_complete(s, kids, bound)
            <==> (forall|i: int| 0 <= i < kids.len() ==> observed_complete(s, #[trigger] kids[i])),
    decreases kids.len(),
{
    if kids.len() > 0 {
        lemma_all_observed_iff(s, kids.drop_first(), bound);
        assert(forall|i: int| 0 <= i < kids.drop_first().len()
            ==> #[trigger] kids.drop_first()[i] == kids[i + 1]);
        if all_observed_complete(s, kids, bound) {
            assert forall|i: int| 0 <= i < kids.len()
                implies observed_complete(s, #[trigger] kids[i]) by {
                if i > 0 {
                    assert(kids.drop_first()[i - 1] == kids[i]);
                }
            }
        }
    }
}

/// Unfolds the sequence recursion into a quantifier.
pub proof fn lemma_all_complete_iff<P>(s: Store<P>, kids: Seq<int>, bound: int)
    requires
        s.wf(),
        forall|i: int| 0 <= i < kids.len() ==> 0 <= #[trigger] kids[i] < bound,
    ensures
        all_entities_complete(s, kids, bound)
            <==> (forall|i: int| 0 <= i < kids.len() ==> entity_complete(s, #[trigger] kids[i])),
    decreases kids.len(),
{
    if kids.len() > 0 {
        lemma_all_complete_iff(s, kids.drop_first(), bound);
        assert(forall|i: int| 0 <= i < kids.drop_first().len()
            ==> #[trigger] kids.drop_first()[i] == kids[i + 1]);
        if all_entities_complete(s, kids, bound) {
            assert forall|i: int| 0 <= i < kids.len()
                implies entity_complete(s, #[trigger] kids[i]) by {
                if i > 0 {
                    assert(kids.drop_first()[i - 1] == kids[i]);
                }
            }
        }
    }
}

/// The `SingleEdge` barrier of `e` is open: `e` has no `SingleEdge`, or its
/// child is observed complete. On a fork, a closed barrier keeps every
/// prong from being maintained.
pub open spec fn barrier_open<P>(s: Store<P>, e: int) -> bool {
    s.has_single(e) ==> observed_complete(s, s.the_single(e))
}

/// The entities a maintenance traversal of `e` visits, read off the
/// traversal's entry state: `e` itself; below a fork, its `SingleEdge`
/// child always, and its prongs only once that barrier child is observed
/// complete; below a task, its `SingleEdge` child only while the task is
/// pending, unflagged and still blocked — an already-unblocked task's
/// verified subtree is not re-walked, and a collected or flagged task ends
/// the walk.
pub open spec fn maintained_from<P>(s: Store<P>, e: int, x: int) -> bool
    decreases e, 1int, 0int,
        when s.wf()
{
    ||| x == e
    ||| (if s.has_multi(e) {
            ||| (s.has_single(e) && maintained_from(s, s.the_single(e), x))
            ||| (barrier_open(s, e) && maintained_via(s, s.multi_children(e), x, e))
        } else {
            &&& s.has_progress(e)
            &&& !s.complete_flag(e)
            &&& !s.unblocked(e)
            &&& s.has_single(e)
            &&& maintained_from(s, s.the_single(e), x)
        })
}

/// Some entity of `kids` (all created before `bound`) maintains `x`.
pub open spec fn maintained_via<P>(s: Store<P>, kids: Seq<int>, x: int, bound: int) -> bool
    decreases bound, 0int, kids.len(),
        when s.wf() && (forall|i: int| 0 <= i < kids.len() ==> 0 <= #[trigger] kids[i] < bound)
{
    if kids.len() == 0 {
        false
    } else {
        maintained_from(s, kids[0], x) || maintained_via(s, kids.drop_first(), x, bound)
    }
}

/// Membership in a union of per-child maintained sets.
pub proof fn lemma_maintained_via_membership<P>(s: Store<P>, kids: Seq<int>, bound: int)
    requires
        s.wf(),
        forall|i: int| 0 <= i < kids.len() ==> 0 <= #[trigger] kids[i] < bound,
    ensures
        forall|x: int| maintained_via(s, kids, x, bound)
            <==> exists|i: int| 0 <= i < kids.len()
                && #[trigger] maintained_from(s, kids[i], x),
    decreases kids.len(),
{
    if kids.len() > 0 {
        lemma_maintained_via_membership(s, kids.drop_first(), bound);
        assert(forall|i: int| 0 <= i < kids.drop_first().len()
            ==> #[trigger] kids.drop_first()[i] == kids[i + 1]);
        assert forall|x: int| maintained_via(s, kids, x, bound)
            implies exists|i: int| 0 <= i < kids.len()
                && #[trigger] maintained_from(s, kids[i], x) by {
            if maintained_from(s, kids[0], x) {
                assert(maintained_from(s, kids[0], x) && 0 < kids.len());
            } else {
                assert(maintained_via(s, kids.drop_first(), x, bound));
                let i = choose|i: int| 0 <= i < kids.drop_first().len()
                    && #[trigger] maintained_from(s, kids.drop_first()[i], x);
                assert(kids.drop_first()[i] == kids[i + 1]);
                assert(maintained_from(s, kids[i + 1], x));
            }
        }
        assert forall|x: int|
            (exists|i: int| 0 <= i < kids.len() && #[trigger] maintained_from(s, kids[i], x))
            implies maintained_via(s, kids, x, bound) by {
            let i = choose|i: int| 0 <= i < kids.len()
                && #[trigger] maintained_from(s, kids[i], x);
            if i > 0 {
                assert(maintained_from(s, kids.drop_first()[i - 1], x));
                assert(maintained_via(s, kids.drop_first(), x, bound));
            } else {
                assert(maintained_from(s, kids[0], x));
            }
        }
    }
}

/// Maintained-reachability follows dependency edges, which always point to
/// strictly older entities.
pub proof fn lemma_maintained_below<P>(s: Store<P>, e: int, x: int)
    requires
        s.wf(),
        maintained_from(s, e, x),
    ensures
        x <= e,
    decreases e, 1int, 0int,
{
    if x != e {
        if s.has_multi(e) {
            if s.has_single(e) && maintained_from(s, s.the_single(e), x) {
                lemma_maintained_below(s, s.the_single(e), x);
            } else {
                lemma_kids_bounded(s, e);
                assert(maintained_via(s, s.multi_children(e), x, e));
                lemma_maintained_via_membership(s, s.multi_children(e), e);
                let i = choose|i: int| 0 <= i < s.multi_children(e).len()
                    && #[trigger] maintained_from(s, s.multi_children(e)[i], x);
                lemma_maintained_below(s, s.multi_children(e)[i], x);
            }
        } else {
            lemma_maintained_below(s, s.the_single(e), x);
        }
    }
}

/// A path seen mid-pass was already a path at the pass's entry: a
/// traversal only sets unblocked flags, and a task's walk-through guard
/// (`!unblocked`) only gets harder to meet.
pub proof fn lemma_maintained_monotone<P>(s0: Store<P>, s1: Store<P>, c: int, x: int)
    requires
        s0.wf(),
        maintain_frame(s0, s1),
        maintained_from(s1, c, x),
    ensures
        maintained_from(s0, c, x),
    decreases c, 1int, 0int,
{
    lemma_wf_edges_unchanged(s0, s1);
    assert(edges_unchanged_at(s0, s1, c));
    if x != c {
        lemma_kids_bounded(s0, c);
        if s1.has_multi(c) {
            if s1.has_single(c) && maintained_from(s1, s1.the_single(c), x) {
                lemma_maintained_monotone(s0, s1, s0.the_single(c), x);
            } else {
                if s1.has_single(c) {
                    lemma_observed_frame(s0, s1, s0.the_single(c));
                }
                assert(s1.multi_children(c) == s0.multi_children(c));
                assert(maintained_via(s1, s1.multi_children(c), x, c));
                lemma_maintained_via_membership(s1, s1.multi_children(c), c);
                lemma_maintained_via_membership(s0, s0.multi_children(c), c);
                let i = choose|i: int| 0 <= i < s1.multi_children(c).len()
                    && #[trigger] maintained_from(s1, s1.multi_children(c)[i], x);
                lemma_maintained_monotone(s0, s1, s1.multi_children(c)[i], x);
                assert(maintained_from(s0, s0.multi_children(c)[i], x));
                assert(maintained_via(s0, s0.multi_children(c), x, c));
            }
        } else {
            lemma_maintained_monotone(s0, s1, s0.the_single(c), x);
        }
    }
}

/// A broken link on an entry-state path: interior task `y` was unblocked by
/// the pass itself, with the rest of the path hanging below its child.
pub open spec fn path_broken_at<P>(s0: Store<P>, s1: Store<P>, c: int, x: int, y: int) -> bool {
    &&& s1.unblocked(y)
    &&& !s0.unblocked(y)
    &&& !s0.has_multi(y)
    &&& s0.has_progress(y)
    &&& !s0.complete_flag(y)
    &&& s0.has_single(y)
    &&& maintained_from(s0, c, y)
    &&& maintained_from(s0, s0.the_single(y), x)
}

/// An entry-state path either survives the pass, or it was severed at an
/// interior task the pass itself unblocked — and unblocking that task
/// required its child to be observed complete.
pub proof fn lemma_maintained_stable<P>(s0: Store<P>, s1: Store<P>, c: int, x: int)
    requires
        s0.wf(),
        maintain_frame(s0, s1),
        maintained_from(s0, c, x),
    ensures
        maintained_from(s1, c, x)
            || exists|y: int| #[trigger] path_broken_at(s0, s1, c, x, y),
    decreases c, 1int, 0int,
{
    lemma_wf_edges_unchanged(s0, s1);
    assert(edges_unchanged_at(s0, s1, c));
    if x != c {
        lemma_kids_bounded(s0, c);
        if s0.has_multi(c) {
            if s0.has_single(c) && maintained_from(s0, s0.the_single(c), x) {
                lemma_maintained_stable(s0, s1, s0.the_single(c), x);
                if !maintained_from(s1, s0.the_single(c), x) {
                    let y = choose|y: int|
                        #[trigger] path_broken_at(s0, s1, s0.the_single(c), x, y);
                    assert(maintained_from(s0, s0.the_single(c), y));
                    assert(maintained_from(s0, c, y));
                    assert(path_broken_at(s0, s1, c, x, y));
                } else {
                    assert(maintained_from(s1, c, x));
                }
            } else {
                if s0.has_single(c) {
                    lemma_observed_frame(s0, s1, s0.the_single(c));
                }
                assert(s1.multi_children(c) == s0.multi_children(c));
                assert(maintained_via(s0, s0.multi_children(c), x, c));
                lemma_maintained_via_membership(s0, s0.multi_children(c), c);
                lemma_maintained_via_membership(s1, s1.multi_children(c), c);
                let i = choose|i: int| 0 <= i < s0.multi_children(c).len()
                    && #[trigger] maintained_from(s0, s0.multi_children(c)[i], x);
                lemma_maintained_stable(s0, s1, s0.multi_children(c)[i], x);
                if maintained_from(s1, s0.multi_children(c)[i], x) {
                    assert(maintained_from(s1, s1.multi_children(c)[i], x));
                    assert(maintained_via(s1, s1.multi_children(c), x, c));
                    assert(maintained_from(s1, c, x));
                } else {
                    let y = choose|y: int|
                        #[trigger] path_broken_at(s0, s1, s0.multi_children(c)[i], x, y);
                    assert(maintained_from(s0, s0.multi_children(c)[i], y));
                    assert(maintained_via(s0, s0.multi_children(c), y, c));
                    assert(maintained_from(s0, c, y));
                    assert(path_broken_at(s0, s1, c, x, y));
                }
            }
        } else {
            if s1.unblocked(c) {
                assert(maintained_from(s0, c, c));
                assert(path_broken_at(s0, s1, c, x, c));
            } else {
                lemma_maintained_stable(s0, s1, s0.the_single(c), x);
                if !maintained_from(s1, s0.the_single(c), x) {
                    let y = choose|y: int|
                        #[trigger] path_broken_at(s0, s1, s0.the_single(c), x, y);
                    assert(maintained_from(s0, s0.the_single(c), y));
                    assert(maintained_from(s0, c, y));
                    assert(path_broken_at(s0, s1, c, x, y));
                } else {
                    assert(maintained_from(s1, c, x));
                }
            }
        }
    }
}

/// Below an observed-complete entity, a maintained path reaches no task
/// that is still ready to unblock: complete tasks end the walk, and a
/// complete fork's children are all complete in turn.
pub proof fn lemma_no_ready_below_complete<P>(s: Store<P>, c: int, x: int)
    requires
        s.wf(),
        observed_complete(s, c),
        maintained_from(s, c, x),
    ensures
        !task_ready_to_unblock(s, x),
    decreases c, 1int, 0int,
{
    if s.has_multi(c) {
        if x != c {
            lemma_kids_bounded(s, c);
            if s.has_single(c) && maintained_from(s, s.the_single(c), x) {
                lemma_no_ready_below_complete(s, s.the_single(c), x);
            } else {
                assert(maintained_via(s, s.multi_children(c), x, c));
                lemma_maintained_via_membership(s, s.multi_children(c), c);
                let i = choose|i: int| 0 <= i < s.multi_children(c).len()
                    && #[trigger] maintained_from(s, s.multi_children(c)[i], x);
                lemma_all_observed_iff(s, s.multi_children(c), c);
                assert(all_observed_complete(s, s.multi_children(c), c));
                assert(observed_complete(s, s.multi_children(c)[i]));
                lemma_no_ready_below_complete(s, s.multi_children(c)[i], x);
            }
        }
    } else {
        // A task observed complete has no progress or carries the flag, so
        // the walk ends here and the task itself is not ready.
        assert(x == c);
    }
}

/// Maintained paths compose across a pending, blocked task: a path to the
/// task extends through its `SingleEdge` child.
pub proof fn lemma_maintained_trans<P>(s: Store<P>, a: int, y: int, x: int)
    requires
        s.wf(),
        maintained_from(s, a, y),
        !s.has_multi(y),
        s.has_progress(y),
        !s.complete_flag(y),
        !s.unblocked(y),
        s.has_single(y),
        maintained_from(s, s.the_single(y), x),
    ensures
        maintained_from(s, a, x),
    decreases a, 1int, 0int,
{
    if y == a {
        assert(maintained_from(s, a, x));
    } else {
        lemma_kids_bounded(s, a);
        if s.has_multi(a) {
            if s.has_single(a) && maintained_from(s, s.the_single(a), y) {
                lemma_maintained_trans(s, s.the_single(a), y, x);
            } else {
                assert(maintained_via(s, s.multi_children(a), y, a));
                lemma_maintained_via_membership(s, s.multi_children(a), a);
                let i = choose|i: int| 0 <= i < s.multi_children(a).len()
                    && #[trigger] maintained_from(s, s.multi_children(a)[i], y);
                lemma_maintained_trans(s, s.multi_children(a)[i], y, x);
                assert(maintained_via(s, s.multi_children(a), x, a));
            }
        } else {
            lemma_maintained_trans(s, s.the_single(a), y, x);
        }
    }
}

/// A coarse bound on a task that became unblocked: it carried pending
/// progress and its own dependency, if any, was observed complete. The
/// exact account — including the fork-barrier discipline along the whole
/// path from the maintained entity — is [`unblock_exact`] over
/// [`maintained_from`]; this weaker per-task fact is what the stability
/// lemmas need.
pub open spec fn newly_unblocked_ok<P>(pre: Store<P>, x: int) -> bool {
    &&& pre.has_progress(x)
    &&& !pre.complete_flag(x)
    &&& (pre.has_single(x) ==> observed_complete(pre, pre.the_single(x)))
}

/// What a maintenance traversal may do to the store: nothing, except setting
/// unblocked flags of tasks whose dependency it observed complete. All
/// structural mutation is deferred to the command log.
pub open spec fn maintain_frame<P>(pre: Store<P>, post: Store<P>) -> bool {
    &&& post.num_entities() == pre.num_entities()
    &&& forall|x: int| #![auto] post.alive(x) == pre.alive(x)
    &&& forall|x: int| #![auto] post.has_progress(x) == pre.has_progress(x)
    &&& forall|x: int| #![auto] post.complete_flag(x) == pre.complete_flag(x)
    &&& forall|x: int| edges_unchanged_at(pre, post, x)
    &&& forall|x: int| #![auto] post.payload(x) == pre.payload(x)
    &&& forall|x: int| #![auto] post.final_tag(x) == pre.final_tag(x)
    &&& forall|x: int| #![auto] pre.unblocked(x) ==> post.unblocked(x)
    &&& forall|x: int| #![auto] post.unblocked(x) && !pre.unblocked(x)
            ==> newly_unblocked_ok(pre, x)
}

/// Observed completion depends only on attributes that a maintenance
/// traversal never changes, so it is stable across one.
pub proof fn lemma_observed_frame<P>(pre: Store<P>, post: Store<P>, e: int)
    requires
        pre.wf(),
        maintain_frame(pre, post),
    ensures
        post.wf(),
        observed_complete(post, e) == observed_complete(pre, e),
    decreases e, 1int, 0int,
{
    lemma_wf_edges_unchanged(pre, post);
    assert(edges_unchanged_at(pre, post, e));
    if pre.has_multi(e) {
        if pre.has_single(e) {
            lemma_observed_frame(pre, post, pre.the_single(e));
        }
        lemma_all_observed_frame(pre, post, pre.multi_children(e), e);
    }
}

/// Sequence form of [`lemma_observed_frame`].
pub proof fn lemma_all_observed_frame<P>(pre: Store<P>, post: Store<P>, kids: Seq<int>, bound: int)
    requires
        pre.wf(),
        maintain_frame(pre, post),
        forall|i: int| 0 <= i < kids.len() ==> 0 <= #[trigger] kids[i] < bound,
    ensures
        post.wf(),
        all_observed_complete(post, kids, bound) == all_observed_complete(pre, kids, bound),
    decreases bound, 0int, kids.len(),
{
    lemma_wf_edges_unchanged(pre, post);
    if kids.len() > 0 {
        lemma_observed_frame(pre, post, kids[0]);
        lemma_all_observed_frame(pre, post, kids.drop_first(), bound);
    }
}

/// Maintenance frames compose.
pub proof fn lemma_maintain_frame_trans<P>(s0: Store<P>, s1: Store<P>, s2: Store<P>)
    requires
        s0.wf(),
        maintain_frame(s0, s1),
        maintain_frame(s1, s2),
    ensures
        maintain_frame(s0, s2),
{
    assert forall|x: int| edges_unchanged_at(s0, s2, x) by {
        assert(edges_unchanged_at(s0, s1, x));
        assert(edges_unchanged_at(s1, s2, x));
    }
    assert forall|x: int| #![auto] s2.unblocked(x) && !s0.unblocked(x)
        implies newly_unblocked_ok(s0, x) by {
        assert(edges_unchanged_at(s0, s1, x));
        assert(s1.has_progress(x) == s0.has_progress(x));
        assert(s1.complete_flag(x) == s0.complete_flag(x));
        if s1.unblocked(x) {
            assert(newly_unblocked_ok(s0, x));
        } else {
            assert(s2.unblocked(x) && !s1.unblocked(x));
            assert(newly_unblocked_ok(s1, x));
            if s1.has_single(x) {
                lemma_observed_frame(s0, s1, s1.the_single(x));
            }
        }
    }
}

/// Returns true iff the task was seen as complete and collected: its
/// progress attribute is absent. Assumes `entity` was at one point a task;
/// it cannot tell otherwise.
pub fn task_is_complete<P>(store: &Store<P>, entity: usize) -> (r: bool)
    ensures
        r == !store.has_progress(entity as int),
{
    store.progress_of(entity).is_none()
}

/// Returns true iff the `SingleEdge` child (if any) of `entity` and all of
/// the given prongs are complete.
pub fn fork_is_complete<P>(store: &Store<P>, entity: usize, multi_children: &Vec<usize>)
    -> (r: bool)
    requires
        store.wf(),
        forall|i: int| 0 <= i < multi_children@.len()
            ==> (#[trigger] multi_children@[i]) < entity,
    ensures
        r == ({
            &&& (store.has_single(entity as int)
                    ==> entity_complete(*store, store.the_single(entity as int)))
            &&& forall|i: int| 0 <= i < multi_children@.len()
                    ==> entity_complete(*store, #[trigger] multi_children@[i] as int)
        }),
    decreases entity as int, 0int,
{
    match store.single_edge_of(entity) {
        Some(child) => {
            if !entity_is_complete(store, child) {
                return false;
            }
        },
        None => {},
    }
    let mut i: usize = 0;
    while i < multi_children.len()
        invariant
            store.wf(),
            i <= multi_children@.len(),
            forall|j: int| 0 <= j < multi_children@.len()
                ==> (#[trigger] multi_children@[j]) < entity,
            forall|j: int| 0 <= j < i as int
                ==> entity_complete(*store, #[trigger] multi_children@[j] as int),
        decreases multi_children@.len() - i,
    {
        if !entity_is_complete(store, multi_children[i]) {
            return false;
        }
        i += 1;
    }
    true
}

/// Tells whether a fork or a task entity is complete: a fork iff every
/// entity reachable below it is, a task iff its progress attribute is
/// absent. Assumes `entity` was at one point a task or a fork; it cannot
/// tell otherwise.
pub fn entity_is_complete<P>(store: &Store<P>, entity: usize) -> (r: bool)
    requires
        store.wf(),
    ensures
        r == entity_complete(*store, entity as int),
    decreases entity as int, 1int,
{
    // Only fork entities can have `MultiEdge`s, and they always do.
    match store.multi_children_of(entity) {
        Some(kids) => {
            proof {
                assert forall|i: int| 0 <= i < kids@.len()
                    implies (#[trigger] kids@[i]) < entity by {
                    assert(store.multi_children(entity as int)[i] == kids@[i] as int);
                }
            }
            let r = fork_is_complete(store, entity, &kids);
            proof {
                lemma_all_complete_iff(*store, store.multi_children(entity as int), entity as int);
                assert forall|i: int|
                    0 <= i < store.multi_children(entity as int).len()
                        && (forall|j: int| 0 <= j < kids@.len()
                            ==> entity_complete(*store, #[trigger] kids@[j] as int))
                    implies entity_complete(
                        *store, #[trigger] store.multi_children(entity as int)[i]) by {
                    assert(store.multi_children(entity as int)[i] == kids@[i] as int);
                }
                assert forall|j: int|
                    0 <= j < kids@.len()
                        && (forall|i: int| 0 <= i < store.multi_children(entity as int).len()
                            ==> entity_complete(
                                *store, #[trigger] store.multi_children(entity as int)[i]))
                    implies entity_complete(*store, #[trigger] kids@[j] as int) by {
                    assert(store.multi_children(entity as int)[j] == kids@[j] as int);
                }
            }
            r
        },
        None => task_is_complete(store, entity),
    }
}

/// The entities that deleting `e` removes: `e` itself and everything
/// reachable from it over edges, skipping entities that are already dead (a
/// dead child implies its whole subtree was already removed).
pub open spec fn delete_set<P>(s: Store<P>, e: int) -> Set<int>
    decreases e, 1int, 0int,
        when s.wf()
{
    if !s.alive(e) {
        Set::empty()
    } else {
        Set::empty().insert(e).union(children_delete_set_rec(s, e))
    }
}

/// The union of the delete sets of `e`'s direct dependencies.
pub open spec fn children_delete_set_rec<P>(s: Store<P>, e: int) -> Set<int>
    decreases e, 0int, 1int,
        when s.wf()
{
    (if s.has_single(e) {
        delete_set(s, s.the_single(e))
    } else {
        Set::empty()
    }).union(delete_sets_of(s, s.multi_children(e), e))
}

/// The union of the delete sets of `kids` (all created before `bound`).
pub open spec fn delete_sets_of<P>(s: Store<P>, kids: Seq<int>, bound: int) -> Set<int>
    decreases bound, 0int, 0int, kids.len(),
        when s.wf() && (forall|i: int| 0 <= i < kids.len() ==> 0 <= #[trigger] kids[i] < bound)
{
    if kids.len() == 0 {
        Set::empty()
    } else {
        delete_set(s, kids[0]).union(delete_sets_of(s, kids.drop_first(), bound))
    }
}

/// Membership in a union of per-child delete sets.
pub proof fn lemma_delete_sets_of_membership<P>(s: Store<P>, kids: Seq<int>, bound: int)
    requires
        s.wf(),
        forall|i: int| 0 <= i < kids.len() ==> 0 <= #[trigger] kids[i] < bound,
    ensures
        forall|x: int| delete_sets_of(s, kids, bound).contains(x)
            <==> exists|i: int| 0 <= i < kids.len()
                && #[trigger] delete_set(s, kids[i]).contains(x),
    decreases kids.len(),
{
    if kids.len() > 0 {
        lemma_delete_sets_of_membership(s, kids.drop_first(), bound);
        assert(forall|i: int| 0 <= i < kids.drop_first().len()
            ==> #[trigger] kids.drop_first()[i] == kids[i + 1]);
        assert forall|x: int| delete_sets_of(s, kids, bound).contains(x)
            implies exists|i: int| 0 <= i < kids.len()
                && #[trigger] delete_set(s, kids[i]).contains(x) by {
            if delete_set(s, kids[0]).contains(x) {
                assert(delete_set(s, kids[0]).contains(x) && 0 < kids.len());
            } else {
                assert(delete_sets_of(s, kids.drop_first(), bound).contains(x));
                let i = choose|i: int| 0 <= i < kids.drop_first().len()
                    && #[trigger] delete_set(s, kids.drop_first()[i]).contains(x);
                assert(kids.drop_first()[i] == kids[i + 1]);
                assert(delete_set(s, kids[i + 1]).contains(x));
            }
        }
        assert forall|x: int|
            (exists|i: int| 0 <= i < kids.len()
                && #[trigger] delete_set(s, kids[i]).contains(x))
            implies delete_sets_of(s, kids, bound).contains(x) by {
            let i = choose|i: int| 0 <= i < kids.len()
                && #[trigger] delete_set(s, kids[i]).contains(x);
            if i > 0 {
                assert(delete_set(s, kids.drop_first()[i - 1]).contains(x));
                assert(delete_sets_of(s, kids.drop_first(), bound).contains(x));
            } else {
                assert(delete_set(s, kids[0]).contains(x));
            }
        }
    }
}

/// Deletes only the descendent entities of `entity`, leaving `entity`
/// itself alive. All deletions are queued to the command log, never applied
/// in place during a traversal.
pub fn delete_descendents<P>(store: &Store<P>, log: &mut CommandLog, entity: usize)
    requires
        store.wf(),
    ensures
        forall|x: int| log_deletes(final(log)@, x)
            == (log_deletes(old(log)@, x)
                || children_delete_set_rec(*store, entity as int).contains(x)),
        forall|x: int| log_removes_progress(final(log)@, x)
            == log_removes_progress(old(log)@, x),
        forall|x: int| log_removes_final(final(log)@, x) == log_removes_final(old(log)@, x),
    decreases entity as int, 0int,
{
    let ghost kseq = store.multi_children(entity as int);
    match store.multi_children_of(entity) {
        Some(kids) => {
            proof {
                assert forall|i: int| 0 <= i < kids@.len()
                    implies (#[trigger] kids@[i]) < entity by {
                    assert(kseq[i] == kids@[i] as int);
                }
                lemma_delete_sets_of_membership(*store, kseq, entity as int);
            }
            let mut i: usize = 0;
            while i < kids.len()
                invariant
                    store.wf(),
                    i <= kids@.len(),
                    kids@.map_values(|c: usize| c as int) == kseq,
                    forall|j: int| 0 <= j < kseq.len() ==> 0 <= #[trigger] kseq[j] < entity as int,
                    forall|j: int| 0 <= j < kids@.len() ==> (#[trigger] kids@[j]) < entity,
                    forall|x: int| log_deletes(log@, x)
                        == (log_deletes(old(log)@, x)
                            || exists|j: int| 0 <= j < i as int
                                && #[trigger] delete_set(*store, kseq[j]).contains(x)),
                    forall|x: int| log_removes_progress(log@, x)
                        == log_removes_progress(old(log)@, x),
                    forall|x: int| log_removes_final(log@, x) == log_removes_final(old(log)@, x),
                decreases kids@.len() - i,
            {
                let ghost mid = log@;
                delete_entity_and_descendents(store, log, kids[i]);
                proof {
                    assert(kseq[i as int] == kids@[i as int] as int);
                    assert forall|x: int| log_deletes(log@, x)
                        implies (log_deletes(old(log)@, x)
                            || exists|j: int| 0 <= j < i as int + 1
                                && #[trigger] delete_set(*store, kseq[j]).contains(x)) by {
                        if !log_deletes(old(log)@, x) {
                            if log_deletes(mid, x) {
                                let j = choose|j: int| 0 <= j < i as int
                                    && #[trigger] delete_set(*store, kseq[j]).contains(x);
                                assert(delete_set(*store, kseq[j]).contains(x));
                            } else {
                                assert(delete_set(*store, kseq[i as int]).contains(x));
                            }
                        }
                    }
                    assert forall|x: int|
                        (exists|j: int| 0 <= j < i as int + 1
                            && #[trigger] delete_set(*store, kseq[j]).contains(x))
                        implies log_deletes(log@, x) by {
                        let j = choose|j: int| 0 <= j < i as int + 1
                            && #[trigger] delete_set(*store, kseq[j]).contains(x);
                        if j < i as int {
                            assert(log_deletes(mid, x));
                        }
                    }
                }
                i += 1;
            }
            proof {
                assert forall|x: int| log_deletes(log@, x)
                    implies (log_deletes(old(log)@, x)
                        || delete_sets_of(*store, kseq, entity as int).contains(x)) by {}
                assert forall|x: int|
                    delete_sets_of(*store, kseq, entity as int).contains(x)
                    implies log_deletes(log@, x) by {
                    let j = choose|j: int| 0 <= j < kseq.len()
                        && #[trigger] delete_set(*store, kseq[j]).contains(x);
                }
            }
        },
        None => {
            proof {
                assert(kseq.len() == 0);
                lemma_delete_sets_of_membership(*store, kseq, entity as int);
            }
        },
    }
    match store.single_edge_of(entity) {
        Some(child) => {
            delete_entity_and_descendents(store, log, child);
        },
        None => {},
    }
}

/// Deletes `entity` and all of its descendents, queueing the deletions to
/// the command log. If `entity` is already dead, this is a no-op: a dead
/// entity implies its whole subtree was already removed, which makes
/// recursive deletion idempotent under partial application.
pub fn delete_entity_and_descendents<P>(store: &Store<P>, log: &mut CommandLog, entity: usize)
    requires
        store.wf(),
    ensures
        forall|x: int| log_deletes(final(log)@, x)
            == (log_deletes(old(log)@, x) || delete_set(*store, entity as int).contains(x)),
        forall|x: int| log_removes_progress(final(log)@, x)
            == log_removes_progress(old(log)@, x),
        forall|x: int| log_removes_final(final(log)@, x) == log_removes_final(old(log)@, x),
    decreases entity as int, 1int,
{
    // Support async deletion: a dead child means its subtree is gone.
    if !store.is_alive(entity) {
        return;
    }
    delete_descendents(store, log, entity);
    let ghost mid = log@;
    log.push_delete(entity);
    proof {
        crate::log::lemma_log_push(mid, Command::DeleteEntity(entity));
        assert(log@ == mid.push(Command::DeleteEntity(entity)));
        assert forall|x: int| log_deletes(log@, x)
            == (log_deletes(old(log)@, x)
                || delete_set(*store, entity as int).contains(x)) by {
            assert(log_deletes(mid.push(Command::DeleteEntity(entity)), x)
                == (log_deletes(mid, x)
                    || (Command::DeleteEntity(entity) matches Command::DeleteEntity(y)
                        && y as int == x)));
            assert(log_deletes(log@, x) == (log_deletes(mid, x) || x == entity as int));
            assert(delete_set(*store, entity as int).contains(x)
                == (x == entity as int
                    || children_delete_set_rec(*store, entity as int).contains(x)));
        }
    }
}

/// What one maintenance traversal may add to the command log: progress
/// removals for tasks whose completion flag was set, and nothing else.
pub open spec fn maintain_log_delta<P>(s0: Store<P>, pre: Seq<Command>, post: Seq<Command>)
    -> bool {
    &&& forall|x: int| log_deletes(post, x) == log_deletes(pre, x)
    &&& forall|x: int| log_removes_final(post, x) == log_removes_final(pre, x)
    &&& forall|x: int| #![auto] log_removes_progress(pre, x) ==> log_removes_progress(post, x)
    &&& forall|x: int| #![auto] log_removes_progress(post, x)
            ==> log_removes_progress(pre, x)
                || (s0.has_progress(x) && s0.complete_flag(x))
}

/// Log deltas of consecutive traversal steps compose.
pub proof fn lemma_log_delta_trans<P>(
    s0: Store<P>,
    s1: Store<P>,
    l0: Seq<Command>,
    l1: Seq<Command>,
    l2: Seq<Command>,
)
    requires
        forall|x: int| #![auto] s1.has_progress(x) == s0.has_progress(x),
        forall|x: int| #![auto] s1.complete_flag(x) == s0.complete_flag(x),
        maintain_log_delta(s0, l0, l1),
        maintain_log_delta(s1, l1, l2),
    ensures
        maintain_log_delta(s0, l0, l2),
{
}

/// Exactly how one traversal of `e` changes the unblocked flags: a task
/// becomes unblocked iff the traversal reaches it — along open fork
/// barriers and pending, still-blocked tasks — and it is ready. Nothing
/// outside the maintained region is touched, and no prong is unblocked
/// past a closed fork barrier.
pub open spec fn unblock_exact<P>(s0: Store<P>, s1: Store<P>, e: int) -> bool {
    forall|x: int| #![auto] s1.unblocked(x)
        == (s0.unblocked(x)
            || (maintained_from(s0, e, x) && task_ready_to_unblock(s0, x)))
}

/// Exactly how one traversal of `e` extends the progress-removal queue: a
/// collection is queued iff the traversal reaches a completion-flagged
/// task.
pub open spec fn collect_exact<P>(
    s0: Store<P>,
    pre: Seq<Command>,
    post: Seq<Command>,
    e: int,
) -> bool {
    forall|x: int| #![auto] log_removes_progress(post, x)
        == (log_removes_progress(pre, x)
            || (maintained_from(s0, e, x) && !s0.has_multi(x)
                && s0.has_progress(x) && s0.complete_flag(x)))
}

/// A walk ends at a collected, flagged or already-unblocked task: nothing
/// below it is maintained, and the task itself is not ready.
proof fn lemma_task_walk_closed<P>(s: Store<P>, e: int)
    requires
        s.wf(),
        !s.has_multi(e),
        !s.has_progress(e) || s.complete_flag(e) || s.unblocked(e),
    ensures
        forall|x: int| #[trigger] maintained_from(s, e, x) ==> x == e,
        !task_ready_to_unblock(s, e),
{
}

/// The walk reaches `x` through the `SingleEdge` child of `e`.
pub open spec fn single_reached<P>(s: Store<P>, e: int, x: int) -> bool {
    s.has_single(e) && maintained_from(s, s.the_single(e), x)
}

/// Readiness is stable across a traversal for a task the traversal has not
/// unblocked.
pub proof fn lemma_ready_frame<P>(s0: Store<P>, s1: Store<P>, x: int)
    requires
        s0.wf(),
        maintain_frame(s0, s1),
        !s1.unblocked(x),
    ensures
        task_ready_to_unblock(s1, x) == task_ready_to_unblock(s0, x),
{
    lemma_wf_edges_unchanged(s0, s1);
    assert(edges_unchanged_at(s0, s1, x));
    if s0.has_single(x) {
        lemma_observed_frame(s0, s1, s0.the_single(x));
    }
}

/// Maintains a task entity: queues collection of its progress if its
/// completion flag is set, otherwise unblocks it once its dependency (if
/// any) is observed complete. Returns true iff the task is observed
/// complete; a task that merely became unblocked this pass is not.
fn maintain_task_and_descendents<P>(store: &mut Store<P>, log: &mut CommandLog, entity: usize)
    -> (r: bool)
    requires
        old(store).wf(),
        !old(store).has_multi(entity as int),
    ensures
        final(store).wf(),
        maintain_frame(*old(store), *final(store)),
        maintain_log_delta(*old(store), old(log)@, final(log)@),
        r == observed_complete(*old(store), entity as int),
        unblock_exact(*old(store), *final(store), entity as int),
        collect_exact(*old(store), old(log)@, final(log)@, entity as int),
    decreases entity as int, 1int,
{
    let (is_unblocked, is_complete) = match store.progress_of(entity) {
        Some(progress) => (progress.is_unblocked, progress.is_complete),
        None => {
            // Missing progress means the task is complete and was collected.
            proof {
                lemma_task_walk_closed(*store, entity as int);
                assert forall|x: int| #![auto] store.unblocked(x)
                    == (store.unblocked(x)
                        || (maintained_from(*store, entity as int, x)
                            && task_ready_to_unblock(*store, x))) by {
                    if maintained_from(*store, entity as int, x) {
                        assert(x == entity as int);
                    }
                }
                assert forall|x: int| #![auto] log_removes_progress(log@, x)
                    == (log_removes_progress(log@, x)
                        || (maintained_from(*store, entity as int, x) && !store.has_multi(x)
                            && store.has_progress(x) && store.complete_flag(x))) by {
                    if maintained_from(*store, entity as int, x) {
                        assert(x == entity as int);
                    }
                }
            }
            return true;
        },
    };

    if is_complete {
        let ghost l0 = log@;
        // The task will no longer be considered by the runner.
        log.push_remove_progress(entity);
        proof {
            crate::log::lemma_log_push(l0, Command::RemoveProgress(entity));
            lemma_task_walk_closed(*store, entity as int);
            assert forall|x: int| #![auto] store.unblocked(x)
                == (store.unblocked(x)
                    || (maintained_from(*store, entity as int, x)
                        && task_ready_to_unblock(*store, x))) by {
                if maintained_from(*store, entity as int, x) {
                    assert(x == entity as int);
                }
            }
            assert(log@ == l0.push(Command::RemoveProgress(entity)));
            assert forall|x: int| #![auto] log_removes_progress(log@, x)
                == (log_removes_progress(l0, x)
                    || (maintained_from(*store, entity as int, x) && !store.has_multi(x)
                        && store.has_progress(x) && store.complete_flag(x))) by {
                assert(log_removes_progress(l0.push(Command::RemoveProgress(entity)), x)
                    == (log_removes_progress(l0, x)
                        || (Command::RemoveProgress(entity)
                            matches Command::RemoveProgress(y) && y as int == x)));
                assert(log_removes_progress(log@, x)
                    == (log_removes_progress(l0, x) || x == entity as int));
                if maintained_from(*store, entity as int, x) {
                    assert(x == entity as int);
                }
            }
        }
        return true;
    }

    // If already unblocked, the dependency was verified complete in an
    // earlier pass; skip re-walking an already-satisfied subtree.
    if is_unblocked {
        proof {
            lemma_task_walk_closed(*store, entity as int);
            assert forall|x: int| #![auto] store.unblocked(x)
                == (store.unblocked(x)
                    || (maintained_from(*store, entity as int, x)
                        && task_ready_to_unblock(*store, x))) by {
                if maintained_from(*store, entity as int, x) {
                    assert(x == entity as int);
                }
            }
            assert forall|x: int| #![auto] log_removes_progress(log@, x)
                == (log_removes_progress(log@, x)
                    || (maintained_from(*store, entity as int, x) && !store.has_multi(x)
                        && store.has_progress(x) && store.complete_flag(x))) by {
                if maintained_from(*store, entity as int, x) {
                    assert(x == entity as int);
                }
            }
        }
        return false;
    }

    let ghost s0 = *store;
    let mut child_complete = true;
    match store.single_edge_of(entity) {
        Some(child) => {
            child_complete = maintain_entity_and_descendents(store, log, child);
            proof {
                lemma_observed_frame(s0, *store, child as int);
            }
        },
        None => {},
    }
    let ghost s_mid = *store;
    if child_complete {
        store.unblock(entity);
        proof {
            assert forall|x: int| edges_unchanged_at(s_mid, *store, x) by {
                if x != entity as int {
                    assert(slot_unchanged(s_mid, *store, x));
                }
            }
            assert forall|x: int| #![auto]
                store.alive(x) == s_mid.alive(x)
                    && store.has_progress(x) == s_mid.has_progress(x)
                    && store.complete_flag(x) == s_mid.complete_flag(x)
                    && store.payload(x) == s_mid.payload(x)
                    && store.final_tag(x) == s_mid.final_tag(x)
                    && (s_mid.unblocked(x) ==> store.unblocked(x)) by {
                if x != entity as int {
                    assert(slot_unchanged(s_mid, *store, x));
                }
            }
            assert forall|x: int| #![auto] store.unblocked(x) && !s_mid.unblocked(x)
                implies newly_unblocked_ok(s_mid, x) by {
                if x != entity as int {
                    assert(slot_unchanged(s_mid, *store, x));
                }
                assert(x == entity as int);
                if s_mid.has_single(x) {
                    assert(edges_unchanged_at(s0, s_mid, x));
                    assert(observed_complete(s_mid, s_mid.the_single(x)));
                }
            }
            assert(maintain_frame(s_mid, *store));
            lemma_maintain_frame_trans(s0, s_mid, *store);
        }
    }
    proof {
        let e = entity as int;
        if s0.has_single(e) {
            let c = s0.the_single(e);
            if maintained_from(s0, c, e) {
                lemma_maintained_below(s0, c, e);
            }
            assert(!maintained_from(s0, c, e));
        }
        assert forall|x: int| #![auto] store.unblocked(x)
            == (s0.unblocked(x)
                || (maintained_from(s0, e, x) && task_ready_to_unblock(s0, x))) by {
            if x == e {
                if s0.has_single(e) {
                    assert(!maintained_from(s0, s0.the_single(e), e));
                    assert(s_mid.unblocked(e) == (s0.unblocked(e)
                        || (maintained_from(s0, s0.the_single(e), e)
                            && task_ready_to_unblock(s0, e))));
                    assert(s_mid.unblocked(e) == s0.unblocked(e));
                }
                assert(task_ready_to_unblock(s0, e) == child_complete);
            } else {
                if child_complete {
                    assert(slot_unchanged(s_mid, *store, x));
                }
                assert(store.unblocked(x) == s_mid.unblocked(x));
            }
        }
        assert forall|x: int| #![auto] log_removes_progress(log@, x)
            == (log_removes_progress(old(log)@, x)
                || (maintained_from(s0, e, x) && !s0.has_multi(x) && s0.has_progress(x)
                    && s0.complete_flag(x))) by {
            if x == e {
                assert(!s0.complete_flag(e));
            }
        }
    }
    false
}

/// Maintains a fork entity: its `SingleEdge` child is a hard barrier; only
/// once that child is observed complete are the prongs maintained, and then
/// always all of them, so every independent branch keeps progressing even if
/// a sibling lags. Returns true iff the child and every prong are observed
/// complete.
fn maintain_fork_and_descendents<P>(
    store: &mut Store<P>,
    log: &mut CommandLog,
    entity: usize,
    multi_children: &Vec<usize>,
) -> (r: bool)
    requires
        old(store).wf(),
        old(store).has_multi(entity as int),
        multi_children@.map_values(|c: usize| c as int)
            == old(store).multi_children(entity as int),
    ensures
        final(store).wf(),
        maintain_frame(*old(store), *final(store)),
        maintain_log_delta(*old(store), old(log)@, final(log)@),
        r == observed_complete(*old(store), entity as int),
        unblock_exact(*old(store), *final(store), entity as int),
        collect_exact(*old(store), old(log)@, final(log)@, entity as int),
    decreases entity as int, 1int,
{
    let ghost s0 = *store;
    let ghost e_int = entity as int;
    let ghost kseq = s0.multi_children(entity as int);
    proof {
        assert forall|i: int| 0 <= i < multi_children@.len()
            implies (#[trigger] multi_children@[i]) < entity by {
            assert(kseq[i] == multi_children@[i] as int);
            assert(0 <= kseq[i] < entity as int);
        }
    }

    // The SingleEdge child must complete before any prong may progress.
    let mut single_ok = true;
    match store.single_edge_of(entity) {
        Some(child) => {
            single_ok = maintain_entity_and_descendents(store, log, child);
        },
        None => {},
    }

    let mut all_ok = true;
    if single_ok {
        let mut i: usize = 0;
        while i < multi_children.len()
            invariant
                s0.wf(),
                store.wf(),
                maintain_frame(s0, *store),
                maintain_log_delta(s0, old(log)@, log@),
                i <= multi_children@.len(),
                multi_children@.map_values(|c: usize| c as int) == kseq,
                forall|j: int| 0 <= j < kseq.len() ==> 0 <= #[trigger] kseq[j] < entity as int,
                forall|j: int| 0 <= j < multi_children@.len()
                    ==> (#[trigger] multi_children@[j]) < entity,
                all_ok == (forall|j: int| 0 <= j < i as int
                    ==> observed_complete(s0, #[trigger] kseq[j])),
                forall|x: int| #![auto] store.unblocked(x) == (s0.unblocked(x)
                    || ((single_reached(s0, e_int, x)
                        || exists|j: int| 0 <= j < i as int
                            && maintained_from(s0, #[trigger] kseq[j], x))
                        && task_ready_to_unblock(s0, x))),
                forall|x: int| #![auto] log_removes_progress(log@, x)
                    == (log_removes_progress(old(log)@, x)
                        || ((single_reached(s0, e_int, x)
                            || exists|j: int| 0 <= j < i as int
                                && maintained_from(s0, #[trigger] kseq[j], x))
                            && !s0.has_multi(x) && s0.has_progress(x)
                            && s0.complete_flag(x))),
            decreases multi_children@.len() - i,
        {
            let c = multi_children[i];
            let ghost s_pre = *store;
            let ghost l_pre = log@;
            let r = maintain_entity_and_descendents(store, log, c);
            proof {
                assert(kseq[i as int] == c as int);
                lemma_observed_frame(s0, s_pre, c as int);
                lemma_maintain_frame_trans(s0, s_pre, *store);
                lemma_log_delta_trans(s0, s_pre, old(log)@, l_pre, log@);
                let ck = kseq[i as int];
                assert forall|x: int| #![auto] store.unblocked(x) == (s0.unblocked(x)
                    || ((single_reached(s0, e_int, x)
                        || exists|j: int| 0 <= j < i as int + 1
                            && maintained_from(s0, #[trigger] kseq[j], x))
                        && task_ready_to_unblock(s0, x))) by {
                    assert(store.unblocked(x) == (s_pre.unblocked(x)
                        || (maintained_from(s_pre, ck, x)
                            && task_ready_to_unblock(s_pre, x))));
                    if store.unblocked(x) && !s_pre.unblocked(x) {
                        // Newly unblocked by this prong: lift its path to
                        // the entry state.
                        lemma_maintained_monotone(s0, s_pre, ck, x);
                        lemma_ready_frame(s0, s_pre, x);
                        assert(maintained_from(s0, kseq[i as int], x)
                            && 0 <= i as int && (i as int) < i as int + 1);
                    }
                    if !store.unblocked(x) && maintained_from(s0, ck, x)
                        && task_ready_to_unblock(s0, x) {
                        // Owed by this prong: the entry path either
                        // survived, or was severed at a task whose child
                        // was already complete — below which nothing is
                        // ready.
                        lemma_maintained_stable(s0, s_pre, ck, x);
                        if maintained_from(s_pre, ck, x) {
                            lemma_ready_frame(s0, s_pre, x);
                        } else {
                            let y = choose|y: int|
                                #[trigger] path_broken_at(s0, s_pre, ck, x, y);
                            assert(newly_unblocked_ok(s0, y));
                            lemma_no_ready_below_complete(s0, s0.the_single(y), x);
                        }
                    }
                    if exists|j: int| 0 <= j < i as int
                        && maintained_from(s0, #[trigger] kseq[j], x) {
                        let j = choose|j: int| 0 <= j < i as int
                            && maintained_from(s0, #[trigger] kseq[j], x);
                        assert(maintained_from(s0, kseq[j], x) && 0 <= j < i as int + 1);
                    }
                    if exists|j: int| 0 <= j < i as int + 1
                        && maintained_from(s0, #[trigger] kseq[j], x) {
                        let j = choose|j: int| 0 <= j < i as int + 1
                            && maintained_from(s0, #[trigger] kseq[j], x);
                        if j < i as int {
                            assert(maintained_from(s0, kseq[j], x) && 0 <= j < i as int);
                        }
                    }
                }
                assert forall|x: int| #![auto] log_removes_progress(log@, x)
                    == (log_removes_progress(old(log)@, x)
                        || ((single_reached(s0, e_int, x)
                            || exists|j: int| 0 <= j < i as int + 1
                                && maintained_from(s0, #[trigger] kseq[j], x))
                            && !s0.has_multi(x) && s0.has_progress(x)
                            && s0.complete_flag(x))) by {
                    assert(log_removes_progress(log@, x) == (log_removes_progress(l_pre, x)
                        || (maintained_from(s_pre, ck, x) && !s_pre.has_multi(x)
                            && s_pre.has_progress(x) && s_pre.complete_flag(x))));
                    assert(edges_unchanged_at(s0, s_pre, x));
                    if log_removes_progress(log@, x) && !log_removes_progress(l_pre, x) {
                        lemma_maintained_monotone(s0, s_pre, ck, x);
                        assert(maintained_from(s0, kseq[i as int], x)
                            && 0 <= i as int && (i as int) < i as int + 1);
                    }
                    if !log_removes_progress(log@, x) && maintained_from(s0, ck, x)
                        && !s0.has_multi(x) && s0.has_progress(x) && s0.complete_flag(x) {
                        lemma_maintained_stable(s0, s_pre, ck, x);
                        if !maintained_from(s_pre, ck, x) {
                            // Severed at a task this pass unblocked: that
                            // task's path came from an earlier prong or the
                            // barrier child, and composing paths shows the
                            // flagged task was already queued back then.
                            let y = choose|y: int|
                                #[trigger] path_broken_at(s0, s_pre, ck, x, y);
                            assert(s_pre.unblocked(y) && !s0.unblocked(y));
                            assert((single_reached(s0, e_int, y)
                                || exists|j: int| 0 <= j < i as int
                                    && maintained_from(s0, #[trigger] kseq[j], y))
                                && task_ready_to_unblock(s0, y));
                            if single_reached(s0, e_int, y) {
                                lemma_maintained_trans(s0, s0.the_single(e_int), y, x);
                                assert(single_reached(s0, e_int, x));
                            } else {
                                let j = choose|j: int| 0 <= j < i as int
                                    && maintained_from(s0, #[trigger] kseq[j], y);
                                lemma_maintained_trans(s0, kseq[j], y, x);
                                assert(maintained_from(s0, kseq[j], x)
                                    && 0 <= j < i as int);
                            }
                            assert(log_removes_progress(l_pre, x));
                        }
                    }
                    if exists|j: int| 0 <= j < i as int
                        && maintained_from(s0, #[trigger] kseq[j], x) {
                        let j = choose|j: int| 0 <= j < i as int
                            && maintained_from(s0, #[trigger] kseq[j], x);
                        assert(maintained_from(s0, kseq[j], x) && 0 <= j < i as int + 1);
                    }
                    if exists|j: int| 0 <= j < i as int + 1
                        && maintained_from(s0, #[trigger] kseq[j], x) {
                        let j = choose|j: int| 0 <= j < i as int + 1
                            && maintained_from(s0, #[trigger] kseq[j], x);
                        if j < i as int {
                            assert(maintained_from(s0, kseq[j], x) && 0 <= j < i as int);
                        }
                    }
                }
            }
            all_ok = all_ok && r;
            proof {
                assert forall|j: int| 0 <= j < i as int + 1
                        && all_ok
                    implies observed_complete(s0, #[trigger] kseq[j]) by {}
                if (forall|j: int| 0 <= j < i as int + 1
                    ==> observed_complete(s0, #[trigger] kseq[j])) {
                    assert(observed_complete(s0, kseq[i as int]));
                }
            }
            i += 1;
        }
        proof {
            lemma_all_observed_iff(s0, kseq, entity as int);
            lemma_maintained_via_membership(s0, kseq, e_int);
            assert(barrier_open(s0, e_int));
            assert forall|x: int| #![auto] store.unblocked(x) == (s0.unblocked(x)
                || (maintained_from(s0, e_int, x) && task_ready_to_unblock(s0, x))) by {
                lemma_fork_arms(s0, e_int, x);
            }
            assert forall|x: int| #![auto] log_removes_progress(log@, x)
                == (log_removes_progress(old(log)@, x)
                    || (maintained_from(s0, e_int, x) && !s0.has_multi(x)
                        && s0.has_progress(x) && s0.complete_flag(x))) by {
                lemma_fork_arms(s0, e_int, x);
            }
        }
    } else {
        proof {
            assert(!barrier_open(s0, e_int));
            assert forall|x: int| #![auto] store.unblocked(x) == (s0.unblocked(x)
                || (maintained_from(s0, e_int, x) && task_ready_to_unblock(s0, x))) by {
                lemma_fork_arms(s0, e_int, x);
            }
            assert forall|x: int| #![auto] log_removes_progress(log@, x)
                == (log_removes_progress(old(log)@, x)
                    || (maintained_from(s0, e_int, x) && !s0.has_multi(x)
                        && s0.has_progress(x) && s0.complete_flag(x))) by {
                lemma_fork_arms(s0, e_int, x);
            }
        }
    }
    proof {
        if s0.has_single(entity as int) {
            lemma_observed_frame(s0, *store, s0.the_single(entity as int));
        }
    }
    single_ok && all_ok
}

/// The maintained region of a fork splits into the fork itself, the
/// barrier child's region, and — once the barrier is open — the prongs'
/// regions; and the fork itself is neither a ready task nor a collectable
/// one.
proof fn lemma_fork_arms<P>(s: Store<P>, e: int, x: int)
    requires
        s.wf(),
        s.has_multi(e),
    ensures
        maintained_from(s, e, x) == (x == e || single_reached(s, e, x)
            || (barrier_open(s, e) && maintained_via(s, s.multi_children(e), x, e))),
        x == e ==> !task_ready_to_unblock(s, x),
        x == e ==> s.has_multi(x),
        single_reached(s, e, x) ==> x < e,
        maintained_via(s, s.multi_children(e), x, e) ==> x < e,
{
    lemma_kids_bounded(s, e);
    if single_reached(s, e, x) {
        lemma_maintained_below(s, s.the_single(e), x);
    }
    if maintained_via(s, s.multi_children(e), x, e) {
        lemma_maintained_via_membership(s, s.multi_children(e), e);
        let i = choose|i: int| 0 <= i < s.multi_children(e).len()
            && #[trigger] maintained_from(s, s.multi_children(e)[i], x);
        lemma_maintained_below(s, s.multi_children(e)[i], x);
    }
}

/// Maintains any entity: dispatches on the presence of a `MultiEdge` (only
/// fork entities have one, and they always do). Returns true iff the entity
/// is observed complete this pass.
pub fn maintain_entity_and_descendents<P>(store: &mut Store<P>, log: &mut CommandLog,
    entity: usize) -> (r: bool)
    requires
        old(store).wf(),
    ensures
        final(store).wf(),
        maintain_frame(*old(store), *final(store)),
        maintain_log_delta(*old(store), old(log)@, final(log)@),
        r == observed_complete(*old(store), entity as int),
        unblock_exact(*old(store), *final(store), entity as int),
        collect_exact(*old(store), old(log)@, final(log)@, entity as int),
    decreases entity as int, 2int,
{
    match store.multi_children_of(entity) {
        Some(kids) => maintain_fork_and_descendents(store, log, entity, &kids),
        None => maintain_task_and_descendents(store, log, entity),
    }
}

/// Delete sets depend only on aliveness and edges, which a maintenance
/// traversal never changes.
pub proof fn lemma_delete_set_frame<P>(pre: Store<P>, post: Store<P>, e: int)
    requires
        pre.wf(),
        maintain_frame(pre, post),
    ensures
        post.wf(),
        delete_set(post, e) == delete_set(pre, e),
    decreases e, 1int, 0int, 0int,
{
    lemma_wf_edges_unchanged(pre, post);
    assert(edges_unchanged_at(pre, post, e));
    if pre.alive(e) {
        lemma_children_delete_set_frame(pre, post, e);
    }
}

/// As [`lemma_delete_set_frame`], for the direct dependencies of `e`.
pub proof fn lemma_children_delete_set_frame<P>(pre: Store<P>, post: Store<P>, e: int)
    requires
        pre.wf(),
        maintain_frame(pre, post),
    ensures
        post.wf(),
        children_delete_set_rec(post, e) == children_delete_set_rec(pre, e),
    decreases e, 0int, 1int, 0int,
{
    lemma_wf_edges_unchanged(pre, post);
    assert(edges_unchanged_at(pre, post, e));
    if pre.has_single(e) {
        lemma_delete_set_frame(pre, post, pre.the_single(e));
    }
    if pre.has_multi(e) {
        assert forall|i: int| 0 <= i < pre.multi_children(e).len()
            implies 0 <= #[trigger] pre.multi_children(e)[i] < e by {}
    } else {
        crate::store::lemma_multi_children_absent(pre, e);
    }
    lemma_delete_sets_of_frame(pre, post, pre.multi_children(e), e);
}

/// As [`lemma_delete_set_frame`], for a sequence of children.
pub proof fn lemma_delete_sets_of_frame<P>(pre: Store<P>, post: Store<P>, kids: Seq<int>,
    bound: int)
    requires
        pre.wf(),
        maintain_frame(pre, post),
        forall|i: int| 0 <= i < kids.len() ==> 0 <= #[trigger] kids[i] < bound,
    ensures
        post.wf(),
        delete_sets_of(post, kids, bound) == delete_sets_of(pre, kids, bound),
    decreases bound, 0int, 0int, kids.len(),
{
    lemma_wf_edges_unchanged(pre, post);
    if kids.len() > 0 {
        lemma_delete_set_frame(pre, post, kids[0]);
        lemma_delete_sets_of_frame(pre, post, kids.drop_first(), bound);
    }
}

/// Entity `r` is a finalized root: alive and carrying a `FinalTag`.
pub open spec fn root_entity<P>(s: Store<P>, r: int) -> bool {
    s.alive(r) && s.final_tag(r).is_some()
}

/// The entities that resolving root `r` deletes, according to its
/// on-completion policy. Empty unless `r` is a finalized root observed
/// complete.
pub open spec fn root_victims<P>(s: Store<P>, r: int) -> Set<int> {
    if root_entity(s, r) && observed_complete(s, r) {
        if s.final_tag(r) == Some(OnCompletion::Delete) {
            delete_set(s, r)
        } else if s.final_tag(r) == Some(OnCompletion::DeleteDescendents) {
            children_delete_set_rec(s, r)
        } else {
            Set::empty()
        }
    } else {
        Set::empty()
    }
}

/// Everything that one full maintenance pass over store `s` deletes.
pub open spec fn gc_victims<P>(s: Store<P>) -> Set<int> {
    Set::new(|x: int| exists|r: int| #[trigger] root_victims(s, r).contains(x))
}

/// The victims of the first `k` roots in a worklist.
pub open spec fn roots_victims_upto<P>(
    s: Store<P>,
    roots: Seq<(usize, OnCompletion)>,
    k: int,
) -> Set<int>
    decreases k,
{
    if k <= 0 {
        Set::empty()
    } else {
        roots_victims_upto(s, roots, k - 1).union(root_victims(s, roots[k - 1].0 as int))
    }
}

/// The worklist `roots` holds exactly the finalized roots of `s`, each with
/// its policy.
pub open spec fn roots_collected<P>(s: Store<P>, roots: Seq<(usize, OnCompletion)>) -> bool {
    &&& forall|k: int| 0 <= k < roots.len()
            ==> root_entity(s, (#[trigger] roots[k]).0 as int)
                && s.final_tag(roots[k].0 as int) == Some(roots[k].1)
    &&& forall|x: int| #[trigger] root_entity(s, x)
            ==> exists|k: int| 0 <= k < roots.len() && (#[trigger] roots[k]).0 as int == x
}

/// Membership in the victims of a worklist prefix.
proof fn lemma_roots_victims_upto_membership<P>(
    s: Store<P>,
    roots: Seq<(usize, OnCompletion)>,
    k: int,
)
    requires
        k <= roots.len(),
    ensures
        forall|x: int| roots_victims_upto(s, roots, k).contains(x)
            <==> exists|j: int| 0 <= j < k
                && #[trigger] root_victims(s, roots[j].0 as int).contains(x),
    decreases k,
{
    if k > 0 {
        lemma_roots_victims_upto_membership(s, roots, k - 1);
        assert forall|x: int| roots_victims_upto(s, roots, k).contains(x)
            implies exists|j: int| 0 <= j < k
                && #[trigger] root_victims(s, roots[j].0 as int).contains(x) by {
            if roots_victims_upto(s, roots, k - 1).contains(x) {
                let j = choose|j: int| 0 <= j < k - 1
                    && #[trigger] root_victims(s, roots[j].0 as int).contains(x);
                assert(root_victims(s, roots[j].0 as int).contains(x));
            } else {
                assert(root_victims(s, roots[k - 1].0 as int).contains(x));
            }
        }
        assert forall|x: int|
            (exists|j: int| 0 <= j < k
                && #[trigger] root_victims(s, roots[j].0 as int).contains(x))
            implies roots_victims_upto(s, roots, k).contains(x) by {
            let j = choose|j: int| 0 <= j < k
                && #[trigger] root_victims(s, roots[j].0 as int).contains(x);
            if j < k - 1 {
                assert(roots_victims_upto(s, roots, k - 1).contains(x));
            }
        }
    }
}

/// A complete worklist's victims are exactly the pass's victims.
proof fn lemma_roots_victims_complete<P>(s: Store<P>, roots: Seq<(usize, OnCompletion)>)
    requires
        roots_collected(s, roots),
    ensures
        forall|x: int| roots_victims_upto(s, roots, roots.len() as int).contains(x)
            == gc_victims(s).contains(x),
{
    lemma_roots_victims_upto_membership(s, roots, roots.len() as int);
    assert forall|x: int| roots_victims_upto(s, roots, roots.len() as int).contains(x)
        implies gc_victims(s).contains(x) by {
        let j = choose|j: int| 0 <= j < roots.len()
            && #[trigger] root_victims(s, roots[j].0 as int).contains(x);
        assert(root_victims(s, roots[j].0 as int).contains(x));
    }
    assert forall|x: int| gc_victims(s).contains(x)
        implies roots_victims_upto(s, roots, roots.len() as int).contains(x) by {
        let r = choose|r: int| #[trigger] root_victims(s, r).contains(x);
        assert(root_entity(s, r));
        let k = choose|k: int| 0 <= k < roots.len() && (#[trigger] roots[k]).0 as int == r;
        assert(root_victims(s, roots[k].0 as int).contains(x));
    }
}

/// The entities whose completion the completion query for `e` consults:
/// `e` itself, and below a fork its `SingleEdge` child and prongs,
/// recursively. A task is a leaf of this traversal.
pub open spec fn reach_set<P>(s: Store<P>, e: int) -> Set<int>
    decreases e, 1int, 0int,
        when s.wf()
{
    if s.has_multi(e) {
        Set::empty().insert(e).union(
            if s.has_single(e) {
                reach_set(s, s.the_single(e))
            } else {
                Set::empty()
            },
        ).union(reach_sets_of(s, s.multi_children(e), e))
    } else {
        Set::empty().insert(e)
    }
}

/// The union of the reach sets of `kids` (all created before `bound`).
pub open spec fn reach_sets_of<P>(s: Store<P>, kids: Seq<int>, bound: int) -> Set<int>
    decreases bound, 0int, kids.len(),
        when s.wf() && (forall|i: int| 0 <= i < kids.len() ==> 0 <= #[trigger] kids[i] < bound)
{
    if kids.len() == 0 {
        Set::empty()
    } else {
        reach_set(s, kids[0]).union(reach_sets_of(s, kids.drop_first(), bound))
    }
}

/// Membership in a union of per-child reach sets.
proof fn lemma_reach_sets_of_membership<P>(s: Store<P>, kids: Seq<int>, bound: int)
    requires
        s.wf(),
        forall|i: int| 0 <= i < kids.len() ==> 0 <= #[trigger] kids[i] < bound,
    ensures
        forall|x: int| reach_sets_of(s, kids, bound).contains(x)
            <==> exists|i: int| 0 <= i < kids.len()
                && #[trigger] reach_set(s, kids[i]).contains(x),
    decreases kids.len(),
{
    if kids.len() > 0 {
        lemma_reach_sets_of_membership(s, kids.drop_first(), bound);
        assert(forall|i: int| 0 <= i < kids.drop_first().len()
            ==> #[trigger] kids.drop_first()[i] == kids[i + 1]);
        assert forall|x: int| reach_sets_of(s, kids, bound).contains(x)
            implies exists|i: int| 0 <= i < kids.len()
                && #[trigger] reach_set(s, kids[i]).contains(x) by {
            if reach_set(s, kids[0]).contains(x) {
                assert(reach_set(s, kids[0]).contains(x) && 0 < kids.len());
            } else {
                assert(reach_sets_of(s, kids.drop_first(), bound).contains(x));
                let i = choose|i: int| 0 <= i < kids.drop_first().len()
                    && #[trigger] reach_set(s, kids.drop_first()[i]).contains(x);
                assert(kids.drop_first()[i] == kids[i + 1]);
                assert(reach_set(s, kids[i + 1]).contains(x));
            }
        }
        assert forall|x: int|
            (exists|i: int| 0 <= i < kids.len()
                && #[trigger] reach_set(s, kids[i]).contains(x))
            implies reach_sets_of(s, kids, bound).contains(x) by {
            let i = choose|i: int| 0 <= i < kids.len()
                && #[trigger] reach_set(s, kids[i]).contains(x);
            if i > 0 {
                assert(reach_set(s, kids.drop_first()[i - 1]).contains(x));
                assert(reach_sets_of(s, kids.drop_first(), bound).contains(x));
            } else {
                assert(reach_set(s, kids[0]).contains(x));
            }
        }
    }
}

/// Completion is exactly completeness of every reachable task: a task is
/// complete iff its progress attribute is absent, and a fork is complete
/// iff every task reachable beneath it over `SingleEdge` and `MultiEdge`
/// has its progress absent.
pub proof fn lemma_complete_iff_reachable_tasks_complete<P>(s: Store<P>, e: int)
    requires
        s.wf(),
    ensures
        entity_complete(s, e) <==> (forall|t: int|
            reach_set(s, e).contains(t) && !s.has_multi(t) ==> !s.has_progress(t)),
    decreases e, 1int, 0int,
{
    if s.has_multi(e) {
        let kids = s.multi_children(e);
        if s.has_single(e) {
            lemma_complete_iff_reachable_tasks_complete(s, s.the_single(e));
        }
        lemma_all_complete_iff_reachable(s, kids, e);
        lemma_reach_sets_of_membership(s, kids, e);
        if entity_complete(s, e) {
            assert forall|t: int| reach_set(s, e).contains(t) && !s.has_multi(t)
                implies !s.has_progress(t) by {
                assert(t != e);
            }
        } else {
            if s.has_single(e) && !entity_complete(s, s.the_single(e)) {
                let t = choose|t: int| reach_set(s, s.the_single(e)).contains(t)
                    && !s.has_multi(t) && s.has_progress(t);
                assert(reach_set(s, e).contains(t));
            } else {
                assert(!all_entities_complete(s, kids, e));
                let t = choose|t: int| reach_sets_of(s, kids, e).contains(t)
                    && !s.has_multi(t) && s.has_progress(t);
                assert(reach_set(s, e).contains(t));
            }
        }
    } else {
        assert(reach_set(s, e).contains(e));
    }
}

/// Sequence form of [`lemma_complete_iff_reachable_tasks_complete`].
proof fn lemma_all_complete_iff_reachable<P>(s: Store<P>, kids: Seq<int>, bound: int)
    requires
        s.wf(),
        forall|i: int| 0 <= i < kids.len() ==> 0 <= #[trigger] kids[i] < bound,
    ensures
        all_entities_complete(s, kids, bound) <==> (forall|t: int|
            reach_sets_of(s, kids, bound).contains(t) && !s.has_multi(t)
                ==> !s.has_progress(t)),
    decreases bound, 0int, kids.len(),
{
    if kids.len() > 0 {
        lemma_complete_iff_reachable_tasks_complete(s, kids[0]);
        lemma_all_complete_iff_reachable(s, kids.drop_first(), bound);
        lemma_reach_sets_of_membership(s, kids, bound);
        lemma_reach_sets_of_membership(s, kids.drop_first(), bound);
        if all_entities_complete(s, kids, bound) {
            assert forall|t: int| reach_sets_of(s, kids, bound).contains(t)
                    && !s.has_multi(t)
                implies !s.has_progress(t) by {
                let i = choose|i: int| 0 <= i < kids.len()
                    && #[trigger] reach_set(s, kids[i]).contains(t);
                if i > 0 {
                    assert(reach_set(s, kids.drop_first()[i - 1]).contains(t));
                    assert(reach_sets_of(s, kids.drop_first(), bound).contains(t));
                }
            }
        } else {
            if !entity_complete(s, kids[0]) {
                let t = choose|t: int| reach_set(s, kids[0]).contains(t)
                    && !s.has_multi(t) && s.has_progress(t);
                assert(reach_set(s, kids[0]).contains(t) && 0 < kids.len());
                assert(reach_sets_of(s, kids, bound).contains(t));
            } else {
                let t = choose|t: int| reach_sets_of(s, kids.drop_first(), bound).contains(t)
                    && !s.has_multi(t) && s.has_progress(t);
                let i = choose|i: int| 0 <= i < kids.drop_first().len()
                    && #[trigger] reach_set(s, kids.drop_first()[i]).contains(t);
                assert(kids.drop_first()[i] == kids[i + 1]);
                assert(reach_set(s, kids[i + 1]).contains(t));
                assert(reach_sets_of(s, kids, bound).contains(t));
            }
        }
    }
}

/// The prongs of any entity of a well-formed store were created before it.
proof fn lemma_kids_bounded<P>(s: Store<P>, e: int)
    requires
        s.wf(),
    ensures
        forall|i: int| 0 <= i < s.multi_children(e).len()
            ==> 0 <= #[trigger] s.multi_children(e)[i] < e,
{
    if s.has_multi(e) {
        assert forall|i: int| 0 <= i < s.multi_children(e).len()
            implies 0 <= #[trigger] s.multi_children(e)[i] < e by {}
    } else {
        crate::store::lemma_multi_children_absent(s, e);
    }
}

/// Delete sets are closed under reachability: everything deletable from a
/// member of a delete set is already in that delete set.
proof fn lemma_delete_set_closed<P>(s: Store<P>, e: int)
    requires
        s.wf(),
    ensures
        forall|x: int, y: int| delete_set(s, e).contains(x)
            && #[trigger] delete_set(s, x).contains(y) ==> delete_set(s, e).contains(y),
    decreases e, 1int, 0int,
{
    if s.alive(e) {
        let kids = s.multi_children(e);
        lemma_kids_bounded(s, e);
        if s.has_single(e) {
            lemma_delete_set_closed(s, s.the_single(e));
        }
        lemma_delete_sets_of_closed(s, kids, e);
        lemma_delete_sets_of_membership(s, kids, e);
        assert forall|x: int, y: int| delete_set(s, e).contains(x)
            && #[trigger] delete_set(s, x).contains(y)
            implies delete_set(s, e).contains(y) by {
            if x == e {
            } else if s.has_single(e) && delete_set(s, s.the_single(e)).contains(x) {
                assert(delete_set(s, s.the_single(e)).contains(y));
            } else {
                assert(delete_sets_of(s, kids, e).contains(x));
                let i = choose|i: int| 0 <= i < kids.len()
                    && #[trigger] delete_set(s, kids[i]).contains(x);
                assert(delete_set(s, kids[i]).contains(y));
                assert(delete_sets_of(s, kids, e).contains(y));
            }
        }
    }
}

/// Sequence form of [`lemma_delete_set_closed`].
proof fn lemma_delete_sets_of_closed<P>(s: Store<P>, kids: Seq<int>, bound: int)
    requires
        s.wf(),
        forall|i: int| 0 <= i < kids.len() ==> 0 <= #[trigger] kids[i] < bound,
    ensures
        forall|i: int, x: int, y: int| 0 <= i < kids.len()
            && #[trigger] delete_set(s, kids[i]).contains(x)
            && #[trigger] delete_set(s, x).contains(y)
            ==> delete_set(s, kids[i]).contains(y),
    decreases bound, 0int, kids.len(),
{
    assert forall|i: int, x: int, y: int| 0 <= i < kids.len()
        && #[trigger] delete_set(s, kids[i]).contains(x)
        && #[trigger] delete_set(s, x).contains(y)
        implies delete_set(s, kids[i]).contains(y) by {
        lemma_delete_set_closed(s, kids[i]);
    }
}

/// `post` is `pre` with exactly the entities of `killed` deleted, as
/// applying a log of their deletion commands leaves it.
pub open spec fn killed_store<P>(pre: Store<P>, post: Store<P>, killed: Set<int>) -> bool {
    &&& post.num_entities() == pre.num_entities()
    &&& forall|x: int| #![auto] killed.contains(x) ==> cleared_at(post, x)
    &&& forall|x: int| #![auto] !killed.contains(x) ==> slot_unchanged(pre, post, x)
}

/// After a reachability-closed set of entities is deleted, what deleting
/// `e` removes is exactly the remainder: the dead entities act as evidence
/// that their subtrees are already gone.
proof fn lemma_delete_set_after_kill<P>(pre: Store<P>, post: Store<P>, killed: Set<int>, e: int)
    requires
        pre.wf(),
        post.wf(),
        killed_store(pre, post, killed),
        forall|x: int, y: int| killed.contains(x)
            && #[trigger] delete_set(pre, x).contains(y) ==> killed.contains(y),
    ensures
        delete_set(post, e) == delete_set(pre, e).difference(killed),
    decreases e, 1int, 0int,
{
    if killed.contains(e) {
        assert(!post.alive(e));
        assert forall|y: int| #[trigger] delete_set(pre, e).contains(y)
            implies killed.contains(y) by {}
        assert(delete_set(post, e) =~= delete_set(pre, e).difference(killed));
    } else if !pre.alive(e) {
        assert(slot_unchanged(pre, post, e));
        assert(delete_set(post, e) =~= delete_set(pre, e).difference(killed));
    } else {
        assert(slot_unchanged(pre, post, e));
        let kids = pre.multi_children(e);
        lemma_kids_bounded(pre, e);
        if pre.has_single(e) {
            lemma_delete_set_after_kill(pre, post, killed, pre.the_single(e));
        }
        lemma_delete_sets_of_after_kill(pre, post, killed, kids, e);
        lemma_delete_sets_of_membership(pre, kids, e);
        lemma_delete_sets_of_membership(post, kids, e);
        assert(post.multi_children(e) == kids);
        assert(delete_set(post, e) =~= delete_set(pre, e).difference(killed));
    }
}

/// Sequence form of [`lemma_delete_set_after_kill`].
proof fn lemma_delete_sets_of_after_kill<P>(
    pre: Store<P>,
    post: Store<P>,
    killed: Set<int>,
    kids: Seq<int>,
    bound: int,
)
    requires
        pre.wf(),
        post.wf(),
        killed_store(pre, post, killed),
        forall|x: int, y: int| killed.contains(x)
            && #[trigger] delete_set(pre, x).contains(y) ==> killed.contains(y),
        forall|i: int| 0 <= i < kids.len() ==> 0 <= #[trigger] kids[i] < bound,
    ensures
        delete_sets_of(post, kids, bound) == delete_sets_of(pre, kids, bound).difference(killed),
    decreases bound, 0int, kids.len(),
{
    if kids.len() == 0 {
        assert(delete_sets_of(post, kids, bound)
            =~= delete_sets_of(pre, kids, bound).difference(killed));
    } else {
        lemma_delete_set_after_kill(pre, post, killed, kids[0]);
        lemma_delete_sets_of_after_kill(pre, post, killed, kids.drop_first(), bound);
        assert(delete_sets_of(post, kids, bound)
            =~= delete_sets_of(pre, kids, bound).difference(killed));
    }
}

/// Deletion is idempotent under partial application: if the subtree of a
/// descendant `d` of `e` was already deleted (an async or partially applied
/// collection), deleting `e` afterwards does not fail and leaves exactly
/// the alive set that one full, synchronous deletion of `e` would have
/// left.
pub proof fn lemma_partial_deletion_idempotent<P>(pre: Store<P>, post: Store<P>, e: int, d: int)
    requires
        pre.wf(),
        post.wf(),
        delete_set(pre, e).contains(d),
        killed_store(pre, post, delete_set(pre, d)),
    ensures
        delete_set(post, e) == delete_set(pre, e).difference(delete_set(pre, d)),
        forall|x: int| (post.alive(x) && !delete_set(post, e).contains(x))
            == (pre.alive(x) && !delete_set(pre, e).contains(x)),
{
    let killed = delete_set(pre, d);
    lemma_delete_set_closed(pre, d);
    assert forall|x: int, y: int| killed.contains(x)
        && #[trigger] delete_set(pre, x).contains(y) implies killed.contains(y) by {}
    lemma_delete_set_after_kill(pre, post, killed, e);
    lemma_delete_set_closed(pre, e);
    assert forall|x: int| (post.alive(x) && !delete_set(post, e).contains(x))
        == (pre.alive(x) && !delete_set(pre, e).contains(x)) by {
        if killed.contains(x) {
            assert(delete_set(pre, e).contains(x));
            assert(!post.alive(x));
        } else {
            assert(slot_unchanged(pre, post, x));
        }
    }
}

/// Task `r` is eligible to be unblocked by the next maintenance pass: it
/// carries pending, blocked progress and its dependency, if any, is observed
/// complete.
pub open spec fn task_ready_to_unblock<P>(s: Store<P>, r: int) -> bool {
    &&& !s.has_multi(r)
    &&& s.has_progress(r)
    &&& !s.complete_flag(r)
    &&& !s.unblocked(r)
    &&& s.has_single(r) ==> observed_complete(s, s.the_single(r))
}

/// Runs one maintenance pass: traverses the graph under every finalized
/// root, unblocking exactly the ready tasks reached along open fork
/// barriers ([`maintained_from`]), queueing collection of exactly the
/// completion-flagged tasks reached; then resolves every root observed
/// complete according to its on-completion policy (deleting the graph,
/// deleting only the descendents, or just removing the `FinalTag`); and
/// finally applies the queued structural mutations atomically. Entities
/// with no maintained path from a finalized root are never unblocked and
/// never collected.
/// The unblocking account after the first `i` roots of the worklist have
/// been traversed: a task is unblocked iff it already was, or some
/// processed root's walk reaches it and it is ready.
#[verifier::opaque]
pub open spec fn unblock_acc<P>(
    s0: Store<P>,
    cur: Store<P>,
    roots: Seq<(usize, OnCompletion)>,
    i: int,
) -> bool {
    forall|x: int| #![auto] cur.unblocked(x) == (s0.unblocked(x)
        || ((exists|k: int| 0 <= k < i
            && maintained_from(s0, (#[trigger] roots[k]).0 as int, x))
            && task_ready_to_unblock(s0, x)))
}

/// The collection account after the first `i` roots have been traversed: a
/// progress removal is queued iff some processed root's walk reaches a
/// completion-flagged task.
#[verifier::opaque]
pub open spec fn collect_acc<P>(
    s0: Store<P>,
    l: Seq<Command>,
    roots: Seq<(usize, OnCompletion)>,
    i: int,
) -> bool {
    forall|x: int| #![auto] log_removes_progress(l, x)
        == ((exists|k: int| 0 <= k < i
            && maintained_from(s0, (#[trigger] roots[k]).0 as int, x))
            && !s0.has_multi(x) && s0.has_progress(x) && s0.complete_flag(x))
}

/// Before any root is traversed, both accounts are trivial.
proof fn lemma_acc_init<P>(s0: Store<P>, roots: Seq<(usize, OnCompletion)>)
    ensures
        unblock_acc(s0, s0, roots, 0),
        forall|l: Seq<Command>| (forall|x: int| !#[trigger] log_removes_progress(l, x))
            ==> #[trigger] collect_acc(s0, l, roots, 0),
{
    reveal(unblock_acc);
    reveal(collect_acc);
}

/// The collection account depends only on which removals the log contains.
proof fn lemma_collect_acc_congruence<P>(
    s0: Store<P>,
    l1: Seq<Command>,
    l2: Seq<Command>,
    roots: Seq<(usize, OnCompletion)>,
    i: int,
)
    requires
        collect_acc(s0, l1, roots, i),
        forall|x: int| log_removes_progress(l2, x) == log_removes_progress(l1, x),
    ensures
        collect_acc(s0, l2, roots, i),
{
    reveal(collect_acc);
}

/// One root's traversal extends the accumulated unblocking account by
/// exactly that root's maintained region.
proof fn lemma_unblock_acc_step<P>(
    s0: Store<P>,
    s_pre: Store<P>,
    s_mid: Store<P>,
    roots: Seq<(usize, OnCompletion)>,
    i: int,
)
    requires
        s0.wf(),
        0 <= i < roots.len(),
        maintain_frame(s0, s_pre),
        unblock_exact(s_pre, s_mid, roots[i].0 as int),
        unblock_acc(s0, s_pre, roots, i),
    ensures
        unblock_acc(s0, s_mid, roots, i + 1),
{
    reveal(unblock_acc);
    let rt = roots[i].0 as int;
    assert forall|x: int| #![auto] s_mid.unblocked(x) == (s0.unblocked(x)
        || ((exists|k: int| 0 <= k < i + 1
            && maintained_from(s0, (#[trigger] roots[k]).0 as int, x))
            && task_ready_to_unblock(s0, x))) by {
        assert(s_mid.unblocked(x) == (s_pre.unblocked(x)
            || (maintained_from(s_pre, rt, x) && task_ready_to_unblock(s_pre, x))));
        if s_mid.unblocked(x) && !s_pre.unblocked(x) {
            lemma_maintained_monotone(s0, s_pre, rt, x);
            lemma_ready_frame(s0, s_pre, x);
            assert(0 <= i && i < i + 1 && maintained_from(s0, roots[i].0 as int, x));
        }
        if !s_mid.unblocked(x) && maintained_from(s0, rt, x)
            && task_ready_to_unblock(s0, x) {
            lemma_maintained_stable(s0, s_pre, rt, x);
            if maintained_from(s_pre, rt, x) {
                lemma_ready_frame(s0, s_pre, x);
            } else {
                let y = choose|y: int| #[trigger] path_broken_at(s0, s_pre, rt, x, y);
                assert(newly_unblocked_ok(s0, y));
                lemma_no_ready_below_complete(s0, s0.the_single(y), x);
            }
        }
        if exists|k: int| 0 <= k < i
            && maintained_from(s0, (#[trigger] roots[k]).0 as int, x) {
            let k = choose|k: int| 0 <= k < i
                && maintained_from(s0, (#[trigger] roots[k]).0 as int, x);
            assert(0 <= k < i + 1 && maintained_from(s0, roots[k].0 as int, x));
        }
        if exists|k: int| 0 <= k < i + 1
            && maintained_from(s0, (#[trigger] roots[k]).0 as int, x) {
            let k = choose|k: int| 0 <= k < i + 1
                && maintained_from(s0, (#[trigger] roots[k]).0 as int, x);
            if k < i {
                assert(0 <= k < i && maintained_from(s0, roots[k].0 as int, x));
            } else {
                assert(maintained_from(s0, rt, x));
            }
        }
    }
}

/// One root's traversal extends the accumulated collection account by
/// exactly the flagged tasks of that root's maintained region.
proof fn lemma_collect_acc_step<P>(
    s0: Store<P>,
    s_pre: Store<P>,
    roots: Seq<(usize, OnCompletion)>,
    i: int,
    l_pre: Seq<Command>,
    l_mid: Seq<Command>,
)
    requires
        s0.wf(),
        0 <= i < roots.len(),
        maintain_frame(s0, s_pre),
        collect_exact(s_pre, l_pre, l_mid, roots[i].0 as int),
        unblock_acc(s0, s_pre, roots, i),
        collect_acc(s0, l_pre, roots, i),
    ensures
        collect_acc(s0, l_mid, roots, i + 1),
{
    reveal(unblock_acc);
    reveal(collect_acc);
    let rt = roots[i].0 as int;
    assert forall|x: int| #![auto] log_removes_progress(l_mid, x)
        == ((exists|k: int| 0 <= k < i + 1
            && maintained_from(s0, (#[trigger] roots[k]).0 as int, x))
            && !s0.has_multi(x) && s0.has_progress(x) && s0.complete_flag(x)) by {
        assert(log_removes_progress(l_mid, x) == (log_removes_progress(l_pre, x)
            || (maintained_from(s_pre, rt, x) && !s_pre.has_multi(x)
                && s_pre.has_progress(x) && s_pre.complete_flag(x))));
        assert(edges_unchanged_at(s0, s_pre, x));
        if log_removes_progress(l_mid, x) && !log_removes_progress(l_pre, x) {
            lemma_maintained_monotone(s0, s_pre, rt, x);
            assert(0 <= i && i < i + 1 && maintained_from(s0, roots[i].0 as int, x));
        }
        if !log_removes_progress(l_mid, x) && maintained_from(s0, rt, x)
            && !s0.has_multi(x) && s0.has_progress(x) && s0.complete_flag(x) {
            lemma_maintained_stable(s0, s_pre, rt, x);
            if !maintained_from(s_pre, rt, x) {
                // Severed at a task an earlier root's walk unblocked:
                // composing the paths shows this flagged task was already
                // queued back then.
                let y = choose|y: int| #[trigger] path_broken_at(s0, s_pre, rt, x, y);
                assert(s_pre.unblocked(y) && !s0.unblocked(y));
                let k = choose|k: int| 0 <= k < i
                    && maintained_from(s0, (#[trigger] roots[k]).0 as int, y);
                lemma_maintained_trans(s0, roots[k].0 as int, y, x);
                assert(log_removes_progress(l_pre, x));
            }
        }
        if exists|k: int| 0 <= k < i
            && maintained_from(s0, (#[trigger] roots[k]).0 as int, x) {
            let k = choose|k: int| 0 <= k < i
                && maintained_from(s0, (#[trigger] roots[k]).0 as int, x);
            assert(0 <= k < i + 1 && maintained_from(s0, roots[k].0 as int, x));
        }
        if exists|k: int| 0 <= k < i + 1
            && maintained_from(s0, (#[trigger] roots[k]).0 as int, x) {
            let k = choose|k: int| 0 <= k < i + 1
                && maintained_from(s0, (#[trigger] roots[k]).0 as int, x);
            if k < i {
                assert(0 <= k < i && maintained_from(s0, roots[k].0 as int, x));
            } else {
                assert(maintained_from(s0, rt, x));
            }
        }
    }
}

#[verifier::rlimit(100)]
pub fn maintain_all_finalized<P>(store: &mut Store<P>)
    requires
        old(store).wf(),
    ensures
        final(store).wf(),
        final(store).num_entities() == old(store).num_entities(),
        forall|x: int| #![auto] final(store).alive(x)
            == (old(store).alive(x) && !gc_victims(*old(store)).contains(x)),
        forall|x: int| #![auto] gc_victims(*old(store)).contains(x)
            ==> cleared_at(*final(store), x),
        forall|x: int| #![auto] !gc_victims(*old(store)).contains(x)
            ==> edges_unchanged_at(*old(store), *final(store), x)
                && final(store).payload(x) == old(store).payload(x),
        forall|x: int| #![auto] final(store).has_progress(x) ==> old(store).has_progress(x),
        forall|x: int| #![auto] final(store).has_progress(x)
            ==> final(store).complete_flag(x) == old(store).complete_flag(x),
        forall|x: int| #![auto] old(store).has_progress(x) && !old(store).complete_flag(x)
                && !gc_victims(*old(store)).contains(x)
            ==> final(store).has_progress(x),
        forall|x: int| #![auto] old(store).unblocked(x) && final(store).has_progress(x)
            ==> final(store).unblocked(x),
        forall|x: int| #![auto] final(store).unblocked(x) && !old(store).unblocked(x)
            ==> newly_unblocked_ok(*old(store), x),
        forall|x: int| #![auto] final(store).final_tag(x).is_some()
            ==> final(store).final_tag(x) == old(store).final_tag(x),
        forall|x: int| #![auto] old(store).final_tag(x).is_some()
                && !gc_victims(*old(store)).contains(x)
                && !(root_entity(*old(store), x) && observed_complete(*old(store), x)
                    && old(store).final_tag(x) == Some(OnCompletion::Keep))
            ==> final(store).final_tag(x) == old(store).final_tag(x),
        forall|r: int| #![auto] root_entity(*old(store), r)
                && observed_complete(*old(store), r)
                && old(store).final_tag(r) == Some(OnCompletion::Keep)
            ==> final(store).final_tag(r).is_none(),
        forall|x: int| #![auto] final(store).unblocked(x) && !old(store).unblocked(x)
            ==> task_ready_to_unblock(*old(store), x)
                && exists|r: int| root_entity(*old(store), r)
                    && #[trigger] maintained_from(*old(store), r, x),
        forall|r: int, x: int| #![auto] root_entity(*old(store), r)
                && maintained_from(*old(store), r, x)
                && task_ready_to_unblock(*old(store), x)
                && !gc_victims(*old(store)).contains(x)
            ==> final(store).unblocked(x),
        forall|r: int, x: int| #![auto] root_entity(*old(store), r)
                && maintained_from(*old(store), r, x) && !old(store).has_multi(x)
                && old(store).has_progress(x) && old(store).complete_flag(x)
            ==> !final(store).has_progress(x),
        forall|x: int| #![auto] old(store).has_progress(x) && !final(store).has_progress(x)
            ==> gc_victims(*old(store)).contains(x)
                || (old(store).complete_flag(x)
                    && exists|r: int| root_entity(*old(store), r)
                        && #[trigger] maintained_from(*old(store), r, x)),
{
    let ghost s0 = *old(store);
    let n = store.num();

    // Collect the finalized roots into a stable worklist first, so the
    // traversal never iterates the store while mutating it.
    let mut roots: Vec<(usize, OnCompletion)> = Vec::new();
    let mut e: usize = 0;
    while e < n
        invariant
            *store == s0,
            n as int == s0.num_entities(),
            e <= n,
            forall|k: int| 0 <= k < roots@.len()
                ==> root_entity(s0, (#[trigger] roots@[k]).0 as int)
                    && s0.final_tag(roots@[k].0 as int) == Some(roots@[k].1)
                    && (roots@[k].0 as int) < e as int,
            forall|x: int| 0 <= x < e as int && #[trigger] root_entity(s0, x)
                ==> exists|k: int| 0 <= k < roots@.len()
                    && (#[trigger] roots@[k]).0 as int == x,
        decreases n - e,
    {
        let ghost roots_pre = roots@;
        let mut pushed = false;
        if store.is_alive(e) {
            match store.final_tag_of(e) {
                Some(policy) => {
                    roots.push((e, policy));
                    pushed = true;
                },
                None => {},
            }
        }
        proof {
            assert forall|x: int| 0 <= x < e as int + 1 && #[trigger] root_entity(s0, x)
                implies exists|k: int| 0 <= k < roots@.len()
                    && (#[trigger] roots@[k]).0 as int == x by {
                if x < e as int {
                    let k = choose|k: int| 0 <= k < roots_pre.len()
                        && (#[trigger] roots_pre[k]).0 as int == x;
                    assert(roots@[k].0 as int == x);
                } else {
                    assert(roots@[roots@.len() - 1].0 as int == x);
                }
            }
        }
        e += 1;
    }
    proof {
        assert forall|x: int| #[trigger] root_entity(s0, x)
            implies exists|k: int| 0 <= k < roots@.len()
                && (#[trigger] roots@[k]).0 as int == x by {
            crate::store::lemma_alive_in_range(s0, x);
        }
        assert(roots_collected(s0, roots@));
    }

    // One traversal per root; all structural mutation is deferred.
    let mut log = CommandLog::new();
    proof {
        lemma_acc_init(s0, roots@);
        assert forall|x: int| !#[trigger] log_removes_progress(log@, x) by {}
        assert(collect_acc(s0, log@, roots@, 0));
    }
    let mut i: usize = 0;
    while i < roots.len()
        invariant
            s0.wf(),
            store.wf(),
            maintain_frame(s0, *store),
            store.num_entities() == s0.num_entities(),
            roots_collected(s0, roots@),
            i <= roots@.len(),
            forall|x: int| log_deletes(log@, x)
                == roots_victims_upto(s0, roots@, i as int).contains(x),
            forall|x: int| #![auto] log_removes_final(log@, x)
                ==> root_entity(s0, x) && observed_complete(s0, x)
                    && s0.final_tag(x) == Some(OnCompletion::Keep),
            forall|k: int| 0 <= k < i as int
                    && observed_complete(s0, (#[trigger] roots@[k]).0 as int)
                    && roots@[k].1 == OnCompletion::Keep
                ==> log_removes_final(log@, roots@[k].0 as int),
            unblock_acc(s0, *store, roots@, i as int),
            collect_acc(s0, log@, roots@, i as int),
        decreases roots@.len() - i,
    {
        let pair = roots[i];
        let root = pair.0;
        let policy = pair.1;
        let ghost s_pre = *store;
        let ghost l_pre = log@;
        let complete = maintain_entity_and_descendents(store, &mut log, root);
        proof {
            lemma_observed_frame(s0, s_pre, root as int);
            lemma_maintain_frame_trans(s0, s_pre, *store);
            if s0.has_single(root as int) {
                lemma_observed_frame(s0, s_pre, s0.the_single(root as int));
            }
        }
        let ghost s_mid = *store;
        let ghost l_mid = log@;
        if complete {
            match policy {
                OnCompletion::Delete => {
                    delete_entity_and_descendents(store, &mut log, root);
                    proof {
                        lemma_delete_set_frame(s0, s_mid, root as int);
                    }
                },
                OnCompletion::DeleteDescendents => {
                    delete_descendents(store, &mut log, root);
                    proof {
                        lemma_children_delete_set_frame(s0, s_mid, root as int);
                    }
                },
                OnCompletion::Keep => {
                    log.push_remove_final(root);
                    proof {
                        crate::log::lemma_log_push(l_mid, Command::RemoveFinalTag(root));
                        assert(log_removes_final(log@, root as int));
                    }
                },
            }
        }
        proof {
            let iplus = i as int + 1;
            assert(roots_victims_upto(s0, roots@, iplus)
                == roots_victims_upto(s0, roots@, i as int)
                    .union(root_victims(s0, roots@[i as int].0 as int)));
            assert(s0.final_tag(root as int) == Some(policy));
            assert(complete == observed_complete(s0, root as int));
            assert forall|x: int| log_deletes(log@, x)
                == roots_victims_upto(s0, roots@, iplus).contains(x) by {
                assert(log_deletes(l_mid, x)
                    == roots_victims_upto(s0, roots@, i as int).contains(x));
            }
            assert forall|k: int| 0 <= k < iplus
                    && observed_complete(s0, (#[trigger] roots@[k]).0 as int)
                    && roots@[k].1 == OnCompletion::Keep
                implies log_removes_final(log@, roots@[k].0 as int) by {
                if k < i as int {
                    assert(log_removes_final(l_pre, roots@[k].0 as int));
                    assert(log_removes_final(l_mid, roots@[k].0 as int));
                }
            }
            lemma_unblock_acc_step(s0, s_pre, s_mid, roots@, i as int);
            lemma_collect_acc_step(s0, s_pre, roots@, i as int, l_pre, l_mid);
            lemma_collect_acc_congruence(s0, l_mid, log@, roots@, i as int + 1);
        }
        i += 1;
    }

    proof {
        lemma_roots_victims_complete(s0, roots@);
    }

    // Apply the queued structural mutations atomically, after traversal.
    let ghost s_mid = *store;
    log.apply(store);
    proof {
        reveal(unblock_acc);
        reveal(collect_acc);
        assert(unblock_acc(s0, s_mid, roots@, roots@.len() as int));
        assert(collect_acc(s0, log@, roots@, roots@.len() as int));
        assert forall|x: int| #![auto] final(store).alive(x)
            == (s0.alive(x) && !gc_victims(s0).contains(x)) by {
            assert(applied_at(s_mid, *store, log@, x));
        }
        assert forall|x: int| #![auto] gc_victims(s0).contains(x)
            implies cleared_at(*store, x) by {
            assert(applied_at(s_mid, *store, log@, x));
        }
        assert forall|x: int| #![auto] !gc_victims(s0).contains(x)
            implies edges_unchanged_at(s0, *store, x)
                && store.payload(x) == s0.payload(x) by {
            assert(applied_at(s_mid, *store, log@, x));
            assert(edges_unchanged_at(s0, s_mid, x));
        }
        assert forall|x: int| #![auto] store.has_progress(x)
            implies s0.has_progress(x) && store.complete_flag(x) == s0.complete_flag(x) by {
            assert(applied_at(s_mid, *store, log@, x));
        }
        assert forall|x: int| #![auto] s0.has_progress(x) && !s0.complete_flag(x)
                && !gc_victims(s0).contains(x)
            implies store.has_progress(x) by {
            assert(applied_at(s_mid, *store, log@, x));
        }
        assert forall|x: int| #![auto] s0.unblocked(x) && store.has_progress(x)
            implies store.unblocked(x) by {
            assert(applied_at(s_mid, *store, log@, x));
        }
        assert forall|x: int| #![auto] store.unblocked(x) && !s0.unblocked(x)
            implies newly_unblocked_ok(s0, x) by {
            assert(applied_at(s_mid, *store, log@, x));
            crate::store::lemma_flags_imply_progress(*store, x);
            assert(s_mid.unblocked(x));
        }
        assert forall|x: int| #![auto] store.final_tag(x).is_some()
            implies store.final_tag(x) == s0.final_tag(x) by {
            assert(applied_at(s_mid, *store, log@, x));
        }
        assert forall|x: int| #![auto] s0.final_tag(x).is_some()
                && !gc_victims(s0).contains(x)
                && !(root_entity(s0, x) && observed_complete(s0, x)
                    && s0.final_tag(x) == Some(OnCompletion::Keep))
            implies store.final_tag(x) == s0.final_tag(x) by {
            assert(applied_at(s_mid, *store, log@, x));
        }
        assert forall|r: int| #![auto] root_entity(s0, r) && observed_complete(s0, r)
                && s0.final_tag(r) == Some(OnCompletion::Keep)
            implies store.final_tag(r).is_none() by {
            assert(applied_at(s_mid, *store, log@, r));
            let k = choose|k: int| 0 <= k < roots@.len()
                && (#[trigger] roots@[k]).0 as int == r;
            assert(log_removes_final(log@, r));
        }
        assert forall|x: int| #![auto] store.unblocked(x) && !s0.unblocked(x)
            implies task_ready_to_unblock(s0, x)
                && exists|r: int| root_entity(s0, r)
                    && #[trigger] maintained_from(s0, r, x) by {
            assert(applied_at(s_mid, *store, log@, x));
            crate::store::lemma_flags_imply_progress(*store, x);
            assert(s_mid.unblocked(x));
            let k = choose|k: int| 0 <= k < roots@.len()
                && maintained_from(s0, (#[trigger] roots@[k]).0 as int, x);
            assert(root_entity(s0, roots@[k].0 as int)
                && maintained_from(s0, roots@[k].0 as int, x));
        }
        assert forall|r: int, x: int| #![auto] root_entity(s0, r)
                && maintained_from(s0, r, x) && task_ready_to_unblock(s0, x)
                && !gc_victims(s0).contains(x)
            implies store.unblocked(x) by {
            assert(applied_at(s_mid, *store, log@, x));
            let k = choose|k: int| 0 <= k < roots@.len()
                && (#[trigger] roots@[k]).0 as int == r;
            assert(maintained_from(s0, roots@[k].0 as int, x));
            assert(s_mid.unblocked(x));
        }
        assert forall|r: int, x: int| #![auto] root_entity(s0, r)
                && maintained_from(s0, r, x) && !s0.has_multi(x)
                && s0.has_progress(x) && s0.complete_flag(x)
            implies !store.has_progress(x) by {
            assert(applied_at(s_mid, *store, log@, x));
            if !gc_victims(s0).contains(x) {
                let k = choose|k: int| 0 <= k < roots@.len()
                    && (#[trigger] roots@[k]).0 as int == r;
                assert(maintained_from(s0, roots@[k].0 as int, x));
                assert(log_removes_progress(log@, x));
            }
        }
        assert forall|x: int| #![auto] s0.has_progress(x) && !store.has_progress(x)
            implies gc_victims(s0).contains(x)
                || (s0.complete_flag(x) && exists|r: int| root_entity(s0, r)
                    && #[trigger] maintained_from(s0, r, x)) by {
            assert(applied_at(s_mid, *store, log@, x));
            if !gc_victims(s0).contains(x) {
                assert(log_removes_progress(log@, x));
                let k = choose|k: int| 0 <= k < roots@.len()
                    && maintained_from(s0, (#[trigger] roots@[k]).0 as int, x);
                assert(root_entity(s0, roots@[k].0 as int)
                    && maintained_from(s0, roots@[k].0 as int, x));
            }
        }
    }
}

/// One entity's part of a completion-monotone transition: its edges are
/// unchanged and its own observed state only moves toward completion, or it
/// ended up a collected non-fork (as a deleted entity does).
pub open spec fn observed_step_ok<P>(s0: Store<P>, s1: Store<P>, x: int) -> bool {
    ||| (edges_unchanged_at(s0, s1, x)
            && (task_observed_complete(s0, x) ==> task_observed_complete(s1, x)))
    ||| (!s1.has_multi(x) && task_observed_complete(s1, x))
}

/// Observed completion is monotone across every pass the engine runs: the
/// runner only sets completion flags, collection only removes the progress
/// of observed-complete tasks, and deletion clears entities outright — none
/// of which can make a complete entity incomplete again.
pub proof fn lemma_observed_monotone<P>(s0: Store<P>, s1: Store<P>, e: int)
    requires
        s0.wf(),
        s1.wf(),
        forall|x: int| x <= e ==> #[trigger] observed_step_ok(s0, s1, x),
    ensures
        observed_complete(s0, e) ==> observed_complete(s1, e),
    decreases e, 1int, 0int,
{
    if observed_complete(s0, e) {
        assert(observed_step_ok(s0, s1, e));
        if !(!s1.has_multi(e) && task_observed_complete(s1, e)) {
            assert(edges_unchanged_at(s0, s1, e));
            if s0.has_multi(e) {
                lemma_kids_bounded(s0, e);
                if s0.has_single(e) {
                    lemma_observed_monotone(s0, s1, s0.the_single(e));
                }
                lemma_all_observed_monotone(s0, s1, s0.multi_children(e), e);
            }
        }
    }
}

/// Sequence form of [`lemma_observed_monotone`].
proof fn lemma_all_observed_monotone<P>(s0: Store<P>, s1: Store<P>, kids: Seq<int>, bound: int)
    requires
        s0.wf(),
        s1.wf(),
        forall|x: int| x <= bound ==> #[trigger] observed_step_ok(s0, s1, x),
        forall|i: int| 0 <= i < kids.len() ==> 0 <= #[trigger] kids[i] < bound,
    ensures
        all_observed_complete(s0, kids, bound) ==> all_observed_complete(s1, kids, bound),
    decreases bound, 0int, kids.len(),
{
    if kids.len() > 0 {
        lemma_observed_monotone(s0, s1, kids[0]);
        lemma_all_observed_monotone(s0, s1, kids.drop_first(), bound);
    }
}

/// The cross-tick ordering discipline behind composition: at every state
/// the engine produces, a task is unblocked only if its `SingleEdge`
/// dependency is observed complete. Since the runner executes only
/// unblocked tasks, every run of a dependent strictly follows its
/// predecessor's completion, tick after tick: sequential outputs never
/// interleave, and a join task whose dependency is a fork runs only once
/// every prong of that fork is complete. The passes preserve the
/// discipline ([`lemma_deps_satisfied_after_run`],
/// [`lemma_deps_satisfied_after_maintain`]) and assembly establishes it
/// ([`lemma_deps_satisfied_after_assembly`]). The remaining half of the
/// fork discipline — prongs start only after the barrier child — is
/// carried per pass by [`unblock_exact`] over [`maintained_from`], whose
/// prong arm opens only behind an observed-complete barrier.
pub open spec fn deps_satisfied<P>(s: Store<P>) -> bool {
    forall|t: int| #![auto] s.unblocked(t) && s.has_single(t)
        ==> observed_complete(s, s.the_single(t))
}

/// A store with no entities — or any store with nothing unblocked, as
/// assembly leaves every new task — satisfies the discipline trivially.
pub proof fn lemma_deps_satisfied_when_all_blocked<P>(s: Store<P>)
    requires
        forall|t: int| !#[trigger] s.unblocked(t),
    ensures
        deps_satisfied(s),
{
}

/// Assembling onto a disciplined store preserves the discipline: old
/// entities are untouched and every new task starts blocked.
pub proof fn lemma_deps_satisfied_after_assembly<P>(pre: Store<P>, post: Store<P>, base: int)
    requires
        pre.wf(),
        post.wf(),
        deps_satisfied(pre),
        forall|x: int| x < base ==> slot_unchanged(pre, post, x),
        forall|x: int| base <= x ==> !post.unblocked(x),
    ensures
        deps_satisfied(post),
{
    assert forall|t: int| #![auto] post.unblocked(t) && post.has_single(t)
        implies observed_complete(post, post.the_single(t)) by {
        // Every new entity starts blocked, so t is an untouched old one.
        assert(t < base);
        assert(slot_unchanged(pre, post, t));
        assert(observed_complete(pre, pre.the_single(t)));
        assert(0 <= pre.the_single(t) < t);
        assert forall|x: int| x <= pre.the_single(t)
            implies #[trigger] observed_step_ok(pre, post, x) by {
            if x < base {
                assert(slot_unchanged(pre, post, x));
            }
        }
        lemma_observed_monotone(pre, post, pre.the_single(t));
    }
}

/// A runner pass preserves the discipline: it changes no edges, no
/// unblocked flags and no progress presence, and only sets completion
/// flags.
pub proof fn lemma_deps_satisfied_after_run<P>(pre: Store<P>, post: Store<P>)
    requires
        pre.wf(),
        post.wf(),
        deps_satisfied(pre),
        forall|x: int| edges_unchanged_at(pre, post, x),
        forall|x: int| #![auto] post.has_progress(x) == pre.has_progress(x),
        forall|x: int| #![auto] post.unblocked(x) == pre.unblocked(x),
        forall|x: int| #![auto] pre.complete_flag(x) ==> post.complete_flag(x),
    ensures
        deps_satisfied(post),
{
    assert forall|t: int| #![auto] post.unblocked(t) && post.has_single(t)
        implies observed_complete(post, post.the_single(t)) by {
        assert(edges_unchanged_at(pre, post, t));
        assert(observed_complete(pre, pre.the_single(t)));
        assert forall|x: int| x <= pre.the_single(t)
            implies #[trigger] observed_step_ok(pre, post, x) by {
            assert(edges_unchanged_at(pre, post, x));
        }
        lemma_observed_monotone(pre, post, pre.the_single(t));
    }
}

/// A maintenance pass preserves the discipline: it unblocks a task only
/// when its dependency is observed complete, and everything it collects or
/// deletes only moves entities toward completion.
pub proof fn lemma_deps_satisfied_after_maintain<P>(pre: Store<P>, post: Store<P>)
    requires
        pre.wf(),
        post.wf(),
        deps_satisfied(pre),
        forall|x: int| #![auto] post.unblocked(x) && !pre.unblocked(x)
            ==> newly_unblocked_ok(pre, x),
        forall|x: int| #![auto] post.unblocked(x)
            ==> edges_unchanged_at(pre, post, x),
        forall|x: int| #[trigger] observed_step_ok(pre, post, x),
    ensures
        deps_satisfied(post),
{
    assert forall|t: int| #![auto] post.unblocked(t) && post.has_single(t)
        implies observed_complete(post, post.the_single(t)) by {
        assert(edges_unchanged_at(pre, post, t));
        if pre.unblocked(t) {
            assert(observed_complete(pre, pre.the_single(t)));
        } else {
            assert(newly_unblocked_ok(pre, t));
        }
        assert forall|x: int| x <= pre.the_single(t)
            implies #[trigger] observed_step_ok(pre, post, x) by {
        }
        lemma_observed_monotone(pre, post, pre.the_single(t));
    }
}

} // verus!
