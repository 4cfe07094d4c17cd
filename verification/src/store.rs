//! The entity/attribute store: an arena of entities addressed by `usize`
//! handles, with one typed side-table per attribute kind.
//!
//! Entities are created during graph assembly and never reuse a handle, so a
//! handle is also a creation timestamp. Every dependency edge the assembler
//! creates points to an entity created strictly earlier than its parent;
//! that ordering is the structural witness ([`Store::wf`]) under which every
//! traversal is provably bounded. The manual edge functions accept any
//! edge — keeping the graph acyclic is the caller's responsibility, and is
//! never checked.

use vstd::prelude::*;

use crate::components::{FinalTag, MultiEdge, OnCompletion, SingleEdge, TaskError, TaskProgress};

verus! {

/// One entity's attributes. A dead slot has every attribute cleared.
struct Slot<P> {
    alive: bool,
    progress: Option<TaskProgress>,
    payload: Option<P>,
    single_edge: Option<SingleEdge>,
    multi_edge: Option<MultiEdge>,
    final_tag: Option<FinalTag>,
}

/// The attribute store, generic over the payload kind `P` that task entities
/// carry.
pub struct Store<P> {
    slots: Vec<Slot<P>>,
}

impl<P> Store<P> {
    /// How many entities have ever been created; handles are `0..num_entities()`.
    pub closed spec fn num_entities(self) -> int {
        self.slots@.len() as int
    }

    /// Entity `e` exists and has not been deleted.
    pub closed spec fn alive(self, e: int) -> bool {
        0 <= e < self.slots@.len() && self.slots@[e].alive
    }

    /// Entity `e` carries a `TaskProgress` attribute. Absence of progress is
    /// the canonical "task complete and collected" signal.
    pub closed spec fn has_progress(self, e: int) -> bool {
        0 <= e < self.slots@.len() && self.slots@[e].progress.is_some()
    }

    /// The completion flag of `e`'s progress, if it has one.
    pub closed spec fn complete_flag(self, e: int) -> bool {
        self.has_progress(e) && self.slots@[e].progress.unwrap().is_complete
    }

    /// The unblocked flag of `e`'s progress, if it has one.
    pub closed spec fn unblocked(self, e: int) -> bool {
        self.has_progress(e) && self.slots@[e].progress.unwrap().is_unblocked
    }

    /// The payload attribute of `e`.
    pub closed spec fn payload(self, e: int) -> Option<P> {
        if 0 <= e < self.slots@.len() {
            self.slots@[e].payload
        } else {
            None
        }
    }

    /// Entity `e` carries a `SingleEdge`.
    pub closed spec fn has_single(self, e: int) -> bool {
        0 <= e < self.slots@.len() && self.slots@[e].single_edge.is_some()
    }

    /// The child of `e`'s `SingleEdge`; meaningful only when `has_single(e)`.
    pub closed spec fn the_single(self, e: int) -> int {
        if self.has_single(e) {
            self.slots@[e].single_edge.unwrap().child as int
        } else {
            0
        }
    }

    /// Entity `e` carries a `MultiEdge`, which makes it a fork node.
    pub closed spec fn has_multi(self, e: int) -> bool {
        0 <= e < self.slots@.len() && self.slots@[e].multi_edge.is_some()
    }

    /// The prongs of `e`'s `MultiEdge`; empty when `e` is not a fork.
    pub closed spec fn multi_children(self, e: int) -> Seq<int> {
        if self.has_multi(e) {
            self.slots@[e].multi_edge.unwrap().children@.map_values(|c: usize| c as int)
        } else {
            Seq::empty()
        }
    }

    /// The on-completion policy of `e`'s `FinalTag`, if it has one.
    pub closed spec fn final_tag(self, e: int) -> Option<OnCompletion> {
        if 0 <= e < self.slots@.len() && self.slots@[e].final_tag.is_some() {
            Some(self.slots@[e].final_tag.unwrap().on_completion)
        } else {
            None
        }
    }

    /// The structural acyclicity witness: every dependency edge points to an
    /// entity created strictly earlier, so the edge relation is acyclic and
    /// every traversal is well-founded. The assembler always establishes
    /// this, since it creates dependencies before their dependents; the
    /// manual edge functions preserve it exactly when the edge they attach
    /// points to an older entity. Keeping the graph acyclic is the caller's
    /// responsibility and is never checked at run time; a caller who hands
    /// out edges to newer entities steps outside this witness and with it
    /// outside the maintenance engine's verified contracts.
    pub open spec fn wf(self) -> bool {
        &&& forall|e: int| #![auto] self.has_single(e) ==> 0 <= self.the_single(e) < e
        &&& forall|e: int, i: int|
                self.has_multi(e) && 0 <= i < self.multi_children(e).len()
                    ==> 0 <= #[trigger] self.multi_children(e)[i] < e
    }
}

/// The edge attributes of entity `e` are the same in `pre` and `post`.
pub open spec fn edges_unchanged_at<P>(pre: Store<P>, post: Store<P>, e: int) -> bool {
    &&& post.has_single(e) == pre.has_single(e)
    &&& post.the_single(e) == pre.the_single(e)
    &&& post.has_multi(e) == pre.has_multi(e)
    &&& post.multi_children(e) == pre.multi_children(e)
}

/// The progress attribute of entity `e` is the same in `pre` and `post`.
pub open spec fn progress_unchanged_at<P>(pre: Store<P>, post: Store<P>, e: int) -> bool {
    &&& post.has_progress(e) == pre.has_progress(e)
    &&& post.complete_flag(e) == pre.complete_flag(e)
    &&& post.unblocked(e) == pre.unblocked(e)
}

/// Entity `e` is dead and every attribute of it is cleared.
pub open spec fn cleared_at<P>(s: Store<P>, e: int) -> bool {
    &&& !s.alive(e)
    &&& !s.has_progress(e)
    &&& s.payload(e).is_none()
    &&& !s.has_single(e)
    &&& !s.has_multi(e)
    &&& s.final_tag(e).is_none()
}

/// Every attribute of entity `e` is the same in `pre` and `post`.
pub open spec fn slot_unchanged<P>(pre: Store<P>, post: Store<P>, e: int) -> bool {
    &&& post.alive(e) == pre.alive(e)
    &&& progress_unchanged_at(pre, post, e)
    &&& edges_unchanged_at(pre, post, e)
    &&& post.payload(e) == pre.payload(e)
    &&& post.final_tag(e) == pre.final_tag(e)
}

impl<P> Store<P> {
    /// An empty store with no entities.
    pub fn new() -> (s: Store<P>)
        ensures
            s.num_entities() == 0,
            s.wf(),
    {
        Store { slots: Vec::new() }
    }

    /// The number of entity handles ever issued.
    pub fn num(&self) -> (n: usize)
        ensures
            n as int == self.num_entities(),
    {
        self.slots.len()
    }

    /// Whether entity `e` is alive.
    pub fn is_alive(&self, e: usize) -> (r: bool)
        ensures
            r == self.alive(e as int),
    {
        e < self.slots.len() && self.slots[e].alive
    }

    /// The progress attribute of `e`, if present.
    pub fn progress_of(&self, e: usize) -> (r: Option<TaskProgress>)
        ensures
            r.is_some() == self.has_progress(e as int),
            r.is_some() ==> r.unwrap().is_complete == self.complete_flag(e as int),
            r.is_some() ==> r.unwrap().is_unblocked == self.unblocked(e as int),
    {
        if e < self.slots.len() {
            self.slots[e].progress
        } else {
            None
        }
    }

    /// The `SingleEdge` child of `e`, if it has one.
    pub fn single_edge_of(&self, e: usize) -> (r: Option<usize>)
        ensures
            r.is_some() == self.has_single(e as int),
            r.is_some() ==> r.unwrap() as int == self.the_single(e as int),
    {
        if e < self.slots.len() {
            match &self.slots[e].single_edge {
                Some(edge) => Some(edge.child),
                None => None,
            }
        } else {
            None
        }
    }

    /// The prongs of `e`'s `MultiEdge`, if it has one.
    pub fn multi_children_of(&self, e: usize) -> (r: Option<Vec<usize>>)
        ensures
            r.is_some() == self.has_multi(e as int),
            r.is_some() ==> r.unwrap()@.map_values(|c: usize| c as int)
                == self.multi_children(e as int),
            r.is_none() ==> self.multi_children(e as int) == Seq::<int>::empty(),
    {
        if e < self.slots.len() {
            match &self.slots[e].multi_edge {
                Some(edge) => Some(edge.children.clone()),
                None => None,
            }
        } else {
            None
        }
    }

    /// The on-completion policy of `e`'s `FinalTag`, if it has one.
    pub fn final_tag_of(&self, e: usize) -> (r: Option<OnCompletion>)
        ensures
            r == self.final_tag(e as int),
    {
        if e < self.slots.len() {
            match &self.slots[e].final_tag {
                Some(tag) => Some(tag.on_completion),
                None => None,
            }
        } else {
            None
        }
    }

    /// Sets the unblocked flag of `e`'s progress. Monotonic: the flag is
    /// never cleared while the attribute exists.
    pub(crate) fn unblock(&mut self, e: usize)
        requires
            old(self).has_progress(e as int),
        ensures
            final(self).num_entities() == old(self).num_entities(),
            final(self).unblocked(e as int),
            final(self).has_progress(e as int),
            final(self).complete_flag(e as int) == old(self).complete_flag(e as int),
            final(self).alive(e as int) == old(self).alive(e as int),
            edges_unchanged_at(*old(self), *final(self), e as int),
            final(self).payload(e as int) == old(self).payload(e as int),
            final(self).final_tag(e as int) == old(self).final_tag(e as int),
            forall|x: int| x != e as int ==> slot_unchanged(*old(self), *final(self), x),
            final(self).wf() == old(self).wf(),
    {
        let progress = self.slots[e].progress.unwrap();
        self.slots[e].progress = Some(
            TaskProgress { is_complete: progress.is_complete, is_unblocked: true },
        );
        proof {
            assert(forall|x: int| x != e as int ==> slot_unchanged(*old(self), *self, x));
            assert(forall|x: int| edges_unchanged_at(*old(self), *self, x));
            lemma_wf_edges_unchanged(*old(self), *self);
        }
    }

    /// Sets the completion flag of `e`'s progress. Written by the task runner
    /// when the payload reports that its work is done.
    pub(crate) fn set_complete(&mut self, e: usize)
        requires
            old(self).has_progress(e as int),
        ensures
            final(self).num_entities() == old(self).num_entities(),
            final(self).complete_flag(e as int),
            final(self).has_progress(e as int),
            final(self).unblocked(e as int) == old(self).unblocked(e as int),
            final(self).alive(e as int) == old(self).alive(e as int),
            edges_unchanged_at(*old(self), *final(self), e as int),
            final(self).payload(e as int) == old(self).payload(e as int),
            final(self).final_tag(e as int) == old(self).final_tag(e as int),
            forall|x: int| x != e as int ==> slot_unchanged(*old(self), *final(self), x),
            final(self).wf() == old(self).wf(),
    {
        let progress = self.slots[e].progress.unwrap();
        self.slots[e].progress = Some(
            TaskProgress { is_complete: true, is_unblocked: progress.is_unblocked },
        );
        proof {
            assert(forall|x: int| x != e as int ==> slot_unchanged(*old(self), *self, x));
            assert(forall|x: int| edges_unchanged_at(*old(self), *self, x));
            lemma_wf_edges_unchanged(*old(self), *self);
        }
    }

    /// Moves `e`'s payload out of the store so the runner can advance it.
    pub(crate) fn take_payload(&mut self, e: usize) -> (p: P)
        requires
            old(self).payload(e as int).is_some(),
        ensures
            final(self).num_entities() == old(self).num_entities(),
            old(self).payload(e as int) == Some(p),
            final(self).payload(e as int).is_none(),
            final(self).alive(e as int) == old(self).alive(e as int),
            progress_unchanged_at(*old(self), *final(self), e as int),
            edges_unchanged_at(*old(self), *final(self), e as int),
            final(self).final_tag(e as int) == old(self).final_tag(e as int),
            forall|x: int| x != e as int ==> slot_unchanged(*old(self), *final(self), x),
            final(self).wf() == old(self).wf(),
    {
        let p = self.slots[e].payload.take().unwrap();
        proof {
            assert(forall|x: int| x != e as int ==> slot_unchanged(*old(self), *self, x));
            assert(forall|x: int| edges_unchanged_at(*old(self), *self, x));
            lemma_wf_edges_unchanged(*old(self), *self);
        }
        p
    }

    /// Puts a payload back after the runner advanced it.
    pub(crate) fn put_payload(&mut self, e: usize, p: P)
        requires
            (e as int) < old(self).num_entities(),
        ensures
            final(self).num_entities() == old(self).num_entities(),
            final(self).payload(e as int) == Some(p),
            final(self).alive(e as int) == old(self).alive(e as int),
            progress_unchanged_at(*old(self), *final(self), e as int),
            edges_unchanged_at(*old(self), *final(self), e as int),
            final(self).final_tag(e as int) == old(self).final_tag(e as int),
            forall|x: int| x != e as int ==> slot_unchanged(*old(self), *final(self), x),
            final(self).wf() == old(self).wf(),
    {
        self.slots[e].payload = Some(p);
        proof {
            assert(forall|x: int| x != e as int ==> slot_unchanged(*old(self), *self, x));
            assert(forall|x: int| edges_unchanged_at(*old(self), *self, x));
            lemma_wf_edges_unchanged(*old(self), *self);
        }
    }

    /// Deletes entity `e` in place, clearing every attribute. A no-op on a
    /// handle that is out of range; idempotent on a dead entity.
    pub(crate) fn delete_now(&mut self, e: usize)
        ensures
            final(self).num_entities() == old(self).num_entities(),
            !final(self).alive(e as int),
            !final(self).has_progress(e as int),
            !final(self).complete_flag(e as int),
            !final(self).unblocked(e as int),
            final(self).payload(e as int).is_none(),
            !final(self).has_single(e as int),
            !final(self).has_multi(e as int),
            final(self).final_tag(e as int).is_none(),
            forall|x: int| x != e as int ==> slot_unchanged(*old(self), *final(self), x),
            old(self).wf() ==> final(self).wf(),
    {
        if e < self.slots.len() {
            self.slots[e] = Slot {
                alive: false,
                progress: None,
                payload: None,
                single_edge: None,
                multi_edge: None,
                final_tag: None,
            };
            proof {
                assert(forall|x: int| x != e as int ==> slot_unchanged(*old(self), *self, x));
                if old(self).wf() {
                    lemma_wf_preserved_except(*old(self), *self, e as int);
                }
            }
        }
    }

    /// Removes `e`'s progress attribute, marking the task as collected.
    /// A no-op when `e` has none.
    pub(crate) fn remove_progress_now(&mut self, e: usize)
        ensures
            final(self).num_entities() == old(self).num_entities(),
            !final(self).has_progress(e as int),
            !final(self).complete_flag(e as int),
            !final(self).unblocked(e as int),
            final(self).alive(e as int) == old(self).alive(e as int),
            edges_unchanged_at(*old(self), *final(self), e as int),
            final(self).payload(e as int) == old(self).payload(e as int),
            final(self).final_tag(e as int) == old(self).final_tag(e as int),
            forall|x: int| x != e as int ==> slot_unchanged(*old(self), *final(self), x),
            final(self).wf() == old(self).wf(),
    {
        if e < self.slots.len() {
            self.slots[e].progress = None;
            proof {
                assert(forall|x: int| x != e as int ==> slot_unchanged(*old(self), *self, x));
                assert(forall|x: int| edges_unchanged_at(*old(self), *self, x));
                lemma_wf_edges_unchanged(*old(self), *self);
            }
        }
    }

    /// Removes `e`'s `FinalTag`, so the maintenance engine stops scanning it.
    /// A no-op when `e` has none.
    pub(crate) fn remove_final_now(&mut self, e: usize)
        ensures
            final(self).num_entities() == old(self).num_entities(),
            final(self).final_tag(e as int).is_none(),
            final(self).alive(e as int) == old(self).alive(e as int),
            progress_unchanged_at(*old(self), *final(self), e as int),
            edges_unchanged_at(*old(self), *final(self), e as int),
            final(self).payload(e as int) == old(self).payload(e as int),
            forall|x: int| x != e as int ==> slot_unchanged(*old(self), *final(self), x),
            final(self).wf() == old(self).wf(),
    {
        if e < self.slots.len() {
            self.slots[e].final_tag = None;
            proof {
                assert(forall|x: int| x != e as int ==> slot_unchanged(*old(self), *self, x));
                assert(forall|x: int| edges_unchanged_at(*old(self), *self, x));
                lemma_wf_edges_unchanged(*old(self), *self);
            }
        }
    }

    /// A borrow of `e`'s payload, if present.
    pub fn payload_ref(&self, e: usize) -> (r: Option<&P>)
        ensures
            r.is_some() == self.payload(e as int).is_some(),
            r.is_some() ==> *r.unwrap() == self.payload(e as int).unwrap(),
    {
        if e < self.slots.len() {
            self.slots[e].payload.as_ref()
        } else {
            None
        }
    }
}

/// Well-formedness depends only on the edge attributes, so two stores whose
/// edges agree everywhere are equally well-formed.
pub proof fn lemma_wf_edges_unchanged<P>(pre: Store<P>, post: Store<P>)
    requires
        forall|x: int| edges_unchanged_at(pre, post, x),
    ensures
        pre.wf() == post.wf(),
{
    if pre.wf() {
        assert forall|e: int| #![auto] post.has_single(e)
            implies 0 <= post.the_single(e) < e by {
            assert(edges_unchanged_at(pre, post, e));
        }
        assert forall|e: int, i: int|
            post.has_multi(e) && 0 <= i < post.multi_children(e).len()
                implies 0 <= #[trigger] post.multi_children(e)[i] < e by {
            assert(edges_unchanged_at(pre, post, e));
            assert(0 <= pre.multi_children(e)[i] < e);
        }
        assert(post.wf());
    }
    if post.wf() {
        assert forall|e: int| #![auto] pre.has_single(e)
            implies 0 <= pre.the_single(e) < e by {
            assert(edges_unchanged_at(pre, post, e));
        }
        assert forall|e: int, i: int|
            pre.has_multi(e) && 0 <= i < pre.multi_children(e).len()
                implies 0 <= #[trigger] pre.multi_children(e)[i] < e by {
            assert(edges_unchanged_at(pre, post, e));
            assert(0 <= post.multi_children(e)[i] < e);
        }
        assert(pre.wf());
    }
}

/// Only issued handles can be alive.
pub proof fn lemma_alive_in_range<P>(s: Store<P>, e: int)
    ensures
        s.alive(e) ==> 0 <= e < s.num_entities(),
{
}

/// Progress flags exist only on entities that carry a progress attribute.
pub proof fn lemma_flags_imply_progress<P>(s: Store<P>, e: int)
    ensures
        s.unblocked(e) ==> s.has_progress(e),
        s.complete_flag(e) ==> s.has_progress(e),
{
}

/// An entity without a `MultiEdge` has no prongs.
pub proof fn lemma_multi_children_absent<P>(s: Store<P>, e: int)
    requires
        !s.has_multi(e),
    ensures
        s.multi_children(e) == Seq::<int>::empty(),
{
}

/// A store stays well-formed when a single entity's attributes change, as
/// long as that entity's own edges still point to strictly older entities.
pub proof fn lemma_wf_preserved_except<P>(pre: Store<P>, post: Store<P>, e: int)
    requires
        pre.wf(),
        forall|x: int| x != e ==> slot_unchanged(pre, post, x),
        post.has_single(e) ==> 0 <= post.the_single(e) < e,
        forall|i: int| 0 <= i < post.multi_children(e).len()
            ==> 0 <= #[trigger] post.multi_children(e)[i] < e,
    ensures
        post.wf(),
{
    assert forall|x: int| #![auto] post.has_single(x) implies 0 <= post.the_single(x) < x by {
        if x != e {
            assert(slot_unchanged(pre, post, x));
        }
    }
    assert forall|x: int, i: int|
        post.has_multi(x) && 0 <= i < post.multi_children(x).len()
            implies 0 <= #[trigger] post.multi_children(x)[i] < x by {
        if x != e {
            assert(slot_unchanged(pre, post, x));
            assert(0 <= pre.multi_children(x)[i] < x);
        }
    }
}

/// Creates a new task entity carrying fresh (pending, blocked) progress and
/// the given payload, and returns its handle.
pub fn make_task<P>(store: &mut Store<P>, payload: P) -> (e: usize)
    ensures
        final(store).num_entities() == old(store).num_entities() + 1,
        e as int == old(store).num_entities(),
        final(store).alive(e as int),
        final(store).has_progress(e as int),
        !final(store).complete_flag(e as int),
        !final(store).unblocked(e as int),
        final(store).payload(e as int) == Some(payload),
        !final(store).has_single(e as int),
        !final(store).has_multi(e as int),
        final(store).final_tag(e as int).is_none(),
        forall|x: int| x != e as int ==> slot_unchanged(*old(store), *final(store), x),
        old(store).wf() ==> final(store).wf(),
{
    let e = store.slots.len();
    store.slots.push(Slot {
        alive: true,
        progress: Some(TaskProgress::new()),
        payload: Some(payload),
        single_edge: None,
        multi_edge: None,
        final_tag: None,
    });
    proof {
        assert(forall|x: int| x != e as int ==> slot_unchanged(*old(store), *store, x));
        if old(store).wf() {
            lemma_wf_preserved_except(*old(store), *store, e as int);
        }
    }
    e
}

/// Creates a new fork entity with an empty `MultiEdge` and no progress or
/// payload, and returns its handle.
pub fn make_fork<P>(store: &mut Store<P>) -> (e: usize)
    ensures
        final(store).num_entities() == old(store).num_entities() + 1,
        e as int == old(store).num_entities(),
        final(store).alive(e as int),
        !final(store).has_progress(e as int),
        final(store).payload(e as int).is_none(),
        !final(store).has_single(e as int),
        final(store).has_multi(e as int),
        final(store).multi_children(e as int) == Seq::<int>::empty(),
        final(store).final_tag(e as int).is_none(),
        forall|x: int| x != e as int ==> slot_unchanged(*old(store), *final(store), x),
        old(store).wf() ==> final(store).wf(),
{
    let e = store.slots.len();
    store.slots.push(Slot {
        alive: true,
        progress: None,
        payload: None,
        single_edge: None,
        multi_edge: Some(MultiEdge { children: Vec::new() }),
        final_tag: None,
    });
    proof {
        assert(forall|x: int| x != e as int ==> slot_unchanged(*old(store), *store, x));
        assert(store.multi_children(e as int) =~= Seq::<int>::empty());
        if old(store).wf() {
            lemma_wf_preserved_except(*old(store), *store, e as int);
        }
    }
    e
}

/// Marks `entity` as final: the root of a finished expression, eligible for
/// maintenance under the given on-completion policy.
pub fn finalize<P>(store: &mut Store<P>, entity: usize, on_completion: OnCompletion)
    requires
        old(store).alive(entity as int),
    ensures
        final(store).num_entities() == old(store).num_entities(),
        final(store).final_tag(entity as int) == Some(on_completion),
        final(store).alive(entity as int),
        progress_unchanged_at(*old(store), *final(store), entity as int),
        edges_unchanged_at(*old(store), *final(store), entity as int),
        final(store).payload(entity as int) == old(store).payload(entity as int),
        forall|x: int| x != entity as int ==> slot_unchanged(*old(store), *final(store), x),
        final(store).wf() == old(store).wf(),
{
    store.slots[entity].final_tag = Some(FinalTag { on_completion });
    proof {
        assert(forall|x: int| x != entity as int ==> slot_unchanged(*old(store), *store, x));
        assert(forall|x: int| edges_unchanged_at(*old(store), *store, x));
        lemma_wf_edges_unchanged(*old(store), *store);
    }
}

/// Attaches a `SingleEdge` from `parent` to `child`: `parent` depends on
/// `child` and cannot be considered complete before it.
///
/// Fails only if `parent` is dead or already has a `SingleEdge`; on failure
/// the store is unchanged. Any live child is accepted — keeping the edge
/// relation acyclic is the caller's responsibility and is not checked. The
/// structural witness [`Store::wf`] is preserved exactly when the new edge
/// points to an older entity, as every edge the assembler creates does; an
/// edge attached by hand to a newer entity leaves the witness, and with it
/// the verified maintenance contracts, to the caller.
pub fn join<P>(store: &mut Store<P>, parent: usize, child: usize) -> (r: Result<(), TaskError>)
    ensures
        r.is_ok() <==> old(store).alive(parent as int)
            && !old(store).has_single(parent as int),
        !old(store).alive(parent as int) ==> r == Err::<(), TaskError>(TaskError::DeadEntity),
        old(store).alive(parent as int) && old(store).has_single(parent as int)
            ==> r == Err::<(), TaskError>(TaskError::SecondSingleEdge),
        r.is_err() ==> *final(store) == *old(store),
        r.is_ok() ==> {
            &&& final(store).num_entities() == old(store).num_entities()
            &&& final(store).has_single(parent as int)
            &&& final(store).the_single(parent as int) == child as int
            &&& final(store).has_multi(parent as int) == old(store).has_multi(parent as int)
            &&& final(store).multi_children(parent as int)
                == old(store).multi_children(parent as int)
            &&& final(store).alive(parent as int)
            &&& progress_unchanged_at(*old(store), *final(store), parent as int)
            &&& final(store).payload(parent as int) == old(store).payload(parent as int)
            &&& final(store).final_tag(parent as int) == old(store).final_tag(parent as int)
            &&& forall|x: int| x != parent as int
                    ==> slot_unchanged(*old(store), *final(store), x)
            &&& (old(store).wf() && (child as int) < parent as int ==> final(store).wf())
        },
{
    if !store.is_alive(parent) {
        return Err(TaskError::DeadEntity);
    }
    if store.slots[parent].single_edge.is_some() {
        return Err(TaskError::SecondSingleEdge);
    }
    store.slots[parent].single_edge = Some(SingleEdge { child });
    proof {
        assert(forall|x: int| x != parent as int ==> slot_unchanged(*old(store), *store, x));
        if old(store).wf() && (child as int) < parent as int {
            assert forall|i: int| 0 <= i < store.multi_children(parent as int).len()
                implies 0 <= #[trigger] store.multi_children(parent as int)[i] < parent as int by {
                assert(old(store).multi_children(parent as int)[i]
                    == store.multi_children(parent as int)[i]);
            }
            lemma_wf_preserved_except(*old(store), *store, parent as int);
        }
    }
    Ok(())
}

/// Registers `prong` as a child on the `MultiEdge` of `fork_entity`.
///
/// Fails only if `fork_entity` is dead or has no `MultiEdge` (it is not a
/// fork); on failure the store is unchanged. Any prong is accepted —
/// acyclicity is the caller's responsibility. As with [`join`], the
/// structural witness [`Store::wf`] is preserved exactly when the prong is
/// an older entity, which holds for every prong the assembler registers.
pub fn add_prong<P>(store: &mut Store<P>, fork_entity: usize, prong: usize)
    -> (r: Result<(), TaskError>)
    ensures
        r.is_ok() <==> old(store).alive(fork_entity as int)
            && old(store).has_multi(fork_entity as int),
        !old(store).alive(fork_entity as int)
            ==> r == Err::<(), TaskError>(TaskError::DeadEntity),
        old(store).alive(fork_entity as int) && !old(store).has_multi(fork_entity as int)
            ==> r == Err::<(), TaskError>(TaskError::ProngOnNonFork),
        r.is_err() ==> *final(store) == *old(store),
        r.is_ok() ==> {
            &&& final(store).num_entities() == old(store).num_entities()
            &&& final(store).has_multi(fork_entity as int)
            &&& final(store).multi_children(fork_entity as int)
                == old(store).multi_children(fork_entity as int).push(prong as int)
            &&& final(store).has_single(fork_entity as int)
                == old(store).has_single(fork_entity as int)
            &&& final(store).the_single(fork_entity as int)
                == old(store).the_single(fork_entity as int)
            &&& final(store).alive(fork_entity as int)
            &&& progress_unchanged_at(*old(store), *final(store), fork_entity as int)
            &&& final(store).payload(fork_entity as int)
                == old(store).payload(fork_entity as int)
            &&& final(store).final_tag(fork_entity as int)
                == old(store).final_tag(fork_entity as int)
            &&& forall|x: int| x != fork_entity as int
                    ==> slot_unchanged(*old(store), *final(store), x)
            &&& (old(store).wf() && (prong as int) < fork_entity as int
                    ==> final(store).wf())
        },
{
    if !store.is_alive(fork_entity) {
        return Err(TaskError::DeadEntity);
    }
    if store.slots[fork_entity].multi_edge.is_none() {
        return Err(TaskError::ProngOnNonFork);
    }
    let mut children = store.slots[fork_entity].multi_edge.take().unwrap().children;
    children.push(prong);
    store.slots[fork_entity].multi_edge = Some(MultiEdge { children });
    proof {
        assert(forall|x: int| x != fork_entity as int ==> slot_unchanged(*old(store), *store, x));
        assert(store.multi_children(fork_entity as int)
            =~= old(store).multi_children(fork_entity as int).push(prong as int));
        if old(store).wf() && (prong as int) < fork_entity as int {
            assert forall|i: int| 0 <= i < store.multi_children(fork_entity as int).len()
                implies 0 <= #[trigger] store.multi_children(fork_entity as int)[i]
                    < fork_entity as int by {
                if i < old(store).multi_children(fork_entity as int).len() {
                    assert(0 <= old(store).multi_children(fork_entity as int)[i]
                        < fork_entity as int);
                }
            }
            if store.has_single(fork_entity as int) {
                assert(old(store).has_single(fork_entity as int));
            }
            lemma_wf_preserved_except(*old(store), *store, fork_entity as int);
        }
    }
    Ok(())
}

} // verus!
