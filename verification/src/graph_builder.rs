//! The task-graph grammar and assembler: a binary tree of sequential and
//! concurrent composition over task payloads, normalized to eliminate empty
//! placeholders and then lowered onto store entities and dependency edges.

use vstd::prelude::*;

use crate::components::{OnCompletion, TaskComponent, TaskError};
use crate::store::{finalize, join, add_prong, make_fork, make_task, slot_unchanged, Store};

verus! {

/// A node of the tree grammar that describes a task graph. `Serial` composes
/// two subtrees sequentially, `Fork` concurrently; `Task` is a leaf carrying
/// a payload; `Nil` is a unit placeholder that exists only to support
/// accumulating a graph across a loop, and is eliminated before assembly.
///
/// Two unequal trees may be equivalent in how they assemble: for example,
/// `Serial(x, Serial(y, z))` and `Serial(Serial(x, y), z)` both assemble into the
/// sequence `x -> y -> z`.
#[derive(Debug, PartialEq, Eq)]
pub enum Cons<T> {
    Fork(Box<Cons<T>>, Box<Cons<T>>),
    Serial(Box<Cons<T>>, Box<Cons<T>>),
    Task(T),
    Nil,
}

/// The tree contains no `Nil` placeholder.
pub open spec fn nil_free<T>(c: Cons<T>) -> bool
    decreases c,
{
    match c {
        Cons::Fork(h, t) => nil_free(*h) && nil_free(*t),
        Cons::Serial(h, t) => nil_free(*h) && nil_free(*t),
        Cons::Task(_) => true,
        Cons::Nil => false,
    }
}

/// Normalization: recursively eliminate every `Nil`. A composition whose
/// children both normalize away is itself `Nil`; one with a single real
/// child normalizes to that child.
pub open spec fn spec_normalize<T>(c: Cons<T>) -> Cons<T>
    decreases c,
{
    match c {
        Cons::Fork(h, t) => {
            let hn = spec_normalize(*h);
            let tn = spec_normalize(*t);
            if hn is Nil {
                tn
            } else if tn is Nil {
                hn
            } else {
                Cons::Fork(Box::new(hn), Box::new(tn))
            }
        },
        Cons::Serial(h, t) => {
            let hn = spec_normalize(*h);
            let tn = spec_normalize(*t);
            if hn is Nil {
                tn
            } else if tn is Nil {
                hn
            } else {
                Cons::Serial(Box::new(hn), Box::new(tn))
            }
        },
        Cons::Task(p) => Cons::Task(p),
        Cons::Nil => Cons::Nil,
    }
}

impl<T> Cons<T> {
    /// Removes every `Nil` placeholder from the tree.
    pub fn remove_nil(self) -> (r: Self)
        ensures
            r == spec_normalize(self),
        decreases self,
    {
        match self {
            Cons::Fork(h, t) => {
                let hn = (*h).remove_nil();
                let tn = (*t).remove_nil();
                match (hn, tn) {
                    (Cons::Nil, tn2) => tn2,
                    (hn2, Cons::Nil) => hn2,
                    (hn2, tn2) => Cons::Fork(Box::new(hn2), Box::new(tn2)),
                }
            },
            Cons::Serial(h, t) => {
                let hn = (*h).remove_nil();
                let tn = (*t).remove_nil();
                match (hn, tn) {
                    (Cons::Nil, tn2) => tn2,
                    (hn2, Cons::Nil) => hn2,
                    (hn2, tn2) => Cons::Serial(Box::new(hn2), Box::new(tn2)),
                }
            },
            Cons::Task(p) => Cons::Task(p),
            Cons::Nil => Cons::Nil,
        }
    }
}

/// Normalization removes every `Nil`: the result is either `Nil` itself (the
/// tree held no task) or entirely `Nil`-free.
pub proof fn lemma_normalize_removes_nil<T>(c: Cons<T>)
    ensures
        spec_normalize(c) is Nil || nil_free(spec_normalize(c)),
    decreases c,
{
    match c {
        Cons::Fork(h, t) => {
            lemma_normalize_removes_nil(*h);
            lemma_normalize_removes_nil(*t);
        },
        Cons::Serial(h, t) => {
            lemma_normalize_removes_nil(*h);
            lemma_normalize_removes_nil(*t);
        },
        Cons::Task(_) => {},
        Cons::Nil => {},
    }
}

/// A `Nil`-free tree is not `Nil`.
pub proof fn lemma_nil_free_not_nil<T>(c: Cons<T>)
    requires
        nil_free(c),
    ensures
        !(c is Nil),
{
}

/// A `Nil`-free tree is already normal.
pub proof fn lemma_normalize_nil_free_identity<T>(c: Cons<T>)
    requires
        nil_free(c),
    ensures
        spec_normalize(c) == c,
    decreases c,
{
    match c {
        Cons::Fork(h, t) => {
            lemma_normalize_nil_free_identity(*h);
            lemma_normalize_nil_free_identity(*t);
            lemma_nil_free_not_nil(*h);
            lemma_nil_free_not_nil(*t);
            assert(Box::new(*h) == h);
            assert(Box::new(*t) == t);
        },
        Cons::Serial(h, t) => {
            lemma_normalize_nil_free_identity(*h);
            lemma_normalize_nil_free_identity(*t);
            lemma_nil_free_not_nil(*h);
            lemma_nil_free_not_nil(*t);
            assert(Box::new(*h) == h);
            assert(Box::new(*t) == t);
        },
        Cons::Task(_) => {},
        Cons::Nil => {},
    }
}

/// Normalization is idempotent: removing `Nil`s from an already-normalized
/// tree changes nothing, so a normalized tree and its `Nil`-free equivalent
/// assemble identically.
pub proof fn lemma_normalize_idempotent<T>(c: Cons<T>)
    ensures
        spec_normalize(spec_normalize(c)) == spec_normalize(c),
{
    lemma_normalize_removes_nil(c);
    if !(spec_normalize(c) is Nil) {
        lemma_normalize_nil_free_identity(spec_normalize(c));
    }
}

/// The shape of one assembled entity: a task with its payload, or a fork
/// with its prongs; each with its dependency edge, if one was attached.
pub enum NodeShape<P> {
    TaskNode { payload: P, dep: Option<int> },
    ForkNode { dep: Option<int>, prongs: Seq<int> },
}

/// The dependency argument, as the model sees it.
pub open spec fn dep_view(dep: Option<usize>) -> Option<int> {
    match dep {
        Option::Some(d) => Some(d as int),
        Option::None => None,
    }
}

/// The entity holds the dependency edge the shape prescribes: exactly one
/// `SingleEdge` to `d`, or none at all.
pub open spec fn dep_matches<P>(s: Store<P>, e: int, dep: Option<int>) -> bool {
    match dep {
        Option::Some(d) => s.has_single(e) && s.the_single(e) == d,
        Option::None => !s.has_single(e),
    }
}

/// Entity `e` of store `s` has exactly the given shape (its `FinalTag`
/// aside).
pub open spec fn shape_matches_core<P>(s: Store<P>, e: int, sh: NodeShape<P>) -> bool {
    match sh {
        NodeShape::TaskNode { payload, dep } => {
            &&& s.alive(e)
            &&& s.has_progress(e)
            &&& !s.complete_flag(e)
            &&& !s.unblocked(e)
            &&& s.payload(e) == Some(payload)
            &&& !s.has_multi(e)
            &&& dep_matches(s, e, dep)
        },
        NodeShape::ForkNode { dep, prongs } => {
            &&& s.alive(e)
            &&& !s.has_progress(e)
            &&& s.payload(e).is_none()
            &&& s.has_multi(e)
            &&& s.multi_children(e) == prongs
            &&& dep_matches(s, e, dep)
        },
    }
}

/// Entity `e` of store `s` has exactly the given shape and no `FinalTag`.
pub open spec fn shape_matches<P>(s: Store<P>, e: int, sh: NodeShape<P>) -> bool {
    shape_matches_core(s, e, sh) && s.final_tag(e).is_none()
}

/// The functional model of assembly: for a `Nil`-free tree `n`, assembling
/// with fresh handles from `base` onward, with `dep` to be attached to the
/// subtree's entry entity, yields exactly these entity shapes (in creation
/// order) and this `(first, last)` pair.
///
/// A `Serial` assembles its head, then its tail with the head's last entity
/// as the tail's dependency. A `Fork` assembles the last entities of all of
/// its non-fork descendents (reachable through `Fork` nodes only) as prongs
/// of one single fork entity, flattening nested forks at the same
/// concurrency level.
pub open spec fn assemble_model<P>(n: Cons<P>, base: int, dep: Option<int>)
    -> (Seq<NodeShape<P>>, int, int)
    decreases n, 0int,
{
    match n {
        Cons::Task(p) => (seq![NodeShape::TaskNode { payload: p, dep }], base, base),
        Cons::Serial(h, t) => {
            let (a, f1, l1) = assemble_model(*h, base, dep);
            let r2 = assemble_model(*t, base + a.len(), Some(l1));
            (a + r2.0, f1, r2.2)
        },
        Cons::Fork(h, t) => {
            let (c1, p1) = prongs_model(*h, base);
            let (c2, p2) = prongs_model(*t, base + c1.len());
            let fork = base + c1.len() + c2.len();
            (c1 + c2 + seq![NodeShape::ForkNode { dep, prongs: p1 + p2 }], fork, fork)
        },
        Cons::Nil => (Seq::empty(), base, base),
    }
}

/// The model of assembling a subtree in fork context: the shapes created,
/// and the prong handles it contributes to the enclosing fork.
pub open spec fn prongs_model<P>(n: Cons<P>, base: int) -> (Seq<NodeShape<P>>, Seq<int>)
    decreases n, 1int,
{
    match n {
        Cons::Fork(h, t) => {
            let (c1, p1) = prongs_model(*h, base);
            let (c2, p2) = prongs_model(*t, base + c1.len());
            (c1 + c2, p1 + p2)
        },
        _ => {
            let (a, f, l) = assemble_model(n, base, None);
            (a, seq![l])
        },
    }
}

/// A shape claim concerns a single entity's attributes, so it survives any
/// change elsewhere.
proof fn lemma_shape_frame<P>(pre: Store<P>, post: Store<P>, e: int, sh: NodeShape<P>)
    requires
        shape_matches(pre, e, sh),
        slot_unchanged(pre, post, e),
    ensures
        shape_matches(post, e, sh),
{
}

/// Every shape claim in a region below the untouched part of a store
/// survives.
proof fn lemma_region_frame<P>(pre: Store<P>, post: Store<P>, base: int, a: Seq<NodeShape<P>>)
    requires
        forall|i: int| 0 <= i < a.len() ==> shape_matches(pre, base + i, #[trigger] a[i]),
        forall|x: int| base <= x < base + a.len() ==> slot_unchanged(pre, post, x),
    ensures
        forall|i: int| 0 <= i < a.len() ==> shape_matches(post, base + i, #[trigger] a[i]),
{
    assert forall|i: int| 0 <= i < a.len()
        implies shape_matches(post, base + i, #[trigger] a[i]) by {
        lemma_shape_frame(pre, post, base + i, a[i]);
    }
}

/// Assembles one subtree: creates its entities, attaches `dep` to its entry
/// entity, and returns its `(first, last)` pair, exactly as
/// [`assemble_model`] prescribes.
fn assemble_node<P>(n: Cons<P>, store: &mut Store<P>, dep: Option<usize>) -> (r: (usize, usize))
    requires
        old(store).wf(),
        nil_free(n),
        dep matches Some(d) ==> (d as int) < old(store).num_entities(),
    ensures
        ({
            let (a, f, l) = assemble_model(n, old(store).num_entities(), dep_view(dep));
            &&& final(store).wf()
            &&& final(store).num_entities() == old(store).num_entities() + a.len()
            &&& a.len() >= 1
            &&& old(store).num_entities() <= f < final(store).num_entities()
            &&& old(store).num_entities() <= l < final(store).num_entities()
            &&& r.0 as int == f
            &&& r.1 as int == l
            &&& forall|i: int| 0 <= i < a.len()
                    ==> shape_matches(*final(store), old(store).num_entities() + i,
                        #[trigger] a[i])
            &&& forall|x: int| x < old(store).num_entities()
                    ==> slot_unchanged(*old(store), *final(store), x)
        }),
    decreases n, 0int,
{
    match n {
        Cons::Task(p) => {
            let ghost s0 = *store;
            let e = make_task(store, p);
            match dep {
                Some(d) => {
                    let ghost s1 = *store;
                    let res = join(store, e, d);
                    proof {
                        assert(res.is_ok());
                        assert forall|x: int| x < s0.num_entities()
                            implies slot_unchanged(s0, *store, x) by {
                            assert(slot_unchanged(s0, s1, x));
                            assert(slot_unchanged(s1, *store, x));
                        }
                    }
                },
                None => {},
            }
            proof {
                let (a, f, l) = assemble_model(n, s0.num_entities(), dep_view(dep));
                assert(a == seq![NodeShape::TaskNode { payload: p, dep: dep_view(dep) }]);
                assert(a[0] == NodeShape::TaskNode { payload: p, dep: dep_view(dep) });
                assert(shape_matches(*store, e as int, a[0]));
            }
            (e, e)
        },
        Cons::Serial(h, t) => {
            let hh = *h;
            let tt = *t;
            let ghost s0 = *store;
            let r1 = assemble_node(hh, store, dep);
            let ghost s1 = *store;
            let r2 = assemble_node(tt, store, Some(r1.1));
            proof {
                let base = s0.num_entities();
                let (a, f1, l1) = assemble_model(hh, base, dep_view(dep));
                let (b, f2, l2) = assemble_model(tt, base + a.len(), Some(l1));
                lemma_region_frame(s1, *store, base, a);
                assert forall|i: int| 0 <= i < a.len() + b.len()
                    implies shape_matches(*store, base + i, #[trigger] (a + b)[i]) by {
                    if i < a.len() {
                        assert((a + b)[i] == a[i]);
                    } else {
                        assert((a + b)[i] == b[i - a.len()]);
                    }
                }
                assert forall|x: int| x < base implies slot_unchanged(s0, *store, x) by {
                    assert(slot_unchanged(s0, s1, x));
                    assert(slot_unchanged(s1, *store, x));
                }
            }
            (r1.0, r2.1)
        },
        Cons::Fork(h, t) => {
            let hh = *h;
            let tt = *t;
            let ghost s0 = *store;
            let mut prongs: Vec<usize> = Vec::new();
            assemble_prongs(hh, store, &mut prongs);
            let ghost s1 = *store;
            let ghost v1 = prongs@;
            assemble_prongs(tt, store, &mut prongs);
            let ghost s2 = *store;
            let ghost base = s0.num_entities();
            let ghost c1 = prongs_model(hh, base).0;
            let ghost p1 = prongs_model(hh, base).1;
            let ghost c2 = prongs_model(tt, base + c1.len()).0;
            let ghost p2 = prongs_model(tt, base + c1.len()).1;
            proof {
                lemma_region_frame(s1, s2, base, c1);
                assert forall|i: int| 0 <= i < (c1 + c2).len()
                    implies shape_matches(s2, base + i, #[trigger] (c1 + c2)[i]) by {
                    if i < c1.len() {
                        assert((c1 + c2)[i] == c1[i]);
                    } else {
                        assert((c1 + c2)[i] == c2[i - c1.len()]);
                    }
                }
                assert(Seq::<usize>::empty().map_values(|c: usize| c as int)
                    =~= Seq::<int>::empty());
                assert(prongs@.map_values(|c: usize| c as int) =~= p1 + p2);
                assert(prongs@.map_values(|c: usize| c as int).len() == prongs@.len());
                assert(prongs@.len() == p1.len() + p2.len());
                assert forall|j: int| 0 <= j < prongs@.len()
                    implies prongs@[j] as int == (p1 + p2)[j]
                        && 0 <= (#[trigger] prongs@[j]) && (prongs@[j] as int)
                            < s2.num_entities() by {
                    assert(prongs@.map_values(|c: usize| c as int)[j] == prongs@[j] as int);
                    if j < p1.len() {
                        assert((p1 + p2)[j] == p1[j]);
                        assert(base <= p1[j] < s1.num_entities());
                    } else {
                        assert((p1 + p2)[j] == p2[j - p1.len()]);
                        assert(s1.num_entities() <= p2[j - p1.len()] < s2.num_entities());
                    }
                }
            }
            let f = make_fork(store);
            let ghost s3 = *store;
            proof {
                lemma_region_frame(s2, s3, base, c1 + c2);
            }
            match dep {
                Some(d) => {
                    let res = join(store, f, d);
                    proof {
                        assert(res.is_ok());
                        lemma_region_frame(s3, *store, base, c1 + c2);
                    }
                },
                None => {},
            }
            let ghost s4 = *store;
            proof {
                assert forall|x: int| x < base implies slot_unchanged(s0, *store, x) by {
                    assert(slot_unchanged(s0, s1, x));
                    assert(slot_unchanged(s1, s2, x));
                    assert(slot_unchanged(s2, s3, x));
                    assert(slot_unchanged(s3, *store, x));
                }
            }
            let mut i: usize = 0;
            while i < prongs.len()
                invariant
                    store.wf(),
                    store.num_entities() == s4.num_entities(),
                    i <= prongs@.len(),
                    f as int == base + c1.len() + c2.len(),
                    s4.num_entities() == base + c1.len() + c2.len() + 1,
                    forall|j: int| 0 <= j < prongs@.len()
                        ==> 0 <= (#[trigger] prongs@[j]) < f,
                    forall|j: int| 0 <= j < prongs@.len()
                        ==> prongs@[j] as int == (p1 + p2)[j],
                    prongs@.len() == p1.len() + p2.len(),
                    store.alive(f as int),
                    store.has_multi(f as int),
                    store.multi_children(f as int)
                        == (p1 + p2).take(i as int),
                    !store.has_progress(f as int),
                    store.payload(f as int).is_none(),
                    store.final_tag(f as int).is_none(),
                    dep_matches(*store, f as int, dep_view(dep)),
                    forall|k: int| 0 <= k < (c1 + c2).len()
                        ==> shape_matches(*store, base + k, #[trigger] (c1 + c2)[k]),
                    forall|x: int| x < base ==> slot_unchanged(s0, *store, x),
                decreases prongs@.len() - i,
            {
                let ghost sp = *store;
                let res = add_prong(store, f, prongs[i]);
                proof {
                    assert(res.is_ok());
                    assert((p1 + p2).take(i as int + 1)
                        =~= (p1 + p2).take(i as int).push((p1 + p2)[i as int]));
                    lemma_region_frame(sp, *store, base, c1 + c2);
                    assert forall|x: int| x < base implies slot_unchanged(s0, *store, x) by {
                        assert(slot_unchanged(s0, sp, x));
                        assert(slot_unchanged(sp, *store, x));
                    }
                }
                i += 1;
            }
            proof {
                let (a, ff, ll) = assemble_model(n, base, dep_view(dep));
                assert(a == c1 + c2 + seq![NodeShape::ForkNode {
                    dep: dep_view(dep),
                    prongs: p1 + p2,
                }]);
                assert((p1 + p2).take((p1 + p2).len() as int) =~= p1 + p2);
                assert forall|k: int| 0 <= k < a.len()
                    implies shape_matches(*store, base + k, #[trigger] a[k]) by {
                    if k < (c1 + c2).len() {
                        assert(a[k] == (c1 + c2)[k]);
                    } else {
                        assert(a[k] == NodeShape::ForkNode::<P> {
                            dep: dep_view(dep),
                            prongs: p1 + p2,
                        });
                    }
                }
            }
            (f, f)
        },
        Cons::Nil => {
            proof {
                assert(false);
            }
            (0, 0)
        },
    }
}

/// Assembles a subtree standing in fork context: a nested `Fork` merges its
/// prongs into the enclosing fork instead of creating an entity of its own;
/// any other subtree is assembled normally and contributes its last entity
/// as one prong.
fn assemble_prongs<P>(n: Cons<P>, store: &mut Store<P>, prongs: &mut Vec<usize>)
    requires
        old(store).wf(),
        nil_free(n),
    ensures
        ({
            let (c, ps) = prongs_model(n, old(store).num_entities());
            &&& final(store).wf()
            &&& final(store).num_entities() == old(store).num_entities() + c.len()
            &&& c.len() >= 1
            &&& ps.len() >= 1
            &&& forall|i: int| 0 <= i < c.len()
                    ==> shape_matches(*final(store), old(store).num_entities() + i,
                        #[trigger] c[i])
            &&& forall|x: int| x < old(store).num_entities()
                    ==> slot_unchanged(*old(store), *final(store), x)
            &&& final(prongs)@.map_values(|c: usize| c as int)
                    == old(prongs)@.map_values(|c: usize| c as int) + ps
            &&& forall|j: int| 0 <= j < ps.len()
                    ==> old(store).num_entities() <= #[trigger] ps[j]
                        < final(store).num_entities()
        }),
    decreases n, 1int,
{
    match n {
        Cons::Fork(h, t) => {
            let hh = *h;
            let tt = *t;
            let ghost s0 = *store;
            let ghost v0 = prongs@;
            assemble_prongs(hh, store, prongs);
            let ghost s1 = *store;
            assemble_prongs(tt, store, prongs);
            proof {
                let base = s0.num_entities();
                let (c1, p1) = prongs_model(hh, base);
                let (c2, p2) = prongs_model(tt, base + c1.len());
                lemma_region_frame(s1, *store, base, c1);
                assert forall|i: int| 0 <= i < c1.len() + c2.len()
                    implies shape_matches(*store, base + i, #[trigger] (c1 + c2)[i]) by {
                    if i < c1.len() {
                        assert((c1 + c2)[i] == c1[i]);
                    } else {
                        assert((c1 + c2)[i] == c2[i - c1.len()]);
                    }
                }
                assert forall|x: int| x < base implies slot_unchanged(s0, *store, x) by {
                    assert(slot_unchanged(s0, s1, x));
                    assert(slot_unchanged(s1, *store, x));
                }
                assert(prongs@.map_values(|c: usize| c as int)
                    =~= v0.map_values(|c: usize| c as int) + (p1 + p2));
                assert forall|j: int| 0 <= j < (p1 + p2).len()
                    implies base <= (#[trigger] (p1 + p2)[j]) < store.num_entities() by {
                    if j < p1.len() {
                        assert((p1 + p2)[j] == p1[j]);
                        assert(base <= p1[j] < s1.num_entities());
                    } else {
                        assert((p1 + p2)[j] == p2[j - p1.len()]);
                        assert(s1.num_entities() <= p2[j - p1.len()] < store.num_entities());
                    }
                }
            }
        },
        other => {
            let r = assemble_node(other, store, None);
            prongs.push(r.1);
        },
    }
}

/// A capability for creating one task entity: the dynamic building block
/// for assembling graphs by hand. Implemented for every cloneable payload.
pub trait TaskFactory<P> {
    /// Creates one fresh task entity and returns its handle.
    fn create_task(&self, store: &mut Store<P>) -> (e: usize)
        ensures
            final(store).num_entities() == old(store).num_entities() + 1,
            e as int == old(store).num_entities(),
            final(store).alive(e as int),
            final(store).has_progress(e as int),
            !final(store).complete_flag(e as int),
            !final(store).unblocked(e as int),
            final(store).payload(e as int).is_some(),
            !final(store).has_single(e as int),
            !final(store).has_multi(e as int),
            final(store).final_tag(e as int).is_none(),
            forall|x: int| x != e as int ==> slot_unchanged(*old(store), *final(store), x),
            old(store).wf() ==> final(store).wf(),
    ;
}

impl<P: TaskComponent + Clone> TaskFactory<P> for P {
    fn create_task(&self, store: &mut Store<P>) -> (e: usize) {
        make_task(store, self.clone())
    }
}

impl<P> Cons<P> {
    /// Assembles the task graph the tree describes: eliminates `Nil`
    /// placeholders, creates the entities and dependency edges that
    /// [`assemble_model`] prescribes for the normalized tree, and marks the
    /// last entity final under the given on-completion policy, which makes
    /// the graph eligible for maintenance. Returns that root entity, or
    /// fails if the tree normalizes to nothing: a graph must contain at
    /// least one task.
    pub fn assemble(self, on_completion: OnCompletion, store: &mut Store<P>)
        -> (r: Result<usize, TaskError>)
        requires
            old(store).wf(),
        ensures
            r.is_ok() <==> !(spec_normalize(self) is Nil),
            r is Err ==> r == Err::<usize, TaskError>(TaskError::EmptyGraph)
                && *final(store) == *old(store),
            ({
                let (a, f, l) = assemble_model(spec_normalize(self),
                    old(store).num_entities(), Option::None);
                r.is_ok() ==> {
                    &&& final(store).wf()
                    &&& final(store).num_entities() == old(store).num_entities() + a.len()
                    &&& r == Ok::<usize, TaskError>(l as usize)
                    &&& old(store).num_entities() <= l < final(store).num_entities()
                    &&& forall|i: int| 0 <= i < a.len() && old(store).num_entities() + i != l
                            ==> shape_matches(*final(store), old(store).num_entities() + i,
                                #[trigger] a[i])
                    &&& shape_matches_core(*final(store), l,
                            a[l - old(store).num_entities()])
                    &&& final(store).final_tag(l) == Some(on_completion)
                    &&& forall|x: int| x < old(store).num_entities()
                            ==> slot_unchanged(*old(store), *final(store), x)
                }
            }),
    {
        proof {
            lemma_normalize_removes_nil(self);
        }
        let normalized = self.remove_nil();
        match normalized {
            Cons::Nil => Err(TaskError::EmptyGraph),
            other => {
                let ghost s0 = *store;
                let r = assemble_node(other, store, None);
                let ghost s1 = *store;
                let last = r.1;
                proof {
                    let (a, f, l) = assemble_model(other, s0.num_entities(), Option::None);
                    assert(shape_matches(s1, l, a[l - s0.num_entities()]));
                }
                finalize(store, last, on_completion);
                proof {
                    let (a, f, l) = assemble_model(other, s0.num_entities(), Option::None);
                    assert forall|i: int| 0 <= i < a.len() && s0.num_entities() + i != l
                        implies shape_matches(*store, s0.num_entities() + i,
                            #[trigger] a[i]) by {
                        lemma_shape_frame(s1, *store, s0.num_entities() + i, a[i]);
                    }
                    assert forall|x: int| x < s0.num_entities()
                        implies slot_unchanged(s0, *store, x) by {
                        assert(slot_unchanged(s0, s1, x));
                        assert(slot_unchanged(s1, *store, x));
                    }
                }
                Ok(last)
            },
        }
    }
}

/// Assembly is a function of the normalized tree alone, so removing every
/// `Nil` placeholder first and assembling yields the same graph shape as
/// assembling an already-`Nil`-free equivalent of the expression:
/// normalization is confluent.
pub proof fn lemma_assembly_confluent<P>(c: Cons<P>, base: int, dep: Option<int>)
    ensures
        assemble_model(spec_normalize(spec_normalize(c)), base, dep)
            == assemble_model(spec_normalize(c), base, dep),
{
    lemma_normalize_idempotent(c);
}

} // verus!
