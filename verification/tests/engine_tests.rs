//! End-to-end tests of assembly, maintenance, running and collection.

use task_graph::{
    add_prong, delete_entity_and_descendents, entity_is_complete, join, maintain_all_finalized,
    make_fork, make_task, run_tasks, CommandLog, Cons, OnCompletion, Store, TaskComponent,
    TaskError,
};

#[derive(Clone, Debug, Default, Eq, PartialEq)]
struct Noop {
    was_run: bool,
}

impl TaskComponent for Noop {
    type Data = ();

    fn run(&mut self, _data: &mut ()) -> bool {
        self.was_run = true;
        true
    }
}

#[derive(Clone, Debug)]
struct PushValue {
    value: usize,
}

impl TaskComponent for PushValue {
    type Data = Vec<usize>;

    fn run(&mut self, data: &mut Vec<usize>) -> bool {
        data.push(self.value);
        true
    }
}

/// One tick: every runner pass, then the maintenance pass last.
fn tick<P: TaskComponent>(store: &mut Store<P>, data: &mut P::Data) {
    run_tasks(store, data);
    maintain_all_finalized(store);
}

fn noop_task() -> Cons<Noop> {
    Cons::Task(Noop::default())
}

fn push(value: usize) -> Cons<PushValue> {
    Cons::Task(PushValue { value })
}

fn serial<P>(head: Cons<P>, tail: Cons<P>) -> Cons<P> {
    Cons::Serial(Box::new(head), Box::new(tail))
}

fn fork<P>(head: Cons<P>, tail: Cons<P>) -> Cons<P> {
    Cons::Fork(Box::new(head), Box::new(tail))
}

fn alive_set<P>(store: &Store<P>) -> Vec<bool> {
    let mut v = Vec::new();
    for e in 0..store.num() {
        v.push(store.is_alive(e));
    }
    v
}

#[test]
fn run_single_task() {
    let mut store: Store<Noop> = Store::new();
    let root = noop_task().assemble(OnCompletion::Keep, &mut store).unwrap();

    tick(&mut store, &mut ());
    tick(&mut store, &mut ());

    assert_eq!(*store.payload_ref(root).unwrap(), Noop { was_run: true });
    assert!(entity_is_complete(&store, root));
    assert!(store.is_alive(root));
}

#[test]
fn single_task_deleted_on_completion() {
    let mut store: Store<Noop> = Store::new();
    let root = noop_task().assemble(OnCompletion::Delete, &mut store).unwrap();

    tick(&mut store, &mut ());
    tick(&mut store, &mut ());

    assert!(entity_is_complete(&store, root));
    assert!(!store.is_alive(root));
}

#[test]
fn joined_tasks_run_in_order_and_deleted_on_completion() {
    let mut store: Store<PushValue> = Store::new();
    let graph = serial(push(1), serial(push(2), push(3)));
    let root = graph.assemble(OnCompletion::Delete, &mut store).unwrap();

    let mut values: Vec<usize> = Vec::new();
    tick(&mut store, &mut values);
    tick(&mut store, &mut values);
    tick(&mut store, &mut values);
    tick(&mut store, &mut values);

    assert_eq!(values, vec![1, 2, 3]);
    assert!(entity_is_complete(&store, root));
    assert!(!store.is_alive(root));
    for e in 0..store.num() {
        assert!(!store.is_alive(e));
    }
}

#[test]
fn all_prongs_of_fork_run_before_join_and_deleted_on_completion() {
    let mut store: Store<PushValue> = Store::new();
    let graph = serial(push(1), serial(fork(push(2), push(3)), push(4)));
    let root = graph.assemble(OnCompletion::Delete, &mut store).unwrap();

    let mut values: Vec<usize> = Vec::new();
    tick(&mut store, &mut values);
    tick(&mut store, &mut values);
    tick(&mut store, &mut values);
    tick(&mut store, &mut values);

    assert!(values == vec![1, 2, 3, 4] || values == vec![1, 3, 2, 4]);
    assert!(entity_is_complete(&store, root));
    assert!(!store.is_alive(root));
    for e in 0..store.num() {
        assert!(!store.is_alive(e));
    }
}

#[test]
fn join_fork_with_nested_fork() {
    let mut store: Store<PushValue> = Store::new();
    let graph = serial(
        push(1),
        serial(fork(push(2), fork(push(3), push(4))), push(5)),
    );
    let root = graph.assemble(OnCompletion::Delete, &mut store).unwrap();

    let mut values: Vec<usize> = Vec::new();
    tick(&mut store, &mut values);
    tick(&mut store, &mut values);
    tick(&mut store, &mut values);
    tick(&mut store, &mut values);

    assert!(
        values == vec![1, 2, 3, 4, 5]
            || values == vec![1, 2, 4, 3, 5]
            || values == vec![1, 3, 2, 4, 5]
            || values == vec![1, 3, 4, 2, 5]
            || values == vec![1, 4, 2, 3, 5]
            || values == vec![1, 4, 3, 2, 5]
    );
    assert!(entity_is_complete(&store, root));
    assert!(!store.is_alive(root));
}

#[test]
fn lone_task_unblocks_then_runs_then_collects() {
    let mut store: Store<Noop> = Store::new();
    let root = noop_task().assemble(OnCompletion::Keep, &mut store).unwrap();

    // Blocked and pending right after assembly.
    let p0 = store.progress_of(root).unwrap();
    assert!(!p0.is_unblocked && !p0.is_complete);

    // The first maintenance pass unblocks a lone task.
    maintain_all_finalized(&mut store);
    let p1 = store.progress_of(root).unwrap();
    assert!(p1.is_unblocked && !p1.is_complete);

    // The runner reports completion; the completion flag is set directly.
    run_tasks(&mut store, &mut ());
    let p2 = store.progress_of(root).unwrap();
    assert!(p2.is_unblocked && p2.is_complete);

    // The next maintenance pass collects the progress attribute.
    maintain_all_finalized(&mut store);
    assert!(store.progress_of(root).is_none());
    assert!(entity_is_complete(&store, root));
}

#[test]
fn second_single_edge_fails() {
    let mut store: Store<Noop> = Store::new();
    let a = make_task(&mut store, Noop::default());
    let b = make_task(&mut store, Noop::default());
    let c = make_task(&mut store, Noop::default());

    assert_eq!(join(&mut store, c, a), Ok(()));
    assert_eq!(join(&mut store, c, b), Err(TaskError::SecondSingleEdge));
}

#[test]
fn prong_on_non_fork_fails() {
    let mut store: Store<Noop> = Store::new();
    let a = make_task(&mut store, Noop::default());
    let b = make_task(&mut store, Noop::default());

    assert_eq!(add_prong(&mut store, b, a), Err(TaskError::ProngOnNonFork));
}

#[test]
fn manual_edges_accept_any_live_entities() {
    let mut store: Store<Noop> = Store::new();
    let a = make_task(&mut store, Noop::default());
    let b = make_task(&mut store, Noop::default());

    // A dependency on an entity created later is attached as asked;
    // acyclicity is the caller's responsibility and is not checked.
    assert_eq!(join(&mut store, a, b), Ok(()));
    assert_eq!(store.single_edge_of(a), Some(b));

    let f = make_fork(&mut store);
    assert_eq!(add_prong(&mut store, f, a), Ok(()));
    let late = make_task(&mut store, Noop::default());
    assert_eq!(add_prong(&mut store, f, late), Ok(()));
    assert_eq!(store.multi_children_of(f), Some(vec![a, late]));
}

#[test]
fn dead_entity_rejected() {
    let mut store: Store<Noop> = Store::new();
    let a = make_task(&mut store, Noop::default());
    let b = make_task(&mut store, Noop::default());

    let mut log = CommandLog::new();
    delete_entity_and_descendents(&store, &mut log, b);
    log.apply(&mut store);

    assert!(!store.is_alive(b));
    assert_eq!(join(&mut store, b, a), Err(TaskError::DeadEntity));
    assert_eq!(add_prong(&mut store, b, a), Err(TaskError::DeadEntity));
}

#[test]
fn assemble_empty_graph_fails() {
    let mut store: Store<Noop> = Store::new();
    assert_eq!(
        Cons::<Noop>::Nil.assemble(OnCompletion::Keep, &mut store),
        Err(TaskError::EmptyGraph)
    );
    let empty = fork(Cons::<Noop>::Nil, Cons::Nil);
    assert_eq!(
        empty.assemble(OnCompletion::Keep, &mut store),
        Err(TaskError::EmptyGraph)
    );
    assert_eq!(store.num(), 0);
}

#[test]
fn partial_deletion_matches_full_deletion() {
    // Deleting an entity whose descendant's subtree is already gone
    // (an async, partially applied collection) leaves the same alive set
    // as one full synchronous deletion.
    fn build() -> (Store<Noop>, usize) {
        let mut store: Store<Noop> = Store::new();
        let graph = serial(noop_task(), serial(fork(noop_task(), noop_task()), noop_task()));
        let root = graph.assemble(OnCompletion::Keep, &mut store).unwrap();
        (store, root)
    }

    let (mut partial, root) = build();
    let descendant = partial.single_edge_of(root).unwrap();
    let mut log1 = CommandLog::new();
    delete_entity_and_descendents(&partial, &mut log1, descendant);
    log1.apply(&mut partial);
    let mut log2 = CommandLog::new();
    delete_entity_and_descendents(&partial, &mut log2, root);
    log2.apply(&mut partial);

    let (mut full, root2) = build();
    assert_eq!(root, root2);
    let mut log3 = CommandLog::new();
    delete_entity_and_descendents(&full, &mut log3, root2);
    log3.apply(&mut full);

    assert_eq!(alive_set(&partial), alive_set(&full));
    assert!(!partial.is_alive(root));
}

#[test]
fn keep_policy_removes_final_tag_only() {
    let mut store: Store<Noop> = Store::new();
    let root = noop_task().assemble(OnCompletion::Keep, &mut store).unwrap();
    assert_eq!(store.final_tag_of(root), Some(OnCompletion::Keep));

    tick(&mut store, &mut ());
    tick(&mut store, &mut ());

    assert!(store.is_alive(root));
    assert_eq!(store.final_tag_of(root), None);
    assert!(entity_is_complete(&store, root));
}

#[test]
fn delete_descendents_policy_keeps_root() {
    let mut store: Store<PushValue> = Store::new();
    let graph = serial(push(1), serial(push(2), push(3)));
    let root = graph.assemble(OnCompletion::DeleteDescendents, &mut store).unwrap();

    let mut values: Vec<usize> = Vec::new();
    for _ in 0..4 {
        tick(&mut store, &mut values);
    }

    assert_eq!(values, vec![1, 2, 3]);
    assert!(store.is_alive(root));
    assert!(entity_is_complete(&store, root));
    let mut descendants_alive = false;
    for e in 0..store.num() {
        if e != root && store.is_alive(e) {
            descendants_alive = true;
        }
    }
    assert!(!descendants_alive);
}

#[test]
fn fork_completion_tracks_reachable_tasks() {
    let mut store: Store<PushValue> = Store::new();
    let graph = serial(push(1), serial(fork(push(2), push(3)), push(4)));
    let root = graph.assemble(OnCompletion::Keep, &mut store).unwrap();
    let fork_entity = store.single_edge_of(root).unwrap();

    // The fork is incomplete while any task beneath it retains progress.
    assert!(!entity_is_complete(&store, fork_entity));

    let mut values: Vec<usize> = Vec::new();
    tick(&mut store, &mut values); // unblock barrier task
    tick(&mut store, &mut values); // run barrier, unblock prongs
    assert!(!entity_is_complete(&store, fork_entity));
    tick(&mut store, &mut values); // run prongs
    tick(&mut store, &mut values); // collect prong progress
    assert!(entity_is_complete(&store, fork_entity));
    assert!(entity_is_complete(&store, root));
}

#[test]
fn manual_fork_building_matches_assembler_rules() {
    let mut store: Store<Noop> = Store::new();
    let a = make_task(&mut store, Noop::default());
    let b = make_task(&mut store, Noop::default());
    let f = make_fork(&mut store);
    assert_eq!(add_prong(&mut store, f, a), Ok(()));
    assert_eq!(add_prong(&mut store, f, b), Ok(()));
    assert_eq!(store.multi_children_of(f), Some(vec![a, b]));
    assert!(!entity_is_complete(&store, f));
}

#[test]
fn applying_the_same_log_twice_is_idempotent() {
    let mut store: Store<Noop> = Store::new();
    let graph = serial(noop_task(), noop_task());
    let root = graph.assemble(OnCompletion::Keep, &mut store).unwrap();

    let mut log = CommandLog::new();
    delete_entity_and_descendents(&store, &mut log, root);
    log.apply(&mut store);
    let once = alive_set(&store);
    log.apply(&mut store);
    assert_eq!(alive_set(&store), once);
    assert!(once.iter().all(|alive| !alive));
}

#[test]
fn record_run_result_sets_flag_only_on_completion() {
    let mut store: Store<Noop> = Store::new();
    let root = noop_task().assemble(OnCompletion::Keep, &mut store).unwrap();
    maintain_all_finalized(&mut store);
    assert!(store.progress_of(root).unwrap().is_unblocked);

    task_graph::record_run_result(&mut store, root, false);
    assert!(!store.progress_of(root).unwrap().is_complete);

    task_graph::record_run_result(&mut store, root, true);
    assert!(store.progress_of(root).unwrap().is_complete);
}
