//! Tests for the task-graph grammar and its normalization.

use task_graph::Cons;

#[derive(Clone, Debug, Eq, PartialEq)]
struct Foo(u32);

fn task(v: u32) -> Cons<Foo> {
    Cons::Task(Foo(v))
}

#[test]
fn remove_nil_from_left_fork() {
    let x = Cons::Fork(Box::new(Cons::Nil), Box::new(task(1)));
    assert_eq!(x.remove_nil(), task(1));
}

#[test]
fn remove_nil_from_right_fork() {
    let x = Cons::Fork(Box::new(task(1)), Box::new(Cons::Nil));
    assert_eq!(x.remove_nil(), task(1));
}

#[test]
fn remove_all_nils_nested_fork() {
    let x = Cons::Fork(
        Box::new(Cons::Nil),
        Box::new(Cons::Fork(Box::new(Cons::Nil), Box::new(task(1)))),
    );
    assert_eq!(x.remove_nil(), task(1));
}

#[test]
fn accumulate_sequence_in_loop() {
    let mut s = Cons::Nil;
    for i in 0..4 {
        s = Cons::Serial(Box::new(s), Box::new(task(i)));
    }
    // Removing nils puts the tree in an equivalent but not equal shape.
    assert_eq!(
        s.remove_nil(),
        Cons::Serial(
            Box::new(Cons::Serial(
                Box::new(Cons::Serial(Box::new(task(0)), Box::new(task(1)))),
                Box::new(task(2)),
            )),
            Box::new(task(3)),
        )
    );
}

#[test]
fn remove_nil_collapses_composition_of_nils() {
    // A composition whose children both normalize away is itself removed,
    // even when neither child is literally `Nil`.
    let empty_fork = Cons::Fork(Box::new(Cons::<Foo>::Nil), Box::new(Cons::Nil));
    let x = Cons::Fork(Box::new(empty_fork), Box::new(task(7)));
    assert_eq!(x.remove_nil(), task(7));

    let empty_chain = Cons::Serial(Box::new(Cons::<Foo>::Nil), Box::new(Cons::Nil));
    let y = Cons::Serial(Box::new(task(8)), Box::new(empty_chain));
    assert_eq!(y.remove_nil(), task(8));
}

#[test]
fn remove_nil_of_all_nils_is_nil() {
    let x = Cons::Serial(
        Box::new(Cons::<Foo>::Nil),
        Box::new(Cons::Fork(Box::new(Cons::Nil), Box::new(Cons::Nil))),
    );
    assert_eq!(x.remove_nil(), Cons::Nil);
}

#[test]
fn remove_nil_keeps_nil_free_tree() {
    let x = Cons::Serial(
        Box::new(task(1)),
        Box::new(Cons::Fork(Box::new(task(2)), Box::new(task(3)))),
    );
    let y = Cons::Serial(
        Box::new(task(1)),
        Box::new(Cons::Fork(Box::new(task(2)), Box::new(task(3)))),
    );
    assert_eq!(x.remove_nil(), y);
}
