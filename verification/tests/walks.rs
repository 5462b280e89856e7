use linked_markov::{mut_walk, walk, Chain, Step, ToStep};
use std::cell::{Cell, RefCell};
use std::error::Error;

fn two_states(forth: usize, stay: usize) -> (Chain<bool>, ToStep<bool>, ToStep<bool>) {
    let mut chain: Chain<bool> = Chain::new();
    let step_false: ToStep<bool> = chain.add(Step::new(false));
    let step_true: ToStep<bool> = chain.add(Step::new(true));
    chain.insert_transition(step_false, step_true, forth);
    chain.insert_transition(step_false, step_false, stay);
    chain.insert_transition(step_true, step_false, forth);
    chain.insert_transition(step_true, step_true, stay);
    (chain, step_false, step_true)
}

/// a -> b -> c, where c has no way on.
fn line() -> (Chain<u8>, ToStep<u8>, ToStep<u8>, ToStep<u8>) {
    let mut chain: Chain<u8> = Chain::new();
    let a = chain.add(Step::new(10));
    let b = chain.add(Step::new(20));
    let c = chain.add(Step::new(30));
    chain.insert_transition(a, b, 2);
    chain.insert_transition(b, c, 5);
    (chain, a, b, c)
}

#[test]
fn two_state_walk() {
    let mut chain: Chain<bool> = Chain::new();
    let step_false: ToStep<bool> = chain.add(Step::new(false));
    let step_true: ToStep<bool> = chain.add(Step::new(true));

    chain.insert_transition(step_false, step_true, 3);
    chain.insert_transition(step_false, step_false, 1);
    chain.insert_transition(step_true, step_false, 3);
    chain.insert_transition(step_true, step_true, 1);
    let path = walk(&chain, step_false, 100);
    assert_eq!(path.len(), 100);
    assert!(path.contains(&false));
    assert!(path.contains(&true));
}

/// One walk of a hundred entries over two states that start with equal
/// weights, every transition taken gaining one: the path, and the total
/// weight that leaves the `true` step and the `false` step afterwards.
fn reinforced_walk() -> (Vec<bool>, u128, u128) {
    let mut chain: Chain<bool> = Chain::new();
    let step_false: ToStep<bool> = chain.add(Step::new(false));
    let step_true: ToStep<bool> = chain.add(Step::new(true));

    chain.insert_transition(step_false, step_true, 1);
    chain.insert_transition(step_false, step_false, 1);
    chain.insert_transition(step_true, step_false, 1);
    chain.insert_transition(step_true, step_true, 1);
    let path = mut_walk(
        &mut chain,
        step_false,
        100,
        |chain: &mut Chain<bool>, current: ToStep<bool>, next: ToStep<bool>| {
            let weight = chain.step(current).weight_to(next.state).unwrap_or(0);
            chain.insert_transition(current, next, weight + 1);
            Ok::<(), Box<dyn Error>>(())
        },
    )
    .unwrap();
    let step_true_count = chain.step(step_true).total_weight();
    let step_false_count = chain.step(step_false).total_weight();
    (path, step_true_count, step_false_count)
}

#[test]
fn two_state_mut_walk() {
    // Each time the walk stays where it began, staying gets likelier: one
    // walk in a hundred never leaves the first state. So the walk is taken
    // again until one has left it. What does not hang on the dice is held
    // against every walk taken.
    let (mut path, mut step_true_count, mut step_false_count) = reinforced_walk();
    let mut again: usize = 0;
    while !path.contains(&true) && again < 60 {
        assert_eq!(path.len(), 100);
        assert!(path.contains(&false));
        assert_eq!(step_true_count + step_false_count, 103);
        (path, step_true_count, step_false_count) = reinforced_walk();
        again += 1;
    }
    assert_eq!(path.len(), 100);
    assert!(path.contains(&false));
    assert!(path.contains(&true));
    assert_eq!(step_true_count + step_false_count, 103);
}

#[test]
fn mut_walk_reinforces_one_weight_per_transition() {
    for _ in 0..200 {
        let (path, step_true_count, step_false_count) = reinforced_walk();
        assert_eq!(path.len(), 100);
        assert_eq!(path[0], false);
        assert_eq!(step_true_count + step_false_count, 103);
        if !path.contains(&true) {
            // The walk never left: every transition went from `false` to
            // `false`, and the `true` step kept its two weights of one.
            assert_eq!(step_true_count, 2);
            assert_eq!(step_false_count, 101);
        }
    }
}

#[test]
fn walk_of_zero_steps_records_the_start() {
    let (chain, step_false, step_true) = two_states(3, 1);
    assert_eq!(walk(&chain, step_false, 0), vec![false]);
    assert_eq!(walk(&chain, step_true, 0), vec![true]);
}

#[test]
fn walk_of_one_step_records_the_start() {
    let (chain, step_false, _) = two_states(3, 1);
    assert_eq!(walk(&chain, step_false, 1), vec![false]);
}

#[test]
fn walk_has_the_requested_length_without_dead_ends() {
    let (chain, step_false, _) = two_states(3, 1);
    for steps in [1usize, 2, 3, 10, 57, 1000] {
        let path = walk(&chain, step_false, steps);
        assert_eq!(path.len(), steps);
        assert_eq!(path[0], false);
    }
}

#[test]
fn walk_stops_at_a_dead_end() {
    let (chain, a, b, c) = line();
    assert_eq!(walk(&chain, a, 10), vec![10, 20, 30]);
    assert_eq!(walk(&chain, a, 3), vec![10, 20, 30]);
    assert_eq!(walk(&chain, a, 2), vec![10, 20]);
    assert_eq!(walk(&chain, b, 10), vec![20, 30]);
    assert_eq!(walk(&chain, c, 10), vec![30]);
}

#[test]
fn walk_treats_zero_weights_as_a_dead_end() {
    let mut chain: Chain<u8> = Chain::new();
    let a = chain.add(Step::new(1));
    let b = chain.add(Step::new(2));
    chain.insert_transition(a, b, 0);
    chain.insert_transition(a, a, 0);
    assert_eq!(walk(&chain, a, 50), vec![1]);
}

#[test]
fn walk_never_takes_a_zero_weight_edge() {
    let mut chain: Chain<u8> = Chain::new();
    let a = chain.add(Step::new(1));
    let b = chain.add(Step::new(2));
    let c = chain.add(Step::new(3));
    chain.insert_transition(a, b, 0);
    chain.insert_transition(a, c, 4);
    chain.insert_transition(c, a, 1);
    chain.insert_transition(c, b, 0);
    for _ in 0..50 {
        let path = walk(&chain, a, 40);
        assert_eq!(path.len(), 40);
        assert!(!path.contains(&2));
    }
}

#[test]
fn walk_follows_a_self_loop() {
    let mut chain: Chain<char> = Chain::new();
    let a = chain.add(Step::new('a'));
    chain.insert_transition(a, a, 1);
    assert_eq!(walk(&chain, a, 5), vec!['a'; 5]);
}

#[test]
fn walk_leaves_the_chain_alone() {
    let (chain, step_false, step_true) = two_states(3, 1);
    let _ = walk(&chain, step_false, 200);
    assert_eq!(chain.len(), 2);
    assert_eq!(chain.step(step_false).total_weight(), 4);
    assert_eq!(chain.step(step_true).total_weight(), 4);
    assert_eq!(chain.step(step_false).weight_to(true), Some(3));
    assert_eq!(chain.step(step_false).weight_to(false), Some(1));
}

#[test]
fn mut_walk_calls_back_once_per_transition() {
    let (mut chain, step_false, _) = two_states(3, 1);
    let seen: RefCell<Vec<(bool, bool)>> = RefCell::new(Vec::new());
    let path = mut_walk(
        &mut chain,
        step_false,
        64,
        |_: &mut Chain<bool>, current: ToStep<bool>, next: ToStep<bool>| {
            seen.borrow_mut().push((current.state, next.state));
            Ok::<(), String>(())
        },
    )
    .unwrap();
    let seen = seen.into_inner();
    assert_eq!(path.len(), 64);
    assert_eq!(seen.len(), path.len() - 1);
    assert_eq!(path[0], false);
    for (i, (from, to)) in seen.iter().enumerate() {
        assert_eq!(*from, path[i]);
        assert_eq!(*to, path[i + 1]);
    }
}

#[test]
fn mut_walk_records_the_steps_it_reaches() {
    let (mut chain, a, _, _) = line();
    let path = mut_walk(
        &mut chain,
        a,
        10,
        |_: &mut Chain<u8>, _: ToStep<u8>, _: ToStep<u8>| Ok::<(), String>(()),
    );
    assert_eq!(path, Ok(vec![10, 20, 30]));
}

#[test]
fn mut_walk_stops_at_a_dead_end() {
    let (mut chain, _, _, c) = line();
    let calls = Cell::new(0usize);
    let path = mut_walk(
        &mut chain,
        c,
        10,
        |_: &mut Chain<u8>, _: ToStep<u8>, _: ToStep<u8>| {
            calls.set(calls.get() + 1);
            Ok::<(), String>(())
        },
    );
    assert_eq!(path, Ok(vec![30]));
    assert_eq!(calls.get(), 0);
}

#[test]
fn mut_walk_of_zero_steps_records_the_start() {
    let (mut chain, step_false, _) = two_states(3, 1);
    let calls = Cell::new(0usize);
    let path = mut_walk(
        &mut chain,
        step_false,
        0,
        |_: &mut Chain<bool>, _: ToStep<bool>, _: ToStep<bool>| {
            calls.set(calls.get() + 1);
            Ok::<(), String>(())
        },
    );
    assert_eq!(path, Ok(vec![false]));
    assert_eq!(calls.get(), 0);
}

#[test]
fn mut_walk_passes_the_failure_on() {
    let (mut chain, step_false, _) = two_states(3, 1);
    let calls = Cell::new(0usize);
    let result = mut_walk(
        &mut chain,
        step_false,
        100,
        |_: &mut Chain<bool>, _: ToStep<bool>, _: ToStep<bool>| {
            calls.set(calls.get() + 1);
            if calls.get() == 7 {
                Err(format!("failed at call {}", calls.get()))
            } else {
                Ok(())
            }
        },
    );
    assert_eq!(result, Err(String::from("failed at call 7")));
    assert_eq!(calls.get(), 7);
}

#[test]
fn mut_walk_fails_on_the_first_transition() {
    let (mut chain, a, _, _) = line();
    let calls = Cell::new(0usize);
    let result = mut_walk(
        &mut chain,
        a,
        100,
        |_: &mut Chain<u8>, current: ToStep<u8>, next: ToStep<u8>| {
            calls.set(calls.get() + 1);
            Err::<(), (u8, u8)>((current.state, next.state))
        },
    );
    assert_eq!(result, Err((10, 20)));
    assert_eq!(calls.get(), 1);
}

#[test]
fn mut_walk_keeps_what_earlier_callbacks_did() {
    let (mut chain, a, b, _) = line();
    let calls = Cell::new(0usize);
    let result = mut_walk(
        &mut chain,
        a,
        100,
        |chain: &mut Chain<u8>, current: ToStep<u8>, next: ToStep<u8>| {
            calls.set(calls.get() + 1);
            if calls.get() == 2 {
                return Err("second");
            }
            chain.insert_transition(current, next, 99);
            Ok(())
        },
    );
    assert_eq!(result, Err("second"));
    assert_eq!(chain.step(a).weight_to(20), Some(99));
    assert_eq!(chain.step(b).weight_to(30), Some(5));
}

#[test]
fn mut_walk_sees_what_the_callback_changed() {
    // The only way on from `a` is closed by the callback after the first
    // transition over it, so the walk comes back to `a` once and stops there.
    let mut chain: Chain<u8> = Chain::new();
    let a = chain.add(Step::new(1));
    let b = chain.add(Step::new(2));
    chain.insert_transition(a, b, 1);
    chain.insert_transition(b, a, 1);
    let path = mut_walk(
        &mut chain,
        a,
        100,
        |chain: &mut Chain<u8>, current: ToStep<u8>, next: ToStep<u8>| {
            if current.state == 1 {
                chain.insert_transition(current, next, 0);
            }
            Ok::<(), String>(())
        },
    );
    assert_eq!(path, Ok(vec![1, 2, 1]));
    assert_eq!(chain.step(a).total_weight(), 0);
}

#[test]
fn mut_walk_may_grow_the_chain() {
    let mut chain: Chain<u32> = Chain::new();
    let first = chain.add(Step::new(0));
    chain.insert_transition(first, first, 1);
    let path = mut_walk(
        &mut chain,
        first,
        6,
        |chain: &mut Chain<u32>, _: ToStep<u32>, next: ToStep<u32>| {
            // Every step visited gets a successor of its own, and loses the
            // way it was reached by.
            let fresh = chain.add(Step::new(next.state + 1));
            chain.insert_transition(next, next, 0);
            chain.insert_transition(next, fresh, 1);
            Ok::<(), String>(())
        },
    );
    assert_eq!(path, Ok(vec![0, 0, 1, 2, 3, 4]));
    assert_eq!(chain.len(), 6);
}
