use min12::{
    add_to_counter, min12_op, min_op, reduce_counter, BinaryCounter, BinaryOp, FnOp, ListPool,
};
use std::cell::Cell;

/// Concatenation of digit strings held as numbers: not commutative, so
/// the order of the operands shows.
fn join(x: &u64, y: &u64) -> u64 {
    let mut shift = 10;
    while shift <= *y {
        shift *= 10;
    }
    x * shift + y
}

#[test]
fn empty_counter_reduces_to_zero() {
    let mut c = BinaryCounter::new(FnOp::new(join), 0u64);
    assert_eq!(c.as_slice(), &[] as &[u64]);
    assert_eq!(c.reduce(), 0);
    let mut d = BinaryCounter::with_capacity(FnOp::new(join), 0u64, 8);
    assert_eq!(d.reduce(), 0);
}

#[test]
fn add_carries_like_binary_increment() {
    let mut c = BinaryCounter::new(FnOp::new(join), 0u64);
    c.add(1);
    assert_eq!(c.as_slice(), &[1]);
    c.add(2);
    assert_eq!(c.as_slice(), &[0, 12]);
    c.add(3);
    assert_eq!(c.as_slice(), &[3, 12]);
    c.add(4);
    assert_eq!(c.as_slice(), &[0, 0, 1234]);
    c.add(5);
    assert_eq!(c.as_slice(), &[5, 0, 1234]);
    c.add(6);
    assert_eq!(c.as_slice(), &[0, 56, 1234]);
    c.add(7);
    assert_eq!(c.as_slice(), &[7, 56, 1234]);
}

#[test]
fn reduce_combines_from_the_lowest_slot() {
    let mut c = BinaryCounter::new(FnOp::new(join), 0u64);
    for x in 1..=7 {
        c.add(x);
    }
    assert_eq!(c.reduce(), 7561234);
    assert_eq!(c.as_slice(), &[7, 56, 1234]);
}

#[test]
fn reduce_twice_gives_the_same() {
    let mut c = BinaryCounter::new(FnOp::new(join), 0u64);
    for x in 1..=6 {
        c.add(x);
    }
    let once = c.reduce();
    let twice = c.reduce();
    assert_eq!(once, 561234);
    assert_eq!(once, twice);
}

#[test]
fn reserve_keeps_the_contents() {
    let mut c = BinaryCounter::new(FnOp::new(join), 0u64);
    c.add(1);
    c.add(2);
    c.add(3);
    c.reserve(32);
    assert_eq!(c.as_slice(), &[3, 12]);
    c.reserve(1);
    assert_eq!(c.as_slice(), &[3, 12]);
    assert_eq!(c.reduce(), 312);
}

#[test]
fn n_additions_and_a_reduction_apply_the_operation_n_minus_1_times() {
    for n in 1..40u64 {
        let calls = Cell::new(0u64);
        let sum = |x: &u64, y: &u64| {
            calls.set(calls.get() + 1);
            x + y
        };
        let mut c = BinaryCounter::new(FnOp::new(sum), 0u64);
        for x in 1..=n {
            c.add(x);
        }
        assert_eq!(c.reduce(), n * (n + 1) / 2);
        assert_eq!(calls.get(), n - 1);
    }
}

#[test]
fn add_to_counter_reports_the_carry() {
    let mut slots = vec![1u64, 2, 0, 4];
    let mut op = FnOp::new(join);
    // Slots 0 and 1 are full, slot 2 takes the carry.
    assert_eq!(add_to_counter(&mut slots, 0, 4, &mut op, &0, 9), 0);
    assert_eq!(slots, vec![0, 0, 219, 4]);
    // With slots 2 and 3 full the carry leaves the range.
    assert_eq!(add_to_counter(&mut slots, 2, 4, &mut op, &0, 5), 42195);
    assert_eq!(slots, vec![0, 0, 0, 0]);
    // An empty range hands the carry back.
    assert_eq!(add_to_counter(&mut slots, 1, 1, &mut op, &0, 5), 5);
}

#[test]
fn reduce_counter_skips_empty_slots() {
    let slots = vec![0u64, 2, 0, 4, 0];
    let mut op = FnOp::new(join);
    assert_eq!(reduce_counter(&slots, 0, 5, &mut op, &0), 24);
    assert_eq!(reduce_counter(&slots, 2, 5, &mut op, &0), 4);
    assert_eq!(reduce_counter(&slots, 4, 5, &mut op, &0), 0);
    assert_eq!(reduce_counter(&slots, 2, 2, &mut op, &0), 0);
}

#[test]
fn min_op_keeps_the_earlier_of_equals() {
    let v = vec![5, 3, 3, 9];
    let mut op = min_op(|a: &i32, b: &i32| a < b, &v);
    assert_eq!(op.apply(&0, &1), 1);
    assert_eq!(op.apply(&1, &0), 1);
    assert_eq!(op.apply(&1, &2), 1);
    assert_eq!(op.apply(&2, &1), 1);
    assert_eq!(op.apply(&3, &3), 3);
}

#[test]
fn min12_op_keeps_the_earlier_of_equals() {
    let v = vec![3, 3];
    let mut op = min12_op(|a: &i32, b: &i32| a < b, &v, ListPool::new());
    let a = op.apply(&(1, 0), &(0, 0));
    assert_eq!(a.0, 0);
    assert_eq!(op.pool().value(a.1), Ok(&1));
    let b = op.apply(&(0, 0), &(1, 0));
    assert_eq!(b.0, 0);
    assert_eq!(op.pool().value(b.1), Ok(&1));
}

#[test]
fn min12_op_records_the_loser() {
    let v = vec![5, 3, 4, 9];
    let mut op = min12_op(|a: &i32, b: &i32| a < b, &v, ListPool::new());
    let a = op.apply(&(0, 0), &(1, 0));
    assert_eq!(a.0, 1);
    assert_eq!(op.pool().value(a.1), Ok(&0));
    assert_eq!(op.pool().next(a.1), Ok(&0));
    let b = op.apply(&(2, 0), &(3, 0));
    assert_eq!(b.0, 2);
    assert_eq!(op.pool().value(b.1), Ok(&3));
    let c = op.apply(&a, &b);
    assert_eq!(c.0, 1);
    // The loser's one node was freed and holds the loser now.
    assert_eq!(c.1, b.1);
    assert_eq!(op.pool().value(c.1), Ok(&2));
    assert_eq!(op.pool().next(c.1), Ok(&a.1));
    assert_eq!(op.pool().size(), 2);
    assert!(op.precedes(1, 0));
    assert!(!op.precedes(0, 1));
}
