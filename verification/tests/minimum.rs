use min12::{less, min_element, min_element12, min_element12_practical, min_element_binary, Error};
use std::cell::Cell;

#[test]
fn test_min_element() {
    let v = vec![3, 8, 0, 7, 9, 1, 2, 5];
    assert_eq!(min_element(&v, 0, v.len(), less()), Ok(2));
}

#[test]
fn test_min_element_binary() {
    let v = vec![3, 8, 0, 7, 9, 1, 2, 5];
    assert_eq!(min_element_binary(&v, 0, v.len(), less()), Ok(2));
}

#[test]
fn test_min_element12() {
    let v = vec![3, 8, 0, 7, 9, 1, 2, 5];
    assert_eq!(min_element12(&v, 0, v.len(), less()), Ok((2, 5)));
}

#[test]
fn test_min_element12_practical() {
    let v = vec![3, 8, 0, 7, 9, 1, 2, 5];
    assert_eq!(min_element12_practical(&v, 0, v.len(), less()), Ok((2, 5)));
}

#[test]
fn less_is_strict() {
    let lt = less::<i32>();
    assert!(lt(&1, &2));
    assert!(!lt(&2, &1));
    assert!(!lt(&2, &2));
}

#[test]
fn empty_range_gives_last() {
    let v = vec![4, 2, 9];
    assert_eq!(min_element(&v, 1, 1, less()), Ok(1));
    assert_eq!(min_element_binary(&v, 1, 1, less()), Ok(1));
    assert_eq!(min_element(&v, 3, 3, less()), Ok(3));
    let e: Vec<i32> = Vec::new();
    assert_eq!(min_element(&e, 0, 0, less()), Ok(0));
    assert_eq!(min_element_binary(&e, 0, 0, less()), Ok(0));
}

#[test]
fn short_ranges_give_first_twice() {
    let v = vec![4, 2, 9];
    assert_eq!(min_element12(&v, 2, 2, less()), Ok((2, 2)));
    assert_eq!(min_element12_practical(&v, 2, 2, less()), Ok((2, 2)));
    assert_eq!(min_element12(&v, 1, 2, less()), Ok((1, 1)));
    assert_eq!(min_element12_practical(&v, 1, 2, less()), Ok((1, 1)));
    let e: Vec<i32> = Vec::new();
    assert_eq!(min_element12(&e, 0, 0, less()), Ok((0, 0)));
    assert_eq!(min_element12_practical(&e, 0, 0, less()), Ok((0, 0)));
}

#[test]
fn ranges_outside_the_sequence_are_refused() {
    let v = vec![4, 2, 9];
    assert_eq!(min_element(&v, 2, 1, less()), Err(Error::IndexOutOfRange));
    assert_eq!(min_element(&v, 0, 4, less()), Err(Error::IndexOutOfRange));
    assert_eq!(min_element_binary(&v, 2, 1, less()), Err(Error::IndexOutOfRange));
    assert_eq!(min_element_binary(&v, 0, 4, less()), Err(Error::IndexOutOfRange));
    assert_eq!(min_element12(&v, 3, 2, less()), Err(Error::IndexOutOfRange));
    assert_eq!(min_element12(&v, 1, 4, less()), Err(Error::IndexOutOfRange));
    assert_eq!(min_element12_practical(&v, 3, 2, less()), Err(Error::IndexOutOfRange));
    assert_eq!(min_element12_practical(&v, 4, 5, less()), Err(Error::IndexOutOfRange));
}

#[test]
fn error_messages_differ() {
    assert!(!Error::IndexOutOfRange.message().is_empty());
    assert!(!Error::InvalidHandle.message().is_empty());
    assert_ne!(Error::IndexOutOfRange.message(), Error::InvalidHandle.message());
}

#[test]
fn inner_range_is_respected() {
    let v = vec![0, 8, 6, 7, 9, 5, 2, 1];
    assert_eq!(min_element(&v, 1, 6, less()), Ok(5));
    assert_eq!(min_element_binary(&v, 1, 6, less()), Ok(5));
    assert_eq!(min_element12(&v, 1, 6, less()), Ok((5, 2)));
    assert_eq!(min_element12_practical(&v, 1, 6, less()), Ok((5, 2)));
}

#[test]
fn two_elements() {
    let v = vec![5, 3];
    assert_eq!(min_element12(&v, 0, 2, less()), Ok((1, 0)));
    assert_eq!(min_element12_practical(&v, 0, 2, less()), Ok((1, 0)));
    let w = vec![3, 5];
    assert_eq!(min_element12(&w, 0, 2, less()), Ok((0, 1)));
    assert_eq!(min_element12_practical(&w, 0, 2, less()), Ok((0, 1)));
}

#[test]
fn descending_comparator_finds_the_two_largest() {
    let v = vec![3, 8, 0, 7, 9, 1, 2, 5];
    let gt = |a: &i32, b: &i32| a > b;
    assert_eq!(min_element(&v, 0, v.len(), gt), Ok(4));
    assert_eq!(min_element_binary(&v, 0, v.len(), gt), Ok(4));
    assert_eq!(min_element12(&v, 0, v.len(), gt), Ok((4, 1)));
    assert_eq!(min_element12_practical(&v, 0, v.len(), gt), Ok((4, 1)));
}

#[test]
fn scans_return_the_first_of_equal_minima() {
    let v = vec![1, 0, 2, 0, 0];
    assert_eq!(min_element(&v, 0, v.len(), less()), Ok(1));
    assert_eq!(min_element12_practical(&v, 0, v.len(), less()), Ok((1, 3)));
}

#[test]
fn tournaments_return_the_first_of_equal_minima() {
    let v = vec![0, 0, 0];
    assert_eq!(min_element(&v, 0, 3, less()), Ok(0));
    assert_eq!(min_element_binary(&v, 0, 3, less()), Ok(0));
    // The winner beat position 1 first and position 2 last.
    assert_eq!(min_element12(&v, 0, 3, less()), Ok((0, 2)));
    let u = vec![1, 1, 1];
    assert_eq!(min_element_binary(&u, 0, 3, less()), Ok(0));
    assert_eq!(min_element12(&u, 0, 3, less()).map(|r| r.0), Ok(0));
    let w = vec![0, 0];
    assert_eq!(min_element_binary(&w, 0, 2, less()), Ok(0));
    assert_eq!(min_element12(&w, 0, 2, less()), Ok((0, 1)));
    let x = vec![2, 1, 1, 3, 1];
    assert_eq!(min_element_binary(&x, 0, 5, less()), Ok(1));
    assert_eq!(min_element12(&x, 0, 5, less()).map(|r| r.0), Ok(1));
    assert_eq!(min_element_binary(&x, 2, 5, less()), Ok(2));
    assert_eq!(min_element12(&x, 2, 5, less()).map(|r| r.0), Ok(2));
}

#[test]
fn all_variants_agree_on_the_minimum_of_repeated_values() {
    for n in 1..=33usize {
        for (mul, modulus) in [(7usize, 3usize), (5, 4), (3, 2), (11, 5), (1, 1)] {
            let v: Vec<usize> = (0..n).map(|i| (i * mul + 2) % modulus).collect();
            let smallest = *v.iter().min().unwrap();
            let expected = v.iter().position(|&x| x == smallest).unwrap();
            assert_eq!(min_element(&v, 0, n, less()), Ok(expected));
            assert_eq!(min_element_binary(&v, 0, n, less()), Ok(expected));
            if n >= 2 {
                assert_eq!(min_element12(&v, 0, n, less()).map(|r| r.0), Ok(expected));
                assert_eq!(min_element12_practical(&v, 0, n, less()).map(|r| r.0), Ok(expected));
                // The runner-up holds a smallest value among the others.
                let (_, second) = min_element12(&v, 0, n, less()).unwrap();
                assert_ne!(second, expected);
                let others = v.iter().enumerate().filter(|(i, _)| *i != expected).map(|(_, &x)| x);
                assert_eq!(Some(v[second]), others.min());
            }
        }
    }
}

fn permutation(n: usize, step: usize) -> Vec<u64> {
    // `step` is chosen coprime to `n`.
    (0..n).map(|i| ((i * step + 3) % n) as u64).collect()
}

fn two_smallest(v: &[u64]) -> (usize, usize) {
    let mut order: Vec<usize> = (0..v.len()).collect();
    order.sort_by_key(|&i| v[i]);
    (order[0], order[1])
}

#[test]
fn all_variants_agree_on_distinct_values() {
    for (n, step) in [(2usize, 1usize), (3, 2), (5, 3), (7, 3), (8, 5), (13, 5), (16, 7), (31, 12), (64, 27), (100, 37)] {
        let v = permutation(n, step);
        let (m1, m2) = two_smallest(&v);
        assert_eq!(min_element(&v, 0, n, less()), Ok(m1));
        assert_eq!(min_element_binary(&v, 0, n, less()), Ok(m1));
        assert_eq!(min_element12(&v, 0, n, less()), Ok((m1, m2)));
        assert_eq!(min_element12_practical(&v, 0, n, less()), Ok((m1, m2)));
    }
}

fn ceil_log2(n: usize) -> usize {
    let mut k = 0;
    while (1usize << k) < n {
        k += 1;
    }
    k
}

#[test]
fn tournament_stays_within_the_comparison_bound() {
    for (n, step) in [(2usize, 1usize), (3, 2), (5, 3), (7, 3), (8, 5), (13, 5), (16, 7), (31, 12), (64, 27), (100, 37)] {
        let v = permutation(n, step);
        let calls = Cell::new(0usize);
        let counting = |a: &u64, b: &u64| {
            calls.set(calls.get() + 1);
            a < b
        };
        let r = min_element12(&v, 0, n, counting);
        assert_eq!(r, Ok(two_smallest(&v)));
        assert!(calls.get() <= n - 1 + ceil_log2(n) - 1, "n = {}: {} calls", n, calls.get());
        assert!(calls.get() >= n - 1);
    }
}

#[test]
fn linear_scan_makes_one_comparison_per_further_element() {
    let v = permutation(31, 12);
    let calls = Cell::new(0usize);
    let counting = |a: &u64, b: &u64| {
        calls.set(calls.get() + 1);
        a < b
    };
    assert_eq!(min_element(&v, 0, 31, counting), Ok(two_smallest(&v).0));
    assert_eq!(calls.get(), 30);
}
