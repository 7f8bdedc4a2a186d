use min12::{combine, free_list, less, min_element_list, Error, ListPool};

#[test]
fn end_marker() {
    assert_eq!(ListPool::<i32>::end(), 0);
    assert!(ListPool::<i32>::is_end(0));
    assert!(!ListPool::<i32>::is_end(1));
}

#[test]
fn new_pool_is_empty() {
    let p = ListPool::<i32>::new();
    assert!(p.empty());
    assert_eq!(p.size(), 0);
    let q = ListPool::<i32>::with_capacity(16);
    assert!(q.empty());
    assert_eq!(q.size(), 0);
    assert!(q.capacity() >= 16);
}

#[test]
fn allocate_builds_a_list() {
    let mut p = ListPool::new();
    let a = p.allocate(10, ListPool::<i32>::end());
    let b = p.allocate(20, a);
    let c = p.allocate(30, b);
    assert_eq!((a, b, c), (1, 2, 3));
    assert!(!p.empty());
    assert_eq!(p.size(), 3);
    assert!(p.capacity() >= 3);
    assert_eq!(p.value(c), Ok(&30));
    assert_eq!(p.next(c), Ok(&b));
    assert_eq!(p.value(b), Ok(&20));
    assert_eq!(p.next(b), Ok(&a));
    assert_eq!(p.value(a), Ok(&10));
    assert_eq!(p.next(a), Ok(&0));
}

#[test]
fn value_mut_and_next_mut_replace() {
    let mut p = ListPool::new();
    let a = p.allocate(10, 0);
    let b = p.allocate(20, 0);
    *p.value_mut(a).unwrap() = 11;
    *p.next_mut(b).unwrap() = a;
    assert_eq!(p.value(a), Ok(&11));
    assert_eq!(p.next(a), Ok(&0));
    assert_eq!(p.value(b), Ok(&20));
    assert_eq!(p.next(b), Ok(&a));
}

#[test]
fn invalid_handles_are_refused() {
    let mut p = ListPool::new();
    let a = p.allocate(10, 0);
    assert_eq!(p.value(0), Err(Error::InvalidHandle));
    assert_eq!(p.value(2), Err(Error::InvalidHandle));
    assert_eq!(p.next(0), Err(Error::InvalidHandle));
    assert_eq!(p.next(7), Err(Error::InvalidHandle));
    assert_eq!(p.value_mut(0).err(), Some(Error::InvalidHandle));
    assert_eq!(p.next_mut(2).err(), Some(Error::InvalidHandle));
    assert_eq!(p.free(0), Err(Error::InvalidHandle));
    assert_eq!(p.free(2), Err(Error::InvalidHandle));
    assert_eq!(p.free(a), Ok(0));
    assert_eq!(p.value(a), Err(Error::InvalidHandle));
    assert_eq!(p.next(a), Err(Error::InvalidHandle));
    assert_eq!(p.value_mut(a).err(), Some(Error::InvalidHandle));
    assert_eq!(p.next_mut(a).err(), Some(Error::InvalidHandle));
    assert_eq!(p.free(a), Err(Error::InvalidHandle));
    assert!(!p.is_live(a));
    assert_eq!(p.size(), 1);
}

#[test]
fn free_returns_the_link() {
    let mut p = ListPool::new();
    let a = p.allocate('a', 0);
    let b = p.allocate('b', a);
    assert_eq!(p.free(b), Ok(a));
    assert_eq!(p.free(a), Ok(0));
}

#[test]
fn freed_nodes_are_reused_last_freed_first() {
    let mut p = ListPool::new();
    let k = 5;
    let mut handles = Vec::new();
    for i in 0..k {
        handles.push(p.allocate(i, 0));
    }
    assert_eq!(handles, vec![1, 2, 3, 4, 5]);
    let size = p.size();
    for &h in &[2usize, 5, 1, 3, 4] {
        assert_eq!(p.free(h), Ok(0));
    }
    assert_eq!(p.size(), size);
    let mut again = Vec::new();
    for i in 0..k {
        again.push(p.allocate(100 + i, 0));
    }
    assert_eq!(again, vec![4, 3, 1, 5, 2]);
    assert_eq!(p.size(), size);
    let next = p.allocate(7, 0);
    assert_eq!(next, 6);
    assert_eq!(p.size(), size + 1);
}

#[test]
fn free_list_frees_every_node() {
    let mut p = ListPool::new();
    let other = p.allocate(1, 0);
    let a = p.allocate(10, 0);
    let b = p.allocate(20, a);
    let c = p.allocate(30, b);
    free_list(&mut p, c);
    assert!(!p.is_live(a));
    assert!(!p.is_live(b));
    assert!(!p.is_live(c));
    assert!(p.is_live(other));
    assert_eq!(p.size(), 4);
    // The list was freed from its head: the head is reused last.
    assert_eq!(p.allocate(0, 0), a);
    assert_eq!(p.allocate(0, 0), b);
    assert_eq!(p.allocate(0, 0), c);
    free_list(&mut p, 0);
    assert_eq!(p.size(), 4);
}

#[test]
fn min_element_list_finds_the_first_smallest() {
    let mut p = ListPool::new();
    let mut head = 0;
    // The list reads 4, 1, 7, 1, 9 from its head.
    for v in [9, 1, 7, 1, 4] {
        head = p.allocate(v, head);
    }
    let m = min_element_list(&p, head, less());
    assert_eq!(p.value(m), Ok(&1));
    assert_eq!(m, 4);
    assert_eq!(min_element_list(&p, 0, less::<i32>()), 0);
    let single = p.allocate(3, 0);
    assert_eq!(min_element_list(&p, single, less()), single);
    let largest = min_element_list(&p, head, |a: &i32, b: &i32| a > b);
    assert_eq!(p.value(largest), Ok(&9));
}

#[test]
fn combine_replaces_the_losers_list_by_the_loser() {
    let mut p = ListPool::new();
    let w1 = p.allocate(11usize, 0);
    let l1 = p.allocate(21usize, 0);
    let l2 = p.allocate(22usize, l1);
    let (who, list) = combine(&mut p, (1usize, w1), (2usize, l2));
    assert_eq!(who, 1);
    // The loser's list was freed from its head, so its last node is reused.
    assert_eq!(list, l1);
    assert_eq!(p.value(list), Ok(&2));
    assert_eq!(p.next(list), Ok(&w1));
    assert_eq!(p.value(w1), Ok(&11));
    assert!(!p.is_live(l2));
    assert_eq!(p.size(), 3);
}
