//! Linear scans for the smallest element, and for the two smallest.
use crate::error::Error;
use crate::order::{
    callable, decides, is_first_min, is_first_min_without, lemma_first_min_extend,
    lemma_first_min_pair, lemma_first_two_extend, strict_weak_order,
};
use vstd::prelude::*;

verus! {

/// `[first, last)` is a range of positions of a sequence of length `len`.
pub open spec fn range_ok(first: usize, last: usize, len: nat) -> bool {
    first <= last <= len
}

/// Position of the smallest element of `rng[first..last]`, found by one
/// pass with `last - first - 1` comparisons.
///
/// Of several smallest elements the first is returned; an empty range
/// gives `last`.
pub fn min_element<T, C>(rng: &[T], first: usize, last: usize, lt: C) -> (r: Result<usize, Error>)
    where C: Fn(&T, &T) -> bool
    requires
        callable(lt),
    ensures
        !range_ok(first, last, rng@.len()) ==> r == Err::<usize, Error>(Error::IndexOutOfRange),
        range_ok(first, last, rng@.len()) ==> r is Ok,
        range_ok(first, last, rng@.len()) && first == last ==> r == Ok::<usize, Error>(last),
        forall|rel: spec_fn(T, T) -> bool|
            range_ok(first, last, rng@.len()) && first < last && #[trigger] decides(lt, rel)
                && strict_weak_order(rel) ==> is_first_min(
                rng@,
                rel,
                first as int,
                last as int,
                r->Ok_0 as int,
            ),
{
    if first > last || last > rng.len() {
        return Err(Error::IndexOutOfRange);
    }
    if first == last {
        return Ok(last);
    }
    let mut current_min: usize = first;
    let mut i: usize = first + 1;
    while i != last
        invariant
            first <= current_min < i <= last <= rng@.len(),
            callable(lt),
            forall|rel: spec_fn(T, T) -> bool|
                #[trigger] decides(lt, rel) && strict_weak_order(rel) ==> is_first_min(
                    rng@,
                    rel,
                    first as int,
                    i as int,
                    current_min as int,
                ),
        decreases last - i,
    {
        let smaller = lt(&rng[i], &rng[current_min]);
        proof {
            assert forall|rel: spec_fn(T, T) -> bool|
                #[trigger] decides(lt, rel) && strict_weak_order(rel) implies is_first_min(
                rng@,
                rel,
                first as int,
                i + 1,
                if smaller {
                    i as int
                } else {
                    current_min as int
                },
            ) by {
                lemma_first_min_extend(rng@, rel, first as int, i as int, current_min as int);
            }
        }
        if smaller {
            current_min = i;
        }
        i += 1;
    }
    Ok(current_min)
}

/// Positions of the smallest and of the second-smallest element of
/// `rng[first..last]`, found by one pass that keeps both.
///
/// The first component is the first smallest element; the second is the
/// first smallest among the others. A range of fewer than two elements
/// gives `(first, first)`.
pub fn min_element12_practical<T, C>(rng: &[T], first: usize, last: usize, lt: C) -> (r: Result<
    (usize, usize),
    Error,
>)
    where C: Fn(&T, &T) -> bool
    requires
        callable(lt),
    ensures
        !range_ok(first, last, rng@.len()) ==> r == Err::<(usize, usize), Error>(
            Error::IndexOutOfRange,
        ),
        range_ok(first, last, rng@.len()) ==> r is Ok,
        range_ok(first, last, rng@.len()) && last - first < 2 ==> r == Ok::<(usize, usize), Error>(
            (first, first),
        ),
        forall|rel: spec_fn(T, T) -> bool|
            range_ok(first, last, rng@.len()) && last - first >= 2 && #[trigger] decides(lt, rel)
                && strict_weak_order(rel) ==> is_first_min(
                rng@,
                rel,
                first as int,
                last as int,
                r->Ok_0.0 as int,
            ) && is_first_min_without(
                rng@,
                rel,
                first as int,
                last as int,
                r->Ok_0.0 as int,
                r->Ok_0.1 as int,
            ),
{
    if first > last || last > rng.len() {
        return Err(Error::IndexOutOfRange);
    }
    if first == last || first + 1 == last {
        return Ok((first, first));
    }
    let second_smaller = lt(&rng[first + 1], &rng[first]);
    let mut min1: usize = first;
    let mut min2: usize = first + 1;
    if second_smaller {
        min1 = first + 1;
        min2 = first;
    }
    proof {
        assert forall|rel: spec_fn(T, T) -> bool|
            #[trigger] decides(lt, rel) && strict_weak_order(rel) implies is_first_min(
            rng@,
            rel,
            first as int,
            first + 2,
            min1 as int,
        ) && is_first_min_without(rng@, rel, first as int, first + 2, min1 as int, min2 as int) by {
            lemma_first_min_pair(rng@, rel, first as int);
        }
    }
    let mut i: usize = first + 2;
    while i != last
        invariant
            first <= min1 < i <= last <= rng@.len(),
            first <= min2 < i,
            callable(lt),
            forall|rel: spec_fn(T, T) -> bool|
                #[trigger] decides(lt, rel) && strict_weak_order(rel) ==> is_first_min(
                    rng@,
                    rel,
                    first as int,
                    i as int,
                    min1 as int,
                ) && is_first_min_without(
                    rng@,
                    rel,
                    first as int,
                    i as int,
                    min1 as int,
                    min2 as int,
                ),
        decreases last - i,
    {
        let ghost old1 = min1;
        let ghost old2 = min2;
        let mut below_first = false;
        let below_second = lt(&rng[i], &rng[min2]);
        if below_second {
            below_first = lt(&rng[i], &rng[min1]);
            if below_first {
                min2 = min1;
                min1 = i;
            } else {
                min2 = i;
            }
        }
        proof {
            assert forall|rel: spec_fn(T, T) -> bool|
                #[trigger] decides(lt, rel) && strict_weak_order(rel) implies is_first_min(
                rng@,
                rel,
                first as int,
                i + 1,
                min1 as int,
            ) && is_first_min_without(rng@, rel, first as int, i + 1, min1 as int, min2 as int) by {
                lemma_first_two_extend(
                    rng@,
                    rel,
                    first as int,
                    i as int,
                    old1 as int,
                    old2 as int,
                );
            }
        }
        i += 1;
    }
    Ok((min1, min2))
}

} // verus!
