//! Comparators and the orders they decide.
//!
//! An executable comparator is any `Fn(&T, &T) -> bool`. Contracts speak of
//! the mathematical relation that such a comparator *decides*: a relation
//! `rel` with which no answer of the comparator ever disagrees.
use vstd::prelude::*;
use vstd::std_specs::cmp::{PartialOrdIs, PartialOrdSpec};

verus! {

/// The comparator may be called on every pair of values.
pub open spec fn callable<T, C: Fn(&T, &T) -> bool>(lt: C) -> bool {
    forall|a: T, b: T| #[trigger] call_requires(lt, (&a, &b))
}

/// Every answer that `lt` can give on `(a, b)` is `rel(a, b)`.
pub open spec fn decides<T, C: Fn(&T, &T) -> bool>(lt: C, rel: spec_fn(T, T) -> bool) -> bool {
    forall|a: T, b: T, r: bool| #[trigger] call_ensures(lt, (&a, &b), r) ==> r == rel(a, b)
}

/// Neither value precedes the other.
pub open spec fn incomparable<T>(rel: spec_fn(T, T) -> bool, a: T, b: T) -> bool {
    !rel(a, b) && !rel(b, a)
}

/// `rel` is a strict weak order: irreflexive, asymmetric, transitive, and
/// with a transitive incomparability.
pub open spec fn strict_weak_order<T>(rel: spec_fn(T, T) -> bool) -> bool {
    &&& forall|a: T| !#[trigger] rel(a, a)
    &&& forall|a: T, b: T| #[trigger] rel(a, b) ==> !rel(b, a)
    &&& forall|a: T, b: T, c: T| #[trigger] rel(a, b) && #[trigger] rel(b, c) ==> rel(a, c)
    &&& forall|a: T, b: T, c: T|
        #[trigger] incomparable(rel, a, b) && #[trigger] incomparable(rel, b, c) ==> incomparable(
            rel,
            a,
            c,
        )
}

/// No two different positions of `s` in `[first, last)` hold incomparable
/// values: the values are pairwise distinct under `rel`.
pub open spec fn distinct_in<T>(s: Seq<T>, rel: spec_fn(T, T) -> bool, first: int, last: int) -> bool {
    forall|i: int, j: int|
        first <= i < last && first <= j < last && i != j ==> #[trigger] rel(s[i], s[j]) || rel(
            s[j],
            s[i],
        )
}

/// `m` is the first position in `[first, last)` whose value no value of the
/// range precedes.
pub open spec fn is_first_min<T>(
    s: Seq<T>,
    rel: spec_fn(T, T) -> bool,
    first: int,
    last: int,
    m: int,
) -> bool {
    &&& first <= m < last
    &&& forall|j: int| first <= j < last ==> !#[trigger] rel(s[j], s[m])
    &&& forall|j: int| first <= j < m ==> #[trigger] rel(s[m], s[j])
}

/// `m` is the first position in `[first, last)` other than `skip` whose
/// value no value of the range precedes, `skip` left aside.
pub open spec fn is_first_min_without<T>(
    s: Seq<T>,
    rel: spec_fn(T, T) -> bool,
    first: int,
    last: int,
    skip: int,
    m: int,
) -> bool {
    &&& first <= m < last
    &&& m != skip
    &&& forall|j: int| first <= j < last && j != skip ==> !#[trigger] rel(s[j], s[m])
    &&& forall|j: int| first <= j < m && j != skip ==> #[trigger] rel(s[m], s[j])
}

/// In a strict weak order, whatever precedes `c` precedes `b` too, unless
/// `b` itself precedes `c`.
pub proof fn lemma_split<T>(rel: spec_fn(T, T) -> bool, a: T, b: T, c: T)
    requires
        strict_weak_order(rel),
        rel(a, c),
    ensures
        rel(a, b) || rel(b, c),
{
    if !rel(a, b) && !rel(b, c) {
        if rel(b, a) {
            assert(rel(b, c));
        } else if rel(c, b) {
            assert(rel(a, b));
        } else {
            assert(incomparable(rel, a, b));
            assert(incomparable(rel, b, c));
            assert(incomparable(rel, a, c));
        }
    }
}

/// At most one position is the first minimum of a range.
pub proof fn lemma_first_min_unique<T>(
    s: Seq<T>,
    rel: spec_fn(T, T) -> bool,
    first: int,
    last: int,
    m: int,
    k: int,
)
    requires
        is_first_min(s, rel, first, last, m),
        is_first_min(s, rel, first, last, k),
    ensures
        m == k,
{
    if m < k {
        assert(rel(s[k], s[m]));
    } else if k < m {
        assert(rel(s[m], s[k]));
    }
}

/// At most one position is the first minimum of a range with `skip` left
/// aside.
pub proof fn lemma_first_min_without_unique<T>(
    s: Seq<T>,
    rel: spec_fn(T, T) -> bool,
    first: int,
    last: int,
    skip: int,
    m: int,
    k: int,
)
    requires
        is_first_min_without(s, rel, first, last, skip, m),
        is_first_min_without(s, rel, first, last, skip, k),
    ensures
        m == k,
{
    if m < k {
        assert(rel(s[k], s[m]));
    } else if k < m {
        assert(rel(s[m], s[k]));
    }
}

/// Extending a range by one position moves its first minimum to the new
/// position exactly when the new value precedes the old minimum.
pub proof fn lemma_first_min_extend<T>(
    s: Seq<T>,
    rel: spec_fn(T, T) -> bool,
    first: int,
    i: int,
    m: int,
)
    requires
        strict_weak_order(rel),
        is_first_min(s, rel, first, i, m),
    ensures
        is_first_min(s, rel, first, i + 1, if rel(s[i], s[m]) { i } else { m }),
{
    if rel(s[i], s[m]) {
        assert forall|j: int| first <= j < i + 1 implies !#[trigger] rel(s[j], s[i]) by {
            if j < i && rel(s[j], s[i]) {
                assert(rel(s[j], s[m]));
            }
        }
        assert forall|j: int| first <= j < i implies #[trigger] rel(s[i], s[j]) by {
            lemma_split(rel, s[i], s[j], s[m]);
        }
    }
}

/// The first minimum of a two-element range.
pub proof fn lemma_first_min_pair<T>(s: Seq<T>, rel: spec_fn(T, T) -> bool, first: int)
    requires
        strict_weak_order(rel),
    ensures
        rel(s[first + 1], s[first]) ==> is_first_min(s, rel, first, first + 2, first + 1)
            && is_first_min_without(s, rel, first, first + 2, first + 1, first),
        !rel(s[first + 1], s[first]) ==> is_first_min(s, rel, first, first + 2, first)
            && is_first_min_without(s, rel, first, first + 2, first, first + 1),
{
}

/// Extending a range by one position updates its two smallest positions as
/// a scan that keeps both does: the new position replaces the runner-up
/// when its value precedes the runner-up's, and the minimum, pushing the
/// old minimum down, when it precedes the minimum's as well.
pub proof fn lemma_first_two_extend<T>(
    s: Seq<T>,
    rel: spec_fn(T, T) -> bool,
    first: int,
    i: int,
    m1: int,
    m2: int,
)
    requires
        strict_weak_order(rel),
        is_first_min(s, rel, first, i, m1),
        is_first_min_without(s, rel, first, i, m1, m2),
    ensures
        ({
            let (n1, n2) = if rel(s[i], s[m2]) {
                if rel(s[i], s[m1]) {
                    (i, m1)
                } else {
                    (m1, i)
                }
            } else {
                (m1, m2)
            };
            is_first_min(s, rel, first, i + 1, n1) && is_first_min_without(
                s,
                rel,
                first,
                i + 1,
                n1,
                n2,
            )
        }),
{
    assert(!rel(s[m2], s[m1]));
    if rel(s[i], s[m2]) {
        if rel(s[i], s[m1]) {
            lemma_first_min_extend(s, rel, first, i, m1);
        } else {
            assert forall|j: int| first <= j < i + 1 && j != m1 implies !#[trigger] rel(
                s[j],
                s[i],
            ) by {
                if j < i && rel(s[j], s[i]) {
                    assert(rel(s[j], s[m2]));
                }
            }
            assert forall|j: int| first <= j < i && j != m1 implies #[trigger] rel(s[i], s[j]) by {
                lemma_split(rel, s[i], s[j], s[m2]);
            }
        }
    } else {
        if rel(s[i], s[m1]) {
            lemma_split(rel, s[i], s[m2], s[m1]);
        }
    }
}

/// The usual strict "less than" of an ordered type, as a comparator.
///
/// Where the comparison operators of the type are known to compute its
/// order, the comparator decides exactly the relation `a < b`.
pub fn less<T: Ord>() -> (f: impl Fn(&T, &T) -> bool)
    ensures
        callable(f),
        T::obeys_partial_cmp_spec() ==> decides(f, |a: T, b: T| a.is_lt(&b)),
{
    |x: &T, y: &T| -> (r: bool)
        ensures
            T::obeys_partial_cmp_spec() ==> r == x.is_lt(y),
        { *x < *y }
}

} // verus!
