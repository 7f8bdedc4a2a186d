//! How the results of the four searches relate.
//!
//! The linear scans return the first position that holds a smallest
//! value; the tournaments return the winner of the bracket, which is
//! that position too. The lemmas here are stated over what the
//! contracts of the searches say of their results.
use crate::bracket::{bracket, fair, lemma_bracket_fair, lemma_bracket_first_min, matched};
use crate::order::{
    distinct_in, is_first_min, is_first_min_without, lemma_first_min_unique, lemma_split,
    strict_weak_order,
};
use crate::runner_up::{is_runner_up, picks};
use vstd::prelude::*;

verus! {

/// Minimum: the tournaments and the linear scans find the same
/// position, the first one that holds a smallest value.
///
/// `m` is what `min_element` returns, and the first component of what
/// `min_element12_practical` returns; the winner of the bracket is what
/// `min_element_binary` returns, and the first component of what
/// `min_element12` returns.
pub proof fn lemma_minima_agree<T>(s: Seq<T>, rel: spec_fn(T, T) -> bool, a: int, n: nat, m: int)
    requires
        strict_weak_order(rel),
        n >= 1,
        is_first_min(s, rel, a, a + n, m),
    ensures
        bracket(s, rel, a, n).winner == m,
{
    lemma_bracket_first_min(s, rel, a, n);
    lemma_first_min_unique(s, rel, a, a + n, m, bracket(s, rel, a, n).winner);
}

/// Runner-up of the tournament: it is a position of the range other than
/// the winner, and no value of the range but the winner's can precede
/// its value.
pub proof fn lemma_runner_up_is_second<T>(
    s: Seq<T>,
    rel: spec_fn(T, T) -> bool,
    a: int,
    n: nat,
    p: int,
)
    requires
        strict_weak_order(rel),
        n >= 2,
        is_runner_up(s, rel, bracket(s, rel, a, n), p),
    ensures
        a <= p < a + n,
        p != bracket(s, rel, a, n).winner,
        forall|j: int|
            a <= j < a + n && j != bracket(s, rel, a, n).winner ==> !#[trigger] rel(s[j], s[p]),
{
    let b = bracket(s, rel, a, n);
    lemma_bracket_fair(s, rel, a, n);
    let k = choose|k: int|
        0 <= k < b.beaten.len() && #[trigger] b.beaten[k] == p && is_first_min(
            picks(s, b.beaten),
            rel,
            0,
            b.beaten.len() as int,
            k,
        );
    assert forall|j: int| a <= j < a + n && j != b.winner implies !#[trigger] rel(s[j], s[p]) by {
        assert(matched(s, rel, b, j));
        let i = choose|i: int| 0 <= i < b.beaten.len() && !#[trigger] rel(s[j], s[b.beaten[i]]);
        assert(!rel(picks(s, b.beaten)[i], picks(s, b.beaten)[k]));
        if rel(s[j], s[p]) {
            lemma_split(rel, s[j], s[b.beaten[i]], s[p]);
        }
    }
}

/// Minimum and runner-up of distinct values: the tournament and the scan
/// that keeps two return the same pair, the position of the one smallest
/// value and the position of the one second-smallest.
///
/// `(m1, m2)` is what `min_element12_practical` returns; the winner of
/// the bracket and `p` are what `min_element12` returns.
pub proof fn lemma_distinct_values_agree<T>(
    s: Seq<T>,
    rel: spec_fn(T, T) -> bool,
    a: int,
    n: nat,
    m1: int,
    m2: int,
    p: int,
)
    requires
        strict_weak_order(rel),
        n >= 2,
        distinct_in(s, rel, a, a + n),
        is_first_min(s, rel, a, a + n, m1),
        is_first_min_without(s, rel, a, a + n, m1, m2),
        is_runner_up(s, rel, bracket(s, rel, a, n), p),
    ensures
        bracket(s, rel, a, n).winner == m1,
        p == m2,
        forall|j: int| a <= j < a + n && j != m1 ==> #[trigger] rel(s[m1], s[j]),
        forall|j: int| a <= j < a + n && j != m1 && j != m2 ==> #[trigger] rel(s[m2], s[j]),
{
    let w = bracket(s, rel, a, n).winner;
    lemma_bracket_fair(s, rel, a, n);
    lemma_runner_up_is_second(s, rel, a, n, p);
    if w != m1 {
        assert(rel(s[w], s[m1]) || rel(s[m1], s[w]));
    }
    if p != m2 {
        assert(rel(s[p], s[m2]) || rel(s[m2], s[p]));
    }
    assert forall|j: int| a <= j < a + n && j != m1 implies #[trigger] rel(s[m1], s[j]) by {
        assert(rel(s[m1], s[j]) || rel(s[j], s[m1]));
    }
    assert forall|j: int| a <= j < a + n && j != m1 && j != m2 implies #[trigger] rel(
        s[m2],
        s[j],
    ) by {
        assert(rel(s[m2], s[j]) || rel(s[j], s[m2]));
    }
}

} // verus!
