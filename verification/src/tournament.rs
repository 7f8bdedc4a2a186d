//! Minimum, and minimum with runner-up, by knockout tournament.
//!
//! Both functions feed the positions of a range, one by one, to a binary
//! counter. For the minimum alone the counter combines two positions into
//! the one with the smaller value. For minimum and runner-up it combines
//! two contestants, each a position with the list of positions it has
//! beaten; the runner-up is then the smallest of those that the overall
//! winner has beaten.
use crate::bracket::{
    bracket, ideal_carried, ideal_folded, ideal_reduced, ideal_slots, leaf,
    lemma_bracket_first_min, lemma_counter_plays_bracket, play, settled, Slots, Standing,
};
use crate::counter::{
    carried, carry_defined, fold_defined, folded, reduce_defined, reduced, BinaryCounter, BinaryOp,
};
use crate::error::Error;
use crate::order::{callable, decides, is_first_min, strict_weak_order};
use crate::scan::range_ok;
use vstd::prelude::*;

verus! {

/// A sequence of values together with the order in which they rank.
#[verifier::reject_recursive_types(T)]
pub struct Ranking<T> {
    /// The values.
    pub seq: Seq<T>,
    /// The order: `rel(a, b)` says that `a` ranks before `b`.
    pub rel: spec_fn(T, T) -> bool,
}

/// The operation that keeps, of two positions of a slice, the one with
/// the smaller value, and the earlier position if neither value precedes
/// the other. It asks the comparator once: the later position against
/// the earlier one.
pub struct MinOp<'a, T, C> {
    rng: &'a [T],
    lt: C,
}

impl<'a, T, C: Fn(&T, &T) -> bool> MinOp<'a, T, C> {
    /// The slice whose positions the operation compares.
    pub closed spec fn values(&self) -> Seq<T> {
        self.rng@
    }

    /// The comparator that the operation asks.
    pub closed spec fn comparator(&self) -> C {
        self.lt
    }
}

impl<'a, T, C: Fn(&T, &T) -> bool> BinaryOp<usize> for MinOp<'a, T, C> {
    type Model = Ranking<T>;

    type State = ();

    open spec fn state(&self) -> () {
        ()
    }

    open spec fn conforms(&self, m: Ranking<T>) -> bool {
        m.seq == self.values() && callable(self.comparator()) && decides(self.comparator(), m.rel)
    }

    open spec fn defined(m: Ranking<T>, st: (), x: usize, y: usize) -> bool {
        x < m.seq.len() && y < m.seq.len()
    }

    open spec fn value(m: Ranking<T>, st: (), x: usize, y: usize) -> usize {
        if x <= y {
            if (m.rel)(m.seq[y as int], m.seq[x as int]) {
                y
            } else {
                x
            }
        } else {
            if (m.rel)(m.seq[x as int], m.seq[y as int]) {
                x
            } else {
                y
            }
        }
    }

    open spec fn after(m: Ranking<T>, st: (), x: usize, y: usize) -> () {
        ()
    }

    fn apply(&mut self, x: &usize, y: &usize) -> (r: usize) {
        let ghost m = choose|m: Ranking<T>| self.conforms(m);
        assert(Self::defined(m, self.state(), *x, *y));
        if *x <= *y {
            if (self.lt)(&self.rng[*y], &self.rng[*x]) {
                *y
            } else {
                *x
            }
        } else {
            if (self.lt)(&self.rng[*x], &self.rng[*y]) {
                *x
            } else {
                *y
            }
        }
    }
}

/// The operation that keeps the position of `rng` with the smaller value
/// under `lt`.
pub fn min_op<'a, T, C>(lt: C, rng: &'a [T]) -> (r: MinOp<'a, T, C>) where C: Fn(&T, &T) -> bool
    ensures
        r.values() == rng@,
        r.comparator() == lt,
{
    MinOp { rng, lt }
}

/// The slots of a counter of positions hold the winners of the slots of
/// a counter of standings, and `zero` where those are empty.
pub open spec fn winners_match(slots: Seq<usize>, ideal: Slots, zero: usize) -> bool {
    &&& slots.len() == ideal.len()
    &&& forall|i: int|
        0 <= i < slots.len() ==> match #[trigger] ideal[i] {
            None => slots[i] == zero,
            Some(st) => slots[i] == st.winner && slots[i] < zero,
        }
}

/// A carry of positions holds the winner of a carry of standings.
pub open spec fn winner_matches(carry: usize, ideal: Option<Standing>, zero: usize) -> bool {
    match ideal {
        None => carry == zero,
        Some(st) => carry == st.winner && carry < zero,
    }
}

/// Carrying a position through a counter of positions goes as carrying
/// its standing through the counter of standings.
proof fn lemma_min_carry<'a, T: 'a, C: Fn(&T, &T) -> bool>(
    m: Ranking<T>,
    slots: Seq<usize>,
    ideal: Slots,
    zero: usize,
    i: int,
    carry: usize,
    icarry: Standing,
)
    requires
        winners_match(slots, ideal, zero),
        0 <= i <= slots.len(),
        carry == icarry.winner,
        carry < zero <= m.seq.len(),
    ensures
        carry_defined::<usize, MinOp<'a, T, C>>(m, (), slots, i, slots.len() as int, zero, carry),
        winners_match(
            carried::<usize, MinOp<'a, T, C>>(m, (), slots, i, slots.len() as int, zero, carry).1,
            ideal_carried(m.seq, m.rel, ideal, i, icarry).0,
            zero,
        ),
        winner_matches(
            carried::<usize, MinOp<'a, T, C>>(m, (), slots, i, slots.len() as int, zero, carry).2,
            ideal_carried(m.seq, m.rel, ideal, i, icarry).1,
            zero,
        ),
    decreases slots.len() - i,
{
    if i < slots.len() {
        assert(ideal[i] is None <==> slots[i] == zero);
        if ideal[i] is Some {
            let next = MinOp::<'a, T, C>::value(m, (), slots[i], carry);
            let inext = play(m.seq, m.rel, ideal[i]->Some_0, icarry);
            let after = slots.update(i, zero);
            let iafter = ideal.update(i, None::<Standing>);
            assert(winners_match(after, iafter, zero));
            lemma_min_carry::<T, C>(m, after, iafter, zero, i + 1, next, inext);
        }
    }
}

/// Folding a counter of positions goes as folding the counter of
/// standings.
proof fn lemma_min_fold<'a, T: 'a, C: Fn(&T, &T) -> bool>(
    m: Ranking<T>,
    slots: Seq<usize>,
    ideal: Slots,
    zero: usize,
    i: int,
    acc: usize,
    iacc: Standing,
)
    requires
        winners_match(slots, ideal, zero),
        0 <= i <= slots.len(),
        acc == iacc.winner,
        acc < zero <= m.seq.len(),
    ensures
        fold_defined::<usize, MinOp<'a, T, C>>(m, (), slots, i, slots.len() as int, zero, acc),
        folded::<usize, MinOp<'a, T, C>>(m, (), slots, i, slots.len() as int, zero, acc).1
            == ideal_folded(m.seq, m.rel, ideal, i, iacc).winner,
    decreases slots.len() - i,
{
    if i < slots.len() {
        assert(ideal[i] is None <==> slots[i] == zero);
        if ideal[i] is Some {
            let next = MinOp::<'a, T, C>::value(m, (), acc, slots[i]);
            let inext = play(m.seq, m.rel, iacc, ideal[i]->Some_0);
            lemma_min_fold::<T, C>(m, slots, ideal, zero, i + 1, next, inext);
        } else {
            lemma_min_fold::<T, C>(m, slots, ideal, zero, i + 1, acc, iacc);
        }
    }
}

/// Reducing a counter of positions goes as reducing the counter of
/// standings.
proof fn lemma_min_reduce<'a, T: 'a, C: Fn(&T, &T) -> bool>(
    m: Ranking<T>,
    slots: Seq<usize>,
    ideal: Slots,
    zero: usize,
    i: int,
)
    requires
        winners_match(slots, ideal, zero),
        0 <= i <= slots.len(),
        zero <= m.seq.len(),
    ensures
        reduce_defined::<usize, MinOp<'a, T, C>>(m, (), slots, i, slots.len() as int, zero),
        winner_matches(
            reduced::<usize, MinOp<'a, T, C>>(m, (), slots, i, slots.len() as int, zero).1,
            ideal_reduced(m.seq, m.rel, ideal, i),
            zero,
        ),
    decreases slots.len() - i,
{
    if i < slots.len() {
        assert(ideal[i] is None <==> slots[i] == zero);
        if ideal[i] is Some {
            lemma_min_fold::<T, C>(m, slots, ideal, zero, i + 1, slots[i], ideal[i]->Some_0);
            lemma_fold_winner_bound(m.seq, m.rel, ideal, i + 1, ideal[i]->Some_0, zero);
        } else {
            lemma_min_reduce::<T, C>(m, slots, ideal, zero, i + 1);
        }
    }
}

/// The winner of a fold is one of the winners that went into it.
proof fn lemma_fold_winner_bound<T>(
    s: Seq<T>,
    rel: spec_fn(T, T) -> bool,
    ideal: Slots,
    i: int,
    iacc: Standing,
    zero: usize,
)
    requires
        0 <= i <= ideal.len(),
        0 <= iacc.winner < zero,
        forall|j: int|
            0 <= j < ideal.len() && #[trigger] ideal[j] is Some ==> 0 <= ideal[j]->Some_0.winner
                < zero,
    ensures
        0 <= ideal_folded(s, rel, ideal, i, iacc).winner < zero,
    decreases ideal.len() - i,
{
    if i < ideal.len() {
        if ideal[i] is Some {
            lemma_fold_winner_bound(s, rel, ideal, i + 1, play(s, rel, iacc, ideal[i]->Some_0), zero);
        } else {
            lemma_fold_winner_bound(s, rel, ideal, i + 1, iacc, zero);
        }
    }
}

/// Position of the smallest element of `rng[first..last]`, found with a
/// binary counter of positions; an empty range gives `last`.
///
/// The result is the winner of the tournament over the range. Under a
/// strict weak order that is the first of the smallest elements, as
/// `min_element` finds it.
pub fn min_element_binary<T, C>(rng: &[T], first: usize, last: usize, lt: C) -> (r: Result<
    usize,
    Error,
>) where C: Fn(&T, &T) -> bool
    requires
        callable(lt),
        exists|rel: spec_fn(T, T) -> bool| decides(lt, rel),
    ensures
        !range_ok(first, last, rng@.len()) ==> r == Err::<usize, Error>(Error::IndexOutOfRange),
        range_ok(first, last, rng@.len()) ==> r is Ok,
        range_ok(first, last, rng@.len()) && first == last ==> r == Ok::<usize, Error>(last),
        forall|rel: spec_fn(T, T) -> bool|
            range_ok(first, last, rng@.len()) && first < last && #[trigger] decides(lt, rel)
                ==> r->Ok_0 == bracket(rng@, rel, first as int, (last - first) as nat).winner,
        forall|rel: spec_fn(T, T) -> bool|
            range_ok(first, last, rng@.len()) && first < last && #[trigger] decides(lt, rel)
                && strict_weak_order(rel) ==> is_first_min(
                rng@,
                rel,
                first as int,
                last as int,
                r->Ok_0 as int,
            ),
{
    if first > last || last > rng.len() {
        return Err(Error::IndexOutOfRange);
    }
    if first == last {
        return Ok(last);
    }
    let ghost asked = lt;
    let mut counter = BinaryCounter::with_capacity(min_op(lt, rng), last, 16);
    proof {
        let rel = choose|rel: spec_fn(T, T) -> bool| decides(asked, rel);
        assert(counter.op().conforms(Ranking { seq: rng@, rel }));
    }
    let mut i = first;
    while i != last
        invariant
            first <= i <= last <= rng@.len(),
            counter.zero() == last,
            exists|m: Ranking<T>| counter.op().conforms(m),
            forall|m: Ranking<T>| #[trigger]
                counter.op().conforms(m) <==> m.seq == rng@ && decides(asked, m.rel),
            forall|m: Ranking<T>| #[trigger]
                counter.op().conforms(m) ==> winners_match(
                    counter.slots(),
                    ideal_slots(m.seq, m.rel, first as int, (i - first) as nat),
                    last,
                ),
        decreases last - i,
    {
        let ghost before = counter;
        proof {
            assert forall|m: Ranking<T>| #[trigger] counter.op().conforms(m) implies counter.add_defined(
                m,
                i,
            ) by {
                lemma_min_carry::<T, C>(
                    m,
                    counter.slots(),
                    ideal_slots(m.seq, m.rel, first as int, (i - first) as nat),
                    last,
                    0,
                    i,
                    leaf(i as int),
                );
            }
        }
        counter.add(i);
        proof {
            let witness = choose|m: Ranking<T>| before.op().conforms(m);
            assert(counter.op().conforms(witness));
            assert forall|m: Ranking<T>| #[trigger] counter.op().conforms(m) implies winners_match(
                counter.slots(),
                ideal_slots(m.seq, m.rel, first as int, (i + 1 - first) as nat),
                last,
            ) by {
                assert(before.op().conforms(m));
                let ideal = ideal_slots(m.seq, m.rel, first as int, (i - first) as nat);
                lemma_min_carry::<T, C>(m, before.slots(), ideal, last, 0, i, leaf(i as int));
                assert(first + (i + 1 - first) as nat - 1 == i);
                assert(ideal_slots(m.seq, m.rel, first as int, (i + 1 - first) as nat) == settled(
                    ideal_carried(m.seq, m.rel, ideal, 0, leaf(i as int)),
                ));
            }
        }
        i += 1;
    }
    proof {
        assert forall|m: Ranking<T>| #[trigger] counter.op().conforms(m) implies counter.reduction_defined(
            m,
        ) by {
            lemma_min_reduce::<T, C>(
                m,
                counter.slots(),
                ideal_slots(m.seq, m.rel, first as int, (last - first) as nat),
                last,
                0,
            );
        }
    }
    let ghost full = counter;
    let winner = counter.reduce();
    proof {
        assert forall|rel: spec_fn(T, T) -> bool| #[trigger] decides(asked, rel) implies winner
            == bracket(rng@, rel, first as int, (last - first) as nat).winner by {
            let m = Ranking { seq: rng@, rel };
            assert(full.op().conforms(m));
            lemma_min_reduce::<T, C>(
                m,
                full.slots(),
                ideal_slots(rng@, rel, first as int, (last - first) as nat),
                last,
                0,
            );
            lemma_counter_plays_bracket(rng@, rel, first as int, (last - first) as nat);
        }
        assert forall|rel: spec_fn(T, T) -> bool|
            #[trigger] decides(asked, rel) && strict_weak_order(rel) implies is_first_min(
            rng@,
            rel,
            first as int,
            last as int,
            winner as int,
        ) by {
            lemma_bracket_first_min(rng@, rel, first as int, (last - first) as nat);
        }
    }
    Ok(winner)
}

} // verus!
