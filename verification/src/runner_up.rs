//! Minimum and runner-up by knockout tournament.
//!
//! The contestants are pairs of a position and the handle of a pooled
//! list: the positions that the contestant has beaten itself. When two
//! contestants meet, the loser's list is returned to the pool, and the
//! loser's position is put in front of the winner's list. The runner-up
//! of the whole tournament is the smallest of those that the overall
//! winner has beaten.
use crate::bracket::{
    bracket, ideal_carried, ideal_folded, ideal_reduced, ideal_slots, leaf,
    lemma_bracket_first_min, lemma_bracket_shape, lemma_counter_plays_bracket, play, settled,
    Slots, Standing,
};
use crate::counter::{
    added, carried, carry_defined, fold_defined, folded, reduce_defined, reduced, BinaryCounter,
    BinaryOp,
};
use crate::error::Error;
use crate::order::{callable, decides, incomparable, is_first_min, strict_weak_order};
use crate::pool::{free_list, min_element_list, ListPool, ListType, PoolModel};
use crate::scan::range_ok;
use crate::tournament::Ranking;
use vstd::prelude::*;
use vstd::std_specs::cmp::PartialEqSpec;

verus! {

/// A contestant: what identifies it, and the handle of the list of those
/// it has beaten.
pub type Min12EltType<I> = (I, ListType);

impl<T> PoolModel<T> {
    /// The pool after a match: the loser's list `lost` is freed, and a
    /// node with the loser's `value` is allocated in front of the
    /// winner's list `won`.
    pub open spec fn combined(self, won: ListType, value: T, lost: ListType) -> Self {
        self.release_all(self.chain(lost)).allocate(value, won)
    }

    /// The handle of the node that the match allocates.
    pub open spec fn combined_handle(self, lost: ListType) -> ListType {
        self.release_all(self.chain(lost)).next_handle()
    }

    /// The lists that start at `a` and at `b` share no node.
    pub open spec fn apart(self, a: ListType, b: ListType) -> bool {
        forall|h: ListType| !(#[trigger] self.chain(a).contains(h) && self.chain(b).contains(h))
    }

    /// A match leaves every list alone that shares no node with the
    /// loser's, and allocates a node that is in none of them.
    pub proof fn lemma_combined_frame(self, won: ListType, value: T, lost: ListType, x: ListType)
        requires
            self.wf(),
            self.size() < usize::MAX,
            self.is_list(lost),
            self.is_list(x),
            self.apart(x, lost),
        ensures
            self.combined(won, value, lost).wf(),
            self.combined(won, value, lost).size() <= self.size() + 1,
            self.combined(won, value, lost).is_list(x),
            self.combined(won, value, lost).chain(x) == self.chain(x),
            self.combined(won, value, lost).values(x) == self.values(x),
            !self.chain(x).contains(self.combined_handle(lost)),
            self.combined(won, value, lost).live(self.combined_handle(lost)),
            self.combined(won, value, lost).value(self.combined_handle(lost)) == value,
            self.combined(won, value, lost).next(self.combined_handle(lost)) == won,
            forall|j: int|
                0 <= j < self.chain(x).len() ==> self.combined(won, value, lost).cells[
                    #[trigger] self.chain(x)[j] - 1] == self.cells[self.chain(x)[j] - 1],
    {
        let c = self.chain(x);
        let lc = self.chain(lost);
        let mid = self.release_all(lc);
        let after = mid.allocate(value, won);
        let h = mid.next_handle();
        self.lemma_chain_no_duplicates(lost, lc);
        self.lemma_chain_tail(lost, lc, 0);
        self.lemma_chain_tail(x, c, 0);
        self.lemma_release_all(lc);
        assert forall|j: int| 0 <= j < c.len() implies mid.live(#[trigger] c[j]) && mid.cells[c[j]
            - 1] == self.cells[c[j] - 1] by {
            assert(c.contains(c[j]));
            assert(!lc.contains(c[j]));
        }
        self.lemma_chain_frame(mid, x, c);
        mid.lemma_allocate(value, won);
        assert forall|j: int| 0 <= j < c.len() implies after.live(#[trigger] c[j]) && after.cells[c[j]
            - 1] == mid.cells[c[j] - 1] by {
            assert(mid.live(c[j]));
        }
        mid.lemma_chain_frame(after, x, c);
        after.lemma_chain_is(x, c);
        assert(after.values(x) =~= self.values(x));
        if c.contains(h) {
            let j = choose|j: int| 0 <= j < c.len() && c[j] == h;
            assert(mid.live(c[j]));
        }
    }
}

/// A match between two contestants whose winner is known: frees the list
/// of those that the loser has beaten, and puts the loser in front of
/// the list of those that the winner has beaten.
pub fn combine<I>(pool: &mut ListPool<I>, winner: Min12EltType<I>, loser: Min12EltType<I>) -> (r:
    Min12EltType<I>)
    requires
        old(pool).wf(),
        old(pool)@.is_list(loser.1),
    ensures
        final(pool).wf(),
        final(pool)@ == old(pool)@.combined(winner.1, loser.0, loser.1),
        r == (winner.0, old(pool)@.combined_handle(loser.1)),
{
    free_list(pool, loser.1);
    let list = pool.allocate(loser.0, winner.1);
    (winner.0, list)
}

/// The operation of the tournament for minimum and runner-up: of two
/// contestants, positions of a slice, the one with the smaller value
/// wins, the earlier position if neither value precedes the other. It
/// asks the comparator once: the later position against the earlier
/// one. The lists of the beaten live in the operation's own pool.
pub struct Min12Op<'a, T, C> {
    rng: &'a [T],
    lt: C,
    pool: ListPool<usize>,
}

impl<'a, T, C: Fn(&T, &T) -> bool> Min12Op<'a, T, C> {
    /// The slice whose positions compete.
    pub closed spec fn values(&self) -> Seq<T> {
        self.rng@
    }

    /// The comparator that the operation asks.
    pub closed spec fn comparator(&self) -> C {
        self.lt
    }

    /// The pool of the lists of the beaten.
    pub closed spec fn lists(&self) -> ListPool<usize> {
        self.pool
    }

    /// The pool of the lists of the beaten.
    pub fn pool(&self) -> (r: &ListPool<usize>)
        ensures
            *r == self.lists(),
    {
        &self.pool
    }

    /// Whether the value at position `a` precedes the value at position
    /// `b`.
    pub fn precedes(&self, a: usize, b: usize) -> (r: bool)
        requires
            callable(self.comparator()),
            a < self.values().len(),
            b < self.values().len(),
        ensures
            call_ensures(self.comparator(), (&self.values()[a as int], &self.values()[b as int]), r),
    {
        (self.lt)(&self.rng[a], &self.rng[b])
    }
}

/// Of two contestants met as `(x, y)`, the one that wins under `m`: the
/// later position if its value precedes that of the earlier one, else
/// the earlier position.
pub open spec fn winner_of<T>(m: Ranking<T>, x: Min12EltType<usize>, y: Min12EltType<usize>) -> Min12EltType<
    usize,
> {
    if x.0 <= y.0 {
        if (m.rel)(m.seq[y.0 as int], m.seq[x.0 as int]) {
            y
        } else {
            x
        }
    } else {
        if (m.rel)(m.seq[x.0 as int], m.seq[y.0 as int]) {
            x
        } else {
            y
        }
    }
}

/// Of two contestants met as `(x, y)`, the one that loses under `m`.
pub open spec fn loser_of<T>(m: Ranking<T>, x: Min12EltType<usize>, y: Min12EltType<usize>) -> Min12EltType<
    usize,
> {
    if x.0 <= y.0 {
        if (m.rel)(m.seq[y.0 as int], m.seq[x.0 as int]) {
            x
        } else {
            y
        }
    } else {
        if (m.rel)(m.seq[x.0 as int], m.seq[y.0 as int]) {
            y
        } else {
            x
        }
    }
}

/// The contestant that the match of `x` against `y` gives: the winner,
/// with the handle of the node that holds the loser as its list.
pub open spec fn match_value<T>(
    m: Ranking<T>,
    st: PoolModel<usize>,
    x: Min12EltType<usize>,
    y: Min12EltType<usize>,
) -> Min12EltType<usize> {
    (winner_of(m, x, y).0, st.combined_handle(loser_of(m, x, y).1))
}

/// The pool after the match of `x` against `y`.
pub open spec fn match_after<T>(
    m: Ranking<T>,
    st: PoolModel<usize>,
    x: Min12EltType<usize>,
    y: Min12EltType<usize>,
) -> PoolModel<usize> {
    st.combined(winner_of(m, x, y).1, loser_of(m, x, y).0, loser_of(m, x, y).1)
}

impl<'a, T, C: Fn(&T, &T) -> bool> BinaryOp<Min12EltType<usize>> for Min12Op<'a, T, C> {
    type Model = Ranking<T>;

    type State = PoolModel<usize>;

    open spec fn state(&self) -> PoolModel<usize> {
        self.lists()@
    }

    open spec fn conforms(&self, m: Ranking<T>) -> bool {
        &&& m.seq == self.values()
        &&& callable(self.comparator())
        &&& decides(self.comparator(), m.rel)
        &&& self.lists().wf()
    }

    open spec fn defined(
        m: Ranking<T>,
        st: PoolModel<usize>,
        x: Min12EltType<usize>,
        y: Min12EltType<usize>,
    ) -> bool {
        x.0 < m.seq.len() && y.0 < m.seq.len() && st.is_list(loser_of(m, x, y).1)
    }

    open spec fn value(
        m: Ranking<T>,
        st: PoolModel<usize>,
        x: Min12EltType<usize>,
        y: Min12EltType<usize>,
    ) -> Min12EltType<usize> {
        match_value(m, st, x, y)
    }

    open spec fn after(
        m: Ranking<T>,
        st: PoolModel<usize>,
        x: Min12EltType<usize>,
        y: Min12EltType<usize>,
    ) -> PoolModel<usize> {
        match_after(m, st, x, y)
    }

    fn apply(&mut self, x: &Min12EltType<usize>, y: &Min12EltType<usize>) -> (r: Min12EltType<
        usize,
    >) {
        let ghost m = choose|m: Ranking<T>| self.conforms(m);
        assert(Self::defined(m, self.state(), *x, *y));
        if x.0 <= y.0 {
            if self.precedes(y.0, x.0) {
                combine(&mut self.pool, *y, *x)
            } else {
                combine(&mut self.pool, *x, *y)
            }
        } else {
            if self.precedes(x.0, y.0) {
                combine(&mut self.pool, *x, *y)
            } else {
                combine(&mut self.pool, *y, *x)
            }
        }
    }
}

/// The operation of the tournament over `rng` under `lt`, with `pool` for
/// the lists of the beaten.
pub fn min12_op<'a, T, C>(lt: C, rng: &'a [T], pool: ListPool<usize>) -> (r: Min12Op<'a, T, C>) where
    C: Fn(&T, &T) -> bool,

    ensures
        r.values() == rng@,
        r.comparator() == lt,
        r.lists() == pool,
{
    Min12Op { rng, lt, pool }
}

/// The positions `at` as integers.
spec fn ints(at: Seq<usize>) -> Seq<int> {
    Seq::new(at.len(), |k: int| at[k] as int)
}

/// The values of `s` at the positions `at`.
pub open spec fn picks<T>(s: Seq<T>, at: Seq<int>) -> Seq<T> {
    Seq::new(at.len(), |k: int| s[at[k]])
}

/// `p` is the runner-up of the standing `st`: the first, in the order in
/// which the winner has beaten them, of the beaten positions that hold a
/// smallest value among the beaten.
pub open spec fn is_runner_up<T>(s: Seq<T>, rel: spec_fn(T, T) -> bool, st: Standing, p: int) -> bool {
    exists|k: int|
        0 <= k < st.beaten.len() && #[trigger] st.beaten[k] == p && is_first_min(
            picks(s, st.beaten),
            rel,
            0,
            st.beaten.len() as int,
            k,
        )
}

/// The contestant `v` holds the standing `st`: the same winner, a
/// position below `bound`, and a list in `pool` of the positions that
/// `st` names as beaten.
spec fn stands_for(
    pool: PoolModel<usize>,
    v: Min12EltType<usize>,
    st: Standing,
    bound: usize,
) -> bool {
    &&& v.0 == st.winner
    &&& v.0 < bound
    &&& pool.is_list(v.1)
    &&& ints(pool.values(v.1)) == st.beaten
}

/// Number of full slots from `from` upwards.
spec fn population(ideal: Slots, from: int) -> nat
    decreases ideal.len() - from,
{
    if from < 0 || from >= ideal.len() {
        0
    } else {
        population(ideal, from + 1) + if ideal[from] is Some {
            1nat
        } else {
            0nat
        }
    }
}

/// From slot `from` upwards the slots of a counter of contestants hold
/// the standings of the slots of a counter of standings, in lists that
/// share no node, and `zero` where those are empty; and the pool has
/// room to grow by one node for every further match that these slots
/// can play before `room` is used up.
spec fn lists_match(
    pool: PoolModel<usize>,
    slots: Seq<Min12EltType<usize>>,
    ideal: Slots,
    zero: Min12EltType<usize>,
    from: int,
    room: int,
) -> bool {
    &&& pool.wf()
    &&& slots.len() == ideal.len()
    &&& 0 <= from <= slots.len()
    &&& pool.size() + population(ideal, from) <= room <= usize::MAX
    &&& forall|i: int|
        from <= i < slots.len() ==> match #[trigger] ideal[i] {
            None => slots[i] == zero,
            Some(st) => stands_for(pool, slots[i], st, zero.0),
        }
    &&& forall|i: int, j: int|
        from <= i < slots.len() && from <= j < slots.len() && i != j && #[trigger] ideal[i] is Some
            && #[trigger] ideal[j] is Some ==> pool.apart(slots[i].1, slots[j].1)
}

/// The contestant `carry` holds the standing `icarry`, in a list that
/// shares no node with the lists of the slots from `from` upwards.
spec fn carry_matches(
    pool: PoolModel<usize>,
    slots: Seq<Min12EltType<usize>>,
    ideal: Slots,
    zero: Min12EltType<usize>,
    from: int,
    carry: Min12EltType<usize>,
    icarry: Standing,
) -> bool {
    &&& stands_for(pool, carry, icarry, zero.0)
    &&& forall|i: int|
        from <= i < slots.len() && #[trigger] ideal[i] is Some ==> pool.apart(carry.1, slots[i].1)
}

/// Filling or emptying slot `i` changes the number of full slots from
/// `from` upwards by one if `from <= i`, and not at all otherwise.
proof fn lemma_population_update(ideal: Slots, i: int, v: Option<Standing>, from: int)
    requires
        0 <= i < ideal.len(),
        0 <= from <= ideal.len(),
    ensures
        population(ideal.update(i, v), from) + (if from <= i && ideal[i] is Some {
            1nat
        } else {
            0nat
        }) == population(ideal, from) + (if from <= i && v is Some {
            1nat
        } else {
            0nat
        }),
    decreases ideal.len() - from,
{
    if from < ideal.len() {
        lemma_population_update(ideal, i, v, from + 1);
    }
}

/// A full slot counts.
proof fn lemma_population_pos(ideal: Slots, i: int, from: int)
    requires
        0 <= from <= i < ideal.len(),
        ideal[i] is Some,
    ensures
        population(ideal, from) >= 1,
    decreases ideal.len() - from,
{
    if from < i {
        lemma_population_pos(ideal, i, from + 1);
    }
}

/// A new slot at the end counts if it is full.
proof fn lemma_population_push(ideal: Slots, v: Option<Standing>, from: int)
    requires
        0 <= from <= ideal.len(),
    ensures
        population(ideal.push(v), from) == population(ideal, from) + (if v is Some {
            1nat
        } else {
            0nat
        }),
    decreases ideal.len() - from,
{
    if from < ideal.len() {
        lemma_population_push(ideal, v, from + 1);
    } else {
        assert(population(ideal.push(v), from + 1) == 0);
    }
}

/// One match of the tournament, as the pool sees it: the result holds
/// the standing that the match gives, and every list that shares no node
/// with the two that met is left alone and apart from the result's.
proof fn lemma_match<T>(
    m: Ranking<T>,
    pool: PoolModel<usize>,
    x: Min12EltType<usize>,
    ix: Standing,
    y: Min12EltType<usize>,
    iy: Standing,
    bound: usize,
)
    requires
        pool.wf(),
        pool.size() < usize::MAX,
        bound <= m.seq.len(),
        stands_for(pool, x, ix, bound),
        stands_for(pool, y, iy, bound),
        pool.apart(x.1, y.1),
    ensures
        match_after(m, pool, x, y).wf(),
        match_after(m, pool, x, y).size() <= pool.size() + 1,
        stands_for(
            match_after(m, pool, x, y),
            match_value(m, pool, x, y),
            play(m.seq, m.rel, ix, iy),
            bound,
        ),
        forall|z: ListType|
            #[trigger] pool.is_list(z) && pool.apart(z, x.1) && pool.apart(z, y.1) ==> {
                let after = match_after(m, pool, x, y);
                let r = match_value(m, pool, x, y);
                &&& after.is_list(z)
                &&& after.chain(z) == pool.chain(z)
                &&& after.values(z) == pool.values(z)
                &&& after.apart(r.1, z)
            },
{
    let w = winner_of(m, x, y);
    let l = loser_of(m, x, y);
    let after = pool.combined(w.1, l.0, l.1);
    let h = pool.combined_handle(l.1);
    let r = (w.0, h);
    let c = pool.chain(w.1);
    assert(pool.apart(w.1, l.1)) by {
        assert forall|g: ListType| !(#[trigger] pool.chain(w.1).contains(g) && pool.chain(
            l.1,
        ).contains(g)) by {
            if pool.chain(x.1).contains(g) && pool.chain(y.1).contains(g) {
            }
        }
    }
    pool.lemma_combined_frame(w.1, l.0, l.1, w.1);
    let grown = seq![h] + c;
    assert(grown.drop_first() =~= c);
    assert(after.is_chain(h, grown));
    after.lemma_chain_is(h, grown);
    assert(ints(after.values(h)) =~= play(m.seq, m.rel, ix, iy).beaten) by {
        let iw = if w == x { ix } else { iy };
        let il = if w == x { iy } else { ix };
        assert(play(m.seq, m.rel, ix, iy).beaten == seq![il.winner] + iw.beaten);
        assert(ints(pool.values(w.1)) == iw.beaten);
        assert forall|k: int| 0 <= k < grown.len() implies ints(after.values(h))[k] == (
        seq![il.winner] + iw.beaten)[k] by {
            if k > 0 {
                assert(grown[k] == c[k - 1]);
                assert(ints(pool.values(w.1))[k - 1] == pool.value(c[k - 1]));
            }
        }
    }
    assert forall|z: ListType|
        #[trigger] pool.is_list(z) && pool.apart(z, x.1) && pool.apart(z, y.1) implies {
        &&& after.is_list(z)
        &&& after.chain(z) == pool.chain(z)
        &&& after.values(z) == pool.values(z)
        &&& after.apart(h, z)
    } by {
        pool.lemma_combined_frame(w.1, l.0, l.1, z);
        assert forall|g: ListType| !(#[trigger] after.chain(h).contains(g) && after.chain(
            z,
        ).contains(g)) by {
            if grown.contains(g) && pool.chain(z).contains(g) {
                let k = choose|k: int| 0 <= k < grown.len() && grown[k] == g;
                if k > 0 {
                    assert(c[k - 1] == g);
                    assert(c.contains(g));
                    assert(pool.chain(z).contains(g) && pool.chain(w.1).contains(g));
                }
            }
        }
    }
}

/// A position that has not played yet is a contestant with an empty
/// list, which shares no node with any list.
proof fn lemma_fresh(pool: PoolModel<usize>, i: usize, bound: usize)
    requires
        i < bound,
    ensures
        stands_for(pool, (i, 0usize), leaf(i as int), bound),
        forall|z: ListType| #[trigger] pool.apart(0usize, z),
{
    pool.lemma_chain_is(0usize, Seq::<ListType>::empty());
    assert(ints(pool.values(0usize)) =~= leaf(i as int).beaten);
}

/// Carrying a contestant through a counter of contestants goes as
/// carrying its standing through the counter of standings.
proof fn lemma_tour_carry<'a, T: 'a, C: Fn(&T, &T) -> bool>(
    m: Ranking<T>,
    pool: PoolModel<usize>,
    slots: Seq<Min12EltType<usize>>,
    ideal: Slots,
    zero: Min12EltType<usize>,
    i: int,
    carry: Min12EltType<usize>,
    icarry: Standing,
    room: int,
)
    requires
        lists_match(pool, slots, ideal, zero, 0, room - 1),
        carry_matches(pool, slots, ideal, zero, 0, carry, icarry),
        0 <= i <= slots.len(),
        zero.0 <= m.seq.len(),
        room <= usize::MAX,
    ensures
        carry_defined::<Min12EltType<usize>, Min12Op<'a, T, C>>(
            m,
            pool,
            slots,
            i,
            slots.len() as int,
            zero,
            carry,
        ),
        ({
            let c = carried::<Min12EltType<usize>, Min12Op<'a, T, C>>(
                m,
                pool,
                slots,
                i,
                slots.len() as int,
                zero,
                carry,
            );
            let ic = ideal_carried(m.seq, m.rel, ideal, i, icarry);
            match ic.1 {
                None => c.2 == zero && lists_match(c.0, c.1, ic.0, zero, 0, room),
                Some(st) => lists_match(c.0, c.1, ic.0, zero, 0, room - 1) && carry_matches(
                    c.0,
                    c.1,
                    ic.0,
                    zero,
                    0,
                    c.2,
                    st,
                ),
            }
        }),
    decreases slots.len() - i,
{
    if i < slots.len() {
        let v = slots[i];
        match ideal[i] {
            None => {
                assert(v == zero);
                let after = slots.update(i, carry);
                let iafter = ideal.update(i, Some(icarry));
                lemma_population_update(ideal, i, Some(icarry), 0);
                assert forall|j: int| 0 <= j < after.len() implies match #[trigger] iafter[j] {
                    None => after[j] == zero,
                    Some(st) => stands_for(pool, after[j], st, zero.0),
                } by {
                    if j != i {
                        assert(iafter[j] == ideal[j]);
                    }
                }
                assert forall|j: int, k: int|
                    0 <= j < after.len() && 0 <= k < after.len() && j != k && #[trigger] iafter[j] is Some
                        && #[trigger] iafter[k] is Some implies pool.apart(after[j].1, after[k].1) by {
                    if j == i {
                        assert(ideal[k] is Some);
                    } else if k == i {
                        assert(ideal[j] is Some);
                        assert(pool.apart(carry.1, slots[j].1));
                    } else {
                        assert(ideal[j] is Some && ideal[k] is Some);
                    }
                }
                assert(lists_match(pool, after, iafter, zero, 0, room));
            },
            Some(si) => {
                assert(stands_for(pool, v, si, zero.0));
                assert(!v.eq_spec(&zero));
                assert(pool.apart(carry.1, v.1));
                assert(pool.apart(v.1, carry.1));
                lemma_population_pos(ideal, i, 0);
                lemma_match(m, pool, v, si, carry, icarry, zero.0);
                let next = match_value(m, pool, v, carry);
                let inext = play(m.seq, m.rel, si, icarry);
                let grown = match_after(m, pool, v, carry);
                let after = slots.update(i, zero);
                let iafter = ideal.update(i, None::<Standing>);
                lemma_population_update(ideal, i, None::<Standing>, 0);
                lemma_others_kept(m, pool, slots, ideal, zero, 0, i, v, carry);
                assert(carry_matches(grown, after, iafter, zero, 0, next, inext));
                assert(lists_match(grown, after, iafter, zero, 0, room - 1));
                lemma_tour_carry::<T, C>(m, grown, after, iafter, zero, i + 1, next, inext, room);
            },
        }
    }
}

/// After the match of the contestants `x` and `y`, one of which is the
/// slot `i`, the other slots from `from` upwards hold what they held, in
/// lists that still share no node with each other nor with the result's.
proof fn lemma_others_kept<T>(
    m: Ranking<T>,
    pool: PoolModel<usize>,
    slots: Seq<Min12EltType<usize>>,
    ideal: Slots,
    zero: Min12EltType<usize>,
    from: int,
    i: int,
    x: Min12EltType<usize>,
    y: Min12EltType<usize>,
)
    requires
        pool.wf(),
        pool.size() < usize::MAX,
        zero.0 <= m.seq.len(),
        slots.len() == ideal.len(),
        0 <= from <= i < slots.len(),
        ideal[i] is Some,
        x == slots[i] || y == slots[i],
        exists|ix: Standing, iy: Standing|
            stands_for(pool, x, ix, zero.0) && stands_for(pool, y, iy, zero.0),
        pool.apart(x.1, y.1),
        forall|j: int|
            from <= j < slots.len() && j != i && #[trigger] ideal[j] is Some ==> stands_for(
                pool,
                slots[j],
                ideal[j]->Some_0,
                zero.0,
            ) && pool.apart(slots[j].1, x.1) && pool.apart(slots[j].1, y.1),
        forall|j: int, k: int|
            from <= j < slots.len() && from <= k < slots.len() && j != k && #[trigger] ideal[j] is Some
                && #[trigger] ideal[k] is Some ==> pool.apart(slots[j].1, slots[k].1),
    ensures
        forall|j: int|
            from <= j < slots.len() && j != i && #[trigger] ideal[j] is Some ==> stands_for(
                match_after(m, pool, x, y),
                slots[j],
                ideal[j]->Some_0,
                zero.0,
            ) && match_after(m, pool, x, y).apart(match_value(m, pool, x, y).1, slots[j].1),
        forall|j: int, k: int|
            from <= j < slots.len() && from <= k < slots.len() && j != k && j != i && k != i
                && #[trigger] ideal[j] is Some && #[trigger] ideal[k] is Some ==> match_after(
                m,
                pool,
                x,
                y,
            ).apart(slots[j].1, slots[k].1),
{
    let (ix, iy) = choose|ix: Standing, iy: Standing|
        stands_for(pool, x, ix, zero.0) && stands_for(pool, y, iy, zero.0);
    lemma_match(m, pool, x, ix, y, iy, zero.0);
    let after = match_after(m, pool, x, y);
    assert forall|j: int|
        from <= j < slots.len() && j != i && #[trigger] ideal[j] is Some implies stands_for(
        after,
        slots[j],
        ideal[j]->Some_0,
        zero.0,
    ) && after.apart(match_value(m, pool, x, y).1, slots[j].1) by {
        assert(pool.is_list(slots[j].1));
    }
    assert forall|j: int, k: int|
        from <= j < slots.len() && from <= k < slots.len() && j != k && j != i && k != i
            && #[trigger] ideal[j] is Some && #[trigger] ideal[k] is Some implies after.apart(
        slots[j].1,
        slots[k].1,
    ) by {
        assert(pool.is_list(slots[j].1));
        assert(pool.is_list(slots[k].1));
        assert(pool.apart(slots[j].1, slots[k].1));
        assert(after.chain(slots[j].1) == pool.chain(slots[j].1));
        assert(after.chain(slots[k].1) == pool.chain(slots[k].1));
    }
}

/// Adding a position to a counter of contestants goes as adding its leaf
/// to the counter of standings.
proof fn lemma_tour_add<'a, T: 'a, C: Fn(&T, &T) -> bool>(
    m: Ranking<T>,
    pool: PoolModel<usize>,
    slots: Seq<Min12EltType<usize>>,
    first: int,
    n: nat,
    zero: Min12EltType<usize>,
)
    requires
        lists_match(pool, slots, ideal_slots(m.seq, m.rel, first, n), zero, 0, n as int),
        0 <= first,
        first + n < zero.0 <= m.seq.len(),
        zero.1 == 0,
    ensures
        carry_defined::<Min12EltType<usize>, Min12Op<'a, T, C>>(
            m,
            pool,
            slots,
            0,
            slots.len() as int,
            zero,
            ((first + n) as usize, 0usize),
        ),
        ({
            let a = added::<Min12EltType<usize>, Min12Op<'a, T, C>>(
                m,
                pool,
                slots,
                zero,
                ((first + n) as usize, 0usize),
            );
            lists_match(a.0, a.1, ideal_slots(m.seq, m.rel, first, n + 1), zero, 0, n as int + 1)
        }),
{
    let ideal = ideal_slots(m.seq, m.rel, first, n);
    let x = ((first + n) as usize, 0usize);
    let ix = leaf(first + n);
    lemma_fresh(pool, (first + n) as usize, zero.0);
    lemma_tour_carry::<T, C>(m, pool, slots, ideal, zero, 0, x, ix, n as int + 1);
    let c = carried::<Min12EltType<usize>, Min12Op<'a, T, C>>(
        m,
        pool,
        slots,
        0,
        slots.len() as int,
        zero,
        x,
    );
    let ic = ideal_carried(m.seq, m.rel, ideal, 0, ix);
    assert(ideal_slots(m.seq, m.rel, first, n + 1) == settled(ic));
    match ic.1 {
        None => {
            assert(c.2.eq_spec(&zero));
        },
        Some(st) => {
            assert(!c.2.eq_spec(&zero));
            let after = c.1.push(c.2);
            let iafter = ic.0.push(Some(st));
            lemma_population_push(ic.0, Some(st), 0);
            assert forall|j: int, k: int|
                0 <= j < after.len() && 0 <= k < after.len() && j != k && #[trigger] iafter[j] is Some
                    && #[trigger] iafter[k] is Some implies c.0.apart(after[j].1, after[k].1) by {
                if j == c.1.len() {
                    assert(ic.0[k] is Some);
                } else if k == c.1.len() {
                    assert(ic.0[j] is Some);
                    assert(c.0.apart(c.2.1, c.1[j].1));
                } else {
                    assert(ic.0[j] is Some && ic.0[k] is Some);
                }
            }
            assert(lists_match(c.0, after, iafter, zero, 0, n as int + 1));
        },
    }
}

/// Folding a counter of contestants goes as folding the counter of
/// standings.
proof fn lemma_tour_fold<'a, T: 'a, C: Fn(&T, &T) -> bool>(
    m: Ranking<T>,
    pool: PoolModel<usize>,
    slots: Seq<Min12EltType<usize>>,
    ideal: Slots,
    zero: Min12EltType<usize>,
    i: int,
    acc: Min12EltType<usize>,
    iacc: Standing,
    room: int,
)
    requires
        lists_match(pool, slots, ideal, zero, i, room - 1),
        carry_matches(pool, slots, ideal, zero, i, acc, iacc),
        zero.0 <= m.seq.len(),
    ensures
        fold_defined::<Min12EltType<usize>, Min12Op<'a, T, C>>(
            m,
            pool,
            slots,
            i,
            slots.len() as int,
            zero,
            acc,
        ),
        ({
            let f = folded::<Min12EltType<usize>, Min12Op<'a, T, C>>(
                m,
                pool,
                slots,
                i,
                slots.len() as int,
                zero,
                acc,
            );
            f.0.wf() && stands_for(f.0, f.1, ideal_folded(m.seq, m.rel, ideal, i, iacc), zero.0)
        }),
    decreases slots.len() - i,
{
    if i < slots.len() {
        let v = slots[i];
        match ideal[i] {
            None => {
                assert(v == zero);
                assert(lists_match(pool, slots, ideal, zero, i + 1, room - 1));
                lemma_tour_fold::<T, C>(m, pool, slots, ideal, zero, i + 1, acc, iacc, room);
            },
            Some(si) => {
                assert(stands_for(pool, v, si, zero.0));
                assert(!v.eq_spec(&zero));
                assert(pool.apart(acc.1, v.1));
                lemma_population_pos(ideal, i, i);
                lemma_match(m, pool, acc, iacc, v, si, zero.0);
                let next = match_value(m, pool, acc, v);
                let inext = play(m.seq, m.rel, iacc, si);
                let grown = match_after(m, pool, acc, v);
                assert forall|j: int|
                    i <= j < slots.len() && j != i && #[trigger] ideal[j] is Some implies stands_for(
                    pool,
                    slots[j],
                    ideal[j]->Some_0,
                    zero.0,
                ) && pool.apart(slots[j].1, acc.1) && pool.apart(slots[j].1, v.1) by {
                    assert(pool.apart(acc.1, slots[j].1));
                    assert(pool.apart(slots[j].1, slots[i].1));
                }
                lemma_others_kept(m, pool, slots, ideal, zero, i, i, acc, v);
                assert(carry_matches(grown, slots, ideal, zero, i + 1, next, inext));
                assert(lists_match(grown, slots, ideal, zero, i + 1, room - 1));
                lemma_tour_fold::<T, C>(m, grown, slots, ideal, zero, i + 1, next, inext, room);
            },
        }
    }
}

/// Reducing a counter of contestants goes as reducing the counter of
/// standings.
proof fn lemma_tour_reduce<'a, T: 'a, C: Fn(&T, &T) -> bool>(
    m: Ranking<T>,
    pool: PoolModel<usize>,
    slots: Seq<Min12EltType<usize>>,
    ideal: Slots,
    zero: Min12EltType<usize>,
    i: int,
    room: int,
)
    requires
        lists_match(pool, slots, ideal, zero, i, room),
        zero.0 <= m.seq.len(),
    ensures
        reduce_defined::<Min12EltType<usize>, Min12Op<'a, T, C>>(
            m,
            pool,
            slots,
            i,
            slots.len() as int,
            zero,
        ),
        ({
            let r = reduced::<Min12EltType<usize>, Min12Op<'a, T, C>>(
                m,
                pool,
                slots,
                i,
                slots.len() as int,
                zero,
            );
            match ideal_reduced(m.seq, m.rel, ideal, i) {
                None => r.1 == zero,
                Some(st) => r.0.wf() && stands_for(r.0, r.1, st, zero.0),
            }
        }),
    decreases slots.len() - i,
{
    if i < slots.len() {
        let v = slots[i];
        match ideal[i] {
            None => {
                assert(v == zero);
                assert(lists_match(pool, slots, ideal, zero, i + 1, room));
                lemma_tour_reduce::<T, C>(m, pool, slots, ideal, zero, i + 1, room);
            },
            Some(si) => {
                assert(stands_for(pool, v, si, zero.0));
                assert(!v.eq_spec(&zero));
                assert(lists_match(pool, slots, ideal, zero, i + 1, room - 1));
                assert(carry_matches(pool, slots, ideal, zero, i + 1, v, si));
                lemma_tour_fold::<T, C>(m, pool, slots, ideal, zero, i + 1, v, si, room);
            },
        }
    }
}

/// An order on values, read as an order on positions of `s`.
spec fn at_positions<T>(s: Seq<T>, rel: spec_fn(T, T) -> bool) -> spec_fn(usize, usize) -> bool {
    |a: usize, b: usize| rel(s[a as int], s[b as int])
}

/// A strict weak order on values is one on positions too.
proof fn lemma_at_positions<T>(s: Seq<T>, rel: spec_fn(T, T) -> bool)
    requires
        strict_weak_order(rel),
    ensures
        strict_weak_order(at_positions(s, rel)),
{
    let ranks = at_positions(s, rel);
    assert forall|a: usize, b: usize, c: usize| #[trigger]
        incomparable(ranks, a, b) && #[trigger] incomparable(ranks, b, c) implies incomparable(
        ranks,
        a,
        c,
    ) by {
        assert(incomparable(rel, s[a as int], s[b as int]));
        assert(incomparable(rel, s[b as int], s[c as int]));
    }
}

/// Positions of the smallest and of the second-smallest element of
/// `rng[first..last]`, found by a knockout tournament with the fewest
/// comparisons: `n - 1` for the winner of `n` elements, and one less
/// than the number of elements that the winner has beaten, at most
/// `ceil_log2(n)`, for the runner-up.
///
/// The first component is the winner of the tournament over the range,
/// under a strict weak order the first of the smallest elements; the
/// second is the smallest of those that the winner has beaten, and of
/// several smallest the one beaten last. A range of fewer than two
/// elements gives `(first, first)`.
pub fn min_element12<T, C>(rng: &[T], first: usize, last: usize, lt: C) -> (r: Result<
    (usize, usize),
    Error,
>) where C: Fn(&T, &T) -> bool
    requires
        callable(lt),
        exists|rel: spec_fn(T, T) -> bool| decides(lt, rel),
    ensures
        !range_ok(first, last, rng@.len()) ==> r == Err::<(usize, usize), Error>(
            Error::IndexOutOfRange,
        ),
        range_ok(first, last, rng@.len()) ==> r is Ok,
        range_ok(first, last, rng@.len()) && last - first < 2 ==> r == Ok::<(usize, usize), Error>(
            (first, first),
        ),
        forall|rel: spec_fn(T, T) -> bool|
            range_ok(first, last, rng@.len()) && last - first >= 2 && #[trigger] decides(lt, rel)
                ==> r->Ok_0.0 == bracket(rng@, rel, first as int, (last - first) as nat).winner,
        forall|rel: spec_fn(T, T) -> bool|
            range_ok(first, last, rng@.len()) && last - first >= 2 && #[trigger] decides(lt, rel)
                && strict_weak_order(rel) ==> is_first_min(
                rng@,
                rel,
                first as int,
                last as int,
                r->Ok_0.0 as int,
            ) && is_runner_up(
                rng@,
                rel,
                bracket(rng@, rel, first as int, (last - first) as nat),
                r->Ok_0.1 as int,
            ),
{
    if first > last || last > rng.len() {
        return Err(Error::IndexOutOfRange);
    }
    if first == last || first + 1 == last {
        return Ok((first, first));
    }
    let ghost asked = lt;
    let ghost n = (last - first) as nat;
    let pool = ListPool::<usize>::with_capacity(256);
    let zero = (last, ListPool::<usize>::end());
    let mut counter = BinaryCounter::with_capacity(min12_op(lt, rng, pool), zero, 16);
    proof {
        let rel = choose|rel: spec_fn(T, T) -> bool| decides(asked, rel);
        assert(counter.op().conforms(Ranking { seq: rng@, rel }));
        pool.lemma_wf();
        assert forall|m: Ranking<T>| #[trigger] counter.op().conforms(m) implies lists_match(
            counter.op().state(),
            counter.slots(),
            ideal_slots(m.seq, m.rel, first as int, 0),
            zero,
            0,
            0,
        ) by {}
    }
    let mut i = first;
    while i != last
        invariant
            first <= i <= last <= rng@.len(),
            zero == (last, 0usize),
            counter.zero() == zero,
            exists|m: Ranking<T>| counter.op().conforms(m),
            forall|m: Ranking<T>| #[trigger]
                counter.op().conforms(m) ==> m.seq == rng@ && decides(asked, m.rel),
            forall|rel: spec_fn(T, T) -> bool| #[trigger]
                decides(asked, rel) ==> counter.op().conforms(Ranking { seq: rng@, rel }),
            forall|m: Ranking<T>| #[trigger]
                counter.op().conforms(m) ==> lists_match(
                    counter.op().state(),
                    counter.slots(),
                    ideal_slots(m.seq, m.rel, first as int, (i - first) as nat),
                    zero,
                    0,
                    i - first,
                ),
        decreases last - i,
    {
        let ghost before = counter;
        proof {
            assert forall|m: Ranking<T>| #[trigger] counter.op().conforms(m) implies counter.add_defined(
                m,
                (i, 0usize),
            ) by {
                lemma_tour_add::<T, C>(
                    m,
                    counter.op().state(),
                    counter.slots(),
                    first as int,
                    (i - first) as nat,
                    zero,
                );
            }
        }
        counter.add((i, ListPool::<usize>::end()));
        proof {
            let witness = choose|m: Ranking<T>| before.op().conforms(m);
            assert(counter.op().conforms(witness));
            assert forall|m: Ranking<T>| #[trigger] counter.op().conforms(m) implies lists_match(
                counter.op().state(),
                counter.slots(),
                ideal_slots(m.seq, m.rel, first as int, (i + 1 - first) as nat),
                zero,
                0,
                i + 1 - first,
            ) by {
                assert(before.op().conforms(m));
                lemma_tour_add::<T, C>(
                    m,
                    before.op().state(),
                    before.slots(),
                    first as int,
                    (i - first) as nat,
                    zero,
                );
            }
            assert forall|rel: spec_fn(T, T) -> bool| #[trigger] decides(asked, rel) implies counter.op().conforms(
                Ranking { seq: rng@, rel },
            ) by {
                assert(before.op().conforms(Ranking { seq: rng@, rel }));
            }
        }
        i += 1;
    }
    proof {
        assert forall|m: Ranking<T>| #[trigger] counter.op().conforms(m) implies counter.reduction_defined(
            m,
        ) by {
            lemma_tour_reduce::<T, C>(
                m,
                counter.op().state(),
                counter.slots(),
                ideal_slots(m.seq, m.rel, first as int, n),
                zero,
                0,
                n as int,
            );
        }
    }
    let ghost full = counter;
    let (min1, min1_list) = counter.reduce();
    let op = counter.operation();
    let ghost lists = op.lists()@;
    proof {
        assert forall|m: Ranking<T>| #[trigger] full.op().conforms(m) implies stands_for(
            lists,
            (min1, min1_list),
            bracket(rng@, m.rel, first as int, n),
            last,
        ) by {
            lemma_tour_reduce::<T, C>(
                m,
                full.op().state(),
                full.slots(),
                ideal_slots(m.seq, m.rel, first as int, n),
                zero,
                0,
                n as int,
            );
            lemma_counter_plays_bracket(rng@, m.rel, first as int, n);
        }
        let m0 = choose|m: Ranking<T>| full.op().conforms(m);
        assert(counter.op().conforms(m0));
        lemma_bracket_shape(rng@, m0.rel, first as int, n);
        let b0 = bracket(rng@, m0.rel, first as int, n);
        assert(ints(lists.values(min1_list)) == b0.beaten);
        assert forall|j: int| 0 <= j < lists.values(min1_list).len() implies #[trigger] lists.values(
            min1_list,
        )[j] < rng@.len() by {
            assert(ints(lists.values(min1_list))[j] == b0.beaten[j]);
        }
        assert(ints(lists.values(min1_list)).len() >= 1);
        assert(min1_list != 0);
        lists.lemma_chain_tail(min1_list, lists.chain(min1_list), 0);
        op.lists().lemma_wf();
    }
    let by_value = |a: &usize, b: &usize| -> (r: bool)
        requires
            *a < op.values().len(),
            *b < op.values().len(),
        ensures
            call_ensures(op.comparator(), (&op.values()[*a as int], &op.values()[*b as int]), r),
        { op.precedes(*a, *b) };
    let min2_loc = min_element_list(op.pool(), min1_list, by_value);
    proof {
        let chain = lists.chain(min1_list);
        assert(chain[chain.index_of(min2_loc)] == min2_loc);
    }
    let min2 = *op.pool().value(min2_loc).unwrap();
    proof {
        let chain = lists.chain(min1_list);
        let values = lists.values(min1_list);
        let k = chain.index_of(min2_loc);
        lists.lemma_chain_tail(min1_list, chain, 0);
        assert(chain[k] == min2_loc);
        assert(values[k] == min2);
        assert forall|rel: spec_fn(T, T) -> bool|
            #[trigger] decides(asked, rel) && strict_weak_order(rel) implies is_first_min(
            rng@,
            rel,
            first as int,
            last as int,
            min1 as int,
        ) && is_runner_up(rng@, rel, bracket(rng@, rel, first as int, n), min2 as int) by {
            let m = Ranking { seq: rng@, rel };
            assert(full.op().conforms(m));
            let b = bracket(rng@, rel, first as int, n);
            let ranks = at_positions(rng@, rel);
            lemma_at_positions(rng@, rel);
            assert(counter.op().conforms(m));
            assert forall|a: usize, b: usize, r: bool| #[trigger]
                call_ensures(by_value, (&a, &b), r) implies r == ranks(a, b) by {
                assert(call_ensures(
                    op.comparator(),
                    (&op.values()[a as int], &op.values()[b as int]),
                    r,
                ));
            }
            assert(decides(by_value, ranks));
            assert(is_first_min(values, ranks, 0, chain.len() as int, k));
            assert(ints(values) == b.beaten);
            assert(b.beaten[k] == ints(values)[k]);
            assert forall|j: int| 0 <= j < b.beaten.len() implies picks(rng@, b.beaten)[j]
                == rng@[values[j] as int] by {
                assert(b.beaten[j] == ints(values)[j]);
            }
            assert forall|j: int| 0 <= j < b.beaten.len() implies !#[trigger] rel(
                picks(rng@, b.beaten)[j],
                picks(rng@, b.beaten)[k],
            ) by {
                assert(!ranks(values[j], values[k]));
            }
            assert forall|j: int| 0 <= j < k implies #[trigger] rel(
                picks(rng@, b.beaten)[k],
                picks(rng@, b.beaten)[j],
            ) by {
                assert(ranks(values[k], values[j]));
            }
            assert(is_first_min(picks(rng@, b.beaten), rel, 0, b.beaten.len() as int, k));
            lemma_bracket_first_min(rng@, rel, first as int, n);
        }
    }
    Ok((min1, min2))
}

} // verus!
