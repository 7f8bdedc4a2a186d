//! The knockout tournament as mathematics.
//!
//! A tournament over a range of positions is played in blocks. A block of
//! `2^k` positions is decided by a balanced knockout: its two halves are
//! decided first, and the two winners then meet. A range of any other
//! length is cut into blocks of falling size, largest first; the blocks
//! are decided one by one, and their winners meet from the last block
//! backwards. This is the order in which a binary counter combines what
//! is added to it, which the second half of this module proves. In every
//! match the earlier position keeps a tie, so that under a strict weak
//! order the winner is the first position that holds a smallest value.
use crate::order::{is_first_min, lemma_split, strict_weak_order};
use crate::powers::{
    ceil_log2, lemma_pow2_pos, lemma_top_exp, lemma_top_exp_below, lemma_top_exp_bounds, pow2,
    top_exp,
};
use vstd::prelude::*;

verus! {

/// How a contestant stands: the position that has won so far, and the
/// positions it has beaten itself, the last one beaten first.
pub struct Standing {
    /// The winning position.
    pub winner: int,
    /// The positions that lost to the winner directly.
    pub beaten: Seq<int>,
}

/// A position that has not played yet.
pub open spec fn leaf(i: int) -> Standing {
    Standing { winner: i, beaten: Seq::empty() }
}

/// Of two standings the one whose winner comes first in the sequence,
/// and `x` if both have the same winner.
pub open spec fn earlier(x: Standing, y: Standing) -> Standing {
    if x.winner <= y.winner {
        x
    } else {
        y
    }
}

/// Of two standings the one whose winner comes later in the sequence,
/// and `y` if both have the same winner.
pub open spec fn later(x: Standing, y: Standing) -> Standing {
    if x.winner <= y.winner {
        y
    } else {
        x
    }
}

/// The match of `x` against `y`, in either order: the later of the two
/// winners wins if its value precedes that of the earlier one, else the
/// earlier one wins, so that a tie is kept by the earlier position. The
/// winner adds the loser to those it has beaten; what the loser had
/// beaten is forgotten.
pub open spec fn play<T>(s: Seq<T>, rel: spec_fn(T, T) -> bool, x: Standing, y: Standing) -> Standing {
    let e = earlier(x, y);
    let l = later(x, y);
    if rel(s[l.winner], s[e.winner]) {
        Standing { winner: l.winner, beaten: seq![e.winner] + l.beaten }
    } else {
        Standing { winner: e.winner, beaten: seq![l.winner] + e.beaten }
    }
}

/// The balanced knockout over the block of `2^k` positions that starts at
/// `a`: the winner of the first half meets the winner of the second.
pub open spec fn knockout<T>(s: Seq<T>, rel: spec_fn(T, T) -> bool, a: int, k: nat) -> Standing
    decreases k,
{
    if k == 0 {
        leaf(a)
    } else {
        play(
            s,
            rel,
            knockout(s, rel, a, (k - 1) as nat),
            knockout(s, rel, a + pow2((k - 1) as nat), (k - 1) as nat),
        )
    }
}

/// The tournament over the `n >= 1` positions that start at `a`: the
/// largest block of `2^k` positions that fits is cut off at the front
/// and decided by knockout; the winner of the rest, decided the same
/// way, then meets the winner of the block.
pub open spec fn bracket<T>(s: Seq<T>, rel: spec_fn(T, T) -> bool, a: int, n: nat) -> Standing
    decreases n,
{
    let k = top_exp(n);
    if 0 < pow2(k) < n {
        play(s, rel, bracket(s, rel, a + pow2(k), (n - pow2(k)) as nat), knockout(s, rel, a, k))
    } else {
        knockout(s, rel, a, k)
    }
}

/// Whatever the order, the knockout over a block has its winner and all
/// the beaten in the block, and the winner has beaten one position in
/// every round.
pub proof fn lemma_knockout_shape<T>(s: Seq<T>, rel: spec_fn(T, T) -> bool, a: int, k: nat)
    ensures
        a <= knockout(s, rel, a, k).winner < a + pow2(k),
        forall|j: int|
            0 <= j < knockout(s, rel, a, k).beaten.len() ==> a <= #[trigger] knockout(
                s,
                rel,
                a,
                k,
            ).beaten[j] < a + pow2(k),
        knockout(s, rel, a, k).beaten.len() == k,
    decreases k,
{
    if k > 0 {
        let h = (k - 1) as nat;
        lemma_pow2_pos(h);
        lemma_knockout_shape(s, rel, a, h);
        lemma_knockout_shape(s, rel, a + pow2(h), h);
        let x = knockout(s, rel, a, h);
        let y = knockout(s, rel, a + pow2(h), h);
        let r = knockout(s, rel, a, k);
        assert(r == play(s, rel, x, y));
        assert forall|j: int| 0 <= j < r.beaten.len() implies a <= #[trigger] r.beaten[j] < a
            + pow2(k) by {
            if j > 0 {
                if r.winner == y.winner && r.beaten == seq![x.winner] + y.beaten {
                    assert(r.beaten[j] == y.beaten[j - 1]);
                } else {
                    assert(r.beaten[j] == x.beaten[j - 1]);
                }
            }
        }
    }
}

/// Whatever the order, the tournament over a range has its winner and
/// all the beaten in the range; the winner has beaten at most
/// `ceil_log2(n)` positions, and at least one if there are two
/// positions or more.
pub proof fn lemma_bracket_shape<T>(s: Seq<T>, rel: spec_fn(T, T) -> bool, a: int, n: nat)
    requires
        n >= 1,
    ensures
        a <= bracket(s, rel, a, n).winner < a + n,
        forall|j: int|
            0 <= j < bracket(s, rel, a, n).beaten.len() ==> a <= #[trigger] bracket(
                s,
                rel,
                a,
                n,
            ).beaten[j] < a + n,
        bracket(s, rel, a, n).beaten.len() <= ceil_log2(n),
        n >= 2 ==> bracket(s, rel, a, n).beaten.len() >= 1,
    decreases n,
{
    let k = top_exp(n);
    lemma_top_exp_bounds(n);
    lemma_pow2_pos(k);
    lemma_knockout_shape(s, rel, a, k);
    let r = bracket(s, rel, a, n);
    if pow2(k) < n {
        let rest = (n - pow2(k)) as nat;
        lemma_bracket_shape(s, rel, a + pow2(k), rest);
        lemma_top_exp_below(rest, k);
        let x = bracket(s, rel, a + pow2(k), rest);
        let y = knockout(s, rel, a, k);
        assert(r == play(s, rel, x, y));
        assert forall|j: int| 0 <= j < r.beaten.len() implies a <= #[trigger] r.beaten[j] < a + n by {
            if j > 0 {
                if r.winner == y.winner && r.beaten == seq![x.winner] + y.beaten {
                    assert(r.beaten[j] == y.beaten[j - 1]);
                } else {
                    assert(r.beaten[j] == x.beaten[j - 1]);
                }
            }
        }
    }
}

/// The position `j` fails to precede at least one of the positions that
/// the winner of `st` has beaten.
pub open spec fn matched<T>(s: Seq<T>, rel: spec_fn(T, T) -> bool, st: Standing, j: int) -> bool {
    exists|k: int| 0 <= k < st.beaten.len() && !#[trigger] rel(s[j], s[st.beaten[k]])
}

/// `st` is a fair outcome for the positions `[a, a + n)`: the winner is
/// one of them and none of them precedes it; the beaten are others of
/// them; and every position but the winner fails to precede at least one
/// of the beaten.
pub open spec fn fair<T>(s: Seq<T>, rel: spec_fn(T, T) -> bool, a: int, n: int, st: Standing) -> bool {
    &&& a <= st.winner < a + n
    &&& forall|j: int| a <= j < a + n ==> !#[trigger] rel(s[j], s[st.winner])
    &&& forall|k: int|
        0 <= k < st.beaten.len() ==> a <= #[trigger] st.beaten[k] < a + n && st.beaten[k]
            != st.winner
    &&& forall|j: int| a <= j < a + n && j != st.winner ==> #[trigger] matched(s, rel, st, j)
}

/// A match between fair outcomes of two ranges that lie side by side is a
/// fair outcome of both together, whichever of the two is named first.
pub proof fn lemma_play_fair<T>(
    s: Seq<T>,
    rel: spec_fn(T, T) -> bool,
    a: int,
    n1: int,
    n2: int,
    p: Standing,
    q: Standing,
)
    requires
        strict_weak_order(rel),
        n1 >= 0,
        n2 >= 0,
        fair(s, rel, a, n1, p),
        fair(s, rel, a + n1, n2, q),
    ensures
        fair(s, rel, a, n1 + n2, play(s, rel, p, q)),
        fair(s, rel, a, n1 + n2, play(s, rel, q, p)),
{
    lemma_match_fair(s, rel, a, n1, n2, p, q, p, q);
    lemma_match_fair(s, rel, a, n1, n2, p, q, q, p);
}

/// One match of `lemma_play_fair`: `x` and `y` are `p` and `q` in one of
/// the two orders.
proof fn lemma_match_fair<T>(
    s: Seq<T>,
    rel: spec_fn(T, T) -> bool,
    a: int,
    n1: int,
    n2: int,
    p: Standing,
    q: Standing,
    x: Standing,
    y: Standing,
)
    requires
        strict_weak_order(rel),
        n1 >= 0,
        n2 >= 0,
        fair(s, rel, a, n1, p),
        fair(s, rel, a + n1, n2, q),
        (x == p && y == q) || (x == q && y == p),
    ensures
        fair(s, rel, a, n1 + n2, play(s, rel, x, y)),
{
    let r = play(s, rel, x, y);
    assert(earlier(x, y) == p && later(x, y) == q);
    let later_wins = rel(s[q.winner], s[p.winner]);
    let w = if later_wins { q } else { p };
    let l = if later_wins { p } else { q };
    assert(r.winner == w.winner);
    assert(r.beaten == seq![l.winner] + w.beaten);
    let (wa, wn, la, ln) = if w == p && l == q {
        (a, n1, a + n1, n2)
    } else {
        (a + n1, n2, a, n1)
    };
    assert(fair(s, rel, wa, wn, w));
    assert(fair(s, rel, la, ln, l));
    assert forall|j: int| a <= j < a + n1 + n2 implies !#[trigger] rel(s[j], s[r.winner]) by {
        if la <= j < la + ln {
            assert(!rel(s[j], s[l.winner]));
            if rel(s[j], s[w.winner]) {
                if later_wins {
                    assert(rel(s[j], s[l.winner]));
                } else {
                    lemma_split(rel, s[j], s[l.winner], s[w.winner]);
                }
            }
        }
    }
    assert forall|k: int| 0 <= k < r.beaten.len() implies a <= #[trigger] r.beaten[k] < a + n1
        + n2 && r.beaten[k] != r.winner by {
        if k > 0 {
            assert(r.beaten[k] == w.beaten[k - 1]);
        }
    }
    assert forall|j: int| a <= j < a + n1 + n2 && j != r.winner implies #[trigger] matched(
        s,
        rel,
        r,
        j,
    ) by {
        if la <= j < la + ln {
            assert(r.beaten[0] == l.winner);
            assert(!rel(s[j], s[r.beaten[0]]));
        } else {
            assert(matched(s, rel, w, j));
            let k = choose|k: int| 0 <= k < w.beaten.len() && !#[trigger] rel(s[j], s[w.beaten[k]]);
            assert(r.beaten[k + 1] == w.beaten[k]);
            assert(!rel(s[j], s[r.beaten[k + 1]]));
        }
    }
}

/// Under a strict weak order the knockout over a block is a fair outcome
/// of the block.
pub proof fn lemma_knockout_fair<T>(s: Seq<T>, rel: spec_fn(T, T) -> bool, a: int, k: nat)
    requires
        strict_weak_order(rel),
    ensures
        fair(s, rel, a, pow2(k) as int, knockout(s, rel, a, k)),
    decreases k,
{
    if k > 0 {
        let h = (k - 1) as nat;
        lemma_pow2_pos(h);
        lemma_knockout_fair(s, rel, a, h);
        lemma_knockout_fair(s, rel, a + pow2(h), h);
        lemma_play_fair(
            s,
            rel,
            a,
            pow2(h) as int,
            pow2(h) as int,
            knockout(s, rel, a, h),
            knockout(s, rel, a + pow2(h), h),
        );
    }
}

/// Under a strict weak order the tournament over a range is a fair
/// outcome of the range.
pub proof fn lemma_bracket_fair<T>(s: Seq<T>, rel: spec_fn(T, T) -> bool, a: int, n: nat)
    requires
        strict_weak_order(rel),
        n >= 1,
    ensures
        fair(s, rel, a, n as int, bracket(s, rel, a, n)),
    decreases n,
{
    let k = top_exp(n);
    lemma_top_exp_bounds(n);
    lemma_pow2_pos(k);
    lemma_knockout_fair(s, rel, a, k);
    if pow2(k) < n {
        let rest = (n - pow2(k)) as nat;
        lemma_bracket_fair(s, rel, a + pow2(k), rest);
        lemma_play_fair(
            s,
            rel,
            a,
            pow2(k) as int,
            rest as int,
            knockout(s, rel, a, k),
            bracket(s, rel, a + pow2(k), rest),
        );
    }
}

/// Under a strict weak order the knockout over a block is won by the
/// first position of the block that holds a smallest value.
pub proof fn lemma_knockout_first_min<T>(s: Seq<T>, rel: spec_fn(T, T) -> bool, a: int, k: nat)
    requires
        strict_weak_order(rel),
    ensures
        is_first_min(s, rel, a, a + pow2(k), knockout(s, rel, a, k).winner),
    decreases k,
{
    if k > 0 {
        let h = (k - 1) as nat;
        lemma_pow2_pos(h);
        lemma_knockout_first_min(s, rel, a, h);
        lemma_knockout_first_min(s, rel, a + pow2(h), h);
        lemma_meeting_first_min(
            s,
            rel,
            a,
            pow2(h) as int,
            pow2(h) as int,
            knockout(s, rel, a, h),
            knockout(s, rel, a + pow2(h), h),
        );
    }
}

/// Under a strict weak order the winners of two ranges that lie side by
/// side, each the first smallest of its range, meet to give the first
/// smallest of both ranges together, whichever of the two is named
/// first.
pub proof fn lemma_meeting_first_min<T>(
    s: Seq<T>,
    rel: spec_fn(T, T) -> bool,
    a: int,
    n1: int,
    n2: int,
    p: Standing,
    q: Standing,
)
    requires
        strict_weak_order(rel),
        is_first_min(s, rel, a, a + n1, p.winner),
        is_first_min(s, rel, a + n1, a + n1 + n2, q.winner),
    ensures
        is_first_min(s, rel, a, a + n1 + n2, play(s, rel, p, q).winner),
        play(s, rel, q, p) == play(s, rel, p, q),
{
    let w = play(s, rel, p, q).winner;
    assert(earlier(p, q) == p && later(p, q) == q);
    assert(earlier(q, p) == p && later(q, p) == q);
    if rel(s[q.winner], s[p.winner]) {
        assert forall|j: int| a <= j < a + n1 + n2 implies !#[trigger] rel(s[j], s[w]) by {
            if j < a + n1 && rel(s[j], s[w]) {
                assert(rel(s[j], s[p.winner]));
            }
        }
        assert forall|j: int| a <= j < w implies #[trigger] rel(s[w], s[j]) by {
            if j < a + n1 {
                lemma_split(rel, s[w], s[j], s[p.winner]);
            }
        }
    } else {
        assert forall|j: int| a <= j < a + n1 + n2 implies !#[trigger] rel(s[j], s[w]) by {
            if j >= a + n1 && rel(s[j], s[w]) {
                lemma_split(rel, s[j], s[q.winner], s[w]);
            }
        }
    }
}

/// Under a strict weak order the tournament over a range is won by the
/// first position of the range that holds a smallest value: the
/// position that a linear scan finds.
pub proof fn lemma_bracket_first_min<T>(s: Seq<T>, rel: spec_fn(T, T) -> bool, a: int, n: nat)
    requires
        strict_weak_order(rel),
        n >= 1,
    ensures
        is_first_min(s, rel, a, a + n, bracket(s, rel, a, n).winner),
    decreases n,
{
    let k = top_exp(n);
    let p = pow2(k);
    lemma_top_exp_bounds(n);
    lemma_pow2_pos(k);
    lemma_knockout_first_min(s, rel, a, k);
    if p < n {
        let rest = (n - p) as nat;
        lemma_bracket_first_min(s, rel, a + p, rest);
        lemma_meeting_first_min(
            s,
            rel,
            a,
            p as int,
            rest as int,
            knockout(s, rel, a, k),
            bracket(s, rel, a + p, rest),
        );
    }
}

/// Number of matches that the knockout over a block of `2^k` positions
/// plays: those of its two halves, and the final.
pub open spec fn knockout_matches(k: nat) -> nat
    decreases k,
{
    if k == 0 {
        0
    } else {
        2 * knockout_matches((k - 1) as nat) + 1
    }
}

/// Number of matches that the tournament over `n >= 1` positions plays:
/// those of its first block, those of the rest, and the match between
/// the two winners.
pub open spec fn bracket_matches(n: nat) -> nat
    decreases n,
{
    let k = top_exp(n);
    if 0 < pow2(k) < n {
        bracket_matches((n - pow2(k)) as nat) + knockout_matches(k) + 1
    } else {
        knockout_matches(k)
    }
}

/// A knockout over `2^k` positions plays `2^k - 1` matches.
pub proof fn lemma_knockout_matches(k: nat)
    ensures
        knockout_matches(k) + 1 == pow2(k),
    decreases k,
{
    if k > 0 {
        lemma_knockout_matches((k - 1) as nat);
    }
}

/// A tournament over `n` positions plays `n - 1` matches, each of which
/// asks the order once.
pub proof fn lemma_bracket_matches(n: nat)
    requires
        n >= 1,
    ensures
        bracket_matches(n) + 1 == n,
    decreases n,
{
    let k = top_exp(n);
    lemma_top_exp_bounds(n);
    lemma_pow2_pos(k);
    lemma_knockout_matches(k);
    if pow2(k) < n {
        lemma_bracket_matches((n - pow2(k)) as nat);
    }
}

/// The matches of the tournament over `n >= 2` positions, and the
/// comparisons that a scan of the winner's list for its smallest entry
/// makes, one less than the list is long, are together at most
/// `n - 1 + ceil_log2(n) - 1`.
pub proof fn lemma_comparison_bound<T>(s: Seq<T>, rel: spec_fn(T, T) -> bool, a: int, n: nat)
    requires
        n >= 2,
    ensures
        bracket_matches(n) + (bracket(s, rel, a, n).beaten.len() - 1) <= n - 1 + ceil_log2(n) - 1,
        bracket_matches(n) + (bracket(s, rel, a, n).beaten.len() - 1) >= n - 1,
{
    lemma_bracket_matches(n);
    lemma_bracket_shape(s, rel, a, n);
}

/// What a binary counter of standings holds: slot `i` is empty or holds
/// one standing.
pub type Slots = Seq<Option<Standing>>;

/// Slots and carry after carrying `carry` upwards from slot `i`: the
/// standing of every full slot met plays the carry and the slot is
/// emptied; the carry is put down in the first empty slot.
pub open spec fn ideal_carried<T>(
    s: Seq<T>,
    rel: spec_fn(T, T) -> bool,
    slots: Slots,
    i: int,
    carry: Standing,
) -> (Slots, Option<Standing>)
    decreases slots.len() - i,
{
    if i < 0 || i >= slots.len() {
        (slots, Some(carry))
    } else if slots[i] is None {
        (slots.update(i, Some(carry)), None)
    } else {
        ideal_carried(
            s,
            rel,
            slots.update(i, None),
            i + 1,
            play(s, rel, slots[i]->Some_0, carry),
        )
    }
}

/// The slots after a carry has run: a carry that is left over gets a new
/// slot at the end.
pub open spec fn settled(c: (Slots, Option<Standing>)) -> Slots {
    match c.1 {
        None => c.0,
        Some(v) => c.0.push(Some(v)),
    }
}

/// The slots after the positions `a, a + 1, .., a + n - 1` have been
/// added, each as a leaf, to a counter without slots.
pub open spec fn ideal_slots<T>(s: Seq<T>, rel: spec_fn(T, T) -> bool, a: int, n: nat) -> Slots
    decreases n,
{
    if n == 0 {
        Seq::empty()
    } else {
        settled(
            ideal_carried(s, rel, ideal_slots(s, rel, a, (n - 1) as nat), 0, leaf(a + n - 1)),
        )
    }
}

/// The standing after `acc` has played the full slots from `i` upwards,
/// lowest first.
pub open spec fn ideal_folded<T>(
    s: Seq<T>,
    rel: spec_fn(T, T) -> bool,
    slots: Slots,
    i: int,
    acc: Standing,
) -> Standing
    decreases slots.len() - i,
{
    if i < 0 || i >= slots.len() {
        acc
    } else if slots[i] is None {
        ideal_folded(s, rel, slots, i + 1, acc)
    } else {
        ideal_folded(s, rel, slots, i + 1, play(s, rel, acc, slots[i]->Some_0))
    }
}

/// The standing that reducing the slots from `i` upwards gives, if one of
/// them is full.
pub open spec fn ideal_reduced<T>(s: Seq<T>, rel: spec_fn(T, T) -> bool, slots: Slots, i: int) -> Option<
    Standing,
>
    decreases slots.len() - i,
{
    if i < 0 || i >= slots.len() {
        None
    } else if slots[i] is None {
        ideal_reduced(s, rel, slots, i + 1)
    } else {
        Some(ideal_folded(s, rel, slots, i + 1, slots[i]->Some_0))
    }
}

/// Number of positions that the slots below `j` stand for: `2^i` for
/// every full slot `i`.
pub open spec fn weight(slots: Slots, j: int) -> nat
    decreases j,
{
    if j <= 0 {
        0
    } else {
        weight(slots, j - 1) + if slots[j - 1] is Some {
            pow2((j - 1) as nat)
        } else {
            0
        }
    }
}

/// The slots hold the tournament over `[a, a + n)` in blocks: the full
/// slots stand for `n` positions, the highest slot is full, and a full
/// slot `i` holds the knockout over the block of `2^i` positions that
/// ends where the blocks of the lower slots begin.
pub open spec fn placed<T>(s: Seq<T>, rel: spec_fn(T, T) -> bool, a: int, n: nat, slots: Slots) -> bool {
    &&& weight(slots, slots.len() as int) == n
    &&& slots.len() > 0 ==> slots[slots.len() - 1] is Some
    &&& forall|i: int|
        0 <= i < slots.len() && #[trigger] slots[i] is Some ==> slots[i]->Some_0 == knockout(
            s,
            rel,
            a + n - weight(slots, i + 1),
            i as nat,
        )
}

/// The state in the middle of adding position `a + n`: the slots below
/// `i` have been emptied into the carry, which holds the knockout over
/// the last `2^i` positions, and the slots from `i` upwards still hold
/// their blocks.
pub open spec fn carry_placed<T>(
    s: Seq<T>,
    rel: spec_fn(T, T) -> bool,
    a: int,
    n: nat,
    slots: Slots,
    i: int,
    carry: Standing,
) -> bool {
    &&& 0 <= i <= slots.len()
    &&& forall|j: int| 0 <= j < i ==> #[trigger] slots[j] is None
    &&& carry == knockout(s, rel, a + n + 1 - pow2(i as nat), i as nat)
    &&& n + 1 == weight(slots, slots.len() as int) + pow2(i as nat)
    &&& slots.len() > i ==> slots[slots.len() - 1] is Some
    &&& forall|j: int|
        i <= j < slots.len() && #[trigger] slots[j] is Some ==> slots[j]->Some_0 == knockout(
            s,
            rel,
            a + n + 1 - pow2(i as nat) - weight(slots, j + 1),
            j as nat,
        )
}

/// Empty slots weigh nothing.
pub proof fn lemma_weight_empty(slots: Slots, i: int)
    requires
        0 <= i <= slots.len(),
        forall|j: int| 0 <= j < i ==> #[trigger] slots[j] is None,
    ensures
        weight(slots, i) == 0,
    decreases i,
{
    if i > 0 {
        lemma_weight_empty(slots, i - 1);
    }
}

/// The slots below `j` weigh less than `2^j`.
pub proof fn lemma_weight_bound(slots: Slots, j: int)
    requires
        0 <= j <= slots.len(),
    ensures
        weight(slots, j) < pow2(j as nat),
    decreases j,
{
    if j > 0 {
        lemma_weight_bound(slots, j - 1);
    }
}

/// Filling or emptying slot `i` changes the weight of the slots below `j`
/// by `2^i` if `i < j`, and not at all otherwise.
pub proof fn lemma_weight_update(slots: Slots, i: int, v: Option<Standing>, j: int)
    requires
        0 <= i < slots.len(),
        0 <= j <= slots.len(),
    ensures
        weight(slots.update(i, v), j) + (if i < j && slots[i] is Some {
            pow2(i as nat)
        } else {
            0
        }) == weight(slots, j) + (if i < j && v is Some {
            pow2(i as nat)
        } else {
            0
        }),
    decreases j,
{
    if j > 0 {
        lemma_weight_update(slots, i, v, j - 1);
    }
}

/// A new slot at the end does not change the weight of the slots below.
pub proof fn lemma_weight_push(slots: Slots, v: Option<Standing>, j: int)
    requires
        0 <= j <= slots.len(),
    ensures
        weight(slots.push(v), j) == weight(slots, j),
    decreases j,
{
    if j > 0 {
        lemma_weight_push(slots, v, j - 1);
    }
}

/// Carrying on from a state in the middle of an addition ends with the
/// slots holding the tournament over one position more.
pub proof fn lemma_carry_placed<T>(
    s: Seq<T>,
    rel: spec_fn(T, T) -> bool,
    a: int,
    n: nat,
    slots: Slots,
    i: int,
    carry: Standing,
)
    requires
        carry_placed(s, rel, a, n, slots, i, carry),
    ensures
        placed(s, rel, a, n + 1, settled(ideal_carried(s, rel, slots, i, carry))),
    decreases slots.len() - i,
{
    let len = slots.len() as int;
    let p = pow2(i as nat);
    lemma_pow2_pos(i as nat);
    lemma_weight_empty(slots, i);
    if i == len {
        let after = slots.push(Some(carry));
        assert(settled(ideal_carried(s, rel, slots, i, carry)) == after);
        lemma_weight_push(slots, Some(carry), len);
        assert(weight(after, len + 1) == weight(after, len) + p);
        assert forall|j: int| 0 <= j < after.len() && #[trigger] after[j] is Some implies after[j]->Some_0
            == knockout(s, rel, a + (n + 1) - weight(after, j + 1), j as nat) by {
            assert(j == len);
        }
    } else if slots[i] is None {
        let after = slots.update(i, Some(carry));
        assert(settled(ideal_carried(s, rel, slots, i, carry)) == after);
        lemma_weight_update(slots, i, Some(carry), len);
        assert forall|j: int| 0 <= j < after.len() && #[trigger] after[j] is Some implies after[j]->Some_0
            == knockout(s, rel, a + (n + 1) - weight(after, j + 1), j as nat) by {
            lemma_weight_update(slots, i, Some(carry), j + 1);
            if j == i {
                assert(weight(slots, i + 1) == weight(slots, i));
            } else {
                assert(j > i);
                assert(slots[j] is Some);
            }
        }
    } else {
        let v = slots[i]->Some_0;
        let after = slots.update(i, None);
        let next = play(s, rel, v, carry);
        assert(weight(slots, i + 1) == p);
        lemma_weight_update(slots, i, None, len);
        assert(pow2((i + 1) as nat) == 2 * p);
        assert(next == knockout(s, rel, a + n + 1 - pow2((i + 1) as nat), (i + 1) as nat)) by {
            assert(v == knockout(s, rel, a + n + 1 - p - weight(slots, i + 1), i as nat));
        }
        assert forall|j: int| i + 1 <= j < after.len() && #[trigger] after[j] is Some implies after[j]->Some_0
            == knockout(
            s,
            rel,
            a + n + 1 - pow2((i + 1) as nat) - weight(after, j + 1),
            j as nat,
        ) by {
            lemma_weight_update(slots, i, None, j + 1);
            assert(slots[j] is Some);
        }
        assert(carry_placed(s, rel, a, n, after, i + 1, next));
        lemma_carry_placed(s, rel, a, n, after, i + 1, next);
    }
}

/// Adding positions one by one keeps the slots holding the tournament
/// over the positions added.
pub proof fn lemma_ideal_slots_placed<T>(s: Seq<T>, rel: spec_fn(T, T) -> bool, a: int, n: nat)
    ensures
        placed(s, rel, a, n, ideal_slots(s, rel, a, n)),
    decreases n,
{
    if n > 0 {
        let m = (n - 1) as nat;
        let before = ideal_slots(s, rel, a, m);
        lemma_ideal_slots_placed(s, rel, a, m);
        assert(carry_placed(s, rel, a, m, before, 0, leaf(a + m)));
        lemma_carry_placed(s, rel, a, m, before, 0, leaf(a + m));
    }
}

/// Folding the slots from `i` upwards, with the tournament over the
/// blocks of the lower slots as the start, gives the tournament over the
/// whole range.
pub proof fn lemma_fold_placed<T>(
    s: Seq<T>,
    rel: spec_fn(T, T) -> bool,
    a: int,
    n: nat,
    slots: Slots,
    i: int,
    acc: Standing,
)
    requires
        placed(s, rel, a, n, slots),
        0 <= i <= slots.len(),
        weight(slots, i) >= 1,
        acc == bracket(s, rel, a + n - weight(slots, i), weight(slots, i)),
    ensures
        ideal_folded(s, rel, slots, i, acc) == bracket(s, rel, a, n),
    decreases slots.len() - i,
{
    if i < slots.len() {
        if slots[i] is None {
            lemma_fold_placed(s, rel, a, n, slots, i + 1, acc);
        } else {
            let w = weight(slots, i + 1);
            let p = pow2(i as nat);
            lemma_weight_bound(slots, i);
            assert(pow2((i + 1) as nat) == 2 * p);
            lemma_top_exp(w, i as nat);
            let next = play(s, rel, acc, slots[i]->Some_0);
            assert(next == bracket(s, rel, a + n - w, w));
            lemma_fold_placed(s, rel, a, n, slots, i + 1, next);
        }
    }
}

/// Reducing slots that hold the tournament over a range gives that
/// tournament.
pub proof fn lemma_reduce_placed<T>(
    s: Seq<T>,
    rel: spec_fn(T, T) -> bool,
    a: int,
    n: nat,
    slots: Slots,
    i: int,
)
    requires
        placed(s, rel, a, n, slots),
        n >= 1,
        0 <= i <= slots.len(),
        weight(slots, i) == 0,
    ensures
        ideal_reduced(s, rel, slots, i) == Some(bracket(s, rel, a, n)),
    decreases slots.len() - i,
{
    if i < slots.len() {
        if slots[i] is None {
            lemma_reduce_placed(s, rel, a, n, slots, i + 1);
        } else {
            let p = pow2(i as nat);
            lemma_pow2_pos(i as nat);
            assert(pow2((i + 1) as nat) == 2 * p);
            lemma_top_exp(p, i as nat);
            assert(slots[i]->Some_0 == bracket(s, rel, a + n - p, p));
            lemma_fold_placed(s, rel, a, n, slots, i + 1, slots[i]->Some_0);
        }
    }
}

/// A binary counter plays the tournament: reducing the slots that hold
/// the positions `[a, a + n)`, added one by one, gives the tournament
/// over that range.
pub proof fn lemma_counter_plays_bracket<T>(s: Seq<T>, rel: spec_fn(T, T) -> bool, a: int, n: nat)
    requires
        n >= 1,
    ensures
        ideal_reduced(s, rel, ideal_slots(s, rel, a, n), 0) == Some(bracket(s, rel, a, n)),
{
    lemma_ideal_slots_placed(s, rel, a, n);
    lemma_reduce_placed(s, rel, a, n, ideal_slots(s, rel, a, n), 0);
}

} // verus!
