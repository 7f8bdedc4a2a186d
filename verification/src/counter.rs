//! A binary counter that combines a stream of values pairwise.
//!
//! The counter keeps a row of slots. Slot `i` is either empty, which is
//! marked by a chosen `zero` value, or holds the combination of `2^i`
//! values that were added. Adding a value works as adding one to a binary
//! number: the value is carried upwards, combined with every full slot on
//! its way, until it can be put down in an empty one.
use crate::powers::{lemma_pow2_pos, pow2};
use vstd::prelude::*;
use vstd::std_specs::cmp::PartialEqSpec;

verus! {

/// A combining operation on values of type `T`, possibly with memory.
///
/// What an application returns and how it changes the operation's memory
/// is a function of the memory (`State`) and of what the operation's own
/// ingredients mean (`Model`), for instance the order that a comparator
/// stands for. An operation may fit several models; a contract that
/// speaks of a model then holds for each model that the operation
/// conforms to.
pub trait BinaryOp<T> {
    /// What the ingredients of the operation stand for.
    type Model;

    /// What the operation remembers from one application to the next.
    type State;

    /// The memory of the operation.
    spec fn state(&self) -> Self::State;

    /// The operation behaves as the model `m` says.
    spec fn conforms(&self, m: Self::Model) -> bool;

    /// The operation may be applied to `(x, y)` in state `st`.
    spec fn defined(m: Self::Model, st: Self::State, x: T, y: T) -> bool;

    /// The result of applying the operation to `(x, y)` in state `st`.
    spec fn value(m: Self::Model, st: Self::State, x: T, y: T) -> T;

    /// The state after applying the operation to `(x, y)` in state `st`.
    spec fn after(m: Self::Model, st: Self::State, x: T, y: T) -> Self::State;

    /// Combines `x` and `y`.
    fn apply(&mut self, x: &T, y: &T) -> (r: T)
        requires
            exists|m: Self::Model| old(self).conforms(m),
            forall|m: Self::Model| #[trigger]
                old(self).conforms(m) ==> Self::defined(m, old(self).state(), *x, *y),
        ensures
            forall|m: Self::Model| #[trigger] final(self).conforms(m) == old(self).conforms(m),
            forall|m: Self::Model| #[trigger]
                old(self).conforms(m) ==> r == Self::value(m, old(self).state(), *x, *y) && final(self).state() == Self::after(m, old(self).state(), *x, *y),
    ;
}

/// A combining operation given as a function.
///
/// Its model is the mathematical function that the executable one
/// computes; as far as contracts go it has no memory.
pub struct FnOp<F> {
    f: F,
}

impl<F> FnOp<F> {
    /// The function that is applied.
    pub closed spec fn function(&self) -> F {
        self.f
    }

    /// The operation that applies `f`.
    pub fn new(f: F) -> (r: Self)
        ensures
            r.function() == f,
    {
        FnOp { f }
    }
}

impl<T, F: Fn(&T, &T) -> T> BinaryOp<T> for FnOp<F> {
    type Model = spec_fn(T, T) -> T;

    type State = F;

    open spec fn state(&self) -> F {
        self.function()
    }

    open spec fn conforms(&self, m: spec_fn(T, T) -> T) -> bool {
        forall|x: T, y: T, r: T| #[trigger]
            call_ensures(self.function(), (&x, &y), r) ==> r == m(x, y)
    }

    open spec fn defined(m: spec_fn(T, T) -> T, st: F, x: T, y: T) -> bool {
        call_requires(st, (&x, &y))
    }

    open spec fn value(m: spec_fn(T, T) -> T, st: F, x: T, y: T) -> T {
        m(x, y)
    }

    open spec fn after(m: spec_fn(T, T) -> T, st: F, x: T, y: T) -> F {
        st
    }

    fn apply(&mut self, x: &T, y: &T) -> (r: T) {
        let ghost m = choose|m: spec_fn(T, T) -> T| self.conforms(m);
        assert(Self::defined(m, self.state(), *x, *y));
        (self.f)(x, y)
    }
}

/// The operation never changes its memory.
pub open spec fn stateless<T, Op: BinaryOp<T>>(m: Op::Model) -> bool {
    forall|st: Op::State, x: T, y: T| #[trigger] Op::after(m, st, x, y) == st
}

/// State, slots and carry after carrying `carry` upwards through the
/// slots `[first, last)`: every full slot met is combined with the carry
/// and emptied; the carry is put down in the first empty slot, and `zero`
/// is left to carry on.
pub open spec fn carried<T: PartialEq, Op: BinaryOp<T>>(
    m: Op::Model,
    st: Op::State,
    slots: Seq<T>,
    first: int,
    last: int,
    zero: T,
    carry: T,
) -> (Op::State, Seq<T>, T)
    decreases last - first,
{
    if first >= last {
        (st, slots, carry)
    } else if slots[first].eq_spec(&zero) {
        (st, slots.update(first, carry), zero)
    } else {
        carried::<T, Op>(
            m,
            Op::after(m, st, slots[first], carry),
            slots.update(first, zero),
            first + 1,
            last,
            zero,
            Op::value(m, st, slots[first], carry),
        )
    }
}

/// Every application made while carrying `carry` through `[first, last)`
/// is defined.
pub open spec fn carry_defined<T: PartialEq, Op: BinaryOp<T>>(
    m: Op::Model,
    st: Op::State,
    slots: Seq<T>,
    first: int,
    last: int,
    zero: T,
    carry: T,
) -> bool
    decreases last - first,
{
    if first >= last {
        true
    } else if slots[first].eq_spec(&zero) {
        true
    } else {
        Op::defined(m, st, slots[first], carry) && carry_defined::<T, Op>(
            m,
            Op::after(m, st, slots[first], carry),
            slots.update(first, zero),
            first + 1,
            last,
            zero,
            Op::value(m, st, slots[first], carry),
        )
    }
}

/// State and slots after adding `x`: `x` is carried through all slots,
/// and a carry that is left over gets a new slot at the end.
pub open spec fn added<T: PartialEq, Op: BinaryOp<T>>(
    m: Op::Model,
    st: Op::State,
    slots: Seq<T>,
    zero: T,
    x: T,
) -> (Op::State, Seq<T>) {
    let c = carried::<T, Op>(m, st, slots, 0, slots.len() as int, zero, x);
    if c.2.eq_spec(&zero) {
        (c.0, c.1)
    } else {
        (c.0, c.1.push(c.2))
    }
}

/// State and result after combining `acc` with the full slots of
/// `[first, last)`, lowest first; the slot is the second operand.
pub open spec fn folded<T: PartialEq, Op: BinaryOp<T>>(
    m: Op::Model,
    st: Op::State,
    slots: Seq<T>,
    first: int,
    last: int,
    zero: T,
    acc: T,
) -> (Op::State, T)
    decreases last - first,
{
    if first >= last {
        (st, acc)
    } else if slots[first].eq_spec(&zero) {
        folded::<T, Op>(m, st, slots, first + 1, last, zero, acc)
    } else {
        folded::<T, Op>(
            m,
            Op::after(m, st, acc, slots[first]),
            slots,
            first + 1,
            last,
            zero,
            Op::value(m, st, acc, slots[first]),
        )
    }
}

/// Every application made while folding is defined.
pub open spec fn fold_defined<T: PartialEq, Op: BinaryOp<T>>(
    m: Op::Model,
    st: Op::State,
    slots: Seq<T>,
    first: int,
    last: int,
    zero: T,
    acc: T,
) -> bool
    decreases last - first,
{
    if first >= last {
        true
    } else if slots[first].eq_spec(&zero) {
        fold_defined::<T, Op>(m, st, slots, first + 1, last, zero, acc)
    } else {
        Op::defined(m, st, acc, slots[first]) && fold_defined::<T, Op>(
            m,
            Op::after(m, st, acc, slots[first]),
            slots,
            first + 1,
            last,
            zero,
            Op::value(m, st, acc, slots[first]),
        )
    }
}

/// State and result after reducing the slots `[first, last)`: the full
/// slots are combined from the lowest to the highest; `zero` if none is
/// full.
pub open spec fn reduced<T: PartialEq, Op: BinaryOp<T>>(
    m: Op::Model,
    st: Op::State,
    slots: Seq<T>,
    first: int,
    last: int,
    zero: T,
) -> (Op::State, T)
    decreases last - first,
{
    if first >= last {
        (st, zero)
    } else if slots[first].eq_spec(&zero) {
        reduced::<T, Op>(m, st, slots, first + 1, last, zero)
    } else {
        folded::<T, Op>(m, st, slots, first + 1, last, zero, slots[first])
    }
}

/// Every application made while reducing is defined.
pub open spec fn reduce_defined<T: PartialEq, Op: BinaryOp<T>>(
    m: Op::Model,
    st: Op::State,
    slots: Seq<T>,
    first: int,
    last: int,
    zero: T,
) -> bool
    decreases last - first,
{
    if first >= last {
        true
    } else if slots[first].eq_spec(&zero) {
        reduce_defined::<T, Op>(m, st, slots, first + 1, last, zero)
    } else {
        fold_defined::<T, Op>(m, st, slots, first + 1, last, zero, slots[first])
    }
}

/// Folding with an operation without memory leaves the state as it was.
pub proof fn lemma_fold_keeps_state<T: PartialEq, Op: BinaryOp<T>>(
    m: Op::Model,
    st: Op::State,
    slots: Seq<T>,
    first: int,
    last: int,
    zero: T,
    acc: T,
)
    requires
        stateless::<T, Op>(m),
    ensures
        folded::<T, Op>(m, st, slots, first, last, zero, acc).0 == st,
    decreases last - first,
{
    if first < last {
        if slots[first].eq_spec(&zero) {
            lemma_fold_keeps_state::<T, Op>(m, st, slots, first + 1, last, zero, acc);
        } else {
            assert(Op::after(m, st, acc, slots[first]) == st);
            lemma_fold_keeps_state::<T, Op>(
                m,
                st,
                slots,
                first + 1,
                last,
                zero,
                Op::value(m, st, acc, slots[first]),
            );
        }
    }
}

/// Reducing with an operation without memory leaves the state as it was.
pub proof fn lemma_reduce_keeps_state<T: PartialEq, Op: BinaryOp<T>>(
    m: Op::Model,
    st: Op::State,
    slots: Seq<T>,
    first: int,
    last: int,
    zero: T,
)
    requires
        stateless::<T, Op>(m),
    ensures
        reduced::<T, Op>(m, st, slots, first, last, zero).0 == st,
    decreases last - first,
{
    if first < last {
        if slots[first].eq_spec(&zero) {
            lemma_reduce_keeps_state::<T, Op>(m, st, slots, first + 1, last, zero);
        } else {
            lemma_fold_keeps_state::<T, Op>(m, st, slots, first + 1, last, zero, slots[first]);
        }
    }
}

/// Reducing is idempotent: with an operation without memory, a second
/// reduction of the same slots, made in the state that the first one
/// left, gives the same result.
pub proof fn lemma_reduce_idempotent<T: PartialEq, Op: BinaryOp<T>>(
    m: Op::Model,
    st: Op::State,
    slots: Seq<T>,
    zero: T,
)
    requires
        stateless::<T, Op>(m),
    ensures
        reduced::<T, Op>(
            m,
            reduced::<T, Op>(m, st, slots, 0, slots.len() as int, zero).0,
            slots,
            0,
            slots.len() as int,
            zero,
        ) == reduced::<T, Op>(m, st, slots, 0, slots.len() as int, zero),
{
    lemma_reduce_keeps_state::<T, Op>(m, st, slots, 0, slots.len() as int, zero);
}

/// The operation never returns the value that marks an empty slot.
pub open spec fn never_zero<T: PartialEq, Op: BinaryOp<T>>(m: Op::Model, zero: T) -> bool {
    forall|st: Op::State, x: T, y: T| !(#[trigger] Op::value(m, st, x, y)).eq_spec(&zero)
}

/// State and slots after the values `xs` have been added, first to last,
/// to a counter without slots.
pub open spec fn counted<T: PartialEq, Op: BinaryOp<T>>(
    m: Op::Model,
    st: Op::State,
    zero: T,
    xs: Seq<T>,
) -> (Op::State, Seq<T>)
    decreases xs.len(),
{
    if xs.len() == 0 {
        (st, Seq::empty())
    } else {
        let c = counted::<T, Op>(m, st, zero, xs.drop_last());
        added::<T, Op>(m, c.0, c.1, zero, xs.last())
    }
}

/// Number of additions that the slots below `j` account for: `2^i` for
/// every full slot `i`.
pub open spec fn load<T: PartialEq>(slots: Seq<T>, zero: T, j: int) -> nat
    decreases j,
{
    if j <= 0 {
        0
    } else {
        load(slots, zero, j - 1) + if slots[j - 1].eq_spec(&zero) {
            0
        } else {
            pow2((j - 1) as nat)
        }
    }
}

/// The number that the slots from `i` upwards spell in binary, slot `i`
/// as the lowest digit.
pub open spec fn digits<T: PartialEq>(slots: Seq<T>, zero: T, i: int) -> nat
    decreases slots.len() - i,
{
    if i < 0 || i >= slots.len() {
        0
    } else {
        2 * digits(slots, zero, i + 1) + if slots[i].eq_spec(&zero) {
            0nat
        } else {
            1nat
        }
    }
}

/// The slots below `j` account for fewer than `2^j` additions.
pub proof fn lemma_load_bound<T: PartialEq>(slots: Seq<T>, zero: T, j: int)
    requires
        0 <= j <= slots.len(),
    ensures
        load(slots, zero, j) < pow2(j as nat),
    decreases j,
{
    if j > 0 {
        lemma_load_bound(slots, zero, j - 1);
    }
}

/// Filling or emptying slot `i` changes what the slots below `j` account
/// for by `2^i` if `i < j`, and not at all otherwise.
proof fn lemma_load_update<T: PartialEq>(slots: Seq<T>, zero: T, i: int, v: T, j: int)
    requires
        0 <= i < slots.len(),
        0 <= j <= slots.len(),
    ensures
        load(slots.update(i, v), zero, j) + (if i < j && !slots[i].eq_spec(&zero) {
            pow2(i as nat)
        } else {
            0
        }) == load(slots, zero, j) + (if i < j && !v.eq_spec(&zero) {
            pow2(i as nat)
        } else {
            0
        }),
    decreases j,
{
    if j > 0 {
        lemma_load_update(slots, zero, i, v, j - 1);
    }
}

/// A new slot at the end does not change what the slots below account
/// for.
proof fn lemma_load_push<T: PartialEq>(slots: Seq<T>, zero: T, v: T, j: int)
    requires
        0 <= j <= slots.len(),
    ensures
        load(slots.push(v), zero, j) == load(slots, zero, j),
    decreases j,
{
    if j > 0 {
        lemma_load_push(slots, zero, v, j - 1);
    }
}

/// Empty slots account for nothing.
proof fn lemma_load_empty<T: PartialEq>(slots: Seq<T>, zero: T, i: int)
    requires
        0 <= i <= slots.len(),
        forall|j: int| 0 <= j < i ==> (#[trigger] slots[j]).eq_spec(&zero),
    ensures
        load(slots, zero, i) == 0,
    decreases i,
{
    if i > 0 {
        lemma_load_empty(slots, zero, i - 1);
    }
}

/// What all slots account for is what the slots below `i` account for
/// and `2^i` times the number that the slots from `i` upwards spell.
proof fn lemma_load_digits<T: PartialEq>(slots: Seq<T>, zero: T, i: int)
    requires
        0 <= i <= slots.len(),
    ensures
        load(slots, zero, slots.len() as int) == load(slots, zero, i) + pow2(i as nat) * digits(
            slots,
            zero,
            i,
        ),
    decreases slots.len() - i,
{
    if i < slots.len() {
        lemma_load_digits(slots, zero, i + 1);
        let p = pow2(i as nat) as int;
        let d = digits(slots, zero, i + 1) as int;
        let b: int = if slots[i].eq_spec(&zero) { 0 } else { 1 };
        assert(pow2((i + 1) as nat) == 2 * p);
        assert((2 * p) * d + b * p == p * (2 * d + b)) by (nonlinear_arith);
    } else {
        assert(pow2(i as nat) * 0 == 0) by (nonlinear_arith);
    }
}

/// The slots are the binary digits of the number of additions that they
/// account for: slot `i` is full exactly when bit `i` of that number is
/// set.
pub proof fn lemma_load_bits<T: PartialEq>(slots: Seq<T>, zero: T, i: int)
    requires
        0 <= i < slots.len(),
    ensures
        !slots[i].eq_spec(&zero) <==> (load(slots, zero, slots.len() as int) / pow2(i as nat)) % 2
            == 1,
{
    let n = load(slots, zero, slots.len() as int) as int;
    let p = pow2(i as nat) as int;
    let d = digits(slots, zero, i) as int;
    let b: int = if slots[i].eq_spec(&zero) { 0 } else { 1 };
    lemma_pow2_pos(i as nat);
    lemma_load_digits(slots, zero, i);
    lemma_load_bound(slots, zero, i);
    assert(n == d * p + load(slots, zero, i)) by (nonlinear_arith)
        requires
            n == load(slots, zero, i) + p * d,
    ;
    vstd::arithmetic::div_mod::lemma_fundamental_div_mod_converse(
        n,
        p,
        d,
        load(slots, zero, i) as int,
    );
    vstd::arithmetic::div_mod::lemma_fundamental_div_mod_converse(
        d,
        2,
        digits(slots, zero, i + 1) as int,
        b,
    );
}

/// Carrying a value upwards from slot `i`, below which all slots are
/// empty, adds `2^i` to what the slots account for, and leaves the
/// highest slot full.
proof fn lemma_carry_load<T: PartialEq, Op: BinaryOp<T>>(
    m: Op::Model,
    st: Op::State,
    slots: Seq<T>,
    zero: T,
    i: int,
    carry: T,
)
    requires
        zero.eq_spec(&zero),
        never_zero::<T, Op>(m, zero),
        0 <= i <= slots.len(),
        forall|j: int| 0 <= j < i ==> (#[trigger] slots[j]).eq_spec(&zero),
        !carry.eq_spec(&zero),
        slots.len() > i ==> !slots[slots.len() - 1].eq_spec(&zero),
    ensures
        ({
            let c = carried::<T, Op>(m, st, slots, i, slots.len() as int, zero, carry);
            let out = if c.2.eq_spec(&zero) {
                c.1
            } else {
                c.1.push(c.2)
            };
            &&& load(out, zero, out.len() as int) == load(slots, zero, slots.len() as int) + pow2(
                i as nat,
            )
            &&& out.len() > 0
            &&& !out[out.len() - 1].eq_spec(&zero)
        }),
    decreases slots.len() - i,
{
    let len = slots.len() as int;
    if i == len {
        let out = slots.push(carry);
        lemma_load_push(slots, zero, carry, len);
        assert(load(out, zero, len + 1) == load(out, zero, len) + pow2(i as nat));
    } else if slots[i].eq_spec(&zero) {
        lemma_load_update(slots, zero, i, carry, len);
    } else {
        let next = Op::value(m, st, slots[i], carry);
        let after = slots.update(i, zero);
        lemma_load_update(slots, zero, i, zero, len);
        assert(pow2((i + 1) as nat) == 2 * pow2(i as nat));
        lemma_carry_load::<T, Op>(m, Op::after(m, st, slots[i], carry), after, zero, i + 1, next);
    }
}

/// The counter counts in binary. After `n` values, none of them the
/// mark of an empty slot, have been added to a counter without slots,
/// with an operation that never returns that mark, slot `i` is full
/// exactly when bit `i` of `n` is set, and there are no more slots than
/// `n` has binary digits.
pub proof fn lemma_counter_counts<T: PartialEq, Op: BinaryOp<T>>(
    m: Op::Model,
    st: Op::State,
    zero: T,
    xs: Seq<T>,
)
    requires
        zero.eq_spec(&zero),
        never_zero::<T, Op>(m, zero),
        forall|k: int| 0 <= k < xs.len() ==> !(#[trigger] xs[k]).eq_spec(&zero),
    ensures
        ({
            let slots = counted::<T, Op>(m, st, zero, xs).1;
            &&& load(slots, zero, slots.len() as int) == xs.len()
            &&& xs.len() < pow2(slots.len())
            &&& slots.len() > 0 ==> !slots[slots.len() - 1].eq_spec(&zero)
            &&& forall|i: int|
                0 <= i < slots.len() ==> (!(#[trigger] slots[i]).eq_spec(&zero) <==> (xs.len()
                    / pow2(i as nat)) % 2 == 1)
        }),
    decreases xs.len(),
{
    let slots = counted::<T, Op>(m, st, zero, xs).1;
    if xs.len() > 0 {
        let front = xs.drop_last();
        assert forall|k: int| 0 <= k < front.len() implies !(#[trigger] front[k]).eq_spec(&zero) by {
            assert(front[k] == xs[k]);
        }
        lemma_counter_counts::<T, Op>(m, st, zero, front);
        let c = counted::<T, Op>(m, st, zero, front);
        lemma_carry_load::<T, Op>(m, c.0, c.1, zero, 0, xs.last());
    }
    lemma_load_bound(slots, zero, slots.len() as int);
    assert forall|i: int| 0 <= i < slots.len() implies (!(#[trigger] slots[i]).eq_spec(&zero) <==> (
    xs.len() / pow2(i as nat)) % 2 == 1) by {
        lemma_load_bits(slots, zero, i);
    }
}

/// In state `st` the operation is associative.
#[verifier::opaque]
pub open spec fn associative<T, Op: BinaryOp<T>>(m: Op::Model, st: Op::State) -> bool {
    forall|x: T, y: T, z: T| #[trigger]
        Op::value(m, st, Op::value(m, st, x, y), z) == Op::value(m, st, x, Op::value(m, st, y, z))
}

/// In state `st` the operation is commutative.
#[verifier::opaque]
pub open spec fn commutative<T, Op: BinaryOp<T>>(m: Op::Model, st: Op::State) -> bool {
    forall|x: T, y: T| #[trigger] Op::value(m, st, x, y) == Op::value(m, st, y, x)
}

/// The values `xs`, of which there is at least one, combined from the
/// first to the last in state `st`.
pub open spec fn product<T, Op: BinaryOp<T>>(m: Op::Model, st: Op::State, xs: Seq<T>) -> T
    decreases xs.len(),
{
    if xs.len() <= 1 {
        xs[0]
    } else {
        Op::value(m, st, product::<T, Op>(m, st, xs.drop_last()), xs.last())
    }
}

/// The product of the block of `xs` that slot `j` stands for, when the
/// blocks lie side by side and end at `base`, the block of the lowest
/// full slot last: the block of a full slot `j` has `2^j` values.
pub open spec fn block_product<T: PartialEq, Op: BinaryOp<T>>(
    m: Op::Model,
    st: Op::State,
    zero: T,
    xs: Seq<T>,
    slots: Seq<T>,
    base: int,
    j: int,
) -> T {
    product::<T, Op>(
        m,
        st,
        xs.subrange(base - load(slots, zero, j + 1), base - load(slots, zero, j)),
    )
}

/// Every full slot holds the product of its block of `xs`, and the
/// blocks are the first `base` values of `xs`.
pub open spec fn holds_products<T: PartialEq, Op: BinaryOp<T>>(
    m: Op::Model,
    st: Op::State,
    zero: T,
    xs: Seq<T>,
    slots: Seq<T>,
    base: int,
) -> bool {
    &&& load(slots, zero, slots.len() as int) == base <= xs.len()
    &&& forall|j: int|
        0 <= j < slots.len() && !slots[j].eq_spec(&zero) ==> slots[j] == #[trigger] block_product::<
            T,
            Op,
        >(m, st, zero, xs, slots, base, j)
}

/// Higher slots account for no less.
proof fn lemma_load_mono<T: PartialEq>(slots: Seq<T>, zero: T, i: int, j: int)
    requires
        0 <= i <= j <= slots.len(),
    ensures
        load(slots, zero, i) <= load(slots, zero, j),
    decreases j,
{
    if i < j {
        lemma_load_mono(slots, zero, i, j - 1);
    }
}

/// With an associative operation the product of two runs of values, one
/// after the other, is the product of the two products.
pub proof fn lemma_product_concat<T, Op: BinaryOp<T>>(
    m: Op::Model,
    st: Op::State,
    a: Seq<T>,
    b: Seq<T>,
)
    requires
        associative::<T, Op>(m, st),
        a.len() >= 1,
        b.len() >= 1,
    ensures
        product::<T, Op>(m, st, a + b) == Op::value(
            m,
            st,
            product::<T, Op>(m, st, a),
            product::<T, Op>(m, st, b),
        ),
    decreases b.len(),
{
    if b.len() == 1 {
        assert((a + b).drop_last() =~= a);
    } else {
        let front = b.drop_last();
        assert((a + b).drop_last() =~= a + front);
        lemma_product_concat::<T, Op>(m, st, a, front);
        let pa = product::<T, Op>(m, st, a);
        let pf = product::<T, Op>(m, st, front);
        assert(Op::value(m, st, Op::value(m, st, pa, pf), b.last()) == Op::value(
            m,
            st,
            pa,
            Op::value(m, st, pf, b.last()),
        )) by {
            reveal(associative);
        }
    }
}

/// Carrying the product of the last `2^i` values of `xs` upwards from
/// slot `i`, when the slots from `i` upwards hold the products of the
/// blocks before, ends with the slots holding products of blocks of all
/// of `xs`.
proof fn lemma_carry_products<T: PartialEq, Op: BinaryOp<T>>(
    m: Op::Model,
    st: Op::State,
    zero: T,
    xs: Seq<T>,
    slots: Seq<T>,
    i: int,
    carry: T,
)
    requires
        zero.eq_spec(&zero),
        never_zero::<T, Op>(m, zero),
        stateless::<T, Op>(m),
        associative::<T, Op>(m, st),
        0 <= i <= slots.len(),
        forall|j: int| 0 <= j < i ==> (#[trigger] slots[j]).eq_spec(&zero),
        !carry.eq_spec(&zero),
        holds_products::<T, Op>(m, st, zero, xs, slots, xs.len() - pow2(i as nat)),
        carry == product::<T, Op>(m, st, xs.subrange(xs.len() - pow2(i as nat), xs.len() as int)),
    ensures
        ({
            let c = carried::<T, Op>(m, st, slots, i, slots.len() as int, zero, carry);
            let out = if c.2.eq_spec(&zero) {
                c.1
            } else {
                c.1.push(c.2)
            };
            c.0 == st && holds_products::<T, Op>(m, st, zero, xs, out, xs.len() as int)
        }),
    decreases slots.len() - i,
{
    let len = slots.len() as int;
    let n = xs.len() as int;
    let p = pow2(i as nat) as int;
    lemma_pow2_pos(i as nat);
    lemma_load_empty(slots, zero, i);
    if i == len {
        let out = slots.push(carry);
        lemma_load_push(slots, zero, carry, len);
        assert(load(out, zero, len + 1) == load(out, zero, len) + p);
        assert forall|j: int| 0 <= j < out.len() && !out[j].eq_spec(&zero) implies out[j]
            == #[trigger] block_product::<T, Op>(m, st, zero, xs, out, n, j) by {
            if j < len {
                assert(out[j] == slots[j]);
            }
        }
    } else if slots[i].eq_spec(&zero) {
        let out = slots.update(i, carry);
        lemma_load_update(slots, zero, i, carry, len);
        assert forall|j: int| 0 <= j < out.len() && !out[j].eq_spec(&zero) implies out[j]
            == #[trigger] block_product::<T, Op>(m, st, zero, xs, out, n, j) by {
            lemma_load_update(slots, zero, i, carry, j + 1);
            lemma_load_update(slots, zero, i, carry, j);
            if j == i {
                assert(load(slots, zero, i + 1) == 0);
            } else {
                assert(j > i);
                assert(out[j] == slots[j]);
                assert(slots[j] == block_product::<T, Op>(m, st, zero, xs, slots, n - p, j));
            }
        }
    } else {
        let v = slots[i];
        let next = Op::value(m, st, v, carry);
        let after = slots.update(i, zero);
        assert(Op::after(m, st, v, carry) == st);
        assert(load(slots, zero, i + 1) == p);
        lemma_load_mono(slots, zero, i + 1, len);
        lemma_load_update(slots, zero, i, zero, len);
        assert(pow2((i + 1) as nat) == 2 * p);
        assert(v == block_product::<T, Op>(m, st, zero, xs, slots, n - p, i));
        assert(v == product::<T, Op>(m, st, xs.subrange(n - 2 * p, n - p)));
        assert(xs.subrange(n - 2 * p, n - p) + xs.subrange(n - p, n) =~= xs.subrange(n - 2 * p, n));
        lemma_product_concat::<T, Op>(m, st, xs.subrange(n - 2 * p, n - p), xs.subrange(n - p, n));
        assert forall|j: int| 0 <= j < after.len() && !after[j].eq_spec(&zero) implies after[j]
            == #[trigger] block_product::<T, Op>(m, st, zero, xs, after, n - 2 * p, j) by {
            lemma_load_update(slots, zero, i, zero, j + 1);
            lemma_load_update(slots, zero, i, zero, j);
            assert(j > i);
            assert(after[j] == slots[j]);
            assert(slots[j] == block_product::<T, Op>(m, st, zero, xs, slots, n - p, j));
        }
        lemma_carry_products::<T, Op>(m, st, zero, xs, after, i + 1, next);
    }
}

/// After the values `xs` have been added to a counter without slots,
/// with an associative operation that has no memory, every full slot
/// holds the product of a block of `xs`.
pub proof fn lemma_counted_products<T: PartialEq, Op: BinaryOp<T>>(
    m: Op::Model,
    st: Op::State,
    zero: T,
    xs: Seq<T>,
)
    requires
        zero.eq_spec(&zero),
        never_zero::<T, Op>(m, zero),
        stateless::<T, Op>(m),
        associative::<T, Op>(m, st),
        forall|k: int| 0 <= k < xs.len() ==> !(#[trigger] xs[k]).eq_spec(&zero),
    ensures
        counted::<T, Op>(m, st, zero, xs).0 == st,
        holds_products::<T, Op>(
            m,
            st,
            zero,
            xs,
            counted::<T, Op>(m, st, zero, xs).1,
            xs.len() as int,
        ),
    decreases xs.len(),
{
    if xs.len() > 0 {
        let n = xs.len() as int;
        let front = xs.drop_last();
        assert forall|k: int| 0 <= k < front.len() implies !(#[trigger] front[k]).eq_spec(&zero) by {
            assert(front[k] == xs[k]);
        }
        lemma_counted_products::<T, Op>(m, st, zero, front);
        let slots = counted::<T, Op>(m, st, zero, front).1;
        assert forall|j: int| 0 <= j < slots.len() && !slots[j].eq_spec(&zero) implies slots[j]
            == #[trigger] block_product::<T, Op>(m, st, zero, xs, slots, n - 1, j) by {
            lemma_load_mono(slots, zero, j, j + 1);
            lemma_load_mono(slots, zero, j + 1, slots.len() as int);
            assert(slots[j] == block_product::<T, Op>(m, st, zero, front, slots, n - 1, j));
            assert(front.subrange(n - 1 - load(slots, zero, j + 1), n - 1 - load(slots, zero, j))
                =~= xs.subrange(n - 1 - load(slots, zero, j + 1), n - 1 - load(slots, zero, j)));
        }
        assert(xs.subrange(n - 1, n) =~= seq![xs.last()]);
        lemma_carry_products::<T, Op>(m, st, zero, xs, slots, 0, xs.last());
    }
}

/// Folding slots that hold the products of the blocks of `xs`, with the
/// product of the blocks of the lower slots as the start, gives the
/// product of all of `xs`, if the operation is associative and
/// commutative and has no memory.
proof fn lemma_fold_products<T: PartialEq, Op: BinaryOp<T>>(
    m: Op::Model,
    st: Op::State,
    zero: T,
    xs: Seq<T>,
    slots: Seq<T>,
    i: int,
    acc: T,
)
    requires
        stateless::<T, Op>(m),
        associative::<T, Op>(m, st),
        commutative::<T, Op>(m, st),
        holds_products::<T, Op>(m, st, zero, xs, slots, xs.len() as int),
        0 <= i <= slots.len(),
        load(slots, zero, i) >= 1,
        acc == product::<T, Op>(
            m,
            st,
            xs.subrange(xs.len() - load(slots, zero, i), xs.len() as int),
        ),
    ensures
        folded::<T, Op>(m, st, slots, i, slots.len() as int, zero, acc) == (
            st,
            product::<T, Op>(m, st, xs),
        ),
    decreases slots.len() - i,
{
    let n = xs.len() as int;
    if i < slots.len() {
        if slots[i].eq_spec(&zero) {
            lemma_fold_products::<T, Op>(m, st, zero, xs, slots, i + 1, acc);
        } else {
            let lo = load(slots, zero, i) as int;
            let hi = load(slots, zero, i + 1) as int;
            lemma_pow2_pos(i as nat);
            lemma_load_mono(slots, zero, i + 1, slots.len() as int);
            let earlier = xs.subrange(n - hi, n - lo);
            let later = xs.subrange(n - lo, n);
            assert(slots[i] == block_product::<T, Op>(m, st, zero, xs, slots, n, i));
            assert(earlier + later =~= xs.subrange(n - hi, n));
            lemma_product_concat::<T, Op>(m, st, earlier, later);
            let next = Op::value(m, st, acc, slots[i]);
            assert(next == Op::value(m, st, slots[i], acc)) by {
                reveal(commutative);
            }
            assert(Op::after(m, st, acc, slots[i]) == st);
            lemma_fold_products::<T, Op>(m, st, zero, xs, slots, i + 1, next);
        }
    } else {
        assert(xs.subrange(0, n) =~= xs);
    }
}

/// Reducing gives the product of all that was added. After the values
/// `xs`, at least one and none of them the mark of an empty slot, have
/// been added to a counter without slots, a reduction returns the
/// values combined from the first to the last, if the operation is
/// associative and commutative, has no memory, and never returns the
/// mark of an empty slot.
pub proof fn lemma_reduce_is_product<T: PartialEq, Op: BinaryOp<T>>(
    m: Op::Model,
    st: Op::State,
    zero: T,
    xs: Seq<T>,
)
    requires
        zero.eq_spec(&zero),
        never_zero::<T, Op>(m, zero),
        stateless::<T, Op>(m),
        associative::<T, Op>(m, st),
        commutative::<T, Op>(m, st),
        xs.len() >= 1,
        forall|k: int| 0 <= k < xs.len() ==> !(#[trigger] xs[k]).eq_spec(&zero),
    ensures
        ({
            let c = counted::<T, Op>(m, st, zero, xs);
            reduced::<T, Op>(m, c.0, c.1, 0, c.1.len() as int, zero) == (
                st,
                product::<T, Op>(m, st, xs),
            )
        }),
{
    lemma_counted_products::<T, Op>(m, st, zero, xs);
    let slots = counted::<T, Op>(m, st, zero, xs).1;
    lemma_reduce_products::<T, Op>(m, st, zero, xs, slots, 0);
}

/// Reducing slots that hold the products of the blocks of `xs`, from a
/// slot below which all slots are empty, gives the product of all of
/// `xs`.
proof fn lemma_reduce_products<T: PartialEq, Op: BinaryOp<T>>(
    m: Op::Model,
    st: Op::State,
    zero: T,
    xs: Seq<T>,
    slots: Seq<T>,
    i: int,
)
    requires
        stateless::<T, Op>(m),
        associative::<T, Op>(m, st),
        commutative::<T, Op>(m, st),
        holds_products::<T, Op>(m, st, zero, xs, slots, xs.len() as int),
        xs.len() >= 1,
        0 <= i <= slots.len(),
        load(slots, zero, i) == 0,
    ensures
        reduced::<T, Op>(m, st, slots, i, slots.len() as int, zero) == (
            st,
            product::<T, Op>(m, st, xs),
        ),
    decreases slots.len() - i,
{
    if i < slots.len() {
        if slots[i].eq_spec(&zero) {
            lemma_reduce_products::<T, Op>(m, st, zero, xs, slots, i + 1);
        } else {
            lemma_pow2_pos(i as nat);
            assert(slots[i] == block_product::<T, Op>(m, st, zero, xs, slots, xs.len() as int, i));
            lemma_fold_products::<T, Op>(m, st, zero, xs, slots, i + 1, slots[i]);
        }
    }
}

/// Carries `carry` upwards through the slots `[first, last)` of
/// `counter` and returns what is left to carry on: `zero` if the carry
/// found an empty slot, else the combination of the carry with all the
/// slots, which are empty afterwards.
pub fn add_to_counter<T, Op>(
    counter: &mut Vec<T>,
    first: usize,
    last: usize,
    op: &mut Op,
    zero: &T,
    carry: T,
) -> (r: T) where T: PartialEq + Copy, Op: BinaryOp<T>
    requires
        T::obeys_eq_spec(),
        first <= last <= old(counter)@.len(),
        exists|m: Op::Model| old(op).conforms(m),
        forall|m: Op::Model| #[trigger]
            old(op).conforms(m) ==> carry_defined::<T, Op>(
                m,
                old(op).state(),
                old(counter)@,
                first as int,
                last as int,
                *zero,
                carry,
            ),
    ensures
        forall|m: Op::Model| #[trigger] final(op).conforms(m) == old(op).conforms(m),
        forall|m: Op::Model| #[trigger]
            old(op).conforms(m) ==> (final(op).state(), final(counter)@, r) == carried::<T, Op>(
                m,
                old(op).state(),
                old(counter)@,
                first as int,
                last as int,
                *zero,
                carry,
            ),
{
    let mut i = first;
    let mut acc = carry;
    while i != last
        invariant
            T::obeys_eq_spec(),
            first <= i <= last <= counter@.len(),
            exists|m: Op::Model| op.conforms(m),
            forall|m: Op::Model| #[trigger] op.conforms(m) == old(op).conforms(m),
            forall|m: Op::Model| #[trigger]
                old(op).conforms(m) ==> carry_defined::<T, Op>(
                    m,
                    op.state(),
                    counter@,
                    i as int,
                    last as int,
                    *zero,
                    acc,
                ) && carried::<T, Op>(m, op.state(), counter@, i as int, last as int, *zero, acc)
                    == carried::<T, Op>(
                    m,
                    old(op).state(),
                    old(counter)@,
                    first as int,
                    last as int,
                    *zero,
                    carry,
                ),
        decreases last - i,
    {
        let ghost slots = counter@;
        let ghost prev = *op;
        let slot = counter[i];
        if slot == *zero {
            counter.set(i, acc);
            proof {
                assert forall|m: Op::Model| #[trigger] old(op).conforms(m) implies (
                    op.state(),
                    counter@,
                    *zero,
                ) == carried::<T, Op>(
                    m,
                    old(op).state(),
                    old(counter)@,
                    first as int,
                    last as int,
                    *zero,
                    carry,
                ) by {
                    assert(prev.conforms(m));
                    assert(carried::<T, Op>(
                        m,
                        prev.state(),
                        slots,
                        i as int,
                        last as int,
                        *zero,
                        acc,
                    ) == (prev.state(), slots.update(i as int, acc), *zero));
                }
            }
            return *zero;
        }
        proof {
            assert forall|m: Op::Model| #[trigger] op.conforms(m) implies Op::defined(
                m,
                op.state(),
                slot,
                acc,
            ) by {
                assert(old(op).conforms(m));
                assert(carry_defined::<T, Op>(
                    m,
                    op.state(),
                    slots,
                    i as int,
                    last as int,
                    *zero,
                    acc,
                ));
            }
        }
        let combined = op.apply(&slot, &acc);
        counter.set(i, *zero);
        proof {
            let witness = choose|m: Op::Model| prev.conforms(m);
            assert(op.conforms(witness));
            assert forall|m: Op::Model| #[trigger] old(op).conforms(m) implies carry_defined::<T, Op>(
                m,
                op.state(),
                counter@,
                i + 1,
                last as int,
                *zero,
                combined,
            ) && carried::<T, Op>(m, op.state(), counter@, i + 1, last as int, *zero, combined)
                == carried::<T, Op>(
                m,
                old(op).state(),
                old(counter)@,
                first as int,
                last as int,
                *zero,
                carry,
            ) by {
                assert(prev.conforms(m));
                assert(carry_defined::<T, Op>(
                    m,
                    prev.state(),
                    slots,
                    i as int,
                    last as int,
                    *zero,
                    acc,
                ));
            }
        }
        acc = combined;
        i += 1;
    }
    acc
}

/// Combines the full slots `[first, last)` of `counter`, from the lowest
/// to the highest, and returns the result; `zero` if no slot is full. The
/// slots are left as they are.
pub fn reduce_counter<T, Op>(
    counter: &Vec<T>,
    first: usize,
    last: usize,
    op: &mut Op,
    zero: &T,
) -> (r: T) where T: PartialEq + Copy, Op: BinaryOp<T>
    requires
        T::obeys_eq_spec(),
        first <= last <= counter@.len(),
        exists|m: Op::Model| old(op).conforms(m),
        forall|m: Op::Model| #[trigger]
            old(op).conforms(m) ==> reduce_defined::<T, Op>(
                m,
                old(op).state(),
                counter@,
                first as int,
                last as int,
                *zero,
            ),
    ensures
        forall|m: Op::Model| #[trigger] final(op).conforms(m) == old(op).conforms(m),
        forall|m: Op::Model| #[trigger]
            old(op).conforms(m) ==> (final(op).state(), r) == reduced::<T, Op>(
                m,
                old(op).state(),
                counter@,
                first as int,
                last as int,
                *zero,
            ),
{
    let mut i = first;
    while i != last && counter[i] == *zero
        invariant
            T::obeys_eq_spec(),
            first <= i <= last <= counter@.len(),
            *op == *old(op),
            forall|m: Op::Model| #[trigger]
                old(op).conforms(m) ==> reduce_defined::<T, Op>(
                    m,
                    op.state(),
                    counter@,
                    i as int,
                    last as int,
                    *zero,
                ) && reduced::<T, Op>(m, op.state(), counter@, i as int, last as int, *zero)
                    == reduced::<T, Op>(
                    m,
                    op.state(),
                    counter@,
                    first as int,
                    last as int,
                    *zero,
                ),
        decreases last - i,
    {
        i += 1;
    }
    if i == last {
        return *zero;
    }
    let mut result = counter[i];
    i += 1;
    while i != last
        invariant
            T::obeys_eq_spec(),
            first < i <= last <= counter@.len(),
            exists|m: Op::Model| op.conforms(m),
            forall|m: Op::Model| #[trigger] op.conforms(m) == old(op).conforms(m),
            forall|m: Op::Model| #[trigger]
                old(op).conforms(m) ==> fold_defined::<T, Op>(
                    m,
                    op.state(),
                    counter@,
                    i as int,
                    last as int,
                    *zero,
                    result,
                ) && folded::<T, Op>(m, op.state(), counter@, i as int, last as int, *zero, result)
                    == reduced::<T, Op>(
                    m,
                    old(op).state(),
                    counter@,
                    first as int,
                    last as int,
                    *zero,
                ),
        decreases last - i,
    {
        let ghost prev = *op;
        let ghost before = result;
        let slot = counter[i];
        if slot != *zero {
            proof {
                assert forall|m: Op::Model| #[trigger] op.conforms(m) implies Op::defined(
                    m,
                    op.state(),
                    result,
                    slot,
                ) by {
                    assert(old(op).conforms(m));
                    assert(fold_defined::<T, Op>(
                        m,
                        op.state(),
                        counter@,
                        i as int,
                        last as int,
                        *zero,
                        result,
                    ));
                }
            }
            let combined = op.apply(&result, &slot);
            proof {
                let witness = choose|m: Op::Model| prev.conforms(m);
                assert(op.conforms(witness));
                assert forall|m: Op::Model| #[trigger] old(op).conforms(m) implies fold_defined::<
                    T,
                    Op,
                >(m, op.state(), counter@, i + 1, last as int, *zero, combined) && folded::<T, Op>(
                    m,
                    op.state(),
                    counter@,
                    i + 1,
                    last as int,
                    *zero,
                    combined,
                ) == reduced::<T, Op>(
                    m,
                    old(op).state(),
                    counter@,
                    first as int,
                    last as int,
                    *zero,
                ) by {
                    assert(prev.conforms(m));
                    assert(fold_defined::<T, Op>(
                        m,
                        prev.state(),
                        counter@,
                        i as int,
                        last as int,
                        *zero,
                        before,
                    ));
                }
            }
            result = combined;
        }
        i += 1;
    }
    result
}

/// A binary counter over values of type `T` with the combining operation
/// `Op`.
pub struct BinaryCounter<T, Op> where T: PartialEq + Copy, Op: BinaryOp<T> {
    counter: Vec<T>,
    op: Op,
    zero: T,
}

impl<T, Op> BinaryCounter<T, Op> where T: PartialEq + Copy, Op: BinaryOp<T> {
    /// The slots, lowest first.
    pub closed spec fn slots(&self) -> Seq<T> {
        self.counter@
    }

    /// The combining operation.
    pub closed spec fn op(&self) -> Op {
        self.op
    }

    /// The value that marks an empty slot.
    pub closed spec fn zero(&self) -> T {
        self.zero
    }

    /// Every application that adding `x` makes is defined.
    pub open spec fn add_defined(&self, m: Op::Model, x: T) -> bool {
        carry_defined::<T, Op>(
            m,
            self.op().state(),
            self.slots(),
            0,
            self.slots().len() as int,
            self.zero(),
            x,
        )
    }

    /// State and slots after adding `x`.
    pub open spec fn after_add(&self, m: Op::Model, x: T) -> (Op::State, Seq<T>) {
        added::<T, Op>(m, self.op().state(), self.slots(), self.zero(), x)
    }

    /// Every application that reducing makes is defined.
    pub open spec fn reduction_defined(&self, m: Op::Model) -> bool {
        reduce_defined::<T, Op>(
            m,
            self.op().state(),
            self.slots(),
            0,
            self.slots().len() as int,
            self.zero(),
        )
    }

    /// State and result after reducing.
    pub open spec fn reduction(&self, m: Op::Model) -> (Op::State, T) {
        reduced::<T, Op>(
            m,
            self.op().state(),
            self.slots(),
            0,
            self.slots().len() as int,
            self.zero(),
        )
    }

    /// A counter without slots.
    pub fn new(op: Op, zero: T) -> (r: Self)
        ensures
            r.slots() == Seq::<T>::empty(),
            r.op() == op,
            r.zero() == zero,
    {
        Self { counter: Vec::new(), op, zero }
    }

    /// A counter without slots, with room for `capacity` of them, which is
    /// enough for `2^capacity - 1` additions.
    pub fn with_capacity(op: Op, zero: T, capacity: usize) -> (r: Self)
        ensures
            r.slots() == Seq::<T>::empty(),
            r.op() == op,
            r.zero() == zero,
    {
        Self { counter: Vec::with_capacity(capacity), op, zero }
    }

    /// Makes room for `capacity` slots in all. The counter's contents stay
    /// as they are.
    pub fn reserve(&mut self, capacity: usize)
        ensures
            final(self).slots() == old(self).slots(),
            final(self).op() == old(self).op(),
            final(self).zero() == old(self).zero(),
    {
        if self.counter.len() < capacity {
            self.counter.reserve(capacity - self.counter.len());
        }
    }

    /// Adds `x` to the counter.
    pub fn add(&mut self, x: T)
        requires
            T::obeys_eq_spec(),
            exists|m: Op::Model| old(self).op().conforms(m),
            forall|m: Op::Model| #[trigger]
                old(self).op().conforms(m) ==> old(self).add_defined(m, x),
        ensures
            final(self).zero() == old(self).zero(),
            forall|m: Op::Model| #[trigger]
                final(self).op().conforms(m) == old(self).op().conforms(m),
            forall|m: Op::Model| #[trigger]
                old(self).op().conforms(m) ==> (final(self).op().state(), final(self).slots())
                    == old(self).after_add(m, x),
    {
        let last = self.counter.len();
        let zero = self.zero;
        let x = add_to_counter(&mut self.counter, 0usize, last, &mut self.op, &zero, x);
        if x != self.zero {
            self.counter.push(x);
        }
    }

    /// Combines all full slots, from the lowest to the highest, and
    /// returns the result, or `zero` for a counter without a full slot.
    /// The slots stay as they are.
    pub fn reduce(&mut self) -> (r: T)
        requires
            T::obeys_eq_spec(),
            exists|m: Op::Model| old(self).op().conforms(m),
            forall|m: Op::Model| #[trigger]
                old(self).op().conforms(m) ==> old(self).reduction_defined(m),
        ensures
            final(self).zero() == old(self).zero(),
            final(self).slots() == old(self).slots(),
            forall|m: Op::Model| #[trigger]
                final(self).op().conforms(m) == old(self).op().conforms(m),
            forall|m: Op::Model| #[trigger]
                old(self).op().conforms(m) ==> (final(self).op().state(), r) == old(self).reduction(m),
    {
        let last = self.counter.len();
        let zero = self.zero;
        reduce_counter(&self.counter, 0usize, last, &mut self.op, &zero)
    }

    /// The slots, lowest first.
    pub fn as_slice(&self) -> (r: &[T])
        ensures
            r@ == self.slots(),
    {
        self.counter.as_slice()
    }

    /// The combining operation.
    pub fn operation(&self) -> (r: &Op)
        ensures
            *r == self.op(),
    {
        &self.op
    }
}

} // verus!
