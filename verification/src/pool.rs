//! A pool of singly linked list nodes addressed by handles.
//!
//! Nodes live in one backing array. A handle is the 1-based position of a
//! node in that array; handle `0` marks the end of a list. Freed nodes are
//! threaded on a free list through their own link field and are handed out
//! again, most recently freed first, before the array grows.
use crate::error::Error;
use crate::order::{decides, is_first_min, lemma_first_min_extend, strict_weak_order};
use vstd::prelude::*;

verus! {

/// The handle of a list node; `0` is the end of every list.
pub type ListType = usize;

/// What a pool holds: for every handle either a live node, with its value
/// and link, or nothing; and the freed handles in the order in which they
/// will be handed out again.
#[verifier::ext_equal]
pub struct PoolModel<T> {
    /// Cell `h - 1` belongs to handle `h`.
    pub cells: Seq<Option<(T, ListType)>>,
    /// The freed handles, the next to be reused first.
    pub free: Seq<ListType>,
}

impl<T> PoolModel<T> {
    /// Number of nodes of the backing array, live or freed.
    pub open spec fn size(self) -> nat {
        self.cells.len()
    }

    /// `h` names a node that is allocated and not freed.
    pub open spec fn live(self, h: ListType) -> bool {
        1 <= h <= self.cells.len() && self.cells[h - 1] is Some
    }

    /// The value of the live node `h`.
    pub open spec fn value(self, h: ListType) -> T {
        self.cells[h - 1]->Some_0.0
    }

    /// The link of the live node `h`.
    pub open spec fn next(self, h: ListType) -> ListType {
        self.cells[h - 1]->Some_0.1
    }

    /// The freed handles are exactly the handles in range without a live
    /// node, each listed once.
    pub open spec fn wf(self) -> bool {
        &&& self.cells.len() <= usize::MAX
        &&& self.free.no_duplicates()
        &&& forall|k: int|
            0 <= k < self.free.len() ==> 1 <= #[trigger] self.free[k] <= self.cells.len()
                && self.cells[self.free[k] - 1] is None
        &&& forall|h: ListType|
            1 <= h <= self.cells.len() && self.cells[h - 1] is None ==> #[trigger] self.free.contains(
                h,
            )
    }

    /// The pool with the value of node `h` replaced.
    pub open spec fn set_value(self, h: ListType, value: T) -> Self {
        PoolModel { cells: self.cells.update(h - 1, Some((value, self.next(h)))), free: self.free }
    }

    /// The pool with the link of node `h` replaced.
    pub open spec fn set_next(self, h: ListType, next: ListType) -> Self {
        PoolModel { cells: self.cells.update(h - 1, Some((self.value(h), next))), free: self.free }
    }

    /// The handle that the next allocation returns: the most recently
    /// freed one, or a new one past the end of the array.
    pub open spec fn next_handle(self) -> ListType {
        if self.free.len() > 0 {
            self.free[0]
        } else {
            (self.cells.len() + 1) as usize
        }
    }

    /// The pool after allocating a node with the given value and link.
    pub open spec fn allocate(self, value: T, next: ListType) -> Self {
        if self.free.len() > 0 {
            PoolModel {
                cells: self.cells.update(self.free[0] - 1, Some((value, next))),
                free: self.free.drop_first(),
            }
        } else {
            PoolModel { cells: self.cells.push(Some((value, next))), free: self.free }
        }
    }

    /// The pool after freeing the live node `h`.
    pub open spec fn release(self, h: ListType) -> Self {
        PoolModel { cells: self.cells.update(h - 1, None), free: seq![h] + self.free }
    }

    /// The pool after freeing the nodes `hs`, first to last.
    pub open spec fn release_all(self, hs: Seq<ListType>) -> Self
        decreases hs.len(),
    {
        if hs.len() == 0 {
            self
        } else {
            self.release(hs[0]).release_all(hs.drop_first())
        }
    }

    /// The pool after allocating one node for each entry of `nodes`, first
    /// to last.
    pub open spec fn allocate_all(self, nodes: Seq<(T, ListType)>) -> Self
        decreases nodes.len(),
    {
        if nodes.len() == 0 {
            self
        } else {
            self.allocate(nodes[0].0, nodes[0].1).allocate_all(nodes.drop_first())
        }
    }

    /// The handles that allocating one node for each entry of `nodes`
    /// returns, first to last.
    pub open spec fn handles_of(self, nodes: Seq<(T, ListType)>) -> Seq<ListType>
        decreases nodes.len(),
    {
        if nodes.len() == 0 {
            Seq::empty()
        } else {
            seq![self.next_handle()] + self.allocate(nodes[0].0, nodes[0].1).handles_of(
                nodes.drop_first(),
            )
        }
    }

    /// `chain` lists the handles met from `head` by following the links up
    /// to the end marker, all of them live.
    pub open spec fn is_chain(self, head: ListType, chain: Seq<ListType>) -> bool
        decreases chain.len(),
    {
        if chain.len() == 0 {
            head == 0
        } else {
            head == chain[0] && self.live(head) && self.is_chain(
                self.next(head),
                chain.drop_first(),
            )
        }
    }

    /// `head` starts a list: following the links from it stays on live
    /// nodes and reaches the end marker.
    pub open spec fn is_list(self, head: ListType) -> bool {
        exists|chain: Seq<ListType>| self.is_chain(head, chain)
    }

    /// The handles of the list that starts at `head`, in list order.
    pub open spec fn chain(self, head: ListType) -> Seq<ListType> {
        choose|chain: Seq<ListType>| self.is_chain(head, chain)
    }

    /// The values of the list that starts at `head`, in list order.
    pub open spec fn values(self, head: ListType) -> Seq<T> {
        Seq::new(self.chain(head).len(), |k: int| self.value(self.chain(head)[k]))
    }

    /// A list has one chain only.
    pub proof fn lemma_chain_unique(self, head: ListType, a: Seq<ListType>, b: Seq<ListType>)
        requires
            self.is_chain(head, a),
            self.is_chain(head, b),
        ensures
            a == b,
        decreases a.len(),
    {
        if a.len() == 0 || b.len() == 0 {
            assert(a =~= b);
        } else {
            self.lemma_chain_unique(self.next(head), a.drop_first(), b.drop_first());
            assert(a =~= seq![a[0]] + a.drop_first());
            assert(b =~= seq![b[0]] + b.drop_first());
        }
    }

    /// The chain of a list is the one chain that fits it.
    pub proof fn lemma_chain_is(self, head: ListType, chain: Seq<ListType>)
        requires
            self.is_chain(head, chain),
        ensures
            self.is_list(head),
            self.chain(head) == chain,
    {
        self.lemma_chain_unique(head, chain, self.chain(head));
    }

    /// Every tail of a chain is the chain of the node it starts with.
    pub proof fn lemma_chain_tail(self, head: ListType, chain: Seq<ListType>, k: int)
        requires
            self.is_chain(head, chain),
            0 <= k <= chain.len(),
        ensures
            self.is_chain(
                if k < chain.len() {
                    chain[k]
                } else {
                    0
                },
                chain.skip(k),
            ),
            forall|j: int| 0 <= j < chain.len() ==> self.live(#[trigger] chain[j]),
        decreases chain.len(),
    {
        if chain.len() == 0 {
            assert(chain.skip(k) =~= chain);
        } else {
            let rest = chain.drop_first();
            self.lemma_chain_tail(self.next(head), rest, if k == 0 { 0 } else { k - 1 });
            assert forall|j: int| 0 <= j < chain.len() implies self.live(#[trigger] chain[j]) by {
                if j > 0 {
                    assert(chain[j] == rest[j - 1]);
                }
            }
            if k == 0 {
                assert(chain.skip(0) =~= chain);
            } else {
                assert(chain.skip(k) =~= rest.skip(k - 1));
                if k < chain.len() {
                    assert(chain[k] == rest[k - 1]);
                }
            }
        }
    }

    /// No handle occurs twice in a chain.
    pub proof fn lemma_chain_no_duplicates(self, head: ListType, chain: Seq<ListType>)
        requires
            self.is_chain(head, chain),
        ensures
            chain.no_duplicates(),
    {
        assert forall|i: int, j: int| 0 <= i < j < chain.len() implies chain[i] != chain[j] by {
            if chain[i] == chain[j] {
                self.lemma_chain_tail(head, chain, i);
                self.lemma_chain_tail(head, chain, j);
                self.lemma_chain_unique(chain[i], chain.skip(i), chain.skip(j));
                assert(chain.skip(i).len() != chain.skip(j).len());
            }
        }
    }

    /// A chain stays a chain, with the same values, in any pool that agrees
    /// with this one on the chain's nodes.
    pub proof fn lemma_chain_frame(self, other: Self, head: ListType, chain: Seq<ListType>)
        requires
            self.is_chain(head, chain),
            forall|j: int|
                0 <= j < chain.len() ==> other.live(#[trigger] chain[j]) && other.cells[chain[j]
                    - 1] == self.cells[chain[j] - 1],
        ensures
            other.is_chain(head, chain),
        decreases chain.len(),
    {
        if chain.len() > 0 {
            let rest = chain.drop_first();
            assert(chain[0] == head);
            assert forall|j: int| 0 <= j < rest.len() implies other.live(#[trigger] rest[j])
                && other.cells[rest[j] - 1] == self.cells[rest[j] - 1] by {
                assert(rest[j] == chain[j + 1]);
            }
            self.lemma_chain_frame(other, self.next(head), rest);
        }
    }

    /// Allocation keeps the pool well formed and hands out a handle that
    /// was not live.
    pub proof fn lemma_allocate(self, value: T, next: ListType)
        requires
            self.wf(),
            self.free.len() == 0 ==> self.cells.len() < usize::MAX,
        ensures
            self.allocate(value, next).wf(),
            !self.live(self.next_handle()),
            self.allocate(value, next).live(self.next_handle()),
            self.allocate(value, next).value(self.next_handle()) == value,
            self.allocate(value, next).next(self.next_handle()) == next,
            forall|h: ListType|
                self.live(h) ==> self.allocate(value, next).live(h) && self.allocate(
                    value,
                    next,
                ).cells[h - 1] == #[trigger] self.cells[h - 1],
    {
        let after = self.allocate(value, next);
        if self.free.len() > 0 {
            let h = self.free[0];
            assert forall|k: int| 0 <= k < after.free.len() implies 1 <= #[trigger] after.free[k]
                <= after.cells.len() && after.cells[after.free[k] - 1] is None by {
                assert(after.free[k] == self.free[k + 1]);
            }
            assert forall|g: ListType|
                1 <= g <= after.cells.len() && after.cells[g - 1] is None implies #[trigger] after.free.contains(
                g,
            ) by {
                assert(self.free.contains(g));
                let k = choose|k: int| 0 <= k < self.free.len() && self.free[k] == g;
                assert(after.free[k - 1] == g);
            }
        } else {
            assert forall|g: ListType|
                1 <= g <= after.cells.len() && after.cells[g - 1] is None implies #[trigger] after.free.contains(
                g,
            ) by {
                assert(self.cells[g - 1] is None);
                assert(self.free.contains(g));
            }
        }
    }

    /// The end marker starts the empty list.
    pub proof fn lemma_empty_list(self)
        ensures
            self.is_list(0),
            self.chain(0) == Seq::<ListType>::empty(),
            self.values(0) == Seq::<T>::empty(),
    {
        self.lemma_chain_is(0, Seq::<ListType>::empty());
        assert(self.values(0) =~= Seq::<T>::empty());
    }

    /// A node allocated in front of a list starts the list that is longer
    /// by that node, and every list stays what it was.
    pub proof fn lemma_allocate_extends(self, value: T, next: ListType, other: ListType)
        requires
            self.wf(),
            self.free.len() == 0 ==> self.cells.len() < usize::MAX,
            self.is_list(next),
            self.is_list(other),
        ensures
            self.allocate(value, next).is_list(self.next_handle()),
            self.allocate(value, next).chain(self.next_handle()) == seq![self.next_handle()]
                + self.chain(next),
            self.allocate(value, next).values(self.next_handle()) == seq![value] + self.values(
                next,
            ),
            self.allocate(value, next).is_list(other),
            self.allocate(value, next).chain(other) == self.chain(other),
            self.allocate(value, next).values(other) == self.values(other),
    {
        let after = self.allocate(value, next);
        let h = self.next_handle();
        self.lemma_allocate(value, next);
        let c = self.chain(next);
        self.lemma_chain_tail(next, c, 0);
        self.lemma_chain_frame(after, next, c);
        let grown = seq![h] + c;
        assert(grown.drop_first() =~= c);
        after.lemma_chain_is(h, grown);
        assert(after.values(h) =~= seq![value] + self.values(next)) by {
            assert forall|k: int| 0 <= k < grown.len() implies after.values(h)[k] == (seq![value]
                + self.values(next))[k] by {
                if k > 0 {
                    assert(grown[k] == c[k - 1]);
                    assert(self.live(c[k - 1]));
                }
            }
        }
        let d = self.chain(other);
        self.lemma_chain_tail(other, d, 0);
        self.lemma_chain_frame(after, other, d);
        after.lemma_chain_is(other, d);
        assert(after.values(other) =~= self.values(other));
    }

    /// Freeing a live node keeps the pool well formed and touches no other
    /// node.
    pub proof fn lemma_release(self, h: ListType)
        requires
            self.wf(),
            self.live(h),
        ensures
            self.release(h).wf(),
            self.release(h).size() == self.size(),
            !self.release(h).live(h),
            forall|g: ListType|
                g != h && self.live(g) ==> self.release(h).live(g) && self.release(h).cells[g - 1]
                    == #[trigger] self.cells[g - 1],
    {
        let after = self.release(h);
        assert forall|i: int, j: int| 0 <= i < j < after.free.len() implies after.free[i]
            != after.free[j] by {
            if i == 0 {
                assert(after.free[j] == self.free[j - 1]);
            } else {
                assert(after.free[i] == self.free[i - 1]);
                assert(after.free[j] == self.free[j - 1]);
            }
        }
        assert forall|k: int| 0 <= k < after.free.len() implies 1 <= #[trigger] after.free[k]
            <= after.cells.len() && after.cells[after.free[k] - 1] is None by {
            if k > 0 {
                assert(after.free[k] == self.free[k - 1]);
            }
        }
        assert forall|g: ListType|
            1 <= g <= after.cells.len() && after.cells[g - 1] is None implies #[trigger] after.free.contains(
            g,
        ) by {
            if g == h {
                assert(after.free[0] == h);
            } else {
                assert(self.free.contains(g));
                let k = choose|k: int| 0 <= k < self.free.len() && self.free[k] == g;
                assert(after.free[k + 1] == g);
            }
        }
    }

    /// Freeing distinct live nodes one after another keeps the pool well
    /// formed, keeps its size, and stacks the handles on the free list,
    /// the last freed on top.
    pub proof fn lemma_release_all(self, hs: Seq<ListType>)
        requires
            self.wf(),
            hs.no_duplicates(),
            forall|k: int| 0 <= k < hs.len() ==> self.live(#[trigger] hs[k]),
        ensures
            self.release_all(hs).wf(),
            self.release_all(hs).size() == self.size(),
            self.release_all(hs).free == hs.reverse() + self.free,
            forall|g: ListType|
                self.live(g) && !hs.contains(g) ==> self.release_all(hs).live(g)
                    && self.release_all(hs).cells[g - 1] == #[trigger] self.cells[g - 1],
            forall|k: int| 0 <= k < hs.len() ==> !self.release_all(hs).live(#[trigger] hs[k]),
        decreases hs.len(),
    {
        if hs.len() == 0 {
            assert(hs.reverse() + self.free =~= self.free);
        } else {
            let rest = hs.drop_first();
            let mid = self.release(hs[0]);
            self.lemma_release(hs[0]);
            assert forall|k: int| 0 <= k < rest.len() implies mid.live(#[trigger] rest[k]) by {
                assert(rest[k] == hs[k + 1]);
            }
            mid.lemma_release_all(rest);
            let after = self.release_all(hs);
            assert(after.free =~= hs.reverse() + self.free) by {
                assert(mid.free == seq![hs[0]] + self.free);
                assert(after.free == rest.reverse() + mid.free);
                assert forall|i: int| 0 <= i < after.free.len() implies after.free[i] == (
                hs.reverse() + self.free)[i] by {
                    if i < rest.len() {
                        assert(rest.reverse()[i] == rest[rest.len() - 1 - i]);
                        assert(hs.reverse()[i] == hs[hs.len() - 1 - i]);
                    } else if i == rest.len() {
                        assert(hs.reverse()[i] == hs[0]);
                    }
                }
            }
            assert forall|g: ListType| self.live(g) && !hs.contains(g) implies after.live(g)
                && after.cells[g - 1] == #[trigger] self.cells[g - 1] by {
                assert(g != hs[0]);
                if rest.contains(g) {
                    let k = choose|k: int| 0 <= k < rest.len() && rest[k] == g;
                    assert(hs[k + 1] == g);
                }
            }
            assert forall|k: int| 0 <= k < hs.len() implies !after.live(#[trigger] hs[k]) by {
                if k == 0 {
                    assert(!rest.contains(hs[0])) by {
                        if rest.contains(hs[0]) {
                            let j = choose|j: int| 0 <= j < rest.len() && rest[j] == hs[0];
                            assert(hs[j + 1] == hs[0]);
                        }
                    }
                    assert(forall|j: int| 0 <= j < mid.free.len() ==> !mid.live(mid.free[j]));
                    assert(after.free[rest.len() as int] == hs[0]);
                } else {
                    assert(rest[k - 1] == hs[k]);
                }
            }
        }
    }

    /// While freed handles are left, allocations take them from the top of
    /// the free list and the backing array does not grow.
    pub proof fn lemma_allocate_all_reuses(self, nodes: Seq<(T, ListType)>)
        requires
            self.wf(),
            nodes.len() <= self.free.len(),
        ensures
            self.allocate_all(nodes).wf(),
            self.allocate_all(nodes).size() == self.size(),
            self.allocate_all(nodes).free == self.free.skip(nodes.len() as int),
            self.handles_of(nodes) == self.free.take(nodes.len() as int),
        decreases nodes.len(),
    {
        if nodes.len() == 0 {
            assert(self.free.skip(0) =~= self.free);
            assert(self.free.take(0) =~= Seq::<ListType>::empty());
        } else {
            self.lemma_allocate(nodes[0].0, nodes[0].1);
            let mid = self.allocate(nodes[0].0, nodes[0].1);
            let rest = nodes.drop_first();
            mid.lemma_allocate_all_reuses(rest);
            assert(mid.free.skip(rest.len() as int) =~= self.free.skip(nodes.len() as int));
            assert(seq![self.free[0]] + mid.free.take(rest.len() as int) =~= self.free.take(
                nodes.len() as int,
            ));
        }
    }

    /// Round trip: after freeing the distinct live nodes `freed`, the next
    /// `freed.len()` allocations return exactly those handles, the last
    /// freed first, and the backing array keeps its size.
    pub proof fn lemma_round_trip(self, freed: Seq<ListType>, nodes: Seq<(T, ListType)>)
        requires
            self.wf(),
            freed.no_duplicates(),
            forall|k: int| 0 <= k < freed.len() ==> self.live(#[trigger] freed[k]),
            nodes.len() == freed.len(),
        ensures
            self.release_all(freed).handles_of(nodes) == freed.reverse(),
            self.release_all(freed).allocate_all(nodes).size() == self.size(),
            self.release_all(freed).allocate_all(nodes).free == self.free,
            self.release_all(freed).allocate_all(nodes).wf(),
    {
        self.lemma_release_all(freed);
        let mid = self.release_all(freed);
        mid.lemma_allocate_all_reuses(nodes);
        assert(mid.free.take(nodes.len() as int) =~= freed.reverse());
        assert(mid.free.skip(nodes.len() as int) =~= self.free);
    }
}

/// One node of the pool.
struct ListPoolNode<T> {
    value: T,
    next: ListType,
    live: bool,
}

/// A pool of list nodes with O(1) allocation and release.
pub struct ListPool<T> {
    pool: Vec<ListPoolNode<T>>,
    free_list: ListType,
    freed: Ghost<Seq<ListType>>,
}

/// The number of elements that `v` can hold without reallocating, as
/// `Vec::capacity` reports it; it is never below the length.
#[verifier::external_body]
fn vec_capacity<T>(v: &Vec<T>) -> (c: usize)
    ensures
        c >= v@.len(),
{
    v.capacity()
}

impl<T> View for ListPool<T> {
    type V = PoolModel<T>;

    closed spec fn view(&self) -> PoolModel<T> {
        PoolModel {
            cells: Seq::new(
                self.pool@.len(),
                |i: int|
                    if self.pool@[i].live {
                        Some((self.pool@[i].value, self.pool@[i].next))
                    } else {
                        None
                    },
            ),
            free: self.freed@,
        }
    }
}

impl<T> ListPool<T> {
    /// The free list of the representation threads exactly the freed
    /// handles of the model, and the model is well formed.
    pub closed spec fn wf(&self) -> bool {
        &&& self@.wf()
        &&& self.free_list == if self.freed@.len() > 0 {
            self.freed@[0]
        } else {
            0
        }
        &&& forall|k: int|
            0 <= k < self.freed@.len() ==> (#[trigger] self.pool@[self.freed@[k] - 1]).next == if k
                + 1 < self.freed@.len() {
                self.freed@[k + 1]
            } else {
                0
            }
    }

    /// A well-formed pool holds a well-formed model.
    pub proof fn lemma_wf(&self)
        requires
            self.wf(),
        ensures
            self@.wf(),
    {
    }

    /// The handle that ends every list.
    pub fn end() -> (r: ListType)
        ensures
            r == 0,
    {
        0
    }

    /// Whether `x` is the end marker.
    pub fn is_end(x: ListType) -> (r: bool)
        ensures
            r == (x == 0),
    {
        x == Self::end()
    }

    /// Whether the backing array holds no node at all.
    pub fn empty(&self) -> (r: bool)
        ensures
            r == (self@.size() == 0),
    {
        self.pool.is_empty()
    }

    /// Number of nodes of the backing array, live or freed.
    pub fn size(&self) -> (r: usize)
        ensures
            r == self@.size(),
    {
        self.pool.len()
    }

    /// Number of nodes that the backing array can hold before it has to
    /// grow.
    pub fn capacity(&self) -> (r: usize)
        ensures
            r >= self@.size(),
    {
        vec_capacity(&self.pool)
    }

    /// An empty pool.
    pub fn new() -> (r: Self)
        ensures
            r.wf(),
            r@.cells.len() == 0,
            r@.free.len() == 0,
    {
        Self { pool: Vec::new(), free_list: Self::end(), freed: Ghost(Seq::empty()) }
    }

    /// An empty pool with room for `capacity` nodes.
    pub fn with_capacity(capacity: usize) -> (r: Self)
        ensures
            r.wf(),
            r@.cells.len() == 0,
            r@.free.len() == 0,
    {
        Self {
            pool: Vec::with_capacity(capacity),
            free_list: Self::end(),
            freed: Ghost(Seq::empty()),
        }
    }

    /// Whether `x` names a live node.
    pub fn is_live(&self, x: ListType) -> (r: bool)
        ensures
            r == self@.live(x),
    {
        x != 0 && x <= self.pool.len() && self.pool[x - 1].live
    }

    /// Appends a live node to the backing array and returns its handle.
    fn new_list(&mut self, value: T, next: ListType) -> (r: ListType)
        requires
            old(self).wf(),
            old(self)@.free.len() == 0,
        ensures
            final(self).wf(),
            r == old(self)@.next_handle(),
            final(self)@ == old(self)@.allocate(value, next),
    {
        self.pool.push(ListPoolNode { value, next, live: true });
        let r = self.pool.len();
        proof {
            assert(self@.cells =~= old(self)@.allocate(value, next).cells);
            old(self)@.lemma_allocate(value, next);
        }
        r
    }

    /// The value of the live node `x`.
    pub fn value(&self, x: ListType) -> (r: Result<&T, Error>)
        ensures
            self@.live(x) ==> r == Ok::<&T, Error>(&self@.value(x)),
            !self@.live(x) ==> r == Err::<&T, Error>(Error::InvalidHandle),
    {
        if !self.is_live(x) {
            return Err(Error::InvalidHandle);
        }
        Ok(&self.pool[x - 1].value)
    }

    /// Access to the value of the live node `x`, to replace it.
    pub fn value_mut(&mut self, x: ListType) -> (r: Result<&mut T, Error>)
        requires
            old(self).wf(),
        ensures
            final(self).wf(),
            old(self)@.live(x) ==> r is Ok && *r->Ok_0 == old(self)@.value(x) && final(self)@
                =~= old(self)@.set_value(x, *final(r->Ok_0)),
            !old(self)@.live(x) ==> r == Err::<&mut T, Error>(Error::InvalidHandle) && final(self)@
                == old(self)@,
    {
        if !self.is_live(x) {
            return Err(Error::InvalidHandle);
        }
        Ok(&mut self.pool[x - 1].value)
    }

    /// The link of the live node `x`.
    pub fn next(&self, x: ListType) -> (r: Result<&ListType, Error>)
        ensures
            self@.live(x) ==> r == Ok::<&ListType, Error>(&self@.next(x)),
            !self@.live(x) ==> r == Err::<&ListType, Error>(Error::InvalidHandle),
    {
        if !self.is_live(x) {
            return Err(Error::InvalidHandle);
        }
        Ok(&self.pool[x - 1].next)
    }

    /// Access to the link of the live node `x`, to replace it.
    pub fn next_mut(&mut self, x: ListType) -> (r: Result<&mut ListType, Error>)
        requires
            old(self).wf(),
        ensures
            final(self).wf(),
            old(self)@.live(x) ==> r is Ok && *r->Ok_0 == old(self)@.next(x) && final(self)@
                =~= old(self)@.set_next(x, *final(r->Ok_0)),
            !old(self)@.live(x) ==> r == Err::<&mut ListType, Error>(Error::InvalidHandle)
                && final(self)@ == old(self)@,
    {
        if !self.is_live(x) {
            return Err(Error::InvalidHandle);
        }
        Ok(&mut self.pool[x - 1].next)
    }

    /// Returns the live node `x` to the pool and gives back the link it
    /// held, so that a caller can free a whole list node by node.
    pub fn free(&mut self, x: ListType) -> (r: Result<ListType, Error>)
        requires
            old(self).wf(),
        ensures
            final(self).wf(),
            old(self)@.live(x) ==> r == Ok::<ListType, Error>(old(self)@.next(x)) && final(self)@
                == old(self)@.release(x),
            !old(self)@.live(x) ==> r == Err::<ListType, Error>(Error::InvalidHandle) && final(self)@ == old(self)@,
    {
        if !self.is_live(x) {
            return Err(Error::InvalidHandle);
        }
        let tmp = self.pool[x - 1].next;
        let head = self.free_list;
        let node = &mut self.pool[x - 1];
        node.next = head;
        node.live = false;
        self.free_list = x;
        proof {
            self.freed@ = seq![x] + self.freed@;
            old(self)@.lemma_release(x);
            assert(self@.cells =~= old(self)@.release(x).cells);
            assert forall|k: int| 0 <= k < self.freed@.len() implies (#[trigger] self.pool@[self.freed@[k]
                - 1]).next == if k + 1 < self.freed@.len() {
                self.freed@[k + 1]
            } else {
                0
            } by {
                if k > 0 {
                    assert(self.freed@[k] == old(self).freed@[k - 1]);
                    assert(old(self)@.cells[old(self).freed@[k - 1] - 1] is None);
                }
            }
        }
        Ok(tmp)
    }

    /// Allocates a node with value `val` and link `x` and returns its
    /// handle; the most recently freed node is reused if there is one,
    /// else the backing array grows by one.
    pub fn allocate(&mut self, val: T, x: ListType) -> (r: ListType)
        requires
            old(self).wf(),
        ensures
            final(self).wf(),
            r == old(self)@.next_handle(),
            final(self)@ == old(self)@.allocate(val, x),
            !old(self)@.live(r),
    {
        if Self::is_end(self.free_list) {
            let list = self.new_list(val, x);
            proof {
                old(self)@.lemma_allocate(val, x);
            }
            list
        } else {
            let list = self.free_list;
            assert(list == self.freed@[0]);
            assert(self.pool@[self.freed@[0] - 1].next == if 1 < self.freed@.len() {
                self.freed@[1]
            } else {
                0
            });
            self.free_list = self.pool[list - 1].next;
            self.pool[list - 1] = ListPoolNode { value: val, next: x, live: true };
            proof {
                self.freed@ = self.freed@.drop_first();
                old(self)@.lemma_allocate(val, x);
                assert(self@.cells =~= old(self)@.allocate(val, x).cells);
                assert forall|k: int| 0 <= k < self.freed@.len() implies (#[trigger] self.pool@[self.freed@[k]
                    - 1]).next == if k + 1 < self.freed@.len() {
                    self.freed@[k + 1]
                } else {
                    0
                } by {
                    assert(self.freed@[k] == old(self).freed@[k + 1]);
                    assert(old(self).pool@[old(self).freed@[k + 1] - 1].next == if k + 2 < old(self).freed@.len() {
                        old(self).freed@[k + 2]
                    } else {
                        0
                    });
                    if k + 1 < self.freed@.len() {
                        assert(self.freed@[k + 1] == old(self).freed@[k + 2]);
                    }
                }
            }
            list
        }
    }
}

/// Frees every node of the list that starts at `x`.
pub fn free_list<T>(pool: &mut ListPool<T>, x: ListType)
    requires
        old(pool).wf(),
        old(pool)@.is_list(x),
    ensures
        final(pool).wf(),
        final(pool)@ == old(pool)@.release_all(old(pool)@.chain(x)),
        final(pool)@.size() == old(pool)@.size(),
{
    let ghost chain = pool@.chain(x);
    let ghost start = pool@;
    let mut x = x;
    let ghost mut done: int = 0;
    proof {
        start.lemma_chain_no_duplicates(x, chain);
        start.lemma_chain_tail(x, chain, 0);
        assert(chain.skip(0) =~= chain);
    }
    while !ListPool::<T>::is_end(x)
        invariant
            pool.wf(),
            0 <= done <= chain.len(),
            chain.no_duplicates(),
            pool@.is_chain(x, chain.skip(done)),
            pool@.release_all(chain.skip(done)) == start.release_all(chain),
        decreases chain.len() - done,
    {
        let ghost before = pool@;
        let ghost rest = chain.skip(done);
        assert(rest.len() > 0);
        assert(rest[0] == x);
        let next = pool.free(x);
        proof {
            before.lemma_release(x);
            assert(rest.drop_first() =~= chain.skip(done + 1));
            assert forall|j: int| 0 <= j < rest.drop_first().len() implies pool@.live(
                #[trigger] rest.drop_first()[j],
            ) && pool@.cells[rest.drop_first()[j] - 1] == before.cells[rest.drop_first()[j] - 1] by {
                before.lemma_chain_tail(x, rest, 0);
                assert(rest.drop_first()[j] == rest[j + 1]);
                assert(rest[j + 1] == chain[done + j + 1]);
                assert(rest[0] == chain[done]);
                assert(before.live(rest[j + 1]));
            }
            before.lemma_chain_frame(pool@, before.next(x), rest.drop_first());
            done = done + 1;
        }
        x = next.unwrap();
    }
    proof {
        assert(chain.skip(done).len() == 0);
        start.lemma_release_all(chain);
    }
}

/// Handle of the smallest value of the list that starts at `x`: the first
/// one in list order of several smallest, the end marker for an empty
/// list.
pub fn min_element_list<T, C>(pool: &ListPool<T>, x: ListType, lt: C) -> (r: ListType)
    where C: Fn(&T, &T) -> bool
    requires
        pool.wf(),
        pool@.is_list(x),
        forall|j: int, k: int|
            0 <= j < pool@.values(x).len() && 0 <= k < pool@.values(x).len() ==> call_requires(
                lt,
                (&#[trigger] pool@.values(x)[j], &#[trigger] pool@.values(x)[k]),
            ),
    ensures
        x == 0 ==> r == 0,
        x != 0 ==> pool@.chain(x).contains(r),
        forall|rel: spec_fn(T, T) -> bool|
            x != 0 && #[trigger] decides(lt, rel) && strict_weak_order(rel) ==> is_first_min(
                pool@.values(x),
                rel,
                0,
                pool@.chain(x).len() as int,
                pool@.chain(x).index_of(r),
            ),
{
    if ListPool::<T>::is_end(x) {
        return x;
    }
    let ghost chain = pool@.chain(x);
    let ghost values = pool@.values(x);
    proof {
        pool@.lemma_chain_no_duplicates(x, chain);
        pool@.lemma_chain_tail(x, chain, 0);
        pool@.lemma_chain_tail(x, chain, 1);
        assert(chain.skip(0) =~= chain);
    }
    let mut current_min = x;
    let ghost mut at: int = 0;
    let ghost mut seen: int = 1;
    let mut x = *pool.next(x).unwrap();
    while !ListPool::<T>::is_end(x)
        invariant
            pool.wf(),
            forall|j: int, k: int|
                0 <= j < values.len() && 0 <= k < values.len() ==> call_requires(
                    lt,
                    (&#[trigger] values[j], &#[trigger] values[k]),
                ),
            values == Seq::new(chain.len(), |k: int| pool@.value(chain[k])),
            chain.no_duplicates(),
            forall|j: int| 0 <= j < chain.len() ==> pool@.live(#[trigger] chain[j]),
            0 <= at < seen <= chain.len(),
            current_min == chain[at],
            pool@.is_chain(x, chain.skip(seen)),
            forall|rel: spec_fn(T, T) -> bool|
                #[trigger] decides(lt, rel) && strict_weak_order(rel) ==> is_first_min(
                    values,
                    rel,
                    0,
                    seen,
                    at,
                ),
        decreases chain.len() - seen,
    {
        assert(chain.skip(seen).len() > 0);
        assert(chain.skip(seen)[0] == x);
        assert(x == chain[seen]);
        assert(values[seen] == pool@.value(x) && values[at] == pool@.value(current_min));
        let smaller = lt(pool.value(x).unwrap(), pool.value(current_min).unwrap());
        proof {
            assert forall|rel: spec_fn(T, T) -> bool|
                #[trigger] decides(lt, rel) && strict_weak_order(rel) implies is_first_min(
                values,
                rel,
                0,
                seen + 1,
                if smaller {
                    seen
                } else {
                    at
                },
            ) by {
                lemma_first_min_extend(values, rel, 0, seen, at);
            }
            assert(chain.skip(seen).drop_first() =~= chain.skip(seen + 1));
        }
        if smaller {
            current_min = x;
            proof {
                at = seen;
            }
        }
        x = *pool.next(x).unwrap();
        proof {
            seen = seen + 1;
        }
    }
    proof {
        assert(chain.skip(seen).len() == 0);
        assert(chain.index_of(current_min) == at);
    }
    current_min
}

} // verus!
