//! Array book: two fixed-capacity arrays, one per side, each kept sorted by
//! insertion sort so that slot 0 always holds the side's best order.
use vstd::prelude::*;

verus! {

/// Most live orders a side can hold.
pub const MAX_ORDERS: usize = 1024;

/// A resting order of the array book.
#[derive(Clone, Copy, Debug, PartialEq, Eq, Structural)]
pub struct Order {
    /// Price in ticks.
    pub px: u64,
    /// Resting quantity.
    pub sz: u32,
    /// Arrival time, the last tie-break.
    pub ts: u64,
    /// Identifier handed out by the book.
    pub id: u32,
}

/// `a` ranks strictly ahead of `b` on the given side: better price (higher
/// for bids, lower for asks), then larger size, then earlier timestamp.
pub open spec fn precedes(a: Order, b: Order, is_bid: bool) -> bool {
    if a.px != b.px {
        if is_bid { a.px > b.px } else { a.px < b.px }
    } else if a.sz != b.sz {
        a.sz > b.sz
    } else {
        a.ts < b.ts
    }
}

/// Every earlier order of `s` ranks at least as well as every later one.
pub open spec fn sorted(s: Seq<Order>, is_bid: bool) -> bool {
    forall|i: int, j: int| 0 <= i < j < s.len() ==> !precedes(#[trigger] s[j], #[trigger] s[i], is_bid)
}

/// The slot that `o` takes in `s`: the first order that `o` ranks ahead of,
/// or the end of `s`.
pub open spec fn insert_index(s: Seq<Order>, o: Order, is_bid: bool) -> nat
    decreases s.len(),
{
    if s.len() == 0 {
        0
    } else if precedes(o, s[0], is_bid) {
        0
    } else {
        1 + insert_index(s.drop_first(), o, is_bid)
    }
}

/// `s` with `o` placed in priority order.
pub open spec fn placed(s: Seq<Order>, o: Order, is_bid: bool) -> Seq<Order> {
    s.insert(insert_index(s, o, is_bid) as int, o)
}

/// Position of the first order of `s` with the given id, or the length of
/// `s` when there is none.
pub open spec fn id_index(s: Seq<Order>, id: u32) -> nat
    decreases s.len(),
{
    if s.len() == 0 {
        0
    } else if s[0].id == id {
        0
    } else {
        1 + id_index(s.drop_first(), id)
    }
}

/// Some order of `s` carries the id.
pub open spec fn has_id(s: Seq<Order>, id: u32) -> bool {
    exists|j: int| 0 <= j < s.len() && (#[trigger] s[j]).id == id
}

/// `s` without its first order with the given id (unchanged if none).
pub open spec fn cancelled(s: Seq<Order>, id: u32) -> Seq<Order> {
    if id_index(s, id) < s.len() {
        s.remove(id_index(s, id) as int)
    } else {
        s
    }
}

/// No two orders of `s` share an id.
pub open spec fn ids_distinct(s: Seq<Order>) -> bool {
    forall|i: int, j: int| 0 <= i < s.len() && 0 <= j < s.len() && i != j ==> #[trigger] s[i].id != #[trigger] s[j].id
}

/// Every order of `s` has an id below `n`.
pub open spec fn ids_below(s: Seq<Order>, n: nat) -> bool {
    forall|i: int| 0 <= i < s.len() ==> (#[trigger] s[i]).id < n
}

/// The side's best order: slot 0, if any.
pub open spec fn best_of(s: Seq<Order>) -> Option<Order> {
    if s.len() > 0 {
        Some(s[0])
    } else {
        None
    }
}

/// `insert_index` is the first slot whose order `o` ranks ahead of.
pub proof fn lemma_insert_index(s: Seq<Order>, o: Order, is_bid: bool)
    ensures
        insert_index(s, o, is_bid) <= s.len(),
        forall|j: int| 0 <= j < insert_index(s, o, is_bid) ==> !precedes(o, #[trigger] s[j], is_bid),
        insert_index(s, o, is_bid) < s.len() ==> precedes(o, s[insert_index(s, o, is_bid) as int], is_bid),
    decreases s.len(),
{
    if s.len() > 0 && !precedes(o, s[0], is_bid) {
        lemma_insert_index(s.drop_first(), o, is_bid);
        assert forall|j: int| 0 <= j < insert_index(s, o, is_bid) implies !precedes(o, #[trigger] s[j], is_bid) by {
            if j > 0 {
                assert(s[j] == s.drop_first()[j - 1]);
            }
        }
    }
}

/// A slot before which `o` ranks ahead of nothing, and at which it ranks
/// ahead of the order there, is `insert_index`.
proof fn lemma_insert_index_unique(s: Seq<Order>, o: Order, is_bid: bool, k: int)
    requires
        0 <= k <= s.len(),
        forall|j: int| 0 <= j < k ==> !precedes(o, #[trigger] s[j], is_bid),
        k < s.len() ==> precedes(o, s[k], is_bid),
    ensures
        insert_index(s, o, is_bid) == k,
{
    lemma_insert_index(s, o, is_bid);
    let m = insert_index(s, o, is_bid) as int;
    if m < k {
        assert(!precedes(o, s[m], is_bid));
    } else if k < m {
        assert(!precedes(o, s[k], is_bid));
    }
}

/// `id_index` is the first slot with the id.
pub proof fn lemma_id_index(s: Seq<Order>, id: u32)
    ensures
        id_index(s, id) <= s.len(),
        forall|j: int| 0 <= j < id_index(s, id) ==> (#[trigger] s[j]).id != id,
        id_index(s, id) < s.len() ==> s[id_index(s, id) as int].id == id,
        has_id(s, id) <==> id_index(s, id) < s.len(),
    decreases s.len(),
{
    if s.len() > 0 && s[0].id != id {
        lemma_id_index(s.drop_first(), id);
        assert forall|j: int| 0 <= j < id_index(s, id) implies (#[trigger] s[j]).id != id by {
            if j > 0 {
                assert(s[j] == s.drop_first()[j - 1]);
            }
        }
        if has_id(s, id) {
            let j = choose|j: int| 0 <= j < s.len() && (#[trigger] s[j]).id == id;
            assert(s.drop_first()[j - 1].id == id);
        }
        if id_index(s, id) < s.len() {
            assert(s[id_index(s, id) as int] == s.drop_first()[id_index(s, id) - 1]);
        }
    } else if s.len() > 0 {
        assert(s[0].id == id);
    }
}

/// Ranking is a strict order: never both ways, and transitive.
pub proof fn lemma_precedes_strict(a: Order, b: Order, c: Order, is_bid: bool)
    ensures
        precedes(a, b, is_bid) ==> !precedes(b, a, is_bid),
        precedes(a, b, is_bid) && precedes(b, c, is_bid) ==> precedes(a, c, is_bid),
{
}

/// An order that ranks ahead of `b` also ranks ahead of anything that `b`
/// does not rank behind.
pub proof fn lemma_precedes_weak(a: Order, b: Order, c: Order, is_bid: bool)
    ensures
        precedes(a, b, is_bid) && !precedes(c, b, is_bid) ==> precedes(a, c, is_bid),
{
}

/// Placing an order keeps a side sorted.
pub proof fn lemma_placed_sorted(s: Seq<Order>, o: Order, is_bid: bool)
    requires
        sorted(s, is_bid),
    ensures
        sorted(placed(s, o, is_bid), is_bid),
        placed(s, o, is_bid).len() == s.len() + 1,
{
    lemma_insert_index(s, o, is_bid);
    let k = insert_index(s, o, is_bid) as int;
    let t = placed(s, o, is_bid);
    assert forall|i: int, j: int| 0 <= i < j < t.len() implies !precedes(#[trigger] t[j], #[trigger] t[i], is_bid) by {
        if j < k {
            assert(t[i] == s[i] && t[j] == s[j]);
        } else if j == k {
            assert(t[i] == s[i]);
        } else if i == k {
            assert(t[j] == s[j - 1]);
            if k < j - 1 {
                assert(!precedes(s[j - 1], s[k], is_bid));
            }
            lemma_precedes_strict(s[j - 1], o, s[k], is_bid);
            lemma_precedes_strict(o, s[k], s[k], is_bid);
        } else if i < k {
            assert(t[i] == s[i] && t[j] == s[j - 1]);
        } else {
            assert(t[i] == s[i - 1] && t[j] == s[j - 1]);
        }
    }
}

/// Removing any order keeps a side sorted.
pub proof fn lemma_remove_sorted(s: Seq<Order>, k: int, is_bid: bool)
    requires
        sorted(s, is_bid),
        0 <= k < s.len(),
    ensures
        sorted(s.remove(k), is_bid),
{
    let t = s.remove(k);
    assert forall|i: int, j: int| 0 <= i < j < t.len() implies !precedes(#[trigger] t[j], #[trigger] t[i], is_bid) by {
        let si = if i < k { i } else { i + 1 };
        let sj = if j < k { j } else { j + 1 };
        assert(t[i] == s[si] && t[j] == s[sj]);
    }
}

/// Placing an order with a fresh id `n` above every live id keeps ids
/// distinct, and all below `n + 1`.
pub proof fn lemma_insert_ids(s: Seq<Order>, k: int, o: Order, n: nat)
    requires
        ids_distinct(s),
        ids_below(s, n),
        o.id == n,
        0 <= k <= s.len(),
    ensures
        ids_distinct(s.insert(k, o)),
        ids_below(s.insert(k, o), n + 1),
{
    let t = s.insert(k, o);
    assert forall|i: int| 0 <= i < t.len() implies (#[trigger] t[i]).id < n + 1 by {
        if i < k {
            assert(t[i] == s[i]);
        } else if i > k {
            assert(t[i] == s[i - 1]);
        }
    }
    assert forall|i: int, j: int| 0 <= i < t.len() && 0 <= j < t.len() && i != j implies #[trigger] t[i].id != #[trigger] t[j].id by {
        let si = if i < k { i } else { i - 1 };
        let sj = if j < k { j } else { j - 1 };
        if i != k && j != k {
            assert(t[i] == s[si] && t[j] == s[sj]);
        } else if i == k {
            assert(t[j] == s[sj]);
        } else {
            assert(t[i] == s[si]);
        }
    }
}

/// Removing an order keeps ids distinct and below the same bound.
pub proof fn lemma_remove_ids(s: Seq<Order>, k: int, n: nat)
    requires
        0 <= k < s.len(),
    ensures
        ids_distinct(s) ==> ids_distinct(s.remove(k)),
        ids_below(s, n) ==> ids_below(s.remove(k), n),
{
    let t = s.remove(k);
    assert forall|i: int| 0 <= i < t.len() implies #[trigger] t[i] == s[if i < k { i } else { i + 1 }] by {}
}

/// Cancelling is idempotent where ids are distinct: a live id is cancelled
/// once, taking exactly one order away, after which it is no longer
/// present and a second cancel leaves the side unchanged. The book keeps
/// ids distinct until its counter wraps.
pub proof fn lemma_cancel_idempotent(s: Seq<Order>, id: u32)
    requires
        ids_distinct(s),
    ensures
        has_id(s, id) ==> {
            &&& cancelled(s, id).len() == s.len() - 1
            &&& !has_id(cancelled(s, id), id)
            &&& cancelled(cancelled(s, id), id) == cancelled(s, id)
        },
        !has_id(s, id) ==> cancelled(s, id) == s,
{
    lemma_id_index(s, id);
    if has_id(s, id) {
        let k = id_index(s, id) as int;
        let t = cancelled(s, id);
        lemma_id_index(t, id);
        if has_id(t, id) {
            let j = choose|j: int| 0 <= j < t.len() && (#[trigger] t[j]).id == id;
            if j < k {
                assert(t[j] == s[j]);
            } else {
                assert(t[j] == s[j + 1]);
            }
        }
    }
}

/// The sort invariant: placing or cancelling keeps a sorted side sorted,
/// so it holds after any sequence of either.
pub proof fn lemma_sort_invariant(s: Seq<Order>, o: Order, id: u32, is_bid: bool)
    requires
        sorted(s, is_bid),
    ensures
        sorted(place_side(s, o, is_bid), is_bid),
        sorted(cancelled(s, id), is_bid),
{
    lemma_placed_sorted(s, o, is_bid);
    lemma_id_index(s, id);
    if id_index(s, id) < s.len() {
        lemma_remove_sorted(s, id_index(s, id) as int, is_bid);
    }
}

/// What a `place` of `o` makes of the side `s`: `o` placed in order, or
/// `s` unchanged when it is full.
pub open spec fn place_side(s: Seq<Order>, o: Order, is_bid: bool) -> Seq<Order> {
    if s.len() < MAX_ORDERS {
        placed(s, o, is_bid)
    } else {
        s
    }
}

/// The side after placing each order of `os` in turn.
pub open spec fn place_all(s: Seq<Order>, os: Seq<Order>, is_bid: bool) -> Seq<Order>
    decreases os.len(),
{
    if os.len() == 0 {
        s
    } else {
        place_side(place_all(s, os.drop_last(), is_bid), os.last(), is_bid)
    }
}

proof fn lemma_place_all_len(os: Seq<Order>, is_bid: bool)
    ensures
        place_all(Seq::empty(), os, is_bid).len() == if os.len() < MAX_ORDERS {
            os.len()
        } else {
            MAX_ORDERS as nat
        },
    decreases os.len(),
{
    if os.len() > 0 {
        lemma_place_all_len(os.drop_last(), is_bid);
        lemma_insert_index(place_all(Seq::empty(), os.drop_last(), is_bid), os.last(), is_bid);
    }
}

/// Placing `MAX_ORDERS + 1` orders into an empty side: each of the first
/// `MAX_ORDERS` finds room, the last finds the side full and changes
/// nothing, and the side ends holding `MAX_ORDERS` orders.
pub proof fn lemma_capacity_ceiling(os: Seq<Order>, is_bid: bool)
    requires
        os.len() == MAX_ORDERS + 1,
    ensures
        forall|k: int|
            0 <= k < MAX_ORDERS ==> #[trigger] place_all(Seq::empty(), os.take(k), is_bid).len()
                == k,
        place_all(Seq::empty(), os.take(MAX_ORDERS as int), is_bid).len() == MAX_ORDERS,
        place_all(Seq::empty(), os, is_bid) == place_all(
            Seq::empty(),
            os.take(MAX_ORDERS as int),
            is_bid,
        ),
        place_all(Seq::empty(), os, is_bid).len() == MAX_ORDERS,
{
    assert forall|k: int| 0 <= k < MAX_ORDERS implies #[trigger] place_all(
        Seq::empty(),
        os.take(k),
        is_bid,
    ).len() == k by {
        lemma_place_all_len(os.take(k), is_bid);
    }
    lemma_place_all_len(os.take(MAX_ORDERS as int), is_bid);
    assert(os.drop_last() =~= os.take(MAX_ORDERS as int));
}

/// The id handed out `k` places after one that handed out `first`.
pub open spec fn nth_id(first: u32, k: nat) -> u32 {
    ((first + k) % 0x1_0000_0000) as u32
}

/// Ids follow the counter: each place moves it on by one, wrapping. Within
/// one wrap window (fewer than 2^32 places) the ids handed out are pairwise
/// distinct.
pub proof fn lemma_ids_distinct_in_window(first: u32, n: nat)
    requires
        n <= 0x1_0000_0000,
    ensures
        nth_id(first, 0) == first,
        forall|k: nat| #[trigger] nth_id(first, k + 1) == nth_id(first, k).wrapping_add(1),
        forall|i: nat, j: nat| i < j < n ==> #[trigger] nth_id(first, i) != #[trigger] nth_id(first, j),
{
    assert forall|k: nat| #[trigger] nth_id(first, k + 1) == nth_id(first, k).wrapping_add(1) by {
        assert(((first + k + 1) % 0x1_0000_0000) == (((first + k) % 0x1_0000_0000) + 1) % 0x1_0000_0000)
            by (nonlinear_arith);
    }
    assert forall|i: nat, j: nat| i < j < n implies #[trigger] nth_id(first, i) != #[trigger] nth_id(first, j) by {
        assert((first + i) % 0x1_0000_0000 != (first + j) % 0x1_0000_0000) by (nonlinear_arith)
            requires first < 0x1_0000_0000, i < j, j < 0x1_0000_0000;
    }
}

/// The array book: one sorted, bounded sequence of orders per side and one
/// id counter shared by both sides.
pub struct OrderBook {
    bids: Vec<Order>,
    asks: Vec<Order>,
    next_id: u32,
    /// How many ids have been handed out so far.
    issued: Ghost<nat>,
}

impl OrderBook {
    /// The live orders of a side, best first.
    pub closed spec fn side(&self, is_bid: bool) -> Seq<Order> {
        if is_bid {
            self.bids@
        } else {
            self.asks@
        }
    }

    /// The id that the next placed order gets.
    pub closed spec fn next_id(&self) -> u32 {
        self.next_id
    }

    /// How many ids have been handed out since the book was made.
    pub closed spec fn issued(&self) -> nat {
        self.issued@
    }

    /// Both sides are sorted and within capacity; until the counter wraps,
    /// the counter equals the number of ids handed out, and the live ids of
    /// a side are distinct and all below it.
    pub closed spec fn wf(&self) -> bool {
        &&& self.bids@.len() <= MAX_ORDERS
        &&& self.asks@.len() <= MAX_ORDERS
        &&& sorted(self.bids@, true)
        &&& sorted(self.asks@, false)
        &&& self.issued@ < 0x1_0000_0000 ==> self.next_id == self.issued@
        &&& self.issued@ <= 0x1_0000_0000 ==> {
            &&& ids_distinct(self.bids@)
            &&& ids_distinct(self.asks@)
            &&& ids_below(self.bids@, self.issued@)
            &&& ids_below(self.asks@, self.issued@)
        }
    }

    /// The invariant, as callers may rely on it.
    pub proof fn lemma_wf(&self)
        requires
            self.wf(),
        ensures
            self.side(true).len() <= MAX_ORDERS,
            self.side(false).len() <= MAX_ORDERS,
            sorted(self.side(true), true),
            sorted(self.side(false), false),
            self.issued() < 0x1_0000_0000 ==> self.next_id() == self.issued(),
            self.issued() <= 0x1_0000_0000 ==> ids_distinct(self.side(true)) && ids_distinct(
                self.side(false),
            ) && ids_below(self.side(true), self.issued()) && ids_below(
                self.side(false),
                self.issued(),
            ),
    {
    }

    /// An empty book whose first id is 0.
    pub fn new() -> (r: Self)
        ensures
            r.wf(),
            r.side(true) == Seq::<Order>::empty(),
            r.side(false) == Seq::<Order>::empty(),
            r.next_id() == 0,
            r.issued() == 0,
    {
        OrderBook {
            bids: Vec::with_capacity(MAX_ORDERS),
            asks: Vec::with_capacity(MAX_ORDERS),
            next_id: 0,
            issued: Ghost(0),
        }
    }

    /// Places a new order on a side and returns its id, or `None` when the
    /// side is full. The order takes the next id (the counter wraps) and goes
    /// ahead of the first resting order that it ranks ahead of.
    pub fn place(&mut self, px: u64, sz: u32, is_bid: bool, ts: u64) -> (r: Option<u32>)
        requires
            old(self).wf(),
        ensures
            final(self).wf(),
            r is None <==> old(self).side(is_bid).len() == MAX_ORDERS,
            r is None ==> *final(self) == *old(self),
            r matches Some(id) ==> {
                &&& id == old(self).next_id()
                &&& final(self).next_id() == old(self).next_id().wrapping_add(1)
                &&& final(self).issued() == old(self).issued() + 1
                &&& final(self).side(is_bid) == placed(
                    old(self).side(is_bid),
                    (Order { px, sz, ts, id }),
                    is_bid,
                )
                &&& final(self).side(is_bid).len() == old(self).side(is_bid).len() + 1
                &&& final(self).side(!is_bid) == old(self).side(!is_bid)
                &&& old(self).issued() < 0x1_0000_0000 ==> !has_id(old(self).side(is_bid), id)
                    && !has_id(old(self).side(!is_bid), id)
            },
    {
        if (is_bid && self.bids.len() >= MAX_ORDERS) || (!is_bid && self.asks.len() >= MAX_ORDERS) {
            return None;
        }
        let order = Order { px, sz, ts, id: self.next_id };
        self.next_id = self.next_id.wrapping_add(1);
        let ghost n = self.issued@;
        proof {
            if n < 0x1_0000_0000 {
                assert(!has_id(self.bids@, order.id));
                assert(!has_id(self.asks@, order.id));
            }
            lemma_placed_sorted(self.side(is_bid), order, is_bid);
            lemma_insert_index(self.side(is_bid), order, is_bid);
            if n < 0x1_0000_0000 {
                lemma_insert_ids(
                    self.side(is_bid),
                    insert_index(self.side(is_bid), order, is_bid) as int,
                    order,
                    n,
                );
                let other = self.side(!is_bid);
                assert forall|i: int| 0 <= i < other.len() implies (#[trigger] other[i]).id < n + 1 by {}
            }
        }
        self.issued = Ghost(n + 1);
        if is_bid {
            insert_sorted(&mut self.bids, order, true);
        } else {
            insert_sorted(&mut self.asks, order, false);
        }
        Some(order.id)
    }

    /// Cancels the first live order on a side with the given id; returns
    /// whether there was one. An unknown id leaves the book as it was.
    pub fn cancel(&mut self, id: u32, is_bid: bool) -> (r: bool)
        requires
            old(self).wf(),
        ensures
            final(self).wf(),
            r == has_id(old(self).side(is_bid), id),
            final(self).side(is_bid) == cancelled(old(self).side(is_bid), id),
            final(self).side(is_bid).len() == if r {
                old(self).side(is_bid).len() - 1
            } else {
                old(self).side(is_bid).len() as int
            },
            final(self).side(!is_bid) == old(self).side(!is_bid),
            final(self).next_id() == old(self).next_id(),
            final(self).issued() == old(self).issued(),
    {
        proof {
            let s = self.side(is_bid);
            lemma_id_index(s, id);
            if id_index(s, id) < s.len() {
                lemma_remove_sorted(s, id_index(s, id) as int, is_bid);
                lemma_remove_ids(s, id_index(s, id) as int, self.issued@);
            }
        }
        if is_bid {
            remove_by_id(&mut self.bids, id)
        } else {
            remove_by_id(&mut self.asks, id)
        }
    }

    /// The best order of a side: its first, or `None` when it is empty. No
    /// live order of the side ranks ahead of it.
    pub fn best(&self, is_bid: bool) -> (r: Option<Order>)
        requires
            self.wf(),
        ensures
            r == best_of(self.side(is_bid)),
            r is None <==> self.side(is_bid).len() == 0,
            r matches Some(o) ==> forall|j: int|
                0 <= j < self.side(is_bid).len() ==> !precedes(
                    #[trigger] self.side(is_bid)[j],
                    o,
                    is_bid,
                ),
    {
        let orders = if is_bid {
            &self.bids
        } else {
            &self.asks
        };
        if orders.len() > 0 {
            proof {
                assert forall|j: int| 0 <= j < orders@.len() implies !precedes(
                    #[trigger] orders@[j],
                    orders@[0],
                    is_bid,
                ) by {
                    if j > 0 {
                        assert(!precedes(orders@[j], orders@[0], is_bid));
                    } else {
                        lemma_precedes_strict(orders@[0], orders@[0], orders@[0], is_bid);
                    }
                }
            }
            Some(orders[0])
        } else {
            None
        }
    }

    /// The best bid, as [`OrderBook::best`] gives it.
    pub fn best_bid(&self) -> (r: Option<Order>)
        requires
            self.wf(),
        ensures
            r == best_of(self.side(true)),
            r matches Some(o) ==> forall|j: int|
                0 <= j < self.side(true).len() ==> !precedes(#[trigger] self.side(true)[j], o, true),
    {
        self.best(true)
    }

    /// The best ask, as [`OrderBook::best`] gives it.
    pub fn best_ask(&self) -> (r: Option<Order>)
        requires
            self.wf(),
        ensures
            r == best_of(self.side(false)),
            r matches Some(o) ==> forall|j: int|
                0 <= j < self.side(false).len() ==> !precedes(#[trigger] self.side(false)[j], o, false),
    {
        self.best(false)
    }

    /// Number of live bids.
    pub fn bid_count(&self) -> (r: usize)
        ensures
            r == self.side(true).len(),
    {
        self.bids.len()
    }

    /// Number of live asks.
    pub fn ask_count(&self) -> (r: usize)
        ensures
            r == self.side(false).len(),
    {
        self.asks.len()
    }

    /// The live bids, best first.
    pub fn bids(&self) -> (r: &[Order])
        ensures
            r@ == self.side(true),
    {
        self.bids.as_slice()
    }

    /// The live asks, best first.
    pub fn asks(&self) -> (r: &[Order])
        ensures
            r@ == self.side(false),
    {
        self.asks.as_slice()
    }

    /// Whether `new` must be placed before `existing` on the given side.
    pub fn compare_orders(new: &Order, existing: &Order, is_bid: bool) -> (r: bool)
        ensures
            r == precedes(*new, *existing, is_bid),
    {
        if new.px != existing.px {
            if is_bid {
                new.px > existing.px
            } else {
                new.px < existing.px
            }
        } else if new.sz != existing.sz {
            new.sz > existing.sz
        } else {
            new.ts < existing.ts
        }
    }
}

/// Puts `order` into the sorted side `orders` ahead of the first order it
/// ranks ahead of, shifting that order and the ones after it back a slot.
fn insert_sorted(orders: &mut Vec<Order>, order: Order, is_bid: bool)
    requires
        old(orders)@.len() < MAX_ORDERS,
        sorted(old(orders)@, is_bid),
    ensures
        final(orders)@ == placed(old(orders)@, order, is_bid),
{
    let len = orders.len();
    if len > 0 && !OrderBook::compare_orders(&order, &orders[len - 1], is_bid) {
        // Nothing ranks behind the last order, so the new one goes at the end.
        proof {
            let s = orders@;
            assert forall|j: int| 0 <= j < len implies !precedes(order, #[trigger] s[j], is_bid) by {
                if j < len - 1 {
                    assert(!precedes(s[len - 1], s[j], is_bid));
                }
                lemma_precedes_weak(order, s[j], s[len - 1], is_bid);
            }
            lemma_insert_index_unique(s, order, is_bid, len as int);
        }
        orders.push(order);
        proof {
            assert(orders@ =~= placed(old(orders)@, order, is_bid));
        }
        return;
    }
    let mut i: usize = 0;
    while i < orders.len()
        invariant
            i <= orders@.len(),
            orders@.len() < MAX_ORDERS,
            forall|j: int| 0 <= j < i ==> !precedes(order, #[trigger] orders@[j], is_bid),
        ensures
            i <= orders@.len(),
            forall|j: int| 0 <= j < i ==> !precedes(order, #[trigger] orders@[j], is_bid),
            i < orders@.len() ==> precedes(order, orders@[i as int], is_bid),
        decreases orders@.len() - i,
    {
        if OrderBook::compare_orders(&order, &orders[i], is_bid) {
            break;
        }
        i = i + 1;
    }
    proof {
        lemma_insert_index_unique(orders@, order, is_bid, i as int);
    }
    orders.insert(i, order);
}

/// Takes the first order with the given id out of `orders`, shifting the
/// orders after it forward a slot; reports whether there was one.
fn remove_by_id(orders: &mut Vec<Order>, id: u32) -> (r: bool)
    ensures
        r == has_id(old(orders)@, id),
        final(orders)@ == cancelled(old(orders)@, id),
{
    let mut i: usize = 0;
    while i < orders.len()
        invariant
            i <= orders@.len(),
            orders@ == old(orders)@,
            forall|j: int| 0 <= j < i ==> (#[trigger] orders@[j]).id != id,
        decreases orders@.len() - i,
    {
        if orders[i].id == id {
            proof {
                lemma_id_index(orders@, id);
                if (id_index(orders@, id) as int) < i {
                    assert(orders@[id_index(orders@, id) as int].id == id);
                } else if (id_index(orders@, id) as int) > i {
                    assert(orders@[i as int].id != id);
                }
            }
            orders.remove(i);
            return true;
        }
        i = i + 1;
    }
    proof {
        lemma_id_index(orders@, id);
        if id_index(orders@, id) < orders@.len() {
            assert(orders@[id_index(orders@, id) as int].id == id);
        }
    }
    false
}

} // verus!
