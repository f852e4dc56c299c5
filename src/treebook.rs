//! Level-indexed book: per side, a price-ordered map from price to a bounded
//! price level, each level kept sorted by size, largest first.
use std::collections::BTreeMap;
use vstd::prelude::*;

verus! {

/// Most orders a single price level can hold.
pub const MAX_ORDERS_PER_LEVEL: usize = 32;

/// A resting order of the level book; its price is the key of its level.
#[derive(Clone, Copy, Debug, PartialEq, Eq, Structural)]
pub struct Order {
    pub size: u64,
}

/// Sizes never grow from one order of the level to the next.
pub open spec fn size_desc(s: Seq<Order>) -> bool {
    forall|i: int, j: int| 0 <= i < j < s.len() ==> (#[trigger] s[i]).size >= (#[trigger] s[j]).size
}

/// The slot that an order of `size` takes in a level: the first order with
/// a smaller size, or the end.
pub open spec fn level_insert_index(s: Seq<Order>, size: u64) -> nat
    decreases s.len(),
{
    if s.len() == 0 {
        0
    } else if size > s[0].size {
        0
    } else {
        1 + level_insert_index(s.drop_first(), size)
    }
}

/// The level with `o` placed in size order, after the orders of equal size.
pub open spec fn level_inserted(s: Seq<Order>, o: Order) -> Seq<Order> {
    s.insert(level_insert_index(s, o.size) as int, o)
}

/// Position of the first order of the level with the given size, or the
/// level's length when there is none.
pub open spec fn size_index(s: Seq<Order>, size: u64) -> nat
    decreases s.len(),
{
    if s.len() == 0 {
        0
    } else if s[0].size == size {
        0
    } else {
        1 + size_index(s.drop_first(), size)
    }
}

/// The level without its first order of the given size (unchanged if none).
pub open spec fn level_removed(s: Seq<Order>, size: u64) -> Seq<Order> {
    if size_index(s, size) < s.len() {
        s.remove(size_index(s, size) as int)
    } else {
        s
    }
}

/// What removing `size` from the level hands back.
pub open spec fn level_removed_order(s: Seq<Order>, size: u64) -> Option<Order> {
    if size_index(s, size) < s.len() {
        Some(Order { size })
    } else {
        None
    }
}

pub proof fn lemma_level_insert_index(s: Seq<Order>, size: u64)
    ensures
        level_insert_index(s, size) <= s.len(),
        forall|j: int| 0 <= j < level_insert_index(s, size) ==> size <= (#[trigger] s[j]).size,
        level_insert_index(s, size) < s.len() ==> size > s[level_insert_index(s, size) as int].size,
    decreases s.len(),
{
    if s.len() > 0 && size <= s[0].size {
        lemma_level_insert_index(s.drop_first(), size);
        assert forall|j: int| 0 <= j < level_insert_index(s, size) implies size <= (#[trigger] s[j]).size by {
            if j > 0 {
                assert(s[j] == s.drop_first()[j - 1]);
            }
        }
    }
}

pub proof fn lemma_size_index(s: Seq<Order>, size: u64)
    ensures
        size_index(s, size) <= s.len(),
        forall|j: int| 0 <= j < size_index(s, size) ==> (#[trigger] s[j]).size != size,
        size_index(s, size) < s.len() ==> s[size_index(s, size) as int].size == size,
    decreases s.len(),
{
    if s.len() > 0 && s[0].size != size {
        lemma_size_index(s.drop_first(), size);
        assert forall|j: int| 0 <= j < size_index(s, size) implies (#[trigger] s[j]).size != size by {
            if j > 0 {
                assert(s[j] == s.drop_first()[j - 1]);
            }
        }
        if size_index(s, size) < s.len() {
            assert(s[size_index(s, size) as int] == s.drop_first()[size_index(s, size) - 1]);
        }
    }
}

/// Inserting by size keeps a level sorted.
pub proof fn lemma_level_inserted_desc(s: Seq<Order>, o: Order)
    requires
        size_desc(s),
    ensures
        size_desc(level_inserted(s, o)),
        level_inserted(s, o).len() == s.len() + 1,
{
    lemma_level_insert_index(s, o.size);
    let k = level_insert_index(s, o.size) as int;
    let t = level_inserted(s, o);
    assert forall|i: int, j: int| 0 <= i < j < t.len() implies (#[trigger] t[i]).size >= (#[trigger] t[j]).size by {
        if j < k {
            assert(t[i] == s[i] && t[j] == s[j]);
        } else if j == k {
            assert(t[i] == s[i]);
        } else if i == k {
            assert(t[j] == s[j - 1]);
            assert(s[k].size >= s[j - 1].size);
        } else if i < k {
            assert(t[i] == s[i] && t[j] == s[j - 1]);
        } else {
            assert(t[i] == s[i - 1] && t[j] == s[j - 1]);
        }
    }
}

/// Removing any order keeps a level sorted.
pub proof fn lemma_level_remove_desc(s: Seq<Order>, k: int)
    requires
        size_desc(s),
        0 <= k < s.len(),
    ensures
        size_desc(s.remove(k)),
{
    let t = s.remove(k);
    assert forall|i: int, j: int| 0 <= i < j < t.len() implies (#[trigger] t[i]).size >= (#[trigger] t[j]).size by {
        let si = if i < k { i } else { i + 1 };
        let sj = if j < k { j } else { j + 1 };
        assert(t[i] == s[si] && t[j] == s[sj]);
    }
}

/// The orders resting at one price, largest size first.
#[derive(Debug)]
pub struct PriceLevelOrders {
    orders: Vec<Order>,
}

impl View for PriceLevelOrders {
    type V = Seq<Order>;

    closed spec fn view(&self) -> Seq<Order> {
        self.orders@
    }
}

impl PriceLevelOrders {
    /// Within capacity and sorted by size.
    pub open spec fn wf(&self) -> bool {
        self@.len() <= MAX_ORDERS_PER_LEVEL && size_desc(self@)
    }

    /// An empty level.
    pub fn new() -> (r: Self)
        ensures
            r@ == Seq::<Order>::empty(),
            r.wf(),
    {
        PriceLevelOrders { orders: Vec::with_capacity(MAX_ORDERS_PER_LEVEL) }
    }

    /// Number of orders at this level.
    pub fn count(&self) -> (r: usize)
        ensures
            r == self@.len(),
    {
        self.orders.len()
    }

    /// Inserts `order` after every order of at least its size; `false`, and
    /// no change, when the level is full.
    pub fn insert(&mut self, order: Order) -> (r: bool)
        requires
            old(self).wf(),
        ensures
            final(self).wf(),
            r == (old(self)@.len() < MAX_ORDERS_PER_LEVEL),
            r ==> final(self)@ == level_inserted(old(self)@, order),
            !r ==> final(self)@ == old(self)@,
    {
        if self.orders.len() >= MAX_ORDERS_PER_LEVEL {
            return false;
        }
        let mut idx: usize = 0;
        while idx < self.orders.len()
            invariant
                idx <= self.orders@.len(),
                self.orders@ == old(self).orders@,
                forall|j: int| 0 <= j < idx ==> order.size <= (#[trigger] self.orders@[j]).size,
            ensures
                idx <= self.orders@.len(),
                forall|j: int| 0 <= j < idx ==> order.size <= (#[trigger] self.orders@[j]).size,
                idx < self.orders@.len() ==> order.size > self.orders@[idx as int].size,
            decreases self.orders@.len() - idx,
        {
            if order.size > self.orders[idx].size {
                break;
            }
            idx = idx + 1;
        }
        proof {
            let s = self.orders@;
            lemma_level_insert_index(s, order.size);
            let m = level_insert_index(s, order.size) as int;
            if m < idx {
                assert(order.size <= s[m].size);
            } else if idx < m {
                assert(order.size <= s[idx as int].size);
            }
            lemma_level_inserted_desc(s, order);
        }
        self.orders.insert(idx, order);
        true
    }

    /// Takes out the first order of the given size and returns it; `None`,
    /// and no change, when the level has none.
    pub fn remove(&mut self, size: u64) -> (r: Option<Order>)
        requires
            old(self).wf(),
        ensures
            final(self).wf(),
            r == level_removed_order(old(self)@, size),
            final(self)@ == level_removed(old(self)@, size),
    {
        let mut i: usize = 0;
        while i < self.orders.len()
            invariant
                i <= self.orders@.len(),
                self.orders@ == old(self).orders@,
                old(self).wf(),
                forall|j: int| 0 <= j < i ==> (#[trigger] self.orders@[j]).size != size,
            decreases self.orders@.len() - i,
        {
            if self.orders[i].size == size {
                proof {
                    let s = self.orders@;
                    lemma_size_index(s, size);
                    if (size_index(s, size) as int) < i {
                        assert(s[size_index(s, size) as int].size == size);
                    } else if (size_index(s, size) as int) > i {
                        assert(s[i as int].size != size);
                    }
                    lemma_level_remove_desc(s, i as int);
                }
                let removed = self.orders.remove(i);
                return Some(removed);
            }
            i = i + 1;
        }
        proof {
            let s = self.orders@;
            lemma_size_index(s, size);
            if size_index(s, size) < s.len() {
                assert(s[size_index(s, size) as int].size == size);
            }
        }
        None
    }

    /// The level's first order, the largest, or `None` when it is empty.
    pub fn best_order(&self) -> (r: Option<Order>)
        ensures
            r == (if self@.len() > 0 { Some(self@[0]) } else { None }),
    {
        if self.orders.len() > 0 {
            Some(self.orders[0])
        } else {
            None
        }
    }
}

/// Each price of a side with the orders resting at it.
pub open spec fn levels_view(m: Map<u64, PriceLevelOrders>) -> Map<u64, Seq<Order>> {
    Map::new(|p: u64| m.contains_key(p), |p: u64| m[p]@)
}

/// Every level of a side is well formed and holds at least one order.
pub open spec fn side_wf(m: Map<u64, PriceLevelOrders>) -> bool {
    forall|p: u64| #[trigger] m.contains_key(p) ==> m[p].wf() && m[p]@.len() > 0
}

/// Every level is non-empty, within capacity and sorted by size.
pub open spec fn levels_wf(s: Map<u64, Seq<Order>>) -> bool {
    forall|p: u64| #[trigger] s.contains_key(p) ==> 0 < s[p].len() <= MAX_ORDERS_PER_LEVEL && size_desc(s[p])
}

/// The orders resting at `price` (none when the price has no level).
pub open spec fn level_at(s: Map<u64, Seq<Order>>, price: u64) -> Seq<Order> {
    if s.contains_key(price) {
        s[price]
    } else {
        Seq::empty()
    }
}

/// An order can be added at `price`: its level is absent or not full.
pub open spec fn add_accepts(s: Map<u64, Seq<Order>>, price: u64) -> bool {
    level_at(s, price).len() < MAX_ORDERS_PER_LEVEL
}

/// The side after adding an order of `size` at `price`.
pub open spec fn side_added(s: Map<u64, Seq<Order>>, price: u64, size: u64) -> Map<u64, Seq<Order>> {
    s.insert(price, level_inserted(level_at(s, price), Order { size }))
}

/// The side after removing an order of `size` at `price`; a level left
/// empty goes away.
pub open spec fn side_removed(s: Map<u64, Seq<Order>>, price: u64, size: u64) -> Map<u64, Seq<Order>> {
    if !s.contains_key(price) {
        s
    } else if level_removed(s[price], size).len() == 0 {
        s.remove(price)
    } else {
        s.insert(price, level_removed(s[price], size))
    }
}

/// What removing an order of `size` at `price` hands back.
pub open spec fn side_removed_order(s: Map<u64, Seq<Order>>, price: u64, size: u64) -> Option<Order> {
    if s.contains_key(price) {
        level_removed_order(s[price], size)
    } else {
        None
    }
}

/// What an `add_order` of `size` at `price` makes of the side: the order
/// added, or the side unchanged when that level is full.
pub open spec fn add_side(s: Map<u64, Seq<Order>>, price: u64, size: u64) -> Map<u64, Seq<Order>> {
    if add_accepts(s, price) {
        side_added(s, price, size)
    } else {
        s
    }
}

/// The side after adding an order of each size of `sizes` at `price`, in turn.
pub open spec fn add_all(s: Map<u64, Seq<Order>>, price: u64, sizes: Seq<u64>) -> Map<u64, Seq<Order>>
    decreases sizes.len(),
{
    if sizes.len() == 0 {
        s
    } else {
        add_side(add_all(s, price, sizes.drop_last()), price, sizes.last())
    }
}

proof fn lemma_add_all_len(s: Map<u64, Seq<Order>>, price: u64, sizes: Seq<u64>)
    requires
        !s.contains_key(price),
    ensures
        level_at(add_all(s, price, sizes), price).len() == if sizes.len() < MAX_ORDERS_PER_LEVEL {
            sizes.len()
        } else {
            MAX_ORDERS_PER_LEVEL as nat
        },
    decreases sizes.len(),
{
    if sizes.len() > 0 {
        lemma_add_all_len(s, price, sizes.drop_last());
        lemma_level_insert_index(level_at(add_all(s, price, sizes.drop_last()), price), sizes.last());
    }
}

/// Adding `MAX_ORDERS_PER_LEVEL + 1` orders at a price that has no level:
/// each of the first `MAX_ORDERS_PER_LEVEL` is accepted, the last finds the
/// level full and changes nothing, and the level ends holding
/// `MAX_ORDERS_PER_LEVEL` orders.
pub proof fn lemma_level_capacity_ceiling(s: Map<u64, Seq<Order>>, price: u64, sizes: Seq<u64>)
    requires
        !s.contains_key(price),
        sizes.len() == MAX_ORDERS_PER_LEVEL + 1,
    ensures
        forall|k: int|
            0 <= k < MAX_ORDERS_PER_LEVEL ==> add_accepts(#[trigger] add_all(s, price, sizes.take(k)), price),
        !add_accepts(add_all(s, price, sizes.take(MAX_ORDERS_PER_LEVEL as int)), price),
        add_all(s, price, sizes) == add_all(s, price, sizes.take(MAX_ORDERS_PER_LEVEL as int)),
        level_at(add_all(s, price, sizes), price).len() == MAX_ORDERS_PER_LEVEL,
{
    assert forall|k: int| 0 <= k < MAX_ORDERS_PER_LEVEL implies add_accepts(
        #[trigger] add_all(s, price, sizes.take(k)),
        price,
    ) by {
        lemma_add_all_len(s, price, sizes.take(k));
    }
    lemma_add_all_len(s, price, sizes.take(MAX_ORDERS_PER_LEVEL as int));
    assert(sizes.drop_last() =~= sizes.take(MAX_ORDERS_PER_LEVEL as int));
}

/// The sort invariant of the level book: adding or removing keeps every
/// level non-empty, bounded and sorted by size, so it holds after any
/// sequence of either. Prices are kept in order by the map itself.
pub proof fn lemma_levels_invariant(s: Map<u64, Seq<Order>>, price: u64, size: u64)
    requires
        levels_wf(s),
    ensures
        levels_wf(add_side(s, price, size)),
        levels_wf(side_removed(s, price, size)),
{
    lemma_level_inserted_desc(level_at(s, price), Order { size });
    if s.contains_key(price) {
        lemma_size_index(s[price], size);
        if size_index(s[price], size) < s[price].len() {
            lemma_level_remove_desc(s[price], size_index(s[price], size) as int);
        }
    }
    let a = add_side(s, price, size);
    assert forall|p: u64| #[trigger] a.contains_key(p) implies 0 < a[p].len() <= MAX_ORDERS_PER_LEVEL
        && size_desc(a[p]) by {
        if p != price {
            assert(s.contains_key(p));
        }
    }
    let r = side_removed(s, price, size);
    assert forall|p: u64| #[trigger] r.contains_key(p) implies 0 < r[p].len() <= MAX_ORDERS_PER_LEVEL
        && size_desc(r[p]) by {
        assert(s.contains_key(p));
    }
}

/// `price` is the best price of the side: the highest for bids, the lowest
/// for asks.
pub open spec fn is_best_price(s: Map<u64, Seq<Order>>, price: u64, is_bid: bool) -> bool {
    &&& s.contains_key(price)
    &&& forall|p: u64| #[trigger] s.contains_key(p) ==> if is_bid { p <= price } else { p >= price }
}

/// Relies on `BTreeMap::last_key_value`: the entry with the largest key,
/// `None` only for an empty map.
#[verifier::external_body]
fn max_price(m: &BTreeMap<u64, PriceLevelOrders>) -> (r: Option<u64>)
    ensures
        r is None ==> forall|p: u64| !m@.contains_key(p),
        r matches Some(k) ==> m@.contains_key(k) && forall|p: u64| #[trigger] m@.contains_key(p) ==> p <= k,
{
    match m.last_key_value() {
        Some((k, _)) => Some(*k),
        None => None,
    }
}

/// Relies on `BTreeMap::first_key_value`: the entry with the smallest key,
/// `None` only for an empty map.
#[verifier::external_body]
fn min_price(m: &BTreeMap<u64, PriceLevelOrders>) -> (r: Option<u64>)
    ensures
        r is None ==> forall|p: u64| !m@.contains_key(p),
        r matches Some(k) ==> m@.contains_key(k) && forall|p: u64| #[trigger] m@.contains_key(p) ==> p >= k,
{
    match m.first_key_value() {
        Some((k, _)) => Some(*k),
        None => None,
    }
}

/// Adds an order of `size` at `price` to one side's map, making the level
/// if the price has none.
fn add_to_side(m: &mut BTreeMap<u64, PriceLevelOrders>, price: u64, size: u64) -> (r: bool)
    requires
        side_wf(old(m)@),
    ensures
        side_wf(final(m)@),
        r == add_accepts(levels_view(old(m)@), price),
        r ==> levels_view(final(m)@) == side_added(levels_view(old(m)@), price, size),
        !r ==> levels_view(final(m)@) == levels_view(old(m)@),
{
    let ghost s = levels_view(m@);
    let order = Order { size };
    match m.remove(&price) {
        Some(mut level) => {
            let ok = level.insert(order);
            m.insert(price, level);
            proof {
                if ok {
                    assert(levels_view(m@) =~= side_added(s, price, size));
                } else {
                    assert(levels_view(m@) =~= s);
                }
            }
            ok
        },
        None => {
            let mut level = PriceLevelOrders::new();
            let ok = level.insert(order);
            m.insert(price, level);
            proof {
                assert(levels_view(m@) =~= side_added(s, price, size));
            }
            ok
        },
    }
}

/// Removes the first order of `size` at `price` from one side's map,
/// dropping the level if it empties.
fn remove_from_side(m: &mut BTreeMap<u64, PriceLevelOrders>, price: u64, size: u64) -> (r: Option<Order>)
    requires
        side_wf(old(m)@),
    ensures
        side_wf(final(m)@),
        r == side_removed_order(levels_view(old(m)@), price, size),
        levels_view(final(m)@) == side_removed(levels_view(old(m)@), price, size),
{
    let ghost s = levels_view(m@);
    match m.remove(&price) {
        None => {
            proof {
                assert(m@ =~= old(m)@);
            }
            None
        },
        Some(mut level) => {
            let r = level.remove(size);
            if level.count() > 0 {
                m.insert(price, level);
                proof {
                    assert(levels_view(m@) =~= side_removed(s, price, size));
                }
            } else {
                proof {
                    assert(levels_view(m@) =~= side_removed(s, price, size));
                }
            }
            r
        },
    }
}

/// The level-indexed book: per side, a map from price to the level of
/// orders resting at that price.
pub struct OrderBook {
    bids: BTreeMap<u64, PriceLevelOrders>,
    asks: BTreeMap<u64, PriceLevelOrders>,
}

impl OrderBook {
    /// The levels of a side, by price.
    pub closed spec fn side(&self, is_bid: bool) -> Map<u64, Seq<Order>> {
        if is_bid {
            levels_view(self.bids@)
        } else {
            levels_view(self.asks@)
        }
    }

    /// Every level is non-empty, within capacity and sorted by size.
    pub closed spec fn wf(&self) -> bool {
        side_wf(self.bids@) && side_wf(self.asks@)
    }

    /// The invariant, as callers may rely on it: prices are ordered by the
    /// map itself, and each level is non-empty, bounded and sorted by size.
    pub proof fn lemma_wf(&self)
        requires
            self.wf(),
        ensures
            levels_wf(self.side(true)),
            levels_wf(self.side(false)),
    {
    }

    /// An empty book.
    pub fn new() -> (r: Self)
        ensures
            r.wf(),
            r.side(true) == Map::<u64, Seq<Order>>::empty(),
            r.side(false) == Map::<u64, Seq<Order>>::empty(),
    {
        let r = OrderBook { bids: BTreeMap::new(), asks: BTreeMap::new() };
        proof {
            assert(r.side(true) =~= Map::<u64, Seq<Order>>::empty());
            assert(r.side(false) =~= Map::<u64, Seq<Order>>::empty());
        }
        r
    }

    /// Adds an order of `size` at `price`, ranked by size within its level.
    /// Returns `false`, and changes nothing, when that level is full.
    pub fn add_order(&mut self, price: u64, size: u64, is_bid: bool) -> (r: bool)
        requires
            old(self).wf(),
        ensures
            final(self).wf(),
            r == add_accepts(old(self).side(is_bid), price),
            r ==> final(self).side(is_bid) == side_added(old(self).side(is_bid), price, size),
            !r ==> final(self).side(is_bid) == old(self).side(is_bid),
            final(self).side(!is_bid) == old(self).side(!is_bid),
    {
        if is_bid {
            add_to_side(&mut self.bids, price, size)
        } else {
            add_to_side(&mut self.asks, price, size)
        }
    }

    /// Removes the first order of `size` resting at `price` and returns it;
    /// `None`, and no change, when there is none. A level left empty is
    /// dropped.
    pub fn remove_order(&mut self, price: u64, size: u64, is_bid: bool) -> (r: Option<Order>)
        requires
            old(self).wf(),
        ensures
            final(self).wf(),
            r == side_removed_order(old(self).side(is_bid), price, size),
            final(self).side(is_bid) == side_removed(old(self).side(is_bid), price, size),
            final(self).side(!is_bid) == old(self).side(!is_bid),
    {
        if is_bid {
            remove_from_side(&mut self.bids, price, size)
        } else {
            remove_from_side(&mut self.asks, price, size)
        }
    }

    /// The best price of a side and the first (largest) order resting there,
    /// or `None` when the side is empty.
    pub fn best(&self, is_bid: bool) -> (r: Option<(u64, Order)>)
        requires
            self.wf(),
        ensures
            r is None <==> forall|p: u64| !self.side(is_bid).contains_key(p),
            r matches Some((price, o)) ==> {
                &&& is_best_price(self.side(is_bid), price, is_bid)
                &&& o == self.side(is_bid)[price][0]
                &&& forall|j: int|
                    0 <= j < self.side(is_bid)[price].len() ==> (#[trigger] self.side(is_bid)[price][j]).size
                        <= o.size
            },
    {
        let m = if is_bid {
            &self.bids
        } else {
            &self.asks
        };
        let best = if is_bid {
            max_price(m)
        } else {
            min_price(m)
        };
        match best {
            None => {
                proof {
                    assert forall|p: u64| !self.side(is_bid).contains_key(p) by {
                        assert(!m@.contains_key(p));
                    }
                }
                None
            },
            Some(price) => {
                proof {
                    assert(self.side(is_bid).contains_key(price));
                }
                let level = m.get(&price).unwrap();
                let o = level.best_order().unwrap();
                proof {
                    assert forall|j: int| 0 <= j < level@.len() implies (#[trigger] level@[j]).size <= o.size by {
                        if j > 0 {
                            assert(level@[0].size >= level@[j].size);
                        }
                    }
                }
                Some((price, o))
            },
        }
    }

    /// The highest bid price and its first order.
    pub fn best_bid(&self) -> (r: Option<(u64, Order)>)
        requires
            self.wf(),
        ensures
            r is None <==> forall|p: u64| !self.side(true).contains_key(p),
            r matches Some((price, o)) ==> is_best_price(self.side(true), price, true) && o
                == self.side(true)[price][0],
    {
        self.best(true)
    }

    /// The lowest ask price and its first order.
    pub fn best_ask(&self) -> (r: Option<(u64, Order)>)
        requires
            self.wf(),
        ensures
            r is None <==> forall|p: u64| !self.side(false).contains_key(p),
            r matches Some((price, o)) ==> is_best_price(self.side(false), price, false) && o
                == self.side(false)[price][0],
    {
        self.best(false)
    }
}

} // verus!
