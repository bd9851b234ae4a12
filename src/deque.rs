use vstd::prelude::*;

use crate::types::{AtomicOrder, Side};

verus! {

/// What a price level holds: its price and its orders in arrival order.
pub struct Level {
    pub price: u64,
    pub orders: Seq<AtomicOrder>,
}

/// One price level: the orders resting at `price`, oldest first.
#[derive(Clone, Debug, PartialEq)]
pub struct OrderDeque {
    pub deque: Vec<AtomicOrder>,
    pub price: u64,
}

impl View for OrderDeque {
    type V = Level;

    open spec fn view(&self) -> Level {
        Level { price: self.price, orders: self.deque@ }
    }
}

/// The views of a vector of levels.
pub open spec fn levels_view(v: Seq<OrderDeque>) -> Seq<Level> {
    v.map_values(|d: OrderDeque| d@)
}

/// `a` is a strictly better price than `b` on `side`: higher for bids, lower for asks.
pub open spec fn better(side: Side, a: u64, b: u64) -> bool {
    match side {
        Side::Buy => a > b,
        Side::Sell => a < b,
    }
}

/// Levels run from the best price outward, no price repeated.
pub open spec fn sorted_levels(levels: Seq<Level>, side: Side) -> bool {
    forall|i: int, j: int|
        0 <= i < j < levels.len() ==> better(side, #[trigger] levels[i].price, #[trigger] levels[j].price)
}

/// Every level holds at least one order, each at the level's price, no id twice.
pub open spec fn levels_ok(levels: Seq<Level>) -> bool {
    forall|i: int|
        0 <= i < levels.len() ==> {
            &&& (#[trigger] levels[i]).orders.len() > 0
            &&& forall|k: int|
                0 <= k < levels[i].orders.len() ==> (#[trigger] levels[i].orders[k]).price
                    == levels[i].price
            &&& forall|k1: int, k2: int|
                0 <= k1 < k2 < levels[i].orders.len() ==> (#[trigger] levels[i].orders[k1]).id@
                    != (#[trigger] levels[i].orders[k2]).id@
        }
}

/// All orders of the levels, level by level from the first, each level oldest first.
pub open spec fn orders_of(levels: Seq<Level>) -> Seq<AtomicOrder>
    decreases levels.len(),
{
    if levels.len() == 0 {
        Seq::empty()
    } else {
        orders_of(levels.drop_last()) + levels.last().orders
    }
}

/// All orders of the levels, level by level from the last, each level oldest first.
pub open spec fn orders_from_last(levels: Seq<Level>) -> Seq<AtomicOrder>
    decreases levels.len(),
{
    if levels.len() == 0 {
        Seq::empty()
    } else {
        orders_from_last(levels.drop_first()) + levels[0].orders
    }
}

/// Number of orders on the levels.
pub open spec fn count(levels: Seq<Level>) -> int {
    orders_of(levels).len() as int
}

/// Sum of the sizes of a sequence of orders.
pub open spec fn size_sum(orders: Seq<AtomicOrder>) -> int
    decreases orders.len(),
{
    if orders.len() == 0 {
        0
    } else {
        size_sum(orders.drop_last()) + orders.last().size
    }
}

/// Sum over the levels of price times the level's total size.
pub open spec fn notional(levels: Seq<Level>) -> int
    decreases levels.len(),
{
    if levels.len() == 0 {
        0
    } else {
        notional(levels.drop_last()) + levels.last().price * size_sum(levels.last().orders)
    }
}

pub proof fn lemma_orders_concat(a: Seq<Level>, b: Seq<Level>)
    ensures
        orders_of(a + b) == orders_of(a) + orders_of(b),
    decreases b.len(),
{
    if b.len() == 0 {
        assert(a + b =~= a);
        assert(orders_of(a) + orders_of(b) =~= orders_of(a));
    } else {
        assert((a + b).drop_last() =~= a + b.drop_last());
        lemma_orders_concat(a, b.drop_last());
        assert(orders_of(a) + orders_of(b) =~= orders_of(a) + orders_of(b.drop_last()) + b.last().orders);
    }
}

pub proof fn lemma_orders_single(l: Level)
    ensures
        orders_of(seq![l]) == l.orders,
{
    assert(seq![l].drop_last() =~= Seq::<Level>::empty());
    assert(orders_of(Seq::<Level>::empty()) + l.orders =~= l.orders);
}

pub proof fn lemma_orders_split(s: Seq<Level>, i: int)
    requires
        0 <= i <= s.len(),
    ensures
        orders_of(s) == orders_of(s.take(i)) + orders_of(s.skip(i)),
{
    assert(s =~= s.take(i) + s.skip(i));
    lemma_orders_concat(s.take(i), s.skip(i));
}

/// Count after inserting a level at `pos`.
pub proof fn lemma_count_insert(s: Seq<Level>, pos: int, l: Level)
    requires
        0 <= pos <= s.len(),
    ensures
        count(s.insert(pos, l)) == count(s) + l.orders.len(),
{
    let t = s.insert(pos, l);
    assert(t =~= s.take(pos) + (seq![l] + s.skip(pos)));
    lemma_orders_concat(s.take(pos), seq![l] + s.skip(pos));
    lemma_orders_concat(seq![l], s.skip(pos));
    lemma_orders_single(l);
    lemma_orders_split(s, pos);
}

/// Count after removing the level at `i`.
pub proof fn lemma_count_remove(s: Seq<Level>, i: int)
    requires
        0 <= i < s.len(),
    ensures
        count(s.remove(i)) == count(s) - s[i].orders.len(),
{
    lemma_count_insert(s.remove(i), i, s[i]);
    assert(s.remove(i).insert(i, s[i]) =~= s);
}

/// Count after replacing the level at `i`.
pub proof fn lemma_count_update(s: Seq<Level>, i: int, l: Level)
    requires
        0 <= i < s.len(),
    ensures
        count(s.update(i, l)) == count(s) - s[i].orders.len() + l.orders.len(),
{
    lemma_count_remove(s, i);
    lemma_count_insert(s.remove(i), i, l);
    assert(s.remove(i).insert(i, l) =~= s.update(i, l));
}

pub proof fn lemma_orders_from_last_len(s: Seq<Level>)
    ensures
        orders_from_last(s).len() == count(s),
    decreases s.len(),
{
    if s.len() > 0 {
        lemma_orders_from_last_len(s.drop_first());
        assert(s =~= seq![s[0]] + s.drop_first());
        lemma_orders_concat(seq![s[0]], s.drop_first());
        lemma_orders_single(s[0]);
    }
}

pub proof fn lemma_size_sum_bound(orders: Seq<AtomicOrder>)
    ensures
        0 <= size_sum(orders) <= orders.len() * 0xffff_ffff_ffff_ffff,
    decreases orders.len(),
{
    if orders.len() > 0 {
        lemma_size_sum_bound(orders.drop_last());
        let n = orders.len() as int;
        assert((n - 1) * 0xffff_ffff_ffff_ffff + 0xffff_ffff_ffff_ffff == n * 0xffff_ffff_ffff_ffff)
            by (nonlinear_arith);
    }
}

pub proof fn lemma_notional_prefix(s: Seq<Level>, i: int)
    requires
        0 <= i <= s.len(),
    ensures
        0 <= notional(s.take(i)) <= notional(s),
    decreases s.len(),
{
    if s.len() > 0 {
        if i == s.len() {
            assert(s.take(i) =~= s);
            lemma_notional_prefix(s.drop_last(), i - 1);
            assert(s.drop_last().take(i - 1) =~= s.drop_last());
        } else {
            lemma_notional_prefix(s.drop_last(), i);
            assert(s.drop_last().take(i) =~= s.take(i));
            lemma_notional_prefix(s.drop_last(), s.len() - 1);
            assert(s.drop_last().take(s.len() - 1) =~= s.drop_last());
        }
        lemma_size_sum_bound(s.last().orders);
        let p = s.last().price as int;
        let z = size_sum(s.last().orders);
        assert(p * z >= 0) by (nonlinear_arith)
            requires
                p >= 0,
                z >= 0,
        ;
    }
}

impl OrderDeque {
    /// A new level holding `order` alone, at the order's price.
    pub fn build(order: AtomicOrder) -> (r: OrderDeque)
        ensures
            r@ == (Level { price: order.price, orders: seq![order] }),
    {
        let price = order.price;
        let mut deque = OrderDeque { deque: Vec::new(), price };
        deque.push_back(order);
        deque
    }

    /// Appends `order` at the tail of the level.
    pub fn push_back(&mut self, order: AtomicOrder)
        ensures
            final(self)@ == (Level { price: old(self).price, orders: old(self)@.orders.push(order) }),
    {
        self.deque.push(order);
    }

    /// Removes the order at `order_idx`, if there is one.
    pub fn remove(&mut self, order_idx: usize) -> (r: Option<AtomicOrder>)
        ensures
            order_idx < old(self).deque.len() ==> r == Some(old(self).deque@[order_idx as int])
                && final(self)@ == (Level {
                price: old(self).price,
                orders: old(self).deque@.remove(order_idx as int),
            }),
            order_idx >= old(self).deque.len() ==> r is None && *final(self) == *old(self),
    {
        if order_idx < self.deque.len() {
            Some(self.deque.remove(order_idx))
        } else {
            None
        }
    }

    /// Index of the order with id `order_id`, scanning from the oldest.
    pub fn position(&self, order_id: &String) -> (r: Option<usize>)
        ensures
            match r {
                Some(k) => k < self.deque.len() && self.deque@[k as int].id@ == order_id@
                    && forall|j: int| 0 <= j < k ==> self.deque@[j].id@ != order_id@,
                None => forall|j: int|
                    0 <= j < self.deque.len() ==> self.deque@[j].id@ != order_id@,
            },
    {
        let mut k: usize = 0;
        while k < self.deque.len()
            invariant
                k <= self.deque.len(),
                forall|j: int| 0 <= j < k ==> self.deque@[j].id@ != order_id@,
            decreases self.deque.len() - k,
        {
            if self.deque[k].id == *order_id {
                return Some(k);
            }
            k = k + 1;
        }
        None
    }

    /// The order with id `order_id`, if the level holds one.
    pub fn get_ref(&self, order_id: &String) -> (r: Option<&AtomicOrder>)
        ensures
            match r {
                Some(o) => o.id@ == order_id@ && exists|k: int|
                    0 <= k < self.deque.len() && self.deque@[k] == *o,
                None => forall|j: int|
                    0 <= j < self.deque.len() ==> self.deque@[j].id@ != order_id@,
            },
    {
        match self.position(order_id) {
            Some(k) => Some(&self.deque[k]),
            None => None,
        }
    }

    /// Total size of the orders at this level.
    pub fn size(&self) -> (r: u128)
        ensures
            r == size_sum(self.deque@),
    {
        let mut total: u128 = 0;
        let mut k: usize = 0;
        while k < self.deque.len()
            invariant
                k <= self.deque.len(),
                total == size_sum(self.deque@.take(k as int)),
            decreases self.deque.len() - k,
        {
            proof {
                assert(self.deque@.take(k + 1).drop_last() =~= self.deque@.take(k as int));
                lemma_size_sum_bound(self.deque@.take(k + 1));
            }
            total = total + self.deque[k].size as u128;
            k = k + 1;
        }
        assert(self.deque@.take(k as int) =~= self.deque@);
        total
    }

    /// Number of orders at this level.
    pub fn len(&self) -> (r: usize)
        ensures
            r == self.deque.len(),
    {
        self.deque.len()
    }
}

/// Binary search of the levels of `side` for `price`: `Ok` with the level's index, or `Err`
/// with the index at which a level at `price` keeps the levels sorted.
pub fn find_level(levels: &Vec<OrderDeque>, side: Side, price: u64) -> (r: Result<usize, usize>)
    requires
        sorted_levels(levels_view(levels@), side),
    ensures
        match r {
            Ok(i) => i < levels.len() && levels@[i as int].price == price,
            Err(pos) => pos <= levels.len() && (forall|i: int|
                0 <= i < pos ==> better(side, #[trigger] levels@[i].price, price)) && (forall|i: int|
                pos <= i < levels.len() ==> better(side, price, #[trigger] levels@[i].price)),
        },
{
    let ghost lv = levels_view(levels@);
    let mut lo: usize = 0;
    let mut hi: usize = levels.len();
    while lo < hi
        invariant
            lv == levels_view(levels@),
            sorted_levels(lv, side),
            lo <= hi <= levels.len(),
            forall|i: int| 0 <= i < lo ==> better(side, #[trigger] levels@[i].price, price),
            forall|i: int| hi <= i < levels.len() ==> better(side, price, #[trigger] levels@[i].price),
        decreases hi - lo,
    {
        let mid = lo + (hi - lo) / 2;
        let p = levels[mid].price;
        if p == price {
            return Ok(mid);
        }
        let mid_better = match side {
            Side::Buy => p > price,
            Side::Sell => p < price,
        };
        proof {
            assert(lv[mid as int].price == p);
        }
        if mid_better {
            assert forall|i: int| 0 <= i < mid + 1 implies better(side, #[trigger] levels@[i].price, price) by {
                if i < mid {
                    assert(lv[i].price == levels@[i].price);
                    assert(better(side, lv[i].price, lv[mid as int].price));
                }
            }
            lo = mid + 1;
        } else {
            assert forall|i: int| mid <= i < levels.len() implies better(side, price, #[trigger] levels@[i].price) by {
                if i > mid {
                    assert(lv[i].price == levels@[i].price);
                    assert(better(side, lv[mid as int].price, lv[i].price));
                }
            }
            hi = mid;
        }
    }
    Err(lo)
}

} // verus!
