use vstd::prelude::*;

use bounded_vec_deque::BoundedVecDeque;

use crate::clock::now_millis;
use crate::deque::{
    count, lemma_notional_prefix, lemma_orders_split, lemma_size_sum_bound, levels_ok,
    levels_view, notional, orders_from_last, orders_of, size_sum, sorted_levels, Level,
    OrderDeque,
};
use crate::history::{log_bound, logged_events, new_event_log};
use crate::levels::holds_order;
use crate::outlier::{SimpleOutlierFilter, OUTLIER_FACTOR_SCALE};
use crate::stats::OrderbookStats;
use crate::types::{AtomicOrder, Market, Order, OrderType, OrderbookError, OrderbookEvent, Side};

verus! {

/// Where the directory finds an order: its id, side and price level.
#[derive(Clone, Debug, PartialEq)]
pub struct IdEntry {
    pub id: String,
    pub side: Side,
    pub price: u64,
}

/// Some entry of the directory has id `id`.
pub open spec fn has_id(entries: Seq<IdEntry>, id: Seq<char>) -> bool {
    exists|j: int| 0 <= j < entries.len() && (#[trigger] entries[j]).id@ == id
}

/// Some entry of the directory places `id` on `side` at `price`.
pub open spec fn has_entry(entries: Seq<IdEntry>, id: Seq<char>, side: Side, price: u64) -> bool {
    exists|j: int|
        0 <= j < entries.len() && (#[trigger] entries[j]).id@ == id && entries[j].side == side
            && entries[j].price == price
}

/// No id appears twice in the directory.
pub open spec fn entries_unique(entries: Seq<IdEntry>) -> bool {
    forall|j1: int, j2: int|
        0 <= j1 < j2 < entries.len() ==> (#[trigger] entries[j1]).id@ != (#[trigger] entries[j2]).id@
}

/// The other side of the book.
pub open spec fn other(side: Side) -> Side {
    match side {
        Side::Buy => Side::Sell,
        Side::Sell => Side::Buy,
    }
}

/// Index of the directory entry for `id`.
pub fn find_entry(entries: &Vec<IdEntry>, id: &String) -> (r: Option<usize>)
    ensures
        match r {
            Some(j) => j < entries.len() && entries@[j as int].id@ == id@,
            None => !has_id(entries@, id@),
        },
{
    let mut j: usize = 0;
    while j < entries.len()
        invariant
            j <= entries.len(),
            forall|a: int| 0 <= a < j ==> (#[trigger] entries@[a]).id@ != id@,
        decreases entries.len() - j,
    {
        if entries[j].id == *id {
            return Some(j);
        }
        j = j + 1;
    }
    None
}

pub proof fn lemma_has_entry_push(entries: Seq<IdEntry>, e: IdEntry, id: Seq<char>, side: Side, price: u64)
    requires
        has_entry(entries, id, side, price),
    ensures
        has_entry(entries.push(e), id, side, price),
{
    let j = choose|j: int|
        0 <= j < entries.len() && (#[trigger] entries[j]).id@ == id && entries[j].side == side
            && entries[j].price == price;
    assert(entries.push(e)[j] == entries[j]);
}

pub proof fn lemma_has_entry_remove(entries: Seq<IdEntry>, j0: int, id: Seq<char>, side: Side, price: u64)
    requires
        0 <= j0 < entries.len(),
        has_entry(entries, id, side, price),
        !(entries[j0].id@ == id && entries[j0].side == side && entries[j0].price == price),
    ensures
        has_entry(entries.remove(j0), id, side, price),
{
    let j = choose|j: int|
        0 <= j < entries.len() && (#[trigger] entries[j]).id@ == id && entries[j].side == side
            && entries[j].price == price;
    if j < j0 {
        assert(entries.remove(j0)[j] == entries[j]);
    } else {
        assert(entries.remove(j0)[j - 1] == entries[j]);
    }
}

pub proof fn lemma_has_id_remove(entries: Seq<IdEntry>, j0: int, id: Seq<char>)
    requires
        0 <= j0 < entries.len(),
        has_id(entries.remove(j0), id),
    ensures
        has_id(entries, id),
{
    let j = choose|j: int| 0 <= j < entries.len() - 1 && (#[trigger] entries.remove(j0)[j]).id@ == id;
    if j < j0 {
        assert(entries.remove(j0)[j] == entries[j]);
    } else {
        assert(entries.remove(j0)[j] == entries[j + 1]);
    }
}

/// Every order on the levels of `side` has its entry in the directory.
pub open spec fn indexed(levels: Seq<Level>, entries: Seq<IdEntry>, side: Side) -> bool {
    forall|i: int, k: int|
        0 <= i < levels.len() && 0 <= k < levels[i].orders.len() ==> has_entry(
            entries,
            (#[trigger] levels[i].orders[k]).id@,
            side,
            levels[i].price,
        )
}

pub proof fn lemma_indexed_via_holds(levels: Seq<Level>, entries: Seq<IdEntry>, side: Side)
    requires
        forall|p: u64, id: Seq<char>|
            #[trigger] holds_order(levels, p, id) ==> has_entry(entries, id, side, p),
    ensures
        indexed(levels, entries, side),
{
    assert forall|i: int, k: int| 0 <= i < levels.len() && 0 <= k < levels[i].orders.len() implies has_entry(
        entries,
        (#[trigger] levels[i].orders[k]).id@,
        side,
        levels[i].price,
    ) by {
        assert(holds_order(levels, levels[i].price, levels[i].orders[k].id@));
    }
}

pub proof fn lemma_holds_via_indexed(levels: Seq<Level>, entries: Seq<IdEntry>, side: Side, p: u64, id: Seq<char>)
    requires
        indexed(levels, entries, side),
        holds_order(levels, p, id),
    ensures
        has_entry(entries, id, side, p),
{
    let (i, k) = choose|i: int, k: int|
        0 <= i < levels.len() && 0 <= k < levels[i].orders.len() && levels[i].price == p
            && (#[trigger] levels[i].orders[k]).id@ == id;
}

/// The orders of a sequence, each tagged as a limit order of `side`.
pub open spec fn tagged(orders: Seq<AtomicOrder>, side: Side) -> Seq<Order> {
    orders.map_values(|o: AtomicOrder| tag(o, side))
}

pub open spec fn tag(o: AtomicOrder, side: Side) -> Order {
    match side {
        Side::Buy => Order::Bid(o, OrderType::Limit),
        Side::Sell => Order::Ask(o, OrderType::Limit),
    }
}

/// The running liquidity of the first `n` levels: price, level size and the cumulative
/// notional up to and including each level.
pub open spec fn liquidity(levels: Seq<Level>, n: int) -> Seq<(u64, u128, u128)> {
    Seq::new(
        n as nat,
        |k: int|
            (
                levels[k].price,
                size_sum(levels[k].orders) as u128,
                notional(levels.take(k + 1)) as u128,
            ),
    )
}

/// A level-3 order book of one market.
#[derive(Debug)]
pub struct OrderbookL3 {
    pub market: Market,
    pub last_sequence: u64,
    /// Milliseconds since the Unix epoch at which the book was built.
    pub start_time: i64,
    pub bids: Vec<OrderDeque>,
    pub asks: Vec<OrderDeque>,
    pub order_id_map: Vec<IdEntry>,
    pub outlier_filter: Option<SimpleOutlierFilter>,
    pub stats: Option<OrderbookStats>,
    pub panic_button: bool,
    pub last_n_events: Option<BoundedVecDeque<OrderbookEvent>>,
}

impl OrderbookL3 {
    pub open spec fn bids_view(&self) -> Seq<Level> {
        levels_view(self.bids@)
    }

    pub open spec fn asks_view(&self) -> Seq<Level> {
        levels_view(self.asks@)
    }

    pub open spec fn side_view(&self, side: Side) -> Seq<Level> {
        match side {
            Side::Buy => self.bids_view(),
            Side::Sell => self.asks_view(),
        }
    }

    /// `id` was rejected by the outlier filter and not yet released.
    pub open spec fn is_recorded_outlier(&self, id: Seq<char>) -> bool {
        match self.outlier_filter {
            Some(f) => f.recorded(id),
            None => false,
        }
    }

    /// Every directory entry points at an order at that side and price.
    pub open spec fn located(&self) -> bool {
        forall|j: int|
            0 <= j < self.order_id_map.len() ==> holds_order(
                self.side_view((#[trigger] self.order_id_map@[j]).side),
                self.order_id_map@[j].price,
                self.order_id_map@[j].id@,
            )
    }

    /// The book's invariant.
    pub open spec fn wf(&self) -> bool {
        &&& sorted_levels(self.bids_view(), Side::Buy)
        &&& sorted_levels(self.asks_view(), Side::Sell)
        &&& levels_ok(self.bids_view())
        &&& levels_ok(self.asks_view())
        &&& entries_unique(self.order_id_map@)
        &&& self.located()
        &&& indexed(self.bids_view(), self.order_id_map@, Side::Buy)
        &&& indexed(self.asks_view(), self.order_id_map@, Side::Sell)
        &&& count(self.bids_view()) + count(self.asks_view()) == self.order_id_map.len()
        &&& (self.outlier_filter is Some ==> self.outlier_filter.unwrap().wf())
        &&& forall|id: Seq<char>|
            #[trigger] self.is_recorded_outlier(id) ==> !has_id(self.order_id_map@, id)
    }

    /// Best price of the levels, or zero when there are none.
    pub open spec fn best_of(levels: Seq<Level>) -> u64 {
        if levels.len() > 0 {
            levels[0].price
        } else {
            0
        }
    }

    /// A builder for a new book.
    pub fn builder() -> (r: OrderbookBuilder)
        ensures
            r.market is None,
            r.outlier_filter is None,
            r.stats is None,
            !r.panic_button,
            r.last_n_events is None,
    {
        OrderbookBuilder::new()
    }

    /// Number of bid levels.
    pub fn num_bid_levels(&self) -> (r: usize)
        ensures
            r == self.bids_view().len(),
    {
        self.bids.len()
    }

    /// Number of ask levels.
    pub fn num_ask_levels(&self) -> (r: usize)
        ensures
            r == self.asks_view().len(),
    {
        self.asks.len()
    }

    /// Number of orders in the book.
    pub fn len(&self) -> (r: usize)
        requires
            self.wf(),
        ensures
            r == self.order_id_map.len(),
            r == count(self.bids_view()) + count(self.asks_view()),
    {
        self.order_id_map.len()
    }

    /// Number of orders on the levels, summed level by level.
    fn side_count(levels: &Vec<OrderDeque>) -> (r: usize)
        requires
            count(levels_view(levels@)) <= usize::MAX,
        ensures
            r == count(levels_view(levels@)),
    {
        let ghost lv = levels_view(levels@);
        let mut total: usize = 0;
        let mut i: usize = 0;
        while i < levels.len()
            invariant
                lv == levels_view(levels@),
                count(lv) <= usize::MAX,
                i <= levels.len(),
                total == count(lv.take(i as int)),
            decreases levels.len() - i,
        {
            proof {
                assert(lv.take(i + 1).drop_last() =~= lv.take(i as int));
                lemma_orders_split(lv, i + 1);
            }
            total = total + levels[i].len();
            i = i + 1;
        }
        assert(lv.take(i as int) =~= lv);
        total
    }

    /// Number of resting bids.
    pub fn bid_count(&self) -> (r: usize)
        requires
            self.wf(),
        ensures
            r == count(self.bids_view()),
    {
        Self::side_count(&self.bids)
    }

    /// Number of resting asks.
    pub fn ask_count(&self) -> (r: usize)
        requires
            self.wf(),
        ensures
            r == count(self.asks_view()),
    {
        Self::side_count(&self.asks)
    }

    /// Price of the best bid, or zero when there are no bids.
    pub fn best_bid(&self) -> (r: u64)
        ensures
            r == Self::best_of(self.bids_view()),
    {
        if self.bids.len() > 0 {
            self.bids[0].price
        } else {
            0
        }
    }

    /// Price of the best ask, or zero when there are no asks.
    pub fn best_ask(&self) -> (r: u64)
        ensures
            r == Self::best_of(self.asks_view()),
    {
        if self.asks.len() > 0 {
            self.asks[0].price
        } else {
            0
        }
    }

    /// Best bid and best ask.
    pub fn top_level(&self) -> (r: (u64, u64))
        ensures
            r == (Self::best_of(self.bids_view()), Self::best_of(self.asks_view())),
    {
        (self.best_bid(), self.best_ask())
    }

    /// The collected error messages, when counters and their log are kept.
    pub fn get_error_msgs(&self) -> (r: Option<&Vec<String>>)
        ensures
            r is Some <==> (self.stats is Some && self.stats.unwrap().error_msgs is Some),
            r is Some ==> *r.unwrap() == self.stats.unwrap().error_msgs.unwrap(),
    {
        match &self.stats {
            Some(st) => match &st.error_msgs {
                Some(msgs) => Some(msgs),
                None => None,
            },
            None => None,
        }
    }

    /// The liquidity curve of `side` from the best level outward, at most `depth` levels.
    pub fn levels(&self, side: Side, depth: Option<usize>) -> (r: Vec<(u64, u128, u128)>)
        requires
            notional(self.side_view(side)) <= u128::MAX,
        ensures
            r@ == liquidity(
                self.side_view(side),
                match depth {
                    Some(n) => if n < self.side_view(side).len() {
                        n as int
                    } else {
                        self.side_view(side).len() as int
                    },
                    None => self.side_view(side).len() as int,
                },
            ),
    {
        let levels = match side {
            Side::Buy => &self.bids,
            Side::Sell => &self.asks,
        };
        let ghost lv = self.side_view(side);
        assert(lv == levels_view(levels@));
        let n = match depth {
            Some(d) => if d < levels.len() {
                d
            } else {
                levels.len()
            },
            None => levels.len(),
        };
        let mut out: Vec<(u64, u128, u128)> = Vec::new();
        let mut liquidity_sum: u128 = 0;
        let mut i: usize = 0;
        while i < n
            invariant
                lv == levels_view(levels@),
                notional(lv) <= u128::MAX,
                n <= levels.len(),
                i <= n,
                liquidity_sum == notional(lv.take(i as int)),
                out@ == liquidity(lv, i as int),
            decreases n - i,
        {
            let size = levels[i].size();
            proof {
                assert(lv.take(i + 1).drop_last() =~= lv.take(i as int));
                assert(lv.take(i + 1).last() == lv[i as int]);
                lemma_notional_prefix(lv, i + 1);
                lemma_notional_prefix(lv, i as int);
                lemma_size_sum_bound(lv[i as int].orders);
                let p = lv[i as int].price as int;
                let z = size_sum(lv[i as int].orders);
                assert(p * z >= 0) by (nonlinear_arith)
                    requires
                        p >= 0,
                        z >= 0,
                ;
            }
            liquidity_sum = liquidity_sum + (levels[i].price as u128) * size;
            out.push((levels[i].price, size, liquidity_sum));
            assert(out@ =~= liquidity(lv, i + 1));
            i = i + 1;
        }
        out
    }

    /// Appends the orders of `level`, oldest first, tagged with `side`.
    fn append_level(out: &mut Vec<Order>, level: &OrderDeque, side: Side)
        ensures
            final(out)@ == old(out)@ + tagged(level.deque@, side),
    {
        let mut k: usize = 0;
        while k < level.deque.len()
            invariant
                k <= level.deque.len(),
                out@ == old(out)@ + tagged(level.deque@.take(k as int), side),
            decreases level.deque.len() - k,
        {
            let o = level.deque[k].copied();
            let order = match side {
                Side::Buy => Order::Bid(o, OrderType::Limit),
                Side::Sell => Order::Ask(o, OrderType::Limit),
            };
            out.push(order);
            assert(level.deque@.take(k + 1) =~= level.deque@.take(k as int).push(level.deque@[k as int]));
            assert(out@ =~= old(out)@ + tagged(level.deque@.take(k + 1), side));
            k = k + 1;
        }
        assert(level.deque@.take(k as int) =~= level.deque@);
    }

    /// Every order of the book: bids from the worst level to the best, then asks from the best
    /// level to the worst, each level oldest first.
    pub fn iter(&self) -> (r: Vec<Order>)
        ensures
            r@ == tagged(orders_from_last(self.bids_view()), Side::Buy) + tagged(
                orders_of(self.asks_view()),
                Side::Sell,
            ),
    {
        let ghost bv = self.bids_view();
        let ghost av = self.asks_view();
        let mut out: Vec<Order> = Vec::new();
        let mut i: usize = self.bids.len();
        while i > 0
            invariant
                bv == levels_view(self.bids@),
                i <= self.bids.len(),
                out@ == tagged(orders_from_last(bv.skip(i as int)), Side::Buy),
            decreases i,
        {
            Self::append_level(&mut out, &self.bids[i - 1], Side::Buy);
            proof {
                let s = bv.skip(i - 1);
                assert(s.drop_first() =~= bv.skip(i as int));
                assert(s[0] == bv[i - 1]);
                assert(tagged(orders_from_last(s), Side::Buy) =~= tagged(orders_from_last(bv.skip(i as int)), Side::Buy) + tagged(bv[i - 1].orders, Side::Buy));
            }
            i = i - 1;
        }
        assert(bv.skip(0) =~= bv);
        let ghost bid_part = out@;
        let mut i: usize = 0;
        while i < self.asks.len()
            invariant
                av == levels_view(self.asks@),
                i <= self.asks.len(),
                out@ == bid_part + tagged(orders_of(av.take(i as int)), Side::Sell),
            decreases self.asks.len() - i,
        {
            Self::append_level(&mut out, &self.asks[i], Side::Sell);
            proof {
                let s = av.take(i + 1);
                assert(s.drop_last() =~= av.take(i as int));
                assert(s.last() == av[i as int]);
                assert(tagged(orders_of(s), Side::Sell) =~= tagged(orders_of(av.take(i as int)), Side::Sell) + tagged(av[i as int].orders, Side::Sell));
            }
            i = i + 1;
        }
        assert(av.take(i as int) =~= av);
        out
    }
}

/// Collects the options of a new book.
#[derive(Debug)]
pub struct OrderbookBuilder {
    pub market: Option<Market>,
    pub outlier_filter: Option<SimpleOutlierFilter>,
    pub stats: Option<OrderbookStats>,
    pub panic_button: bool,
    pub last_n_events: Option<BoundedVecDeque<OrderbookEvent>>,
}

impl OrderbookBuilder {
    pub fn new() -> (r: Self)
        ensures
            r.market is None,
            r.outlier_filter is None,
            r.stats is None,
            !r.panic_button,
            r.last_n_events is None,
    {
        OrderbookBuilder {
            market: None,
            outlier_filter: None,
            stats: None,
            panic_button: false,
            last_n_events: None,
        }
    }

    /// Sets the market the book belongs to.
    pub fn market(self, market: Market) -> (r: Self)
        ensures
            r == (OrderbookBuilder { market: Some(market), ..self }),
    {
        OrderbookBuilder { market: Some(market), ..self }
    }

    /// Enables the outlier filter with the default factor.
    pub fn outlier_filter_default(self) -> (r: Self)
        ensures
            r.outlier_filter is Some,
            r.outlier_filter.unwrap().wf(),
            r.outlier_filter.unwrap().outlier_factor == crate::outlier::DEFAULT_OUTLIER_FACTOR,
            forall|id: Seq<char>| !r.outlier_filter.unwrap().recorded(id),
            r.market == self.market,
            r.stats == self.stats,
            r.panic_button == self.panic_button,
            r.last_n_events == self.last_n_events,
    {
        OrderbookBuilder { outlier_filter: Some(SimpleOutlierFilter::new(None)), ..self }
    }

    /// Enables the outlier filter with `factor`, in millionths.
    pub fn outlier_filter(self, factor: u64) -> (r: Self)
        requires
            0 < factor < OUTLIER_FACTOR_SCALE,
        ensures
            r.outlier_filter is Some,
            r.outlier_filter.unwrap().wf(),
            r.outlier_filter.unwrap().outlier_factor == factor,
            forall|id: Seq<char>| !r.outlier_filter.unwrap().recorded(id),
            r.market == self.market,
            r.stats == self.stats,
            r.panic_button == self.panic_button,
            r.last_n_events == self.last_n_events,
    {
        OrderbookBuilder { outlier_filter: Some(SimpleOutlierFilter::new(Some(factor))), ..self }
    }

    /// Enables counters; with `track_errors` also a log of error messages.
    pub fn stats(self, track_errors: bool) -> (r: Self)
        ensures
            r.stats is Some,
            r.stats.unwrap().events_processed == 0,
            r.stats.unwrap().events_not_processed == 0,
            track_errors <==> r.stats.unwrap().error_msgs is Some,
            track_errors ==> r.stats.unwrap().error_msgs.unwrap()@.len() == 0,
            r.market == self.market,
            r.outlier_filter == self.outlier_filter,
            r.panic_button == self.panic_button,
            r.last_n_events == self.last_n_events,
    {
        OrderbookBuilder { stats: Some(OrderbookStats::new(track_errors)), ..self }
    }

    /// Makes the book panic whenever the best bid rises above the best ask.
    pub fn add_panic_button(self) -> (r: Self)
        ensures
            r == (OrderbookBuilder { panic_button: true, ..self }),
    {
        OrderbookBuilder { panic_button: true, ..self }
    }

    /// Keeps the last `n` events.
    pub fn last_n_events(self, n: usize) -> (r: Self)
        requires
            n * vstd::layout::size_of::<OrderbookEvent>() <= isize::MAX,
        ensures
            r.last_n_events is Some,
            logged_events(r.last_n_events.unwrap()).len() == 0,
            log_bound(r.last_n_events.unwrap()) == n,
            r.market == self.market,
            r.outlier_filter == self.outlier_filter,
            r.stats == self.stats,
            r.panic_button == self.panic_button,
    {
        OrderbookBuilder { last_n_events: Some(new_event_log(n)), ..self }
    }

    /// An empty book with the collected options; fails without a market.
    pub fn build(self) -> (r: Result<OrderbookL3, OrderbookError>)
        requires
            self.outlier_filter is Some ==> self.outlier_filter.unwrap().wf(),
        ensures
            self.market is None <==> r is Err,
            self.market is None ==> r == Err::<OrderbookL3, OrderbookError>(
                OrderbookError::BuilderIncomplete("missing Market"),
            ),
            r is Ok ==> {
                let b = r.unwrap();
                &&& b.wf()
                &&& b.market == self.market.unwrap()
                &&& b.last_sequence == 0
                &&& b.bids@.len() == 0
                &&& b.asks@.len() == 0
                &&& b.order_id_map@.len() == 0
                &&& b.outlier_filter == self.outlier_filter
                &&& b.stats == self.stats
                &&& b.panic_button == self.panic_button
                &&& b.last_n_events == self.last_n_events
            },
    {
        let market = match self.market {
            Some(m) => m,
            None => return Err(OrderbookError::BuilderIncomplete("missing Market")),
        };
        let book = OrderbookL3 {
            market,
            last_sequence: 0,
            start_time: now_millis(),
            bids: Vec::new(),
            asks: Vec::new(),
            order_id_map: Vec::new(),
            outlier_filter: self.outlier_filter,
            stats: self.stats,
            panic_button: self.panic_button,
            last_n_events: self.last_n_events,
        };
        assert(book.bids_view() =~= Seq::<Level>::empty());
        assert(book.asks_view() =~= Seq::<Level>::empty());
        Ok(book)
    }
}

} // verus!
