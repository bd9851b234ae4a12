use vstd::prelude::*;

use crate::book::{
    find_entry, has_entry, has_id, indexed, lemma_has_entry_push, lemma_has_entry_remove,
    lemma_has_id_remove, lemma_holds_via_indexed, lemma_indexed_via_holds, other, IdEntry,
    OrderbookL3,
};
use crate::clock::{error_message, now_millis};
use crate::deque::{find_level, levels_view, Level};
use crate::history::{log_bound, log_event, logged_events};
use crate::levels::{
    holds_order, id_absent, lemma_price_names_level, place_order, placed, remove_order_at,
    resize_order_at, resized, taken, without_order,
};
use crate::outlier::is_outlier;
use crate::stats::OrderbookStats;
use crate::types::{AtomicOrder, Order, OrderbookError, OrderbookEvent, Side};

verus! {

/// Both books hold the same levels and the same directory.
pub open spec fn same_orders(pre: OrderbookL3, post: OrderbookL3) -> bool {
    &&& post.bids_view() == pre.bids_view()
    &&& post.asks_view() == pre.asks_view()
    &&& post.order_id_map@ == pre.order_id_map@
}

/// Everything but the orders, the directory and the outlier filter is unchanged.
pub open spec fn same_frame(pre: OrderbookL3, post: OrderbookL3) -> bool {
    &&& post.market == pre.market
    &&& post.last_sequence == pre.last_sequence
    &&& post.start_time == pre.start_time
    &&& post.stats == pre.stats
    &&& post.panic_button == pre.panic_button
    &&& post.last_n_events == pre.last_n_events
}

/// The outlier filter keeps its settings; `id` is added to, or released from, its records.
pub open spec fn filter_after(pre: OrderbookL3, post: OrderbookL3, add: bool, release: bool, id: Seq<char>) -> bool {
    match pre.outlier_filter {
        None => post.outlier_filter is None,
        Some(f) => {
            &&& post.outlier_filter is Some
            &&& post.outlier_filter.unwrap().outlier_factor == f.outlier_factor
            &&& post.outlier_filter.unwrap().outliers_encountered == f.outliers_encountered
            &&& forall|x: Seq<char>|
                #[trigger] post.is_recorded_outlier(x) == ((pre.is_recorded_outlier(x) || (add && x
                    == id)) && !(release && x == id))
        },
    }
}

/// What inserting order `o` does.
pub open spec fn inserted(pre: OrderbookL3, o: Order, post: OrderbookL3, r: Result<(), OrderbookError>) -> bool {
    let a = o.atomic();
    let s = o.side_spec();
    if has_id(pre.order_id_map@, a.id@) {
        &&& r == Err::<(), OrderbookError>(OrderbookError::DuplicateOrderId(a.id))
        &&& same_orders(pre, post)
        &&& post.outlier_filter == pre.outlier_filter
    } else if pre.outlier_filter is Some && is_outlier(
        pre.outlier_filter.unwrap().outlier_factor,
        s,
        a.price,
        OrderbookL3::best_of(pre.bids_view()),
        OrderbookL3::best_of(pre.asks_view()),
    ) {
        &&& r == Err::<(), OrderbookError>(OrderbookError::Outlier)
        &&& same_orders(pre, post)
        &&& filter_after(pre, post, true, false, a.id@)
    } else {
        &&& r is Ok
        &&& placed(pre.side_view(s), post.side_view(s), s, a)
        &&& post.side_view(other(s)) == pre.side_view(other(s))
        &&& post.order_id_map@ == pre.order_id_map@.push(IdEntry { id: a.id, side: s, price: a.price })
        &&& filter_after(pre, post, false, true, a.id@)
    }
}

/// What removing the order `id` does.
pub open spec fn removed(pre: OrderbookL3, id: String, post: OrderbookL3, r: Result<(), OrderbookError>) -> bool {
    if has_id(pre.order_id_map@, id@) {
        &&& r is Ok
        &&& post.outlier_filter == pre.outlier_filter
        &&& exists|j: int|
            0 <= j < pre.order_id_map.len() && (#[trigger] pre.order_id_map@[j]).id@ == id@ && {
                let e = pre.order_id_map@[j];
                &&& post.order_id_map@ == pre.order_id_map@.remove(j)
                &&& taken(pre.side_view(e.side), post.side_view(e.side), e.price, id@)
                &&& post.side_view(other(e.side)) == pre.side_view(other(e.side))
            }
    } else if pre.is_recorded_outlier(id@) {
        &&& r == Err::<(), OrderbookError>(OrderbookError::Outlier)
        &&& same_orders(pre, post)
        &&& filter_after(pre, post, false, true, id@)
    } else {
        &&& r == Err::<(), OrderbookError>(OrderbookError::OrderNotFoundInMap(id))
        &&& same_orders(pre, post)
        &&& post.outlier_filter == pre.outlier_filter
    }
}

/// What setting the size of order `id` to `size` does.
pub open spec fn changed(pre: OrderbookL3, id: String, size: u64, post: OrderbookL3, r: Result<(), OrderbookError>) -> bool {
    &&& post.outlier_filter == pre.outlier_filter
    &&& if has_id(pre.order_id_map@, id@) {
        &&& r is Ok
        &&& post.order_id_map@ == pre.order_id_map@
        &&& exists|j: int|
            0 <= j < pre.order_id_map.len() && (#[trigger] pre.order_id_map@[j]).id@ == id@ && {
                let e = pre.order_id_map@[j];
                &&& resized(pre.side_view(e.side), post.side_view(e.side), e.price, id@, size)
                &&& post.side_view(other(e.side)) == pre.side_view(other(e.side))
            }
    } else {
        &&& r == if pre.is_recorded_outlier(id@) {
            Err::<(), OrderbookError>(OrderbookError::Outlier)
        } else {
            Err::<(), OrderbookError>(OrderbookError::OrderNotFoundInMap(id))
        }
        &&& same_orders(pre, post)
    }
}

/// What an in-sequence `event` does to the orders, the directory and the filter.
pub open spec fn effect(pre: OrderbookL3, event: OrderbookEvent, post: OrderbookL3, r: Result<(), OrderbookError>) -> bool {
    match event {
        OrderbookEvent::Received(..) => r is Ok && same_orders(pre, post) && post.outlier_filter
            == pre.outlier_filter,
        OrderbookEvent::Open(o, _) => inserted(pre, o, post, r),
        OrderbookEvent::Done(id, _) => removed(pre, id, post, r),
        OrderbookEvent::Change(id, size, _) => changed(pre, id, size, post, r),
    }
}

/// What applying `event` does to the orders, the directory, the filter and the sequence.
pub open spec fn applied(pre: OrderbookL3, event: OrderbookEvent, post: OrderbookL3, r: Result<(), OrderbookError>) -> bool {
    let seq = event.sequence_spec();
    if seq <= pre.last_sequence {
        &&& r == Err::<(), OrderbookError>(OrderbookError::OutOfSequence(event))
        &&& same_orders(pre, post)
        &&& post.outlier_filter == pre.outlier_filter
        &&& post.last_sequence == pre.last_sequence
    } else {
        &&& effect(pre, event, post, r)
        &&& post.last_sequence == match r {
            Ok(_) => seq,
            Err(OrderbookError::Outlier) => seq,
            Err(_) => pre.last_sequence,
        }
    }
}

/// One more, short of overflow.
pub open spec fn bumped(n: u64) -> u64 {
    if n < u64::MAX {
        (n + 1) as u64
    } else {
        n
    }
}

/// How the counters record an outcome: successes and failures are counted, and failures
/// other than outliers add one message to the log, if one is kept.
pub open spec fn stats_after(pre: Option<OrderbookStats>, post: Option<OrderbookStats>, r: Result<(), OrderbookError>) -> bool {
    match pre {
        None => post is None,
        Some(st) => post is Some && {
            let nt = post.unwrap();
            match r {
                Ok(_) => nt.events_processed == bumped(st.events_processed)
                    && nt.events_not_processed == st.events_not_processed && nt.error_msgs
                    == st.error_msgs,
                Err(OrderbookError::Outlier) => nt.events_processed == st.events_processed
                    && nt.events_not_processed == bumped(st.events_not_processed) && nt.error_msgs
                    == st.error_msgs,
                Err(_) => nt.events_processed == st.events_processed && nt.events_not_processed
                    == bumped(st.events_not_processed) && match st.error_msgs {
                    None => nt.error_msgs is None,
                    Some(v) => nt.error_msgs is Some && nt.error_msgs.unwrap()@.len() == v@.len()
                        + 1 && nt.error_msgs.unwrap()@.take(v@.len() as int) == v@,
                },
            }
        },
    }
}

/// How the event log, if one is kept, records `event`.
pub open spec fn log_after(pre: OrderbookL3, post: OrderbookL3, event: OrderbookEvent) -> bool {
    match pre.last_n_events {
        None => post.last_n_events is None,
        Some(q) => post.last_n_events is Some && {
            let nq = post.last_n_events.unwrap();
            &&& log_bound(nq) == log_bound(q)
            &&& logged_events(nq) == if log_bound(q) == 0 {
                logged_events(q)
            } else if logged_events(q).len() >= log_bound(q) {
                logged_events(q).drop_first().push(event)
            } else {
                logged_events(q).push(event)
            }
        },
    }
}

impl OrderbookL3 {
    /// Whether `order_id` is a recorded outlier.
    fn check_old_outlier(&self, order_id: &String) -> (r: bool)
        ensures
            r == self.is_recorded_outlier(order_id@),
    {
        match &self.outlier_filter {
            Some(f) => f.contains(order_id),
            None => false,
        }
    }

    /// Releases `order_id` from the outlier filter's records.
    fn remove_old_outlier(&mut self, order_id: &String) -> (r: bool)
        ensures
            r == old(self).is_recorded_outlier(order_id@),
            filter_after(*old(self), *final(self), false, true, order_id@),
            same_orders(*old(self), *final(self)),
            same_frame(*old(self), *final(self)),
            old(self).outlier_filter is Some ==> final(self).outlier_filter.unwrap().wf() == old(
                self,
            ).outlier_filter.unwrap().wf(),
    {
        match &mut self.outlier_filter {
            Some(f) => f.release(order_id),
            None => false,
        }
    }

    /// Runs the outlier filter, if there is one, on an incoming order.
    fn check_new_outlier(&mut self, order: &Order) -> (r: Result<(), OrderbookError>)
        requires
            old(self).outlier_filter is Some ==> old(self).outlier_filter.unwrap().wf(),
        ensures
            final(self).outlier_filter is Some ==> final(self).outlier_filter.unwrap().wf(),
            same_orders(*old(self), *final(self)),
            same_frame(*old(self), *final(self)),
            if old(self).outlier_filter is Some && is_outlier(
                old(self).outlier_filter.unwrap().outlier_factor,
                order.side_spec(),
                order.atomic().price,
                Self::best_of(old(self).bids_view()),
                Self::best_of(old(self).asks_view()),
            ) {
                r == Err::<(), OrderbookError>(OrderbookError::Outlier) && filter_after(
                    *old(self),
                    *final(self),
                    true,
                    false,
                    order.atomic().id@,
                )
            } else {
                r is Ok && final(self).outlier_filter == old(self).outlier_filter
            },
    {
        let top_level = self.top_level();
        match &mut self.outlier_filter {
            Some(f) => f.check(order, top_level),
            None => Ok(()),
        }
    }

    /// Finds the order `order_id`: its directory entry, side, level and place in the level.
    fn locate(&self, order_id: &String) -> (r: Result<(usize, Side, usize, usize), OrderbookError>)
        requires
            self.wf(),
        ensures
            match r {
                Ok((j, s, i, k)) => {
                    &&& j < self.order_id_map.len()
                    &&& self.order_id_map@[j as int].id@ == order_id@
                    &&& self.order_id_map@[j as int].side == s
                    &&& i < self.side_view(s).len()
                    &&& self.side_view(s)[i as int].price == self.order_id_map@[j as int].price
                    &&& k < self.side_view(s)[i as int].orders.len()
                    &&& self.side_view(s)[i as int].orders[k as int].id@ == order_id@
                },
                Err(e) => !has_id(self.order_id_map@, order_id@) && e == if self.is_recorded_outlier(
                    order_id@,
                ) {
                    OrderbookError::Outlier
                } else {
                    OrderbookError::OrderNotFoundInMap(*order_id)
                },
            },
    {
        match find_entry(&self.order_id_map, order_id) {
            Some(j) => {
                let side = self.order_id_map[j].side;
                let price = self.order_id_map[j].price;
                let levels = match side {
                    Side::Buy => &self.bids,
                    Side::Sell => &self.asks,
                };
                let ghost lv = self.side_view(side);
                assert(lv == levels_view(levels@));
                assert(holds_order(lv, price, order_id@));
                let ghost w: (int, int) = choose|a: int, b: int|
                    0 <= a < lv.len() && 0 <= b < lv[a].orders.len() && lv[a].price == price
                        && (#[trigger] lv[a].orders[b]).id@ == order_id@;
                let ghost a = w.0;
                let ghost b = w.1;
                assert(levels@[a].price == price);
                match find_level(levels, side, price) {
                    Ok(i) => {
                        proof {
                            lemma_price_names_level(lv, side, a, i as int);
                            assert(levels@[i as int].deque@[b] == lv[a].orders[b]);
                        }
                        match levels[i].position(order_id) {
                            Some(k) => Ok((j, side, i, k)),
                            None => Err(OrderbookError::OrderNotFoundInDeque(order_id.clone())),
                        }
                    },
                    Err(_) => Err(OrderbookError::MissingOrderDeque(price)),
                }
            },
            None => {
                if self.check_old_outlier(order_id) {
                    Err(OrderbookError::Outlier)
                } else {
                    Err(OrderbookError::OrderNotFoundInMap(order_id.clone()))
                }
            },
        }
    }

    /// Rests `order` at the tail of its price level, making the level if needed, and enters it
    /// in the directory. A known id is refused, and so is an outlier.
    fn insert(&mut self, order: &Order) -> (r: Result<(), OrderbookError>)
        requires
            old(self).wf(),
        ensures
            final(self).wf(),
            same_frame(*old(self), *final(self)),
            inserted(*old(self), *order, *final(self), r),
    {
        let id = order.unwrap().id.clone();
        if find_entry(&self.order_id_map, &id).is_some() {
            return Err(OrderbookError::DuplicateOrderId(id));
        }
        match self.check_new_outlier(order) {
            Ok(()) => {},
            Err(e) => {
                return Err(e);
            },
        }
        let ghost pre = *old(self);
        let atomic = order.unwrap().copied();
        let price = atomic.price;
        let side = order.side();
        let ghost a = atomic;
        proof {
            assert forall|i: int, k: int|
                0 <= i < pre.side_view(side).len() && 0 <= k < pre.side_view(side)[i].orders.len() implies (#[trigger] pre.side_view(side)[i].orders[k]).id@
                    != id@ by {
                let lv = pre.side_view(side);
                if lv[i].orders[k].id@ == id@ {
                    assert(has_entry(pre.order_id_map@, id@, side, lv[i].price));
                }
            }
            assert(id_absent(pre.side_view(side), id@));
        }
        match side {
            Side::Buy => place_order(&mut self.bids, Side::Buy, atomic),
            Side::Sell => place_order(&mut self.asks, Side::Sell, atomic),
        }
        let ghost mid = *self;
        self.order_id_map.push(IdEntry { id: id.clone(), side, price });
        self.remove_old_outlier(&id);
        proof {
            let post = *self;
            let e = IdEntry { id: id, side, price };
            assert(post.order_id_map@ == pre.order_id_map@.push(e));
            assert(post.side_view(other(side)) == pre.side_view(other(side)));
            // the directory's ids stay distinct
            assert forall|j1: int, j2: int|
                0 <= j1 < j2 < post.order_id_map.len() implies (#[trigger] post.order_id_map@[j1]).id@
                    != (#[trigger] post.order_id_map@[j2]).id@ by {
                if j2 == pre.order_id_map.len() {
                    assert(post.order_id_map@[j1] == pre.order_id_map@[j1]);
                } else {
                    assert(post.order_id_map@[j1] == pre.order_id_map@[j1]);
                    assert(post.order_id_map@[j2] == pre.order_id_map@[j2]);
                }
            }
            // every entry finds its order
            assert forall|j: int| 0 <= j < post.order_id_map.len() implies holds_order(
                post.side_view((#[trigger] post.order_id_map@[j]).side),
                post.order_id_map@[j].price,
                post.order_id_map@[j].id@,
            ) by {
                let ej = post.order_id_map@[j];
                if j < pre.order_id_map.len() {
                    assert(ej == pre.order_id_map@[j]);
                    assert(holds_order(pre.side_view(ej.side), ej.price, ej.id@));
                    if ej.side == side {
                        assert(holds_order(post.side_view(side), ej.price, ej.id@));
                    } else {
                        assert(ej.side == other(side));
                    }
                } else {
                    assert(ej == e);
                    assert(holds_order(post.side_view(side), price, id@));
                }
            }
            // every order has its entry
            assert forall|p: u64, x: Seq<char>|
                #[trigger] holds_order(post.side_view(side), p, x) implies has_entry(
                post.order_id_map@,
                x,
                side,
                p,
            ) by {
                if holds_order(pre.side_view(side), p, x) {
                    lemma_holds_via_indexed(pre.side_view(side), pre.order_id_map@, side, p, x);
                    lemma_has_entry_push(pre.order_id_map@, e, x, side, p);
                } else {
                    assert(post.order_id_map@[pre.order_id_map.len() as int] == e);
                }
            }
            lemma_indexed_via_holds(post.side_view(side), post.order_id_map@, side);
            assert forall|p: u64, x: Seq<char>|
                #[trigger] holds_order(post.side_view(other(side)), p, x) implies has_entry(
                post.order_id_map@,
                x,
                other(side),
                p,
            ) by {
                lemma_holds_via_indexed(pre.side_view(other(side)), pre.order_id_map@, other(side), p, x);
                lemma_has_entry_push(pre.order_id_map@, e, x, other(side), p);
            }
            lemma_indexed_via_holds(post.side_view(other(side)), post.order_id_map@, other(side));
            if side == Side::Buy {
                assert(indexed(post.bids_view(), post.order_id_map@, Side::Buy));
                assert(indexed(post.asks_view(), post.order_id_map@, Side::Sell));
            } else {
                assert(indexed(post.asks_view(), post.order_id_map@, Side::Sell));
                assert(indexed(post.bids_view(), post.order_id_map@, Side::Buy));
            }
            // recorded outliers stay out of the directory
            assert forall|x: Seq<char>| #[trigger] post.is_recorded_outlier(x) implies !has_id(post.order_id_map@, x) by {
                assert(pre.is_recorded_outlier(x) && x != id@);
                if has_id(post.order_id_map@, x) {
                    let j = choose|j: int| 0 <= j < post.order_id_map.len() && (#[trigger] post.order_id_map@[j]).id@ == x;
                    if j < pre.order_id_map.len() {
                        assert(post.order_id_map@[j] == pre.order_id_map@[j]);
                    }
                }
            }
        }
        Ok(())
    }

    /// Takes the order `order_id` out of its level and the directory, and the level too if it
    /// empties. A recorded outlier is released instead.
    fn remove(&mut self, order_id: &String) -> (r: Result<(), OrderbookError>)
        requires
            old(self).wf(),
        ensures
            final(self).wf(),
            same_frame(*old(self), *final(self)),
            removed(*old(self), *order_id, *final(self), r),
    {
        let ghost pre = *old(self);
        match self.locate(order_id) {
            Ok((j, side, i, k)) => {
                let ghost p0 = pre.order_id_map@[j as int].price;
                let ghost id0 = order_id@;
                match side {
                    Side::Buy => remove_order_at(&mut self.bids, Side::Buy, i, k),
                    Side::Sell => remove_order_at(&mut self.asks, Side::Sell, i, k),
                }
                self.order_id_map.remove(j);
                proof {
                    let post = *self;
                    let jj = j as int;
                    let entries = pre.order_id_map@;
                    assert(post.order_id_map@ == entries.remove(jj));
                    assert(post.side_view(other(side)) == pre.side_view(other(side)));
                    assert(post.side_view(side) == without_order(pre.side_view(side), i as int, k as int));
                    assert(taken(pre.side_view(side), post.side_view(side), p0, id0));
                    assert forall|j1: int, j2: int|
                        0 <= j1 < j2 < post.order_id_map.len() implies (#[trigger] post.order_id_map@[j1]).id@
                            != (#[trigger] post.order_id_map@[j2]).id@ by {
                        let a1 = if j1 < jj { j1 } else { j1 + 1 };
                        let a2 = if j2 < jj { j2 } else { j2 + 1 };
                        assert(post.order_id_map@[j1] == entries[a1]);
                        assert(post.order_id_map@[j2] == entries[a2]);
                    }
                    assert forall|q: int| 0 <= q < post.order_id_map.len() implies holds_order(
                        post.side_view((#[trigger] post.order_id_map@[q]).side),
                        post.order_id_map@[q].price,
                        post.order_id_map@[q].id@,
                    ) by {
                        let q2 = if q < jj { q } else { q + 1 };
                        let eq = post.order_id_map@[q];
                        assert(eq == entries[q2]);
                        assert(holds_order(pre.side_view(eq.side), eq.price, eq.id@));
                        if q2 < jj {
                            assert(entries[q2].id@ != entries[jj].id@);
                        } else {
                            assert(entries[jj].id@ != entries[q2].id@);
                        }
                        if eq.side == side {
                            assert(holds_order(post.side_view(side), eq.price, eq.id@));
                        } else {
                            assert(eq.side == other(side));
                        }
                    }
                    assert forall|p: u64, x: Seq<char>|
                        #[trigger] holds_order(post.side_view(side), p, x) implies has_entry(
                        post.order_id_map@,
                        x,
                        side,
                        p,
                    ) by {
                        lemma_holds_via_indexed(pre.side_view(side), entries, side, p, x);
                        lemma_has_entry_remove(entries, jj, x, side, p);
                    }
                    lemma_indexed_via_holds(post.side_view(side), post.order_id_map@, side);
                    assert forall|p: u64, x: Seq<char>|
                        #[trigger] holds_order(post.side_view(other(side)), p, x) implies has_entry(
                        post.order_id_map@,
                        x,
                        other(side),
                        p,
                    ) by {
                        lemma_holds_via_indexed(pre.side_view(other(side)), entries, other(side), p, x);
                        lemma_has_entry_remove(entries, jj, x, other(side), p);
                    }
                    lemma_indexed_via_holds(post.side_view(other(side)), post.order_id_map@, other(side));
                    if side == Side::Buy {
                        assert(indexed(post.bids_view(), post.order_id_map@, Side::Buy));
                        assert(indexed(post.asks_view(), post.order_id_map@, Side::Sell));
                    } else {
                        assert(indexed(post.asks_view(), post.order_id_map@, Side::Sell));
                        assert(indexed(post.bids_view(), post.order_id_map@, Side::Buy));
                    }
                    assert forall|x: Seq<char>| #[trigger] post.is_recorded_outlier(x) implies !has_id(post.order_id_map@, x) by {
                        assert(pre.is_recorded_outlier(x));
                        if has_id(post.order_id_map@, x) {
                            lemma_has_id_remove(entries, jj, x);
                        }
                    }
                }
                Ok(())
            },
            Err(OrderbookError::Outlier) => {
                self.remove_old_outlier(order_id);
                Err(OrderbookError::Outlier)
            },
            Err(e) => Err(e),
        }
    }

    /// Sets the size of the order `order_id`; its price and place do not change.
    fn update(&mut self, order_id: &String, new_size: u64) -> (r: Result<(), OrderbookError>)
        requires
            old(self).wf(),
        ensures
            final(self).wf(),
            same_frame(*old(self), *final(self)),
            changed(*old(self), *order_id, new_size, *final(self), r),
    {
        let ghost pre = *old(self);
        match self.locate(order_id) {
            Ok((j, side, i, k)) => {
                match side {
                    Side::Buy => resize_order_at(&mut self.bids, Side::Buy, i, k, new_size),
                    Side::Sell => resize_order_at(&mut self.asks, Side::Sell, i, k, new_size),
                }
                proof {
                    let post = *self;
                    let entries = pre.order_id_map@;
                    assert(post.side_view(other(side)) == pre.side_view(other(side)));
                    assert(resized(pre.side_view(side), post.side_view(side), entries[j as int].price, order_id@, new_size));
                    assert forall|q: int| 0 <= q < post.order_id_map.len() implies holds_order(
                        post.side_view((#[trigger] post.order_id_map@[q]).side),
                        post.order_id_map@[q].price,
                        post.order_id_map@[q].id@,
                    ) by {
                        let eq = post.order_id_map@[q];
                        assert(holds_order(pre.side_view(eq.side), eq.price, eq.id@));
                        if eq.side == side {
                            assert(holds_order(post.side_view(side), eq.price, eq.id@));
                        } else {
                            assert(eq.side == other(side));
                        }
                    }
                    assert forall|p: u64, x: Seq<char>|
                        #[trigger] holds_order(post.side_view(side), p, x) implies has_entry(
                        post.order_id_map@,
                        x,
                        side,
                        p,
                    ) by {
                        lemma_holds_via_indexed(pre.side_view(side), entries, side, p, x);
                    }
                    lemma_indexed_via_holds(post.side_view(side), post.order_id_map@, side);
                    if side == Side::Buy {
                        assert(indexed(post.bids_view(), post.order_id_map@, Side::Buy));
                        assert(post.asks_view() == pre.asks_view());
                        assert(indexed(post.asks_view(), post.order_id_map@, Side::Sell));
                    } else {
                        assert(indexed(post.asks_view(), post.order_id_map@, Side::Sell));
                        assert(post.bids_view() == pre.bids_view());
                        assert(indexed(post.bids_view(), post.order_id_map@, Side::Buy));
                    }
                    assert(post.located());
                    assert(post.order_id_map@ == entries);
                    assert forall|x: Seq<char>| #[trigger] post.is_recorded_outlier(x) implies !has_id(post.order_id_map@, x) by {
                        assert(pre.is_recorded_outlier(x));
                    }
                }
                Ok(())
            },
            Err(e) => Err(e),
        }
    }

    /// Keeps a copy of `event` in the event log, if one is kept.
    pub fn store_event(&mut self, event: &OrderbookEvent)
        ensures
            log_after(*old(self), *final(self), *event),
            same_orders(*old(self), *final(self)),
            final(self).outlier_filter == old(self).outlier_filter,
            final(self).market == old(self).market,
            final(self).last_sequence == old(self).last_sequence,
            final(self).start_time == old(self).start_time,
            final(self).stats == old(self).stats,
            final(self).panic_button == old(self).panic_button,
    {
        match &mut self.last_n_events {
            Some(q) => log_event(q, event.copied()),
            None => {},
        }
    }

    /// Advances the sequence on success or on an outlier, and records the outcome in the
    /// counters, if they are kept.
    fn update_sequence_and_stats(&mut self, result: &Result<(), OrderbookError>, sequence: u64)
        ensures
            final(self).last_sequence == match *result {
                Ok(_) => sequence,
                Err(OrderbookError::Outlier) => sequence,
                Err(_) => old(self).last_sequence,
            },
            stats_after(old(self).stats, final(self).stats, *result),
            same_orders(*old(self), *final(self)),
            final(self).outlier_filter == old(self).outlier_filter,
            final(self).market == old(self).market,
            final(self).start_time == old(self).start_time,
            final(self).panic_button == old(self).panic_button,
            final(self).last_n_events == old(self).last_n_events,
    {
        match result {
            Ok(()) => {
                self.last_sequence = sequence;
                match &mut self.stats {
                    Some(st) => {
                        if st.events_processed < u64::MAX {
                            st.events_processed = st.events_processed + 1;
                        }
                    },
                    None => {},
                }
            },
            Err(OrderbookError::Outlier) => {
                self.last_sequence = sequence;
                match &mut self.stats {
                    Some(st) => {
                        if st.events_not_processed < u64::MAX {
                            st.events_not_processed = st.events_not_processed + 1;
                        }
                    },
                    None => {},
                }
            },
            Err(error) => {
                let at = now_millis();
                let last = self.last_sequence;
                match &mut self.stats {
                    Some(st) => {
                        if st.events_not_processed < u64::MAX {
                            st.events_not_processed = st.events_not_processed + 1;
                        }
                        match &mut st.error_msgs {
                            Some(msgs) => {
                                let ghost before = msgs@;
                                msgs.push(error_message(at, last, error));
                                assert(msgs@.take(before.len() as int) =~= before);
                            },
                            None => {},
                        }
                    },
                    None => {},
                }
            },
        }
    }

    /// Applies one sequenced event. An event whose sequence is not above the last applied one
    /// is refused; `Open` inserts, `Done` removes, `Change` resizes and `Received` changes
    /// nothing. The sequence advances on success and on an outlier.
    pub fn process(&mut self, event: OrderbookEvent) -> (r: Result<(), OrderbookError>)
        requires
            old(self).wf(),
        ensures
            final(self).wf(),
            applied(*old(self), event, *final(self), r),
            stats_after(old(self).stats, final(self).stats, r),
            log_after(*old(self), *final(self), event),
            final(self).market == old(self).market,
            final(self).start_time == old(self).start_time,
            final(self).panic_button == old(self).panic_button,
    {
        let ghost pre = *old(self);
        let ghost ev = event;
        self.store_event(&event);
        let ghost s1 = *self;
        proof {
            lemma_wf_same_orders(pre, s1);
        }
        let sequence = event.sequence();
        let result = if sequence > self.last_sequence {
            match &event {
                OrderbookEvent::Received(..) => Ok(()),
                OrderbookEvent::Open(order, _) => self.insert(order),
                OrderbookEvent::Done(id, _) => self.remove(id),
                OrderbookEvent::Change(id, size, _) => self.update(id, *size),
            }
        } else {
            Err(OrderbookError::OutOfSequence(event))
        };
        let ghost s2 = *self;
        self.update_sequence_and_stats(&result, sequence);
        proof {
            let s3 = *self;
            lemma_wf_same_orders(s2, s3);
            if sequence > pre.last_sequence {
                lemma_effect_frame(s1, pre, ev, s2, s3, result);
            }
            assert(log_after(pre, s3, ev));
        }
        result
    }

    /// Whether the book is crossed while the panic button is on: both sides priced and the
    /// best bid above the best ask.
    pub fn panic_button(&self) -> (r: bool)
        ensures
            r == (self.panic_button && Self::best_of(self.bids_view()) != 0 && Self::best_of(
                self.asks_view(),
            ) != 0 && Self::best_of(self.bids_view()) > Self::best_of(self.asks_view())),
    {
        let bid = self.best_bid();
        let ask = self.best_ask();
        self.panic_button && bid != 0 && ask != 0 && bid > ask
    }

    /// The order with id `order_id`.
    pub fn get_order_ref(&self, order_id: &str) -> (r: Result<&AtomicOrder, OrderbookError>)
        requires
            self.wf(),
        ensures
            r is Ok <==> has_id(self.order_id_map@, order_id@),
            match r {
                Ok(o) => o.id@ == order_id@ && exists|s: Side, i: int, k: int|
                    0 <= i < self.side_view(s).len() && 0 <= k < self.side_view(s)[i].orders.len()
                        && #[trigger] self.side_view(s)[i].orders[k] == *o,
                Err(e) => match e {
                    OrderbookError::Outlier => self.is_recorded_outlier(order_id@),
                    OrderbookError::OrderNotFoundInMap(s) => !self.is_recorded_outlier(order_id@)
                        && s@ == order_id@,
                    _ => false,
                },
            },
    {
        let key = order_id.to_owned();
        match self.locate(&key) {
            Ok((_j, side, i, k)) => {
                let o = match side {
                    Side::Buy => &self.bids[i].deque[k],
                    Side::Sell => &self.asks[i].deque[k],
                };
                assert(self.side_view(side)[i as int].orders[k as int] == *o);
                Ok(o)
            },
            Err(e) => Err(e),
        }
    }

    /// The order with id `order_id`, to change in place. The book's invariant holds again
    /// once the order's id and price are left as they were.
    pub fn get_order_mut(&mut self, order_id: &str) -> (r: Result<&mut AtomicOrder, OrderbookError>)
        requires
            old(self).wf(),
        ensures
            r is Ok <==> has_id(old(self).order_id_map@, order_id@),
            match r {
                Ok(o) => o.id@ == order_id@ && exists|s: Side, i: int, k: int|
                    0 <= i < old(self).side_view(s).len() && 0 <= k < old(self).side_view(
                        s,
                    )[i].orders.len() && #[trigger] old(self).side_view(s)[i].orders[k] == *o
                        && final(self).side_view(s) == old(self).side_view(s).update(
                        i,
                        Level {
                            price: old(self).side_view(s)[i].price,
                            orders: old(self).side_view(s)[i].orders.update(k, *final(o)),
                        },
                    ) && final(self).side_view(other(s)) == old(self).side_view(other(s))
                        && final(self).order_id_map@ == old(self).order_id_map@
                        && final(self).outlier_filter == old(self).outlier_filter
                        && same_frame(*old(self), *final(self)),
                Err(e) => *final(self) == *old(self) && match e {
                    OrderbookError::Outlier => old(self).is_recorded_outlier(order_id@),
                    OrderbookError::OrderNotFoundInMap(s) => !old(self).is_recorded_outlier(
                        order_id@,
                    ) && s@ == order_id@,
                    _ => false,
                },
            },
    {
        let key = order_id.to_owned();
        match self.locate(&key) {
            Ok((_j, side, i, k)) => {
                match side {
                    Side::Buy => Ok(&mut self.bids[i].deque[k]),
                    Side::Sell => Ok(&mut self.asks[i].deque[k]),
                }
            },
            Err(e) => Err(e),
        }
    }
}

/// The invariant depends only on the orders, the directory and the outlier filter.
pub proof fn lemma_wf_same_orders(pre: OrderbookL3, post: OrderbookL3)
    requires
        pre.wf(),
        same_orders(pre, post),
        post.outlier_filter == pre.outlier_filter,
    ensures
        post.wf(),
{
    assert(post.side_view(Side::Buy) == pre.side_view(Side::Buy));
    assert(post.side_view(Side::Sell) == pre.side_view(Side::Sell));
    assert forall|j: int| 0 <= j < post.order_id_map.len() implies holds_order(
        post.side_view((#[trigger] post.order_id_map@[j]).side),
        post.order_id_map@[j].price,
        post.order_id_map@[j].id@,
    ) by {
        assert(pre.order_id_map@[j] == post.order_id_map@[j]);
    }
    assert forall|x: Seq<char>| #[trigger] post.is_recorded_outlier(x) implies !has_id(post.order_id_map@, x) by {
        assert(pre.is_recorded_outlier(x));
    }
}

/// What `effect` says depends only on the orders, the directory and the outlier filter of
/// the two books.
pub proof fn lemma_effect_frame(
    pre: OrderbookL3,
    pre2: OrderbookL3,
    event: OrderbookEvent,
    post: OrderbookL3,
    post2: OrderbookL3,
    r: Result<(), OrderbookError>,
)
    requires
        same_orders(pre, pre2),
        pre2.outlier_filter == pre.outlier_filter,
        same_orders(post, post2),
        post2.outlier_filter == post.outlier_filter,
        effect(pre, event, post, r),
    ensures
        effect(pre2, event, post2, r),
{
    assert forall|s: Side| #[trigger] pre2.side_view(s) == pre.side_view(s) by {}
    assert forall|s: Side| #[trigger] post2.side_view(s) == post.side_view(s) by {}
    assert forall|x: Seq<char>| #[trigger] pre2.is_recorded_outlier(x) == pre.is_recorded_outlier(x) by {}
    assert forall|x: Seq<char>| #[trigger] post2.is_recorded_outlier(x) == post.is_recorded_outlier(x) by {}
    match event {
        OrderbookEvent::Done(id, _) => {
            if has_id(pre.order_id_map@, id@) {
                let j = choose|j: int|
                    0 <= j < pre.order_id_map.len() && (#[trigger] pre.order_id_map@[j]).id@ == id@ && {
                        let e = pre.order_id_map@[j];
                        &&& post.order_id_map@ == pre.order_id_map@.remove(j)
                        &&& taken(pre.side_view(e.side), post.side_view(e.side), e.price, id@)
                        &&& post.side_view(other(e.side)) == pre.side_view(other(e.side))
                    };
                assert(pre2.order_id_map@[j] == pre.order_id_map@[j]);
            }
        },
        OrderbookEvent::Change(id, size, _) => {
            if has_id(pre.order_id_map@, id@) {
                let j = choose|j: int|
                    0 <= j < pre.order_id_map.len() && (#[trigger] pre.order_id_map@[j]).id@ == id@ && {
                        let e = pre.order_id_map@[j];
                        &&& resized(pre.side_view(e.side), post.side_view(e.side), e.price, id@, size)
                        &&& post.side_view(other(e.side)) == pre.side_view(other(e.side))
                    };
                assert(pre2.order_id_map@[j] == pre.order_id_map@[j]);
            }
        },
        _ => {},
    }
}

} // verus!
