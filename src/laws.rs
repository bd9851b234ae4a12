use vstd::prelude::*;

use crate::book::{has_id, lemma_holds_via_indexed, other, tagged, IdEntry, OrderbookL3};
use crate::deque::{
    count, lemma_orders_from_last_len, levels_ok, orders_from_last, orders_of, sorted_levels,
    Level,
};
use crate::engine::{applied, same_orders};
use crate::levels::{holds_order, lemma_price_names_level, resized, taken, with_size, without_order};
use crate::types::{Order, OrderbookError, OrderbookEvent, Side};

verus! {

/// The last applied sequence never decreases. It becomes the event's sequence exactly when
/// the event is accepted, that is when it succeeds or is refused as an outlier.
pub proof fn lemma_sequence_advances(
    pre: OrderbookL3,
    event: OrderbookEvent,
    post: OrderbookL3,
    r: Result<(), OrderbookError>,
)
    requires
        pre.wf(),
        applied(pre, event, post, r),
    ensures
        post.last_sequence >= pre.last_sequence,
        (r is Ok || r == Err::<(), OrderbookError>(OrderbookError::Outlier)) ==> post.last_sequence
            == event.sequence_spec(),
        !(r is Ok || r == Err::<(), OrderbookError>(OrderbookError::Outlier)) ==> post.last_sequence
            == pre.last_sequence,
{
}

/// Bids run from the highest price down and asks from the lowest up, no price twice on a
/// side, and no level is empty.
pub proof fn lemma_sides_sorted(b: OrderbookL3)
    requires
        b.wf(),
    ensures
        forall|i: int, j: int|
            0 <= i < j < b.bids_view().len() ==> b.bids_view()[i].price > b.bids_view()[j].price,
        forall|i: int, j: int|
            0 <= i < j < b.asks_view().len() ==> b.asks_view()[i].price < b.asks_view()[j].price,
        forall|s: Side, i: int| 0 <= i < b.side_view(s).len() ==> #[trigger] b.side_view(s)[i].orders.len() > 0,
{
    assert forall|i: int, j: int| 0 <= i < j < b.bids_view().len() implies b.bids_view()[i].price
        > b.bids_view()[j].price by {
        assert(sorted_levels(b.bids_view(), Side::Buy));
    }
    assert forall|i: int, j: int| 0 <= i < j < b.asks_view().len() implies b.asks_view()[i].price
        < b.asks_view()[j].price by {
        assert(sorted_levels(b.asks_view(), Side::Sell));
    }
    assert forall|s: Side, i: int| 0 <= i < b.side_view(s).len() implies #[trigger] b.side_view(s)[i].orders.len() > 0 by {
        assert(levels_ok(b.side_view(s)));
    }
}

/// An id in the directory names one order: the level at the entry's side and price holds it,
/// once, and no other level holds an order with that id.
pub proof fn lemma_directory_exact(b: OrderbookL3, j: int)
    requires
        b.wf(),
        0 <= j < b.order_id_map.len(),
    ensures
        holds_order(b.side_view(b.order_id_map@[j].side), b.order_id_map@[j].price, b.order_id_map@[j].id@),
        forall|s: Side, i: int, k: int|
            0 <= i < b.side_view(s).len() && 0 <= k < b.side_view(s)[i].orders.len()
                && (#[trigger] b.side_view(s)[i].orders[k]).id@ == b.order_id_map@[j].id@ ==> s
                == b.order_id_map@[j].side && b.side_view(s)[i].price == b.order_id_map@[j].price,
        forall|s: Side, i: int, k1: int, k2: int|
            0 <= i < b.side_view(s).len() && 0 <= k1 < b.side_view(s)[i].orders.len() && 0 <= k2
                < b.side_view(s)[i].orders.len() && (#[trigger] b.side_view(s)[i].orders[k1]).id@
                == b.order_id_map@[j].id@ && (#[trigger] b.side_view(s)[i].orders[k2]).id@
                == b.order_id_map@[j].id@ ==> k1 == k2,
{
    let e = b.order_id_map@[j];
    assert(holds_order(b.side_view(e.side), e.price, e.id@));
    assert forall|s: Side, i: int, k: int|
        0 <= i < b.side_view(s).len() && 0 <= k < b.side_view(s)[i].orders.len()
            && (#[trigger] b.side_view(s)[i].orders[k]).id@ == e.id@ implies s == e.side
        && b.side_view(s)[i].price == e.price by {
        let lv = b.side_view(s);
        lemma_holds_via_indexed(lv, b.order_id_map@, s, lv[i].price, e.id@);
        let j2 = choose|j2: int|
            0 <= j2 < b.order_id_map.len() && (#[trigger] b.order_id_map@[j2]).id@ == e.id@
                && b.order_id_map@[j2].side == s && b.order_id_map@[j2].price == lv[i].price;
        if j2 < j {
            assert(b.order_id_map@[j2].id@ != b.order_id_map@[j].id@);
        } else if j < j2 {
            assert(b.order_id_map@[j].id@ != b.order_id_map@[j2].id@);
        }
    }
    assert forall|s: Side, i: int, k1: int, k2: int|
        0 <= i < b.side_view(s).len() && 0 <= k1 < b.side_view(s)[i].orders.len() && 0 <= k2
            < b.side_view(s)[i].orders.len() && (#[trigger] b.side_view(s)[i].orders[k1]).id@
            == e.id@ && (#[trigger] b.side_view(s)[i].orders[k2]).id@ == e.id@ implies k1 == k2 by {
        assert(levels_ok(b.side_view(s)));
        if k1 < k2 {
            assert(b.side_view(s)[i].orders[k1].id@ != b.side_view(s)[i].orders[k2].id@);
        } else if k2 < k1 {
            assert(b.side_view(s)[i].orders[k2].id@ != b.side_view(s)[i].orders[k1].id@);
        }
    }
}

/// The bid count plus the ask count is the number of directory entries, which is also the
/// number of orders the merged iteration yields.
pub proof fn lemma_counts_agree(b: OrderbookL3)
    requires
        b.wf(),
    ensures
        count(b.bids_view()) + count(b.asks_view()) == b.order_id_map.len(),
        (tagged(orders_from_last(b.bids_view()), Side::Buy) + tagged(orders_of(b.asks_view()), Side::Sell)).len()
            == b.order_id_map.len(),
{
    lemma_orders_from_last_len(b.bids_view());
}

/// Opening an order and then, later in sequence, closing it leaves the levels, the directory
/// and the outlier records as they were before the order opened (an id that the outlier
/// filter had recorded is released by the opening, so it is left out here).
pub proof fn lemma_open_then_done(
    pre: OrderbookL3,
    mid: OrderbookL3,
    post: OrderbookL3,
    o: Order,
    s1: u64,
    s2: u64,
    r1: Result<(), OrderbookError>,
    r2: Result<(), OrderbookError>,
)
    requires
        pre.wf(),
        mid.wf(),
        applied(pre, OrderbookEvent::Open(o, s1), mid, r1),
        r1 is Ok,
        applied(mid, OrderbookEvent::Done(o.atomic().id, s2), post, r2),
        s2 > s1,
        !pre.is_recorded_outlier(o.atomic().id@),
    ensures
        r2 is Ok,
        same_orders(pre, post),
        forall|x: Seq<char>| #[trigger] post.is_recorded_outlier(x) == pre.is_recorded_outlier(x),
{
    let a = o.atomic();
    let s = o.side_spec();
    let id = a.id@;
    let e = IdEntry { id: a.id, side: s, price: a.price };
    let last = pre.order_id_map.len() as int;
    assert(mid.order_id_map@ == pre.order_id_map@.push(e));
    assert(mid.order_id_map@[last] == e);
    assert(has_id(mid.order_id_map@, id));
    let j = choose|j: int|
        0 <= j < mid.order_id_map.len() && (#[trigger] mid.order_id_map@[j]).id@ == id && {
            let e2 = mid.order_id_map@[j];
            &&& post.order_id_map@ == mid.order_id_map@.remove(j)
            &&& taken(mid.side_view(e2.side), post.side_view(e2.side), e2.price, id)
            &&& post.side_view(other(e2.side)) == mid.side_view(other(e2.side))
        };
    if j < last {
        assert(mid.order_id_map@[j].id@ != mid.order_id_map@[last].id@);
    }
    assert(j == last);
    assert(post.order_id_map@ =~= pre.order_id_map@);
    let old_v = pre.side_view(s);
    let mid_v = mid.side_view(s);
    let (i, k) = choose|i: int, k: int|
        0 <= i < mid_v.len() && 0 <= k < mid_v[i].orders.len() && mid_v[i].price == a.price
            && (#[trigger] mid_v[i].orders[k]).id@ == id && post.side_view(s) == without_order(mid_v, i, k);
    assert(levels_ok(mid_v));
    assert(levels_ok(old_v));
    if exists|i0: int|
        0 <= i0 < old_v.len() && (#[trigger] old_v[i0]).price == a.price && mid_v == old_v.update(
            i0,
            Level { price: a.price, orders: old_v[i0].orders.push(a) },
        ) {
        let i0 = choose|i0: int|
            0 <= i0 < old_v.len() && (#[trigger] old_v[i0]).price == a.price && mid_v == old_v.update(
                i0,
                Level { price: a.price, orders: old_v[i0].orders.push(a) },
            );
        lemma_price_names_level(mid_v, s, i, i0);
        let n0 = old_v[i0].orders.len() as int;
        assert(mid_v[i0].orders[n0] == a);
        if k < n0 {
            assert(mid_v[i0].orders[k].id@ != mid_v[i0].orders[n0].id@);
        }
        assert(k == n0);
        assert(old_v[i0].orders.len() > 0);
        assert(mid_v[i0].orders.remove(k) =~= old_v[i0].orders);
        assert(post.side_view(s) =~= old_v);
    } else {
        let pos = choose|pos: int|
            0 <= pos <= old_v.len() && mid_v == old_v.insert(pos, Level { price: a.price, orders: seq![a] })
                && sorted_levels(mid_v, s);
        assert(mid_v[pos].price == a.price);
        lemma_price_names_level(mid_v, s, i, pos);
        assert(mid_v.remove(pos) =~= old_v);
    }
    assert(post.side_view(other(s)) == pre.side_view(other(s)));
    if s == Side::Buy {
        assert(post.bids_view() == pre.bids_view());
        assert(post.asks_view() == pre.asks_view());
    } else {
        assert(post.asks_view() == pre.asks_view());
        assert(post.bids_view() == pre.bids_view());
    }
    assert forall|x: Seq<char>| #[trigger] post.is_recorded_outlier(x) == pre.is_recorded_outlier(x) by {
        assert(mid.is_recorded_outlier(x) == (pre.is_recorded_outlier(x) && x != id));
    }
}

/// Applying an accepted event a second time is refused as out of sequence and changes
/// nothing.
pub proof fn lemma_replay_refused(
    pre: OrderbookL3,
    mid: OrderbookL3,
    post: OrderbookL3,
    event: OrderbookEvent,
    r1: Result<(), OrderbookError>,
    r2: Result<(), OrderbookError>,
)
    requires
        pre.wf(),
        applied(pre, event, mid, r1),
        r1 is Ok || r1 == Err::<(), OrderbookError>(OrderbookError::Outlier),
        applied(mid, event, post, r2),
    ensures
        r2 == Err::<(), OrderbookError>(OrderbookError::OutOfSequence(event)),
        same_orders(mid, post),
        post.outlier_filter == mid.outlier_filter,
        post.last_sequence == mid.last_sequence,
{
}

/// Setting an order's size twice to the same value leaves the book as the first change left
/// it.
pub proof fn lemma_change_idempotent(
    pre: OrderbookL3,
    mid: OrderbookL3,
    post: OrderbookL3,
    id: String,
    size: u64,
    s1: u64,
    s2: u64,
    r1: Result<(), OrderbookError>,
    r2: Result<(), OrderbookError>,
)
    requires
        pre.wf(),
        mid.wf(),
        applied(pre, OrderbookEvent::Change(id, size, s1), mid, r1),
        r1 is Ok,
        applied(mid, OrderbookEvent::Change(id, size, s2), post, r2),
        s2 > s1,
    ensures
        r2 is Ok,
        same_orders(mid, post),
{
    let j1 = choose|j: int|
        0 <= j < pre.order_id_map.len() && (#[trigger] pre.order_id_map@[j]).id@ == id@ && {
            let e = pre.order_id_map@[j];
            &&& resized(pre.side_view(e.side), mid.side_view(e.side), e.price, id@, size)
            &&& mid.side_view(other(e.side)) == pre.side_view(other(e.side))
        };
    let e = pre.order_id_map@[j1];
    assert(mid.order_id_map@[j1] == e);
    assert(has_id(mid.order_id_map@, id@));
    let j2 = choose|j: int|
        0 <= j < mid.order_id_map.len() && (#[trigger] mid.order_id_map@[j]).id@ == id@ && {
            let e2 = mid.order_id_map@[j];
            &&& resized(mid.side_view(e2.side), post.side_view(e2.side), e2.price, id@, size)
            &&& post.side_view(other(e2.side)) == mid.side_view(other(e2.side))
        };
    if j1 < j2 {
        assert(mid.order_id_map@[j1].id@ != mid.order_id_map@[j2].id@);
    } else if j2 < j1 {
        assert(mid.order_id_map@[j2].id@ != mid.order_id_map@[j1].id@);
    }
    let s = e.side;
    let old_v = pre.side_view(s);
    let mid_v = mid.side_view(s);
    let (i1, k1) = choose|i: int, k: int|
        0 <= i < old_v.len() && 0 <= k < old_v[i].orders.len() && old_v[i].price == e.price
            && (#[trigger] old_v[i].orders[k]).id@ == id@ && mid_v == old_v.update(
            i,
            Level { price: e.price, orders: old_v[i].orders.update(k, with_size(old_v[i].orders[k], size)) },
        );
    let (i2, k2) = choose|i: int, k: int|
        0 <= i < mid_v.len() && 0 <= k < mid_v[i].orders.len() && mid_v[i].price == e.price
            && (#[trigger] mid_v[i].orders[k]).id@ == id@ && post.side_view(s) == mid_v.update(
            i,
            Level { price: e.price, orders: mid_v[i].orders.update(k, with_size(mid_v[i].orders[k], size)) },
        );
    assert(mid_v[i1].price == e.price);
    lemma_price_names_level(mid_v, s, i1, i2);
    assert(mid_v[i1].orders[k1].id@ == id@);
    assert(levels_ok(mid_v));
    if k1 < k2 {
        assert(mid_v[i1].orders[k1].id@ != mid_v[i1].orders[k2].id@);
    } else if k2 < k1 {
        assert(mid_v[i1].orders[k2].id@ != mid_v[i1].orders[k1].id@);
    }
    assert(with_size(mid_v[i1].orders[k1], size) == mid_v[i1].orders[k1]);
    assert(mid_v[i1].orders.update(k1, mid_v[i1].orders[k1]) =~= mid_v[i1].orders);
    assert(post.side_view(s) =~= mid_v);
    if s == Side::Buy {
        assert(post.bids_view() == mid.bids_view());
        assert(post.asks_view() == mid.asks_view());
    } else {
        assert(post.asks_view() == mid.asks_view());
        assert(post.bids_view() == mid.bids_view());
    }
}

/// A `Done` or `Change` for an id that neither the directory nor the outlier filter knows
/// changes nothing and does not advance the sequence; in sequence it is refused as not found.
pub proof fn lemma_unknown_id_refused(
    pre: OrderbookL3,
    event: OrderbookEvent,
    post: OrderbookL3,
    r: Result<(), OrderbookError>,
)
    requires
        pre.wf(),
        applied(pre, event, post, r),
        match event {
            OrderbookEvent::Done(id, _) => !has_id(pre.order_id_map@, id@)
                && !pre.is_recorded_outlier(id@),
            OrderbookEvent::Change(id, _, _) => !has_id(pre.order_id_map@, id@)
                && !pre.is_recorded_outlier(id@),
            _ => false,
        },
    ensures
        post.last_sequence == pre.last_sequence,
        same_orders(pre, post),
        event.sequence_spec() > pre.last_sequence ==> match event {
            OrderbookEvent::Done(id, _) => r == Err::<(), OrderbookError>(
                OrderbookError::OrderNotFoundInMap(id),
            ),
            OrderbookEvent::Change(id, _, _) => r == Err::<(), OrderbookError>(
                OrderbookError::OrderNotFoundInMap(id),
            ),
            _ => true,
        },
{
}

/// Opening an id that the book already holds is refused, changes nothing and does not
/// advance the sequence.
pub proof fn lemma_duplicate_open_refused(
    pre: OrderbookL3,
    o: Order,
    seq: u64,
    post: OrderbookL3,
    r: Result<(), OrderbookError>,
)
    requires
        pre.wf(),
        applied(pre, OrderbookEvent::Open(o, seq), post, r),
        has_id(pre.order_id_map@, o.atomic().id@),
    ensures
        same_orders(pre, post),
        post.last_sequence == pre.last_sequence,
        seq > pre.last_sequence ==> r == Err::<(), OrderbookError>(
            OrderbookError::DuplicateOrderId(o.atomic().id),
        ),
{
}

/// An order refused as an outlier advances the sequence and is recorded; a later `Done` for
/// its id is answered as an outlier, advances the sequence and releases the id.
pub proof fn lemma_outlier_then_done(
    pre: OrderbookL3,
    b1: OrderbookL3,
    b2: OrderbookL3,
    o: Order,
    s1: u64,
    s2: u64,
    r1: Result<(), OrderbookError>,
    r2: Result<(), OrderbookError>,
)
    requires
        pre.wf(),
        applied(pre, OrderbookEvent::Open(o, s1), b1, r1),
        r1 == Err::<(), OrderbookError>(OrderbookError::Outlier),
        applied(b1, OrderbookEvent::Done(o.atomic().id, s2), b2, r2),
        s2 > s1,
    ensures
        b1.last_sequence == s1,
        b1.is_recorded_outlier(o.atomic().id@),
        same_orders(pre, b1),
        r2 == Err::<(), OrderbookError>(OrderbookError::Outlier),
        b2.last_sequence == s2,
        !b2.is_recorded_outlier(o.atomic().id@),
        same_orders(b1, b2),
{
    assert(!has_id(b1.order_id_map@, o.atomic().id@));
}

/// An order refused as an outlier is recorded; a later `Change` for its id is answered as an
/// outlier, advances the sequence and keeps the id recorded.
pub proof fn lemma_outlier_then_change(
    pre: OrderbookL3,
    b1: OrderbookL3,
    b2: OrderbookL3,
    o: Order,
    s1: u64,
    size: u64,
    s2: u64,
    r1: Result<(), OrderbookError>,
    r2: Result<(), OrderbookError>,
)
    requires
        pre.wf(),
        applied(pre, OrderbookEvent::Open(o, s1), b1, r1),
        r1 == Err::<(), OrderbookError>(OrderbookError::Outlier),
        applied(b1, OrderbookEvent::Change(o.atomic().id, size, s2), b2, r2),
        s2 > s1,
    ensures
        r2 == Err::<(), OrderbookError>(OrderbookError::Outlier),
        b2.last_sequence == s2,
        b2.is_recorded_outlier(o.atomic().id@),
        same_orders(b1, b2),
{
    assert(!has_id(b1.order_id_map@, o.atomic().id@));
}

} // verus!
