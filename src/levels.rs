use vstd::prelude::*;

use crate::deque::{
    better, count, find_level, lemma_count_insert, lemma_count_remove, lemma_count_update,
    levels_ok, levels_view, sorted_levels, Level, OrderDeque,
};
use crate::types::{AtomicOrder, Side};

verus! {

/// The level at `price` holds an order with id `id`.
pub open spec fn holds_order(levels: Seq<Level>, price: u64, id: Seq<char>) -> bool {
    exists|i: int, k: int|
        0 <= i < levels.len() && 0 <= k < levels[i].orders.len() && levels[i].price == price
            && (#[trigger] levels[i].orders[k]).id@ == id
}

/// No level holds an order with id `id`.
pub open spec fn id_absent(levels: Seq<Level>, id: Seq<char>) -> bool {
    forall|i: int, k: int|
        0 <= i < levels.len() && 0 <= k < levels[i].orders.len() ==> (#[trigger] levels[i].orders[k]).id@
            != id
}

/// `new` is `old` with `o` appended to the level at its price, or with a new level for it
/// placed where the levels stay sorted.
pub open spec fn placed(old: Seq<Level>, new: Seq<Level>, side: Side, o: AtomicOrder) -> bool {
    ||| exists|i: int|
        0 <= i < old.len() && (#[trigger] old[i]).price == o.price && new == old.update(
            i,
            Level { price: o.price, orders: old[i].orders.push(o) },
        )
    ||| (forall|i: int| 0 <= i < old.len() ==> (#[trigger] old[i]).price != o.price) && exists|pos: int|
        0 <= pos <= old.len() && new == old.insert(pos, Level { price: o.price, orders: seq![o] })
            && sorted_levels(new, side)
}

/// `old` without the `k`-th order of its `i`-th level, dropping the level if it empties.
pub open spec fn without_order(old: Seq<Level>, i: int, k: int) -> Seq<Level> {
    if old[i].orders.len() == 1 {
        old.remove(i)
    } else {
        old.update(i, Level { price: old[i].price, orders: old[i].orders.remove(k) })
    }
}

/// `new` is `old` without the order `id` of the level at `price`.
pub open spec fn taken(old: Seq<Level>, new: Seq<Level>, price: u64, id: Seq<char>) -> bool {
    exists|i: int, k: int|
        0 <= i < old.len() && 0 <= k < old[i].orders.len() && old[i].price == price
            && (#[trigger] old[i].orders[k]).id@ == id && new == without_order(old, i, k)
}

/// `o` with its size replaced.
pub open spec fn with_size(o: AtomicOrder, size: u64) -> AtomicOrder {
    AtomicOrder { id: o.id, price: o.price, size }
}

/// `new` is `old` with the size of order `id` of the level at `price` set to `size`.
pub open spec fn resized(old: Seq<Level>, new: Seq<Level>, price: u64, id: Seq<char>, size: u64) -> bool {
    exists|i: int, k: int|
        0 <= i < old.len() && 0 <= k < old[i].orders.len() && old[i].price == price
            && (#[trigger] old[i].orders[k]).id@ == id && new == old.update(
            i,
            Level { price, orders: old[i].orders.update(k, with_size(old[i].orders[k], size)) },
        )
}

/// On sorted levels a price names at most one level.
pub proof fn lemma_price_names_level(levels: Seq<Level>, side: Side, i1: int, i2: int)
    requires
        sorted_levels(levels, side),
        0 <= i1 < levels.len(),
        0 <= i2 < levels.len(),
        levels[i1].price == levels[i2].price,
    ensures
        i1 == i2,
{
    if i1 < i2 {
        assert(better(side, levels[i1].price, levels[i2].price));
    } else if i2 < i1 {
        assert(better(side, levels[i2].price, levels[i1].price));
    }
}

/// Appends `order` to the level at its price, making that level if there is none.
pub fn place_order(levels: &mut Vec<OrderDeque>, side: Side, order: AtomicOrder)
    requires
        sorted_levels(levels_view(old(levels)@), side),
        levels_ok(levels_view(old(levels)@)),
        id_absent(levels_view(old(levels)@), order.id@),
    ensures
        placed(levels_view(old(levels)@), levels_view(final(levels)@), side, order),
        sorted_levels(levels_view(final(levels)@), side),
        levels_ok(levels_view(final(levels)@)),
        count(levels_view(final(levels)@)) == count(levels_view(old(levels)@)) + 1,
        forall|p: u64, id: Seq<char>|
            #[trigger] holds_order(levels_view(final(levels)@), p, id) == (holds_order(
                levels_view(old(levels)@),
                p,
                id,
            ) || (p == order.price && id == order.id@)),
{
    let ghost old_v = levels_view(levels@);
    let ghost o = order;
    match find_level(levels, side, order.price) {
        Ok(i) => {
            let lvl = &mut levels[i];
            lvl.push_back(order);
            let ghost new_v = levels_view(levels@);
            let ghost l = Level { price: o.price, orders: old_v[i as int].orders.push(o) };
            assert(new_v =~= old_v.update(i as int, l));
            proof {
                lemma_count_update(old_v, i as int, l);
                assert forall|a: int, b: int| 0 <= a < b < new_v.len() implies better(
                    side,
                    #[trigger] new_v[a].price,
                    #[trigger] new_v[b].price,
                ) by {
                    assert(new_v[a].price == old_v[a].price && new_v[b].price == old_v[b].price);
                }
                assert(levels_ok(new_v)) by {
                    assert forall|a: int| 0 <= a < new_v.len() implies {
                        &&& (#[trigger] new_v[a]).orders.len() > 0
                        &&& forall|k: int|
                            0 <= k < new_v[a].orders.len() ==> (#[trigger] new_v[a].orders[k]).price
                                == new_v[a].price
                        &&& forall|k1: int, k2: int|
                            0 <= k1 < k2 < new_v[a].orders.len() ==> (#[trigger] new_v[a].orders[k1]).id@
                                != (#[trigger] new_v[a].orders[k2]).id@
                    } by {
                        if a == i {
                            assert forall|k1: int, k2: int|
                                0 <= k1 < k2 < new_v[a].orders.len() implies (#[trigger] new_v[a].orders[k1]).id@
                                    != (#[trigger] new_v[a].orders[k2]).id@ by {
                                if k2 == old_v[a].orders.len() {
                                    assert(old_v[a].orders[k1] == new_v[a].orders[k1]);
                                } else {
                                    assert(old_v[a].orders[k1] == new_v[a].orders[k1]);
                                    assert(old_v[a].orders[k2] == new_v[a].orders[k2]);
                                }
                            }
                        }
                    }
                }
                assert forall|p: u64, id: Seq<char>|
                    #[trigger] holds_order(new_v, p, id) == (holds_order(old_v, p, id) || (p == o.price
                        && id == o.id@)) by {
                    if holds_order(old_v, p, id) {
                        let (a, k) = choose|a: int, k: int|
                            0 <= a < old_v.len() && 0 <= k < old_v[a].orders.len() && old_v[a].price
                                == p && (#[trigger] old_v[a].orders[k]).id@ == id;
                        assert(new_v[a].orders[k] == old_v[a].orders[k]);
                    }
                    if p == o.price && id == o.id@ {
                        assert(new_v[i as int].orders[old_v[i as int].orders.len() as int] == o);
                    }
                    if holds_order(new_v, p, id) {
                        let (a, k) = choose|a: int, k: int|
                            0 <= a < new_v.len() && 0 <= k < new_v[a].orders.len() && new_v[a].price
                                == p && (#[trigger] new_v[a].orders[k]).id@ == id;
                        if a != i || k < old_v[a].orders.len() {
                            assert(new_v[a].orders[k] == old_v[a].orders[k]);
                        }
                    }
                }
            }
        },
        Err(pos) => {
            let ghost l = Level { price: o.price, orders: seq![o] };
            levels.insert(pos, OrderDeque::build(order));
            let ghost new_v = levels_view(levels@);
            assert(new_v =~= old_v.insert(pos as int, l));
            proof {
                lemma_count_insert(old_v, pos as int, l);
                assert forall|a: int, b: int| 0 <= a < b < new_v.len() implies better(
                    side,
                    #[trigger] new_v[a].price,
                    #[trigger] new_v[b].price,
                ) by {
                    if b < pos {
                        assert(new_v[a] == old_v[a] && new_v[b] == old_v[b]);
                    } else if b == pos {
                        assert(new_v[a] == old_v[a]);
                        assert(old_v[a].price == levels@[a].price);
                    } else if a < pos {
                        assert(new_v[a] == old_v[a] && new_v[b] == old_v[b - 1]);
                    } else if a == pos {
                        assert(new_v[b] == old_v[b - 1]);
                        assert(old_v[b - 1].price == old(levels)@[b - 1].price);
                    } else {
                        assert(new_v[a] == old_v[a - 1] && new_v[b] == old_v[b - 1]);
                    }
                }
                assert(levels_ok(new_v)) by {
                    assert forall|a: int| 0 <= a < new_v.len() implies {
                        &&& (#[trigger] new_v[a]).orders.len() > 0
                        &&& forall|k: int|
                            0 <= k < new_v[a].orders.len() ==> (#[trigger] new_v[a].orders[k]).price
                                == new_v[a].price
                        &&& forall|k1: int, k2: int|
                            0 <= k1 < k2 < new_v[a].orders.len() ==> (#[trigger] new_v[a].orders[k1]).id@
                                != (#[trigger] new_v[a].orders[k2]).id@
                    } by {
                        if a < pos {
                            assert(new_v[a] == old_v[a]);
                        } else if a > pos {
                            assert(new_v[a] == old_v[a - 1]);
                        }
                    }
                }
                assert forall|a: int| 0 <= a < old_v.len() implies (#[trigger] old_v[a]).price != o.price by {
                    assert(old_v[a].price == old(levels)@[a].price);
                }
                assert forall|p: u64, id: Seq<char>|
                    #[trigger] holds_order(new_v, p, id) == (holds_order(old_v, p, id) || (p == o.price
                        && id == o.id@)) by {
                    if holds_order(old_v, p, id) {
                        let (a, k) = choose|a: int, k: int|
                            0 <= a < old_v.len() && 0 <= k < old_v[a].orders.len() && old_v[a].price
                                == p && (#[trigger] old_v[a].orders[k]).id@ == id;
                        if a < pos {
                            assert(new_v[a].orders[k] == old_v[a].orders[k]);
                        } else {
                            assert(new_v[a + 1].orders[k] == old_v[a].orders[k]);
                        }
                    }
                    if p == o.price && id == o.id@ {
                        assert(new_v[pos as int].orders[0] == o);
                    }
                    if holds_order(new_v, p, id) {
                        let (a, k) = choose|a: int, k: int|
                            0 <= a < new_v.len() && 0 <= k < new_v[a].orders.len() && new_v[a].price
                                == p && (#[trigger] new_v[a].orders[k]).id@ == id;
                        if a < pos {
                            assert(new_v[a].orders[k] == old_v[a].orders[k]);
                        } else if a > pos {
                            assert(new_v[a].orders[k] == old_v[a - 1].orders[k]);
                        }
                    }
                }
            }
        },
    }
}

/// Removes the `k`-th order of the `i`-th level, and the level too if it empties.
pub fn remove_order_at(levels: &mut Vec<OrderDeque>, side: Side, i: usize, k: usize)
    requires
        sorted_levels(levels_view(old(levels)@), side),
        levels_ok(levels_view(old(levels)@)),
        i < old(levels).len(),
        k < old(levels)@[i as int].deque.len(),
    ensures
        levels_view(final(levels)@) == without_order(levels_view(old(levels)@), i as int, k as int),
        sorted_levels(levels_view(final(levels)@), side),
        levels_ok(levels_view(final(levels)@)),
        count(levels_view(final(levels)@)) == count(levels_view(old(levels)@)) - 1,
        forall|p: u64, id: Seq<char>|
            #[trigger] holds_order(levels_view(final(levels)@), p, id) == (holds_order(
                levels_view(old(levels)@),
                p,
                id,
            ) && !(p == old(levels)@[i as int].price && id == old(levels)@[i as int].deque@[k as int].id@)),
{
    let ghost old_v = levels_view(levels@);
    let ghost p0 = old_v[i as int].price;
    let ghost id0 = old_v[i as int].orders[k as int].id@;
    let lvl = &mut levels[i];
    let _ = lvl.remove(k);
    let emptied = levels[i].deque.len() == 0;
    if emptied {
        levels.remove(i);
    }
    let ghost new_v = levels_view(levels@);
    let ghost ii = i as int;
    let ghost kk = k as int;
    proof {
        if emptied {
            assert(new_v =~= old_v.remove(ii));
            lemma_count_remove(old_v, ii);
        } else {
            let l = Level { price: p0, orders: old_v[ii].orders.remove(kk) };
            assert(new_v =~= old_v.update(ii, l));
            lemma_count_update(old_v, ii, l);
        }
        assert(new_v == without_order(old_v, ii, kk));
        // positions of `new_v` in `old_v`
        assert forall|a: int, b: int| 0 <= a < b < new_v.len() implies better(
            side,
            #[trigger] new_v[a].price,
            #[trigger] new_v[b].price,
        ) by {
            if emptied {
                let a2 = if a < ii { a } else { a + 1 };
                let b2 = if b < ii { b } else { b + 1 };
                assert(new_v[a] == old_v[a2] && new_v[b] == old_v[b2]);
            } else {
                assert(new_v[a].price == old_v[a].price && new_v[b].price == old_v[b].price);
            }
        }
        assert(levels_ok(new_v)) by {
            assert forall|a: int| 0 <= a < new_v.len() implies {
                &&& (#[trigger] new_v[a]).orders.len() > 0
                &&& forall|k: int|
                    0 <= k < new_v[a].orders.len() ==> (#[trigger] new_v[a].orders[k]).price
                        == new_v[a].price
                &&& forall|k1: int, k2: int|
                    0 <= k1 < k2 < new_v[a].orders.len() ==> (#[trigger] new_v[a].orders[k1]).id@
                        != (#[trigger] new_v[a].orders[k2]).id@
            } by {
                if emptied {
                    let a2 = if a < ii { a } else { a + 1 };
                    assert(new_v[a] == old_v[a2]);
                } else if a != ii {
                    assert(new_v[a] == old_v[a]);
                } else {
                    assert forall|c: int| 0 <= c < new_v[a].orders.len() implies (#[trigger] new_v[a].orders[c]).price
                        == new_v[a].price by {
                        let c2 = if c < kk { c } else { c + 1 };
                        assert(new_v[a].orders[c] == old_v[a].orders[c2]);
                    }
                    assert forall|k1: int, k2: int|
                        0 <= k1 < k2 < new_v[a].orders.len() implies (#[trigger] new_v[a].orders[k1]).id@
                            != (#[trigger] new_v[a].orders[k2]).id@ by {
                        let c1 = if k1 < kk { k1 } else { k1 + 1 };
                        let c2 = if k2 < kk { k2 } else { k2 + 1 };
                        assert(new_v[a].orders[k1] == old_v[a].orders[c1]);
                        assert(new_v[a].orders[k2] == old_v[a].orders[c2]);
                    }
                }
            }
        }
        assert forall|p: u64, id: Seq<char>|
            #[trigger] holds_order(new_v, p, id) == (holds_order(old_v, p, id) && !(p == p0 && id == id0)) by {
            if holds_order(new_v, p, id) {
                let (a, b) = choose|a: int, b: int|
                    0 <= a < new_v.len() && 0 <= b < new_v[a].orders.len() && new_v[a].price == p
                        && (#[trigger] new_v[a].orders[b]).id@ == id;
                let (a2, b2) = if emptied {
                    (if a < ii { a } else { a + 1 }, b)
                } else if a != ii {
                    (a, b)
                } else {
                    (a, if b < kk { b } else { b + 1 })
                };
                assert(new_v[a].orders[b] == old_v[a2].orders[b2]);
                assert(new_v[a].price == old_v[a2].price);
                if p == p0 {
                    lemma_price_names_level(old_v, side, a2, ii);
                    assert(b2 != kk);
                    if b2 < kk {
                        assert(old_v[ii].orders[b2].id@ != old_v[ii].orders[kk].id@);
                    } else {
                        assert(old_v[ii].orders[kk].id@ != old_v[ii].orders[b2].id@);
                    }
                }
            }
            if holds_order(old_v, p, id) && !(p == p0 && id == id0) {
                let (a, b) = choose|a: int, b: int|
                    0 <= a < old_v.len() && 0 <= b < old_v[a].orders.len() && old_v[a].price == p
                        && (#[trigger] old_v[a].orders[b]).id@ == id;
                assert(a != ii || b != kk);
                if emptied {
                    assert(a != ii);
                    let a2 = if a < ii { a } else { a - 1 };
                    assert(new_v[a2].orders[b] == old_v[a].orders[b]);
                } else if a != ii {
                    assert(new_v[a].orders[b] == old_v[a].orders[b]);
                } else {
                    let b2 = if b < kk { b } else { b - 1 };
                    assert(new_v[a].orders[b2] == old_v[a].orders[b]);
                }
            }
        }
    }
}

/// Sets the size of the `k`-th order of the `i`-th level.
pub fn resize_order_at(levels: &mut Vec<OrderDeque>, side: Side, i: usize, k: usize, size: u64)
    requires
        sorted_levels(levels_view(old(levels)@), side),
        levels_ok(levels_view(old(levels)@)),
        i < old(levels).len(),
        k < old(levels)@[i as int].deque.len(),
    ensures
        levels_view(final(levels)@) == levels_view(old(levels)@).update(
            i as int,
            Level {
                price: old(levels)@[i as int].price,
                orders: old(levels)@[i as int].deque@.update(
                    k as int,
                    with_size(old(levels)@[i as int].deque@[k as int], size),
                ),
            },
        ),
        sorted_levels(levels_view(final(levels)@), side),
        levels_ok(levels_view(final(levels)@)),
        count(levels_view(final(levels)@)) == count(levels_view(old(levels)@)),
        forall|p: u64, id: Seq<char>|
            #[trigger] holds_order(levels_view(final(levels)@), p, id) == holds_order(
                levels_view(old(levels)@),
                p,
                id,
            ),
{
    let ghost old_v = levels_view(levels@);
    let ghost ii = i as int;
    let ghost kk = k as int;
    let lvl = &mut levels[i];
    let mut o = lvl.deque[k].copied();
    o.size = size;
    lvl.deque.set(k, o);
    let ghost new_v = levels_view(levels@);
    let ghost l = Level {
        price: old_v[ii].price,
        orders: old_v[ii].orders.update(kk, with_size(old_v[ii].orders[kk], size)),
    };
    proof {
        assert(new_v =~= old_v.update(ii, l));
        lemma_count_update(old_v, ii, l);
        assert forall|a: int, b: int| 0 <= a < b < new_v.len() implies better(
            side,
            #[trigger] new_v[a].price,
            #[trigger] new_v[b].price,
        ) by {
            assert(new_v[a].price == old_v[a].price && new_v[b].price == old_v[b].price);
        }
        assert(levels_ok(new_v)) by {
            assert forall|a: int| 0 <= a < new_v.len() implies {
                &&& (#[trigger] new_v[a]).orders.len() > 0
                &&& forall|k: int|
                    0 <= k < new_v[a].orders.len() ==> (#[trigger] new_v[a].orders[k]).price
                        == new_v[a].price
                &&& forall|k1: int, k2: int|
                    0 <= k1 < k2 < new_v[a].orders.len() ==> (#[trigger] new_v[a].orders[k1]).id@
                        != (#[trigger] new_v[a].orders[k2]).id@
            } by {
                if a != ii {
                    assert(new_v[a] == old_v[a]);
                } else {
                    assert forall|c: int| 0 <= c < new_v[a].orders.len() implies (#[trigger] new_v[a].orders[c]).price
                        == new_v[a].price by {
                        assert(new_v[a].orders[c].price == old_v[a].orders[c].price);
                    }
                    assert forall|k1: int, k2: int|
                        0 <= k1 < k2 < new_v[a].orders.len() implies (#[trigger] new_v[a].orders[k1]).id@
                            != (#[trigger] new_v[a].orders[k2]).id@ by {
                        assert(new_v[a].orders[k1].id == old_v[a].orders[k1].id);
                        assert(new_v[a].orders[k2].id == old_v[a].orders[k2].id);
                    }
                }
            }
        }
        assert forall|p: u64, id: Seq<char>|
            #[trigger] holds_order(new_v, p, id) == holds_order(old_v, p, id) by {
            if holds_order(new_v, p, id) {
                let (a, b) = choose|a: int, b: int|
                    0 <= a < new_v.len() && 0 <= b < new_v[a].orders.len() && new_v[a].price == p
                        && (#[trigger] new_v[a].orders[b]).id@ == id;
                assert(new_v[a].orders[b].id == old_v[a].orders[b].id);
            }
            if holds_order(old_v, p, id) {
                let (a, b) = choose|a: int, b: int|
                    0 <= a < old_v.len() && 0 <= b < old_v[a].orders.len() && old_v[a].price == p
                        && (#[trigger] old_v[a].orders[b]).id@ == id;
                assert(new_v[a].orders[b].id == old_v[a].orders[b].id);
            }
        }
    }
}

} // verus!
