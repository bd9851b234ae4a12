use vstd::prelude::*;

use crate::book::OrderbookL3;
use crate::types::Market;

verus! {

/// Two market identities name the same market.
pub open spec fn same_market(a: Market, b: Market) -> bool {
    a.exchange@ == b.exchange@ && a.instrument@ == b.instrument@
}

/// The books of many markets, at most one per market.
#[derive(Debug)]
pub struct OrderbookMap {
    pub map: Vec<OrderbookL3>,
}

impl OrderbookMap {
    /// No market holds two books.
    pub open spec fn wf(&self) -> bool {
        forall|i: int, j: int|
            0 <= i < j < self.map.len() ==> !same_market(
                (#[trigger] self.map@[i]).market,
                (#[trigger] self.map@[j]).market,
            )
    }

    /// Index of the book of `market`.
    fn position(&self, market: &Market) -> (r: Option<usize>)
        ensures
            match r {
                Some(i) => i < self.map.len() && same_market(self.map@[i as int].market, *market),
                None => forall|i: int|
                    0 <= i < self.map.len() ==> !same_market(#[trigger] self.map@[i].market, *market),
            },
    {
        let mut i: usize = 0;
        while i < self.map.len()
            invariant
                i <= self.map.len(),
                forall|j: int| 0 <= j < i ==> !same_market(#[trigger] self.map@[j].market, *market),
            decreases self.map.len() - i,
        {
            if self.map[i].market.same_as(market) {
                return Some(i);
            }
            i = i + 1;
        }
        None
    }

    pub fn new() -> (r: Self)
        ensures
            r.wf(),
            r.map@.len() == 0,
    {
        OrderbookMap { map: Vec::new() }
    }

    /// Files `orderbook` under its market, replacing the book held for that market.
    pub fn insert(&mut self, orderbook: OrderbookL3)
        requires
            old(self).wf(),
        ensures
            final(self).wf(),
            match old(self).position_spec(orderbook.market) {
                Some(i) => final(self).map@ == old(self).map@.update(i, orderbook),
                None => final(self).map@ == old(self).map@.push(orderbook),
            },
    {
        let ghost b = orderbook;
        match self.position(&orderbook.market) {
            Some(i) => {
                self.map.set(i, orderbook);
                assert forall|a: int, c: int|
                    0 <= a < c < self.map.len() implies !same_market(
                    (#[trigger] self.map@[a]).market,
                    (#[trigger] self.map@[c]).market,
                ) by {
                    if a == i {
                        assert(!same_market(old(self).map@[a].market, old(self).map@[c].market));
                    } else if c == i {
                        assert(!same_market(old(self).map@[a].market, old(self).map@[c].market));
                    }
                }
                assert(old(self).position_spec(b.market) == Some(i as int)) by {
                    self.lemma_position_unique(old(self), b.market, i as int);
                }
            },
            None => {
                self.map.push(orderbook);
                assert forall|a: int, c: int|
                    0 <= a < c < self.map.len() implies !same_market(
                    (#[trigger] self.map@[a]).market,
                    (#[trigger] self.map@[c]).market,
                ) by {
                    if c == self.map.len() - 1 {
                        assert(!same_market(old(self).map@[a].market, b.market));
                    } else {
                        assert(self.map@[a] == old(self).map@[a] && self.map@[c] == old(self).map@[c]);
                    }
                }
            },
        }
    }

    /// The index of the book of `market`, if there is one.
    pub open spec fn position_spec(&self, market: Market) -> Option<int> {
        if exists|i: int| 0 <= i < self.map.len() && same_market(#[trigger] self.map@[i].market, market) {
            Some(choose|i: int| 0 <= i < self.map.len() && same_market(#[trigger] self.map@[i].market, market))
        } else {
            None
        }
    }

    proof fn lemma_position_unique(&self, m: &OrderbookMap, market: Market, i: int)
        requires
            m.wf(),
            0 <= i < m.map.len(),
            same_market(m.map@[i].market, market),
        ensures
            m.position_spec(market) == Some(i),
    {
        let c = choose|c: int| 0 <= c < m.map.len() && same_market(#[trigger] m.map@[c].market, market);
        if c < i {
            assert(!same_market(m.map@[c].market, m.map@[i].market));
        } else if i < c {
            assert(!same_market(m.map@[i].market, m.map@[c].market));
        }
    }

    /// The book of `market`.
    pub fn get(&self, market: &Market) -> (r: Option<&OrderbookL3>)
        requires
            self.wf(),
        ensures
            match self.position_spec(*market) {
                Some(i) => r == Some(&self.map@[i]),
                None => r is None,
            },
    {
        match self.position(market) {
            Some(i) => {
                proof {
                    self.lemma_position_unique(self, *market, i as int);
                }
                Some(&self.map[i])
            },
            None => None,
        }
    }

    /// The book of `market`, to change in place.
    pub fn get_mut(&mut self, market: &Market) -> (r: Option<&mut OrderbookL3>)
        requires
            old(self).wf(),
        ensures
            match old(self).position_spec(*market) {
                Some(i) => r is Some && *r.unwrap() == old(self).map@[i] && final(self).map@ == old(
                    self,
                ).map@.update(i, *final(r.unwrap())),
                None => r is None && *final(self) == *old(self),
            },
    {
        match self.position(market) {
            Some(i) => {
                proof {
                    self.lemma_position_unique(self, *market, i as int);
                }
                Some(&mut self.map[i])
            },
            None => None,
        }
    }
}

} // verus!
