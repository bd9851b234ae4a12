use vstd::prelude::*;

use crate::types::{Order, OrderbookError, Side};

verus! {

/// Outlier factors are given in millionths: a factor of `OUTLIER_FACTOR_SCALE` stands for 1.
pub const OUTLIER_FACTOR_SCALE: u64 = 1_000_000;

/// A deviation of one half from the top of the book.
pub const DEFAULT_OUTLIER_FACTOR: u64 = 500_000;

/// An order on `side` at `price` lies beyond the allowed deviation `factor` (in millionths)
/// from the top of the book; a zero best price on the order's side means no bound.
pub open spec fn is_outlier(factor: u64, side: Side, price: u64, best_bid: u64, best_ask: u64) -> bool {
    match side {
        Side::Buy => best_bid != 0 && price * OUTLIER_FACTOR_SCALE < best_bid * (
        OUTLIER_FACTOR_SCALE - factor),
        Side::Sell => best_ask != 0 && price * OUTLIER_FACTOR_SCALE > best_ask * (
        OUTLIER_FACTOR_SCALE + factor),
    }
}

/// Some string of `ids` reads `id`.
pub open spec fn listed(ids: Seq<String>, id: Seq<char>) -> bool {
    exists|i: int| 0 <= i < ids.len() && (#[trigger] ids[i])@ == id
}

pub proof fn lemma_listed_push(ids: Seq<String>, s: String, id: Seq<char>)
    ensures
        listed(ids.push(s), id) == (listed(ids, id) || s@ == id),
{
    let t = ids.push(s);
    if listed(ids, id) {
        let i = choose|i: int| 0 <= i < ids.len() && (#[trigger] ids[i])@ == id;
        assert(t[i] == ids[i]);
    }
    if s@ == id {
        assert(t[ids.len() as int] == s);
    }
    if listed(t, id) {
        let i = choose|i: int| 0 <= i < t.len() && (#[trigger] t[i])@ == id;
        if i < ids.len() {
            assert(t[i] == ids[i]);
        }
    }
}

/// Price gate relative to the top of the book that remembers the ids it rejected.
#[derive(Clone, Debug)]
pub struct SimpleOutlierFilter {
    pub outlier_factor: u64,
    pub outlier_ids: Vec<String>,
    pub outliers_encountered: u64,
}

impl SimpleOutlierFilter {
    pub open spec fn wf(&self) -> bool {
        0 < self.outlier_factor < OUTLIER_FACTOR_SCALE
    }

    /// `id` was rejected as an outlier and not yet released.
    pub open spec fn recorded(&self, id: Seq<char>) -> bool {
        listed(self.outlier_ids@, id)
    }

    /// A filter with the given factor in millionths, or the default one.
    pub fn new(outlier_factor: Option<u64>) -> (r: Self)
        requires
            outlier_factor is Some ==> 0 < outlier_factor.unwrap() < OUTLIER_FACTOR_SCALE,
        ensures
            r.wf(),
            r.outlier_factor == match outlier_factor {
                Some(f) => f,
                None => DEFAULT_OUTLIER_FACTOR,
            },
            forall|id: Seq<char>| !r.recorded(id),
            r.outliers_encountered == 0,
    {
        SimpleOutlierFilter {
            outlier_factor: match outlier_factor {
                Some(factor) => factor,
                None => DEFAULT_OUTLIER_FACTOR,
            },
            outlier_ids: Vec::new(),
            outliers_encountered: 0,
        }
    }

    /// Whether `order_id` is a recorded outlier.
    pub fn contains(&self, order_id: &String) -> (r: bool)
        ensures
            r == self.recorded(order_id@),
    {
        let mut i: usize = 0;
        while i < self.outlier_ids.len()
            invariant
                i <= self.outlier_ids.len(),
                forall|j: int| 0 <= j < i ==> (#[trigger] self.outlier_ids@[j])@ != order_id@,
            decreases self.outlier_ids.len() - i,
        {
            if self.outlier_ids[i] == *order_id {
                return true;
            }
            i = i + 1;
        }
        false
    }

    /// Records `order_id` as an outlier.
    pub fn record(&mut self, order_id: String)
        ensures
            forall|id: Seq<char>| final(self).recorded(id) == (old(self).recorded(id) || id == order_id@),
            final(self).outlier_factor == old(self).outlier_factor,
            final(self).outliers_encountered == old(self).outliers_encountered,
    {
        if !self.contains(&order_id) {
            let ghost ids = self.outlier_ids@;
            let ghost id0 = order_id@;
            self.outlier_ids.push(order_id);
            assert forall|id: Seq<char>| final(self).recorded(id) == (old(self).recorded(id) || id == id0) by {
                lemma_listed_push(ids, self.outlier_ids@.last(), id);
                assert(self.outlier_ids@ =~= ids.push(self.outlier_ids@.last()));
            }
        }
    }

    /// Releases `order_id`; returns whether it was recorded.
    pub fn release(&mut self, order_id: &String) -> (r: bool)
        ensures
            r == old(self).recorded(order_id@),
            forall|id: Seq<char>| final(self).recorded(id) == (old(self).recorded(id) && id != order_id@),
            final(self).outlier_factor == old(self).outlier_factor,
            final(self).outliers_encountered == old(self).outliers_encountered,
    {
        let ghost ids = self.outlier_ids@;
        let mut kept: Vec<String> = Vec::new();
        let mut found = false;
        let mut i: usize = 0;
        while i < self.outlier_ids.len()
            invariant
                ids == self.outlier_ids@,
                i <= ids.len(),
                found == listed(ids.take(i as int), order_id@),
                forall|id: Seq<char>|
                    #[trigger] listed(kept@, id) == (listed(ids.take(i as int), id) && id != order_id@),
            decreases ids.len() - i,
        {
            let ghost k0 = kept@;
            if self.outlier_ids[i] == *order_id {
                found = true;
            } else {
                kept.push(self.outlier_ids[i].clone());
            }
            assert forall|id: Seq<char>| #[trigger] listed(ids.take(i + 1), id) == (listed(ids.take(i as int), id) || ids[i as int]@ == id) by {
                lemma_listed_push(ids.take(i as int), ids[i as int], id);
                assert(ids.take(i + 1) =~= ids.take(i as int).push(ids[i as int]));
            }
            assert forall|id: Seq<char>| #[trigger] listed(kept@, id) == (listed(ids.take(i + 1), id) && id != order_id@) by {
                if kept@.len() > k0.len() {
                    lemma_listed_push(k0, ids[i as int], id);
                    assert(kept@ =~= k0.push(ids[i as int]));
                }
            }
            i = i + 1;
        }
        assert(ids.take(i as int) =~= ids);
        self.outlier_ids = kept;
        found
    }

    /// Checks an incoming order against the top of the book; an outlier is recorded and
    /// refused.
    pub fn check(&mut self, order: &Order, top_level: (u64, u64)) -> (r: Result<(), OrderbookError>)
        requires
            old(self).wf(),
        ensures
            final(self).wf(),
            final(self).outlier_factor == old(self).outlier_factor,
            final(self).outliers_encountered == old(self).outliers_encountered,
            if is_outlier(
                old(self).outlier_factor,
                order.side_spec(),
                order.atomic().price,
                top_level.0,
                top_level.1,
            ) {
                &&& r == Err::<(), OrderbookError>(OrderbookError::Outlier)
                &&& forall|id: Seq<char>|
                    final(self).recorded(id) == (old(self).recorded(id) || id == order.atomic().id@)
            } else {
                r is Ok && *final(self) == *old(self)
            },
    {
        let price = order.price() as u128;
        let scale = OUTLIER_FACTOR_SCALE as u128;
        let bid = top_level.0 as u128;
        let ask = top_level.1 as u128;
        let factor = self.outlier_factor as u128;
        proof {
            assert(price * scale <= 0xffff_ffff_ffff_ffff * 1_000_000) by (nonlinear_arith)
                requires
                    price <= 0xffff_ffff_ffff_ffff,
                    scale == 1_000_000,
            ;
            assert(bid * (scale - factor) <= 0xffff_ffff_ffff_ffff * 1_000_000) by (nonlinear_arith)
                requires
                    bid <= 0xffff_ffff_ffff_ffff,
                    scale == 1_000_000,
                    0 < factor < scale,
            ;
            assert(ask * (scale + factor) <= 0xffff_ffff_ffff_ffff * 2_000_000) by (nonlinear_arith)
                requires
                    ask <= 0xffff_ffff_ffff_ffff,
                    scale == 1_000_000,
                    0 < factor < scale,
            ;
        }
        let outlier = match order.side() {
            Side::Buy => {
                if top_level.0 == 0 {
                    false
                } else {
                    price * scale < bid * (scale - factor)
                }
            },
            Side::Sell => {
                if top_level.1 == 0 {
                    false
                } else {
                    price * scale > ask * (scale + factor)
                }
            },
        };
        if outlier {
            let id = order.unwrap().id.clone();
            self.record(id);
            Err(OrderbookError::Outlier)
        } else {
            Ok(())
        }
    }
}

} // verus!
