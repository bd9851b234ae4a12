use vstd::prelude::*;

use bounded_vec_deque::BoundedVecDeque;

use crate::types::OrderbookEvent;

verus! {

#[verifier::external_type_specification]
#[verifier::external_body]
#[verifier::reject_recursive_types(T)]
pub struct ExBoundedVecDeque<T>(BoundedVecDeque<T>);

/// The events held by a bounded event log, oldest first.
pub uninterp spec fn logged_events(q: BoundedVecDeque<OrderbookEvent>) -> Seq<OrderbookEvent>;

/// The maximum length a bounded event log was made with.
pub uninterp spec fn log_bound(q: BoundedVecDeque<OrderbookEvent>) -> nat;

/// Relies on `BoundedVecDeque::new`: an empty deque whose maximum length is `max_len`. It
/// reserves room for `max_len` events up front, which panics past `isize::MAX` bytes.
#[verifier::external_body]
pub(crate) fn new_event_log(max_len: usize) -> (r: BoundedVecDeque<OrderbookEvent>)
    requires
        max_len * vstd::layout::size_of::<OrderbookEvent>() <= isize::MAX,
    ensures
        logged_events(r).len() == 0,
        log_bound(r) == max_len,
{
    BoundedVecDeque::new(max_len)
}

/// Relies on `BoundedVecDeque::push_back`: with a maximum length of zero nothing is kept;
/// when the deque is full its oldest element is dropped before `event` is appended.
#[verifier::external_body]
pub(crate) fn log_event(q: &mut BoundedVecDeque<OrderbookEvent>, event: OrderbookEvent)
    ensures
        log_bound(*final(q)) == log_bound(*old(q)),
        log_bound(*old(q)) == 0 ==> logged_events(*final(q)) == logged_events(*old(q)),
        log_bound(*old(q)) > 0 && logged_events(*old(q)).len() >= log_bound(*old(q))
            ==> logged_events(*final(q)) == logged_events(*old(q)).drop_first().push(event),
        log_bound(*old(q)) > 0 && logged_events(*old(q)).len() < log_bound(*old(q))
            ==> logged_events(*final(q)) == logged_events(*old(q)).push(event),
{
    q.push_back(event);
}

} // verus!
