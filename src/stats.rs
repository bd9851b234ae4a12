use vstd::prelude::*;

verus! {

/// Counters kept while a book consumes events, with an optional log of error messages.
#[derive(Clone, Debug)]
pub struct OrderbookStats {
    pub events_processed: u64,
    pub events_not_processed: u64,
    pub error_msgs: Option<Vec<String>>,
}

impl OrderbookStats {
    pub fn new(track_errors: bool) -> (r: Self)
        ensures
            r.events_processed == 0,
            r.events_not_processed == 0,
            track_errors <==> r.error_msgs.is_some(),
            track_errors ==> r.error_msgs.unwrap()@.len() == 0,
    {
        OrderbookStats {
            events_processed: 0,
            events_not_processed: 0,
            error_msgs: if track_errors {
                Some(Vec::new())
            } else {
                None
            },
        }
    }
}

} // verus!
