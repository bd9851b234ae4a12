use vstd::prelude::*;

use chrono::{DateTime, Utc};

use crate::types::OrderbookError;

verus! {

/// Relies on `chrono::Utc::now`: the current time, in milliseconds since the Unix epoch;
/// nothing is known of its value.
#[verifier::external_body]
pub(crate) fn now_millis() -> (r: i64) {
    Utc::now().timestamp_millis()
}

/// Relies on `chrono::DateTime::from_timestamp_millis` for the time shown: a log line naming
/// the time, the last applied sequence and the error.
#[verifier::external_body]
pub(crate) fn error_message(at_millis: i64, last_sequence: u64, error: &OrderbookError) -> (r: String) {
    format!("{:?} - sequence {:?} - {:?}", DateTime::from_timestamp_millis(at_millis), last_sequence, error)
}

} // verus!
