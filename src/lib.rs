use vstd::prelude::*;

pub mod types;
pub mod stats;
pub mod deque;
pub mod levels;
pub mod outlier;
pub mod history;
pub mod clock;
pub mod book;
pub mod engine;
pub mod directory;
pub mod laws;

verus! {

/// Answer of a stream for whether it carries an identifier for routing.
pub enum Identifier {
    Yes(String),
    No,
}

/// Implemented by messages that can name the stream they belong to.
pub trait StreamIdentifier {
    fn get_stream_id(&self) -> Identifier;
}

} // verus!
