use vstd::prelude::*;

verus! {

/// Side of the book an order rests on.
#[derive(Clone, Copy, Debug, PartialEq, Eq, Structural)]
pub enum Side {
    Buy,
    Sell,
}

/// Kind of order carried by an event; only limit orders rest in the book.
#[derive(Clone, Copy, Debug, PartialEq, Eq, Structural)]
pub enum OrderType {
    Limit,
    Market,
}

/// The minimal resting order. Prices are integer ticks and sizes integer lots.
#[derive(Clone, Debug, PartialEq)]
pub struct AtomicOrder {
    pub id: String,
    pub price: u64,
    pub size: u64,
}

impl AtomicOrder {
    /// A field-by-field copy.
    pub fn copied(&self) -> (r: AtomicOrder)
        ensures
            r == *self,
    {
        AtomicOrder { id: self.id.clone(), price: self.price, size: self.size }
    }
}

/// An order tagged with the side it belongs to.
#[derive(Clone, Debug, PartialEq)]
pub enum Order {
    Bid(AtomicOrder, OrderType),
    Ask(AtomicOrder, OrderType),
}

impl Order {
    pub open spec fn atomic(&self) -> AtomicOrder {
        match self {
            Order::Bid(o, _) => *o,
            Order::Ask(o, _) => *o,
        }
    }

    pub open spec fn side_spec(&self) -> Side {
        match self {
            Order::Bid(..) => Side::Buy,
            Order::Ask(..) => Side::Sell,
        }
    }

    pub fn id(&self) -> (r: &str)
        ensures
            r@ == self.atomic().id@,
    {
        match self {
            Order::Bid(order, ..) => order.id.as_str(),
            Order::Ask(order, ..) => order.id.as_str(),
        }
    }

    pub fn price(&self) -> (r: u64)
        ensures
            r == self.atomic().price,
    {
        match self {
            Order::Bid(order, ..) => order.price,
            Order::Ask(order, ..) => order.price,
        }
    }

    pub fn side(&self) -> (r: Side)
        ensures
            r == self.side_spec(),
    {
        match self {
            Order::Bid(..) => Side::Buy,
            Order::Ask(..) => Side::Sell,
        }
    }

    pub fn unwrap(&self) -> (r: &AtomicOrder)
        ensures
            *r == self.atomic(),
    {
        match self {
            Order::Bid(order, ..) => order,
            Order::Ask(order, ..) => order,
        }
    }

    /// A field-by-field copy.
    pub fn copied(&self) -> (r: Order)
        ensures
            r == *self,
    {
        match self {
            Order::Bid(order, t) => Order::Bid(order.copied(), *t),
            Order::Ask(order, t) => Order::Ask(order.copied(), *t),
        }
    }
}

/// A sequenced event of the exchange's order stream.
#[derive(Clone, Debug, PartialEq)]
pub enum OrderbookEvent {
    Received(Order, u64),
    Open(Order, u64),
    Done(String, u64),
    Change(String, u64, u64),
}

impl OrderbookEvent {
    pub open spec fn sequence_spec(&self) -> u64 {
        match self {
            OrderbookEvent::Received(_, seq) => *seq,
            OrderbookEvent::Open(_, seq) => *seq,
            OrderbookEvent::Done(_, seq) => *seq,
            OrderbookEvent::Change(_, _, seq) => *seq,
        }
    }

    pub fn sequence(&self) -> (r: u64)
        ensures
            r == self.sequence_spec(),
    {
        match self {
            OrderbookEvent::Received(_, seq) => *seq,
            OrderbookEvent::Open(_, seq) => *seq,
            OrderbookEvent::Done(_, seq) => *seq,
            OrderbookEvent::Change(_, _, seq) => *seq,
        }
    }

    /// A field-by-field copy.
    pub fn copied(&self) -> (r: OrderbookEvent)
        ensures
            r == *self,
    {
        match self {
            OrderbookEvent::Received(o, seq) => OrderbookEvent::Received(o.copied(), *seq),
            OrderbookEvent::Open(o, seq) => OrderbookEvent::Open(o.copied(), *seq),
            OrderbookEvent::Done(id, seq) => OrderbookEvent::Done(id.clone(), *seq),
            OrderbookEvent::Change(id, size, seq) => OrderbookEvent::Change(id.clone(), *size, *seq),
        }
    }
}

/// Identity of a market: the exchange and the instrument traded on it.
#[derive(Clone, Debug, PartialEq)]
pub struct Market {
    pub exchange: String,
    pub instrument: String,
}

impl Market {
    pub fn new(exchange: &str, instrument: &str) -> (r: Market)
        ensures
            r.exchange@ == exchange@,
            r.instrument@ == instrument@,
    {
        Market { exchange: exchange.to_owned(), instrument: instrument.to_owned() }
    }

    /// Value equality of two market identities.
    pub fn same_as(&self, other: &Market) -> (r: bool)
        ensures
            r == (self.exchange@ == other.exchange@ && self.instrument@ == other.instrument@),
    {
        self.exchange == other.exchange && self.instrument == other.instrument
    }

    pub fn copied(&self) -> (r: Market)
        ensures
            r == *self,
    {
        Market { exchange: self.exchange.clone(), instrument: self.instrument.clone() }
    }
}

/// Failures reported by the engine.
#[derive(Clone, Debug, PartialEq)]
pub enum OrderbookError {
    OutOfSequence(OrderbookEvent),
    OrderNotFoundInMap(String),
    OrderNotFoundInDeque(String),
    MissingOrderDeque(u64),
    DuplicateOrderId(String),
    Outlier,
    BuilderIncomplete(&'static str),
}

} // verus!
