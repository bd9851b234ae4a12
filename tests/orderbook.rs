use orderbook_l3::book::{OrderbookBuilder, OrderbookL3};
use orderbook_l3::directory::OrderbookMap;
use orderbook_l3::outlier::SimpleOutlierFilter;
use orderbook_l3::stats::OrderbookStats;
use orderbook_l3::types::{
    AtomicOrder, Market, Order, OrderType, OrderbookError, OrderbookEvent, Side,
};
use orderbook_l3::types::OrderbookEvent::{Change, Done, Open};
use orderbook_l3::types::OrderType::Limit;

/// Sizes are written in hundredths: one unit of size is `LOT` lots.
const LOT: u64 = 100;

fn market() -> Market {
    Market::new("coinbase", "eth_usd")
}

fn new_book() -> OrderbookL3 {
    OrderbookL3::builder().market(market()).stats(true).build().unwrap()
}

fn atomic(id: &str, price: u64, size: u64) -> AtomicOrder {
    AtomicOrder { id: id.to_string(), price, size }
}

fn bid(id: &str, price: u64, size: u64, seq: u64) -> OrderbookEvent {
    Open(Order::Bid(atomic(id, price, size), OrderType::Limit), seq)
}

fn ask(id: &str, price: u64, size: u64, seq: u64) -> OrderbookEvent {
    Open(Order::Ask(atomic(id, price, size), OrderType::Limit), seq)
}

fn ten_open_events() -> Vec<OrderbookEvent> {
    vec![
        ask("A", 1005, 20 * LOT, 1),
        bid("B", 995, 5 * LOT, 2),
        ask("C", 1006, 1 * LOT, 3),
        bid("D", 994, 2 * LOT, 4),
        ask("E", 1005, LOT / 4, 5),
        bid("F", 997, 10 * LOT, 6),
        ask("G", 1001, 4 * LOT, 7),
        bid("H", 996, 3 * LOT, 8),
        ask("I", 1005, 10 * LOT, 9),
        bid("J", 994, 6 * LOT, 10),
    ]
}

fn apply_all(book: &mut OrderbookL3, events: Vec<OrderbookEvent>) -> Vec<Result<(), OrderbookError>> {
    let mut results = Vec::new();
    for event in events {
        results.push(book.process(event));
    }
    results
}

fn order_price(order: &Order) -> u64 {
    match order {
        Order::Bid(o, _) => o.price,
        Order::Ask(o, _) => o.price,
    }
}

#[test]
fn orderbook_l3_basics() {
    let mut orderbook = new_book();

    let invalid_events: Vec<OrderbookEvent> = vec![
        Done("H".to_string(), 18),
        Change("G".to_string(), 30 * LOT, 14),
        Done("F".to_string(), 17),
        Done("ZZ".to_string(), 100),
    ];
    apply_all(&mut orderbook, invalid_events);

    // empty book
    assert_eq!(orderbook.market, market());
    assert_eq!(orderbook.bids, vec![]);
    assert_eq!(orderbook.asks, vec![]);
    assert_eq!(orderbook.best_ask(), 0);
    assert_eq!(orderbook.best_bid(), 0);
    assert_eq!(orderbook.levels(Side::Buy, None), vec![]);
    assert_eq!(orderbook.levels(Side::Buy, None), vec![]);
    assert_eq!(orderbook.num_ask_levels(), 0);
    assert_eq!(orderbook.num_bid_levels(), 0);
    assert_eq!(orderbook.last_sequence, 0);

    // 3 ask levels, 4 bid levels post-insert
    apply_all(&mut orderbook, ten_open_events());

    assert_eq!(orderbook.get_order_ref("A").unwrap(), &atomic("A", 1005, 20 * LOT));
    assert_eq!(orderbook.get_order_ref("B").unwrap(), &atomic("B", 995, 5 * LOT));
    assert_eq!(orderbook.get_order_ref("C").unwrap(), &atomic("C", 1006, 1 * LOT));
    assert_eq!(orderbook.get_order_ref("D").unwrap(), &atomic("D", 994, 2 * LOT));
    assert_eq!(orderbook.get_order_ref("E").unwrap(), &atomic("E", 1005, LOT / 4));
    assert_eq!(orderbook.get_order_ref("F").unwrap(), &atomic("F", 997, 10 * LOT));
    assert_eq!(orderbook.get_order_ref("G").unwrap(), &atomic("G", 1001, 4 * LOT));
    assert_eq!(orderbook.get_order_ref("H").unwrap(), &atomic("H", 996, 3 * LOT));
    assert_eq!(orderbook.get_order_ref("I").unwrap(), &atomic("I", 1005, 10 * LOT));
    assert_eq!(orderbook.get_order_ref("J").unwrap(), &atomic("J", 994, 6 * LOT));

    assert_eq!(orderbook.best_bid(), 997);
    assert_eq!(orderbook.best_ask(), 1001);

    let change_events = vec![
        Change("A".to_string(), 30 * LOT, 11),
        Change("B".to_string(), 30 * LOT, 12),
        Change("C".to_string(), 30 * LOT, 13),
        Change("D".to_string(), 30 * LOT, 14),
    ];
    apply_all(&mut orderbook, change_events);
    assert_eq!(orderbook.get_order_ref("A").unwrap().size, 30 * LOT);
    assert_eq!(orderbook.get_order_ref("B").unwrap().size, 30 * LOT);
    assert_eq!(orderbook.get_order_ref("C").unwrap().size, 30 * LOT);
    assert_eq!(orderbook.get_order_ref("D").unwrap().size, 30 * LOT);

    // 2 ask levels, 2 bid levels post-removal
    let close_events = vec![
        Done("E".to_string(), 15),
        Done("F".to_string(), 16),
        Done("G".to_string(), 17),
        Done("H".to_string(), 18),
    ];
    apply_all(&mut orderbook, close_events);
    assert_eq!(orderbook.get_order_ref("E"), Err(OrderbookError::OrderNotFoundInMap("E".to_string())));
    assert_eq!(orderbook.get_order_ref("F"), Err(OrderbookError::OrderNotFoundInMap("F".to_string())));
    assert_eq!(orderbook.get_order_ref("G"), Err(OrderbookError::OrderNotFoundInMap("G".to_string())));
    assert_eq!(orderbook.get_order_ref("H"), Err(OrderbookError::OrderNotFoundInMap("H".to_string())));

    // invalid events (out-of-sequence or missing)
    let invalid_events = vec![
        Done("Z".to_string(), 18),
        bid("D", 994, 1000 * LOT, 4),
        Change("G".to_string(), 30 * LOT, 14),
        Done("ZZ".to_string(), 19),
    ];
    apply_all(&mut orderbook, invalid_events);

    let mut expected_remaining = vec![
        Order::Ask(atomic("A", 1005, 30 * LOT), Limit),
        Order::Bid(atomic("B", 995, 30 * LOT), Limit),
        Order::Ask(atomic("C", 1006, 30 * LOT), Limit),
        Order::Bid(atomic("D", 994, 30 * LOT), Limit),
        Order::Ask(atomic("I", 1005, 10 * LOT), Limit),
        Order::Bid(atomic("J", 994, 6 * LOT), Limit),
    ];
    expected_remaining.sort_by_key(|order| order_price(order));

    for (idx, order) in orderbook.iter().into_iter().enumerate() {
        assert_eq!(order, expected_remaining[idx])
    }

    assert_eq!(orderbook.get_order_ref("A").unwrap(), &atomic("A", 1005, 30 * LOT));
    assert_eq!(orderbook.get_order_ref("B").unwrap(), &atomic("B", 995, 30 * LOT));
    assert_eq!(orderbook.get_order_ref("C").unwrap(), &atomic("C", 1006, 30 * LOT));
    assert_eq!(orderbook.get_order_ref("D").unwrap(), &atomic("D", 994, 30 * LOT));
    assert_eq!(orderbook.get_order_ref("I").unwrap(), &atomic("I", 1005, 10 * LOT));
    assert_eq!(orderbook.get_order_ref("J").unwrap(), &atomic("J", 994, 6 * LOT));
    assert_eq!(orderbook.best_bid(), 995);
    assert_eq!(orderbook.best_ask(), 1005);
    assert_eq!(orderbook.num_ask_levels(), 2);
    assert_eq!(orderbook.num_bid_levels(), 2);
}

#[test]
fn empty_book_reads() {
    let book = new_book();
    assert_eq!(book.best_bid(), 0);
    assert_eq!(book.best_ask(), 0);
    assert_eq!(book.top_level(), (0, 0));
    assert_eq!(book.levels(Side::Buy, None), vec![]);
    assert_eq!(book.levels(Side::Sell, Some(5)), vec![]);
    assert_eq!(book.len(), 0);
    assert_eq!(book.bid_count(), 0);
    assert_eq!(book.ask_count(), 0);
    assert_eq!(book.iter(), vec![]);
    assert_eq!(book.last_sequence, 0);
}

#[test]
fn stale_events_on_empty_book_are_rejected() {
    let mut book = new_book();
    let results = apply_all(
        &mut book,
        vec![
            Done("H".to_string(), 18),
            Change("G".to_string(), 30 * LOT, 14),
            Done("F".to_string(), 17),
            Done("ZZ".to_string(), 100),
        ],
    );
    assert_eq!(
        results,
        vec![
            Err(OrderbookError::OrderNotFoundInMap("H".to_string())),
            Err(OrderbookError::OrderNotFoundInMap("G".to_string())),
            Err(OrderbookError::OrderNotFoundInMap("F".to_string())),
            Err(OrderbookError::OrderNotFoundInMap("ZZ".to_string())),
        ]
    );
    assert_eq!(book.last_sequence, 0);
    assert_eq!(book.len(), 0);
    let stats = book.stats.as_ref().unwrap();
    assert_eq!(stats.events_processed, 0);
    assert_eq!(stats.events_not_processed, 4);
    assert_eq!(stats.error_msgs.as_ref().unwrap().len(), 4);
}

#[test]
fn build_ten_order_book() {
    let mut book = new_book();
    let results = apply_all(&mut book, ten_open_events());
    assert!(results.iter().all(|r| r.is_ok()));
    assert_eq!(book.best_bid(), 997);
    assert_eq!(book.best_ask(), 1001);
    assert_eq!(book.num_bid_levels(), 4);
    assert_eq!(book.num_ask_levels(), 3);
    assert_eq!(book.bid_count(), 5);
    assert_eq!(book.ask_count(), 5);
    assert_eq!(book.len(), 10);
    assert_eq!(book.iter().len(), 10);
    assert_eq!(book.last_sequence, 10);
    assert_eq!(book.stats.as_ref().unwrap().events_processed, 10);
}

#[test]
fn change_sizes() {
    let mut book = new_book();
    apply_all(&mut book, ten_open_events());
    let results = apply_all(
        &mut book,
        vec![
            Change("A".to_string(), 30 * LOT, 11),
            Change("B".to_string(), 30 * LOT, 12),
            Change("C".to_string(), 30 * LOT, 13),
            Change("D".to_string(), 30 * LOT, 14),
        ],
    );
    assert!(results.iter().all(|r| r.is_ok()));
    for id in ["A", "B", "C", "D"] {
        assert_eq!(book.get_order_ref(id).unwrap().size, 30 * LOT);
    }
    let bid_prices: Vec<u64> = book.bids.iter().map(|d| d.price).collect();
    let ask_prices: Vec<u64> = book.asks.iter().map(|d| d.price).collect();
    assert_eq!(bid_prices, vec![997, 996, 995, 994]);
    assert_eq!(ask_prices, vec![1001, 1005, 1006]);
    assert_eq!(book.last_sequence, 14);
}

#[test]
fn remove_top_of_book_orders() {
    let mut book = new_book();
    apply_all(&mut book, ten_open_events());
    let results = apply_all(
        &mut book,
        vec![
            Done("E".to_string(), 15),
            Done("F".to_string(), 16),
            Done("G".to_string(), 17),
            Done("H".to_string(), 18),
        ],
    );
    assert!(results.iter().all(|r| r.is_ok()));
    assert_eq!(book.best_bid(), 995);
    assert_eq!(book.best_ask(), 1005);
    assert_eq!(book.num_bid_levels(), 2);
    assert_eq!(book.num_ask_levels(), 2);
    for id in ["E", "F", "G", "H"] {
        assert_eq!(book.get_order_ref(id), Err(OrderbookError::OrderNotFoundInMap(id.to_string())));
    }
    assert_eq!(book.last_sequence, 18);
}

#[test]
fn mixed_invalid_batch_is_inert() {
    let mut book = new_book();
    apply_all(&mut book, ten_open_events());
    apply_all(
        &mut book,
        vec![
            Done("E".to_string(), 15),
            Done("F".to_string(), 16),
            Done("G".to_string(), 17),
            Done("H".to_string(), 18),
        ],
    );
    let before = book.iter();
    let stale_open = bid("D", 994, 1000 * LOT, 4);
    let stale_change = Change("G".to_string(), 30 * LOT, 14);
    let results = apply_all(
        &mut book,
        vec![Done("Z".to_string(), 18), stale_open.clone(), stale_change.clone(), Done("ZZ".to_string(), 19)],
    );
    assert_eq!(
        results,
        vec![
            Err(OrderbookError::OutOfSequence(Done("Z".to_string(), 18))),
            Err(OrderbookError::OutOfSequence(stale_open)),
            Err(OrderbookError::OutOfSequence(stale_change)),
            Err(OrderbookError::OrderNotFoundInMap("ZZ".to_string())),
        ]
    );
    assert_eq!(book.iter(), before);
    assert_eq!(book.last_sequence, 18);
}

#[test]
fn liquidity_curve_accumulates_notional() {
    let mut book = new_book();
    apply_all(&mut book, ten_open_events());
    // asks: 1001 x 400, 1005 x (2000 + 25 + 1000), 1006 x 100
    let asks = book.levels(Side::Sell, None);
    assert_eq!(
        asks,
        vec![
            (1001, 400, 400_400),
            (1005, 3025, 400_400 + 3_040_125),
            (1006, 100, 400_400 + 3_040_125 + 100_600),
        ]
    );
    let bids = book.levels(Side::Buy, Some(2));
    assert_eq!(bids, vec![(997, 1000, 997_000), (996, 300, 997_000 + 298_800)]);
    assert_eq!(book.levels(Side::Buy, Some(10)).len(), 4);
}

#[test]
fn iteration_runs_bids_up_then_asks_up() {
    let mut book = new_book();
    apply_all(&mut book, ten_open_events());
    let ids: Vec<String> = book
        .iter()
        .iter()
        .map(|o| match o {
            Order::Bid(a, _) => format!("b{}", a.id),
            Order::Ask(a, _) => format!("a{}", a.id),
        })
        .collect();
    assert_eq!(ids, vec!["bD", "bJ", "bB", "bH", "bF", "aG", "aA", "aE", "aI", "aC"]);
}

#[test]
fn open_then_done_restores_book() {
    let mut book = new_book();
    apply_all(&mut book, ten_open_events());
    let bids = book.bids.clone();
    let asks = book.asks.clone();
    assert_eq!(book.process(bid("X", 990, 7, 11)), Ok(()));
    assert_eq!(book.num_bid_levels(), 5);
    assert_eq!(book.process(Done("X".to_string(), 12)), Ok(()));
    assert_eq!(book.bids, bids);
    assert_eq!(book.asks, asks);
    assert_eq!(book.process(ask("Y", 1005, 7, 13)), Ok(()));
    assert_eq!(book.process(Done("Y".to_string(), 14)), Ok(()));
    assert_eq!(book.asks, asks);
    assert_eq!(book.len(), 10);
}

#[test]
fn replayed_event_is_out_of_sequence() {
    let mut book = new_book();
    let event = ask("A", 1005, 20 * LOT, 1);
    assert_eq!(book.process(event.clone()), Ok(()));
    let asks = book.asks.clone();
    assert_eq!(book.process(event.clone()), Err(OrderbookError::OutOfSequence(event)));
    assert_eq!(book.asks, asks);
    assert_eq!(book.last_sequence, 1);
}

#[test]
fn change_twice_is_idempotent() {
    let mut book = new_book();
    apply_all(&mut book, ten_open_events());
    assert_eq!(book.process(Change("E".to_string(), 77, 11)), Ok(()));
    let asks = book.asks.clone();
    assert_eq!(book.process(Change("E".to_string(), 77, 12)), Ok(()));
    assert_eq!(book.asks, asks);
    assert_eq!(book.get_order_ref("E").unwrap().size, 77);
}

#[test]
fn unknown_ids_do_not_advance_sequence() {
    let mut book = new_book();
    apply_all(&mut book, ten_open_events());
    assert_eq!(book.process(Done("Q".to_string(), 11)), Err(OrderbookError::OrderNotFoundInMap("Q".to_string())));
    assert_eq!(
        book.process(Change("Q".to_string(), 5, 12)),
        Err(OrderbookError::OrderNotFoundInMap("Q".to_string()))
    );
    assert_eq!(book.last_sequence, 10);
    assert_eq!(book.len(), 10);
}

#[test]
fn duplicate_open_is_refused() {
    let mut book = new_book();
    apply_all(&mut book, ten_open_events());
    let asks = book.asks.clone();
    assert_eq!(
        book.process(ask("A", 1003, 5, 11)),
        Err(OrderbookError::DuplicateOrderId("A".to_string()))
    );
    assert_eq!(book.asks, asks);
    assert_eq!(book.len(), 10);
    assert_eq!(book.last_sequence, 10);
}

#[test]
fn outliers_advance_sequence_and_resolve() {
    let mut book = OrderbookL3::builder().market(market()).outlier_filter_default().stats(false).build().unwrap();
    assert_eq!(book.process(bid("B", 1000, 5, 1)), Ok(()));
    assert_eq!(book.process(ask("A", 1010, 5, 2)), Ok(()));
    // below half the best bid
    assert_eq!(book.process(bid("LOW", 499, 5, 3)), Err(OrderbookError::Outlier));
    assert_eq!(book.last_sequence, 3);
    assert_eq!(book.len(), 2);
    // exactly half the best bid is kept
    assert_eq!(book.process(bid("EDGE", 500, 5, 4)), Ok(()));
    // above one and a half times the best ask
    assert_eq!(book.process(ask("HIGH", 1516, 5, 5)), Err(OrderbookError::Outlier));
    assert_eq!(book.process(ask("EDGE2", 1515, 5, 6)), Ok(()));
    assert_eq!(book.process(Change("LOW".to_string(), 9, 7)), Err(OrderbookError::Outlier));
    assert_eq!(book.last_sequence, 7);
    assert_eq!(book.get_order_ref("LOW"), Err(OrderbookError::Outlier));
    assert_eq!(book.process(Done("LOW".to_string(), 8)), Err(OrderbookError::Outlier));
    assert_eq!(book.last_sequence, 8);
    assert_eq!(book.process(Done("LOW".to_string(), 9)), Err(OrderbookError::OrderNotFoundInMap("LOW".to_string())));
    assert_eq!(book.last_sequence, 8);
    let stats = book.stats.as_ref().unwrap();
    assert_eq!(stats.events_processed, 4);
    assert_eq!(stats.events_not_processed, 5);
    assert!(stats.error_msgs.is_none());
}

#[test]
fn outlier_filter_check_records_ids() {
    let mut filter = SimpleOutlierFilter::new(Some(250_000));
    let far = Order::Bid(atomic("far", 749, 1), OrderType::Limit);
    let near = Order::Bid(atomic("near", 750, 1), OrderType::Limit);
    assert_eq!(filter.check(&far, (1000, 0)), Err(OrderbookError::Outlier));
    assert_eq!(filter.check(&near, (1000, 0)), Ok(()));
    let any = Order::Ask(atomic("any", 1_000_000, 1), OrderType::Limit);
    assert_eq!(filter.check(&any, (1000, 0)), Ok(()));
    assert!(filter.contains(&"far".to_string()));
    assert!(!filter.contains(&"near".to_string()));
    assert!(filter.release(&"far".to_string()));
    assert!(!filter.contains(&"far".to_string()));
    assert!(!filter.release(&"far".to_string()));
    assert_eq!(SimpleOutlierFilter::new(None).outlier_factor, 500_000);
}

#[test]
fn builder_without_market_fails() {
    let result = OrderbookBuilder::new().stats(true).build();
    assert_eq!(result.err(), Some(OrderbookError::BuilderIncomplete("missing Market")));
    assert!(OrderbookL3::builder().market(market()).add_panic_button().build().unwrap().panic_button);
}

#[test]
fn panic_button_trips_on_crossed_book() {
    let mut book = OrderbookL3::builder().market(market()).add_panic_button().build().unwrap();
    assert_eq!(book.process(bid("B", 1000, 5, 1)), Ok(()));
    assert!(!book.panic_button());
    assert_eq!(book.process(ask("A", 999, 5, 2)), Ok(()));
    assert!(book.panic_button());
    let mut calm = new_book();
    apply_all(&mut calm, vec![bid("B", 1000, 5, 1), ask("A", 999, 5, 2)]);
    assert!(!calm.panic_button());
}

#[test]
fn last_n_events_keeps_newest() {
    let mut book = OrderbookL3::builder().market(market()).last_n_events(2).build().unwrap();
    let events = vec![bid("B", 1000, 5, 1), ask("A", 1010, 5, 2), Done("B".to_string(), 3)];
    apply_all(&mut book, events.clone());
    let log = book.last_n_events.as_ref().unwrap();
    assert_eq!(log.max_len(), 2);
    let kept: Vec<OrderbookEvent> = log.iter().cloned().collect();
    assert_eq!(kept, vec![events[1].clone(), events[2].clone()]);
}

#[test]
fn stats_count_outcomes() {
    let stats = OrderbookStats::new(false);
    assert_eq!(stats.events_processed, 0);
    assert!(stats.error_msgs.is_none());
    let mut book = new_book();
    apply_all(&mut book, vec![bid("B", 1000, 5, 1), Done("nope".to_string(), 2), Done("B".to_string(), 1)]);
    let stats = book.stats.as_ref().unwrap();
    assert_eq!(stats.events_processed, 1);
    assert_eq!(stats.events_not_processed, 2);
    assert_eq!(book.get_error_msgs().map(|m| m.len()), Some(2));
}

#[test]
fn get_order_mut_changes_in_place() {
    let mut book = new_book();
    apply_all(&mut book, ten_open_events());
    book.get_order_mut("G").unwrap().size = 123;
    assert_eq!(book.get_order_ref("G").unwrap().size, 123);
    assert_eq!(book.get_order_mut("nope").err(), Some(OrderbookError::OrderNotFoundInMap("nope".to_string())));
}

#[test]
fn order_accessors() {
    let order = Order::Ask(atomic("A", 1005, 20), OrderType::Market);
    assert_eq!(order.id(), "A");
    assert_eq!(order.price(), 1005);
    assert_eq!(order.side(), Side::Sell);
    assert_eq!(order.unwrap(), &atomic("A", 1005, 20));
    assert_eq!(Done("x".to_string(), 42).sequence(), 42);
    assert_eq!(Change("x".to_string(), 1, 43).sequence(), 43);
}

#[test]
fn received_changes_nothing_but_sequence() {
    let mut book = new_book();
    let order = Order::Bid(atomic("R", 1000, 5), OrderType::Market);
    assert_eq!(book.process(OrderbookEvent::Received(order, 3)), Ok(()));
    assert_eq!(book.len(), 0);
    assert_eq!(book.last_sequence, 3);
}

#[test]
fn orderbook_map_files_by_market() {
    let mut books = OrderbookMap::new();
    books.insert(new_book());
    let other = Market::new("binance", "eth_usd");
    books.insert(OrderbookL3::builder().market(other.clone()).build().unwrap());
    assert_eq!(books.map.len(), 2);
    books.insert(new_book());
    assert_eq!(books.map.len(), 2);
    assert!(books.get(&Market::new("kraken", "eth_usd")).is_none());
    let book = books.get_mut(&market()).unwrap();
    assert_eq!(book.process(bid("B", 1000, 5, 1)), Ok(()));
    assert_eq!(books.get(&market()).unwrap().len(), 1);
    assert_eq!(books.get(&other).unwrap().len(), 0);
    assert!(market().same_as(&Market::new("coinbase", "eth_usd")));
}
