use order_matching::book::OrderBook;
use order_matching::level::PriceLevel;
use order_matching::matching_engine::{Order, Side};
use std::collections::VecDeque;

fn quote(order_id: u64, side: Side, price: u64, volume: u64) -> Order {
    Order { symbol: "TSLA".to_string(), side, order_id, price, volume }
}

fn queue_of(orders: Vec<Order>) -> VecDeque<Order> {
    orders.into_iter().collect()
}

#[test]
fn an_empty_book_has_no_best_price() {
    let book = OrderBook::default();
    assert_eq!(book.best_bid(), None);
    assert_eq!(book.best_ask(), None);
    assert!(book.queue(Side::BID, 1).is_empty());
    assert!(book.queue(Side::ASK, 1).is_empty());
}

#[test]
fn place_opens_levels_and_joins_queues() {
    let mut book = OrderBook::default();
    book.place(quote(1, Side::ASK, 105, 1));
    book.place(quote(2, Side::ASK, 103, 2));
    book.place(quote(3, Side::ASK, 105, 3));
    book.place(quote(4, Side::BID, 99, 4));
    book.place(quote(5, Side::BID, 101, 5));
    assert_eq!(book.best_ask(), Some(103));
    assert_eq!(book.best_bid(), Some(101));
    assert_eq!(
        book.queue(Side::ASK, 105),
        vec![quote(1, Side::ASK, 105, 1), quote(3, Side::ASK, 105, 3)]
    );
    assert_eq!(book.queue(Side::ASK, 103), vec![quote(2, Side::ASK, 103, 2)]);
    assert!(book.queue(Side::ASK, 104).is_empty());
    assert!(book.queue(Side::BID, 105).is_empty());
}

#[test]
fn match_order_sweeps_the_facing_side_only() {
    let mut book = OrderBook::default();
    book.place(quote(1, Side::ASK, 103, 2));
    book.place(quote(2, Side::ASK, 105, 3));
    book.place(quote(3, Side::BID, 99, 4));
    let mut incoming = quote(9, Side::BID, 104, 10);
    let mut trades = vec![quote(7, Side::ASK, 1, 1)];
    book.match_order(&mut incoming, &mut trades);
    assert_eq!(trades, vec![quote(7, Side::ASK, 1, 1), quote(1, Side::ASK, 103, 2)]);
    assert_eq!(incoming, quote(9, Side::BID, 104, 8));
    assert_eq!(book.best_ask(), Some(105));
    assert_eq!(book.best_bid(), Some(99));
    let mut incoming = quote(10, Side::ASK, 99, 1);
    let mut trades = Vec::new();
    book.match_order(&mut incoming, &mut trades);
    assert_eq!(trades, vec![quote(3, Side::BID, 99, 1)]);
    assert_eq!(incoming, quote(10, Side::ASK, 99, 0));
    assert_eq!(book.queue(Side::BID, 99), vec![quote(3, Side::BID, 99, 3)]);
}

#[test]
fn remove_takes_the_order_and_an_emptied_level() {
    let mut book = OrderBook::default();
    book.place(quote(1, Side::BID, 100, 1));
    book.place(quote(2, Side::BID, 100, 2));
    book.place(quote(3, Side::BID, 101, 3));
    book.remove(&quote(3, Side::BID, 101, 3));
    assert_eq!(book.best_bid(), Some(100));
    book.remove(&quote(1, Side::BID, 100, 1));
    assert_eq!(book.queue(Side::BID, 100), vec![quote(2, Side::BID, 100, 2)]);
    book.remove(&quote(8, Side::BID, 100, 1));
    book.remove(&quote(2, Side::BID, 77, 2));
    book.remove(&quote(2, Side::ASK, 100, 2));
    assert_eq!(book.queue(Side::BID, 100), vec![quote(2, Side::BID, 100, 2)]);
    book.remove(&quote(2, Side::BID, 100, 2));
    assert_eq!(book.best_bid(), None);
}

#[test]
fn resize_changes_the_volume_in_place() {
    let mut book = OrderBook::default();
    book.place(quote(1, Side::ASK, 100, 10));
    book.place(quote(2, Side::ASK, 100, 20));
    book.place(quote(3, Side::ASK, 100, 30));
    book.resize(&quote(2, Side::ASK, 100, 20), 7);
    assert_eq!(
        book.queue(Side::ASK, 100),
        vec![quote(1, Side::ASK, 100, 10), quote(2, Side::ASK, 100, 7), quote(3, Side::ASK, 100, 30)]
    );
    book.resize(&quote(9, Side::ASK, 100, 20), 1);
    book.resize(&quote(2, Side::ASK, 101, 20), 1);
    assert_eq!(identifiers_and_volumes(&book.queue(Side::ASK, 100)), vec![(1, 10), (2, 7), (3, 30)]);
}

fn identifiers_and_volumes(orders: &Vec<Order>) -> Vec<(u64, u64)> {
    orders.iter().map(|order| (order.order_id, order.volume)).collect()
}

#[test]
fn match_order_queue_fills_from_the_head() {
    let mut queue = queue_of(vec![
        quote(1, Side::ASK, 100, 3),
        quote(2, Side::ASK, 100, 4),
        quote(3, Side::ASK, 100, 5),
    ]);
    let mut incoming = quote(9, Side::BID, 100, 5);
    let mut trades = Vec::new();
    order_matching::level::match_order_queue(&mut incoming, &mut queue, &mut trades);
    assert_eq!(trades, vec![quote(1, Side::ASK, 100, 3), quote(2, Side::ASK, 100, 2)]);
    assert_eq!(incoming.volume, 0);
    assert_eq!(
        queue,
        queue_of(vec![quote(2, Side::ASK, 100, 2), quote(3, Side::ASK, 100, 5)])
    );
}

#[test]
fn match_order_queue_uses_up_the_queue() {
    let mut queue = queue_of(vec![quote(1, Side::ASK, 100, 3), quote(2, Side::ASK, 100, 4)]);
    let mut incoming = quote(9, Side::BID, 100, 8);
    let mut trades = Vec::new();
    order_matching::level::match_order_queue(&mut incoming, &mut queue, &mut trades);
    assert_eq!(trades, vec![quote(1, Side::ASK, 100, 3), quote(2, Side::ASK, 100, 4)]);
    assert_eq!(incoming.volume, 1);
    assert!(queue.is_empty());
}

#[test]
fn match_order_queue_does_nothing_without_volume() {
    let mut queue = queue_of(vec![quote(1, Side::ASK, 100, 3)]);
    let mut incoming = quote(9, Side::BID, 100, 0);
    let mut trades = Vec::new();
    order_matching::level::match_order_queue(&mut incoming, &mut queue, &mut trades);
    assert!(trades.is_empty());
    assert_eq!(queue, queue_of(vec![quote(1, Side::ASK, 100, 3)]));
}

#[test]
fn sweep_side_stops_at_a_level_that_does_not_cross() {
    let level = |price: u64, orders: Vec<Order>| PriceLevel { price, orders: queue_of(orders) };
    let mut bids = vec![
        level(98, vec![quote(1, Side::BID, 98, 5)]),
        level(99, vec![quote(2, Side::BID, 99, 5)]),
        level(100, vec![quote(3, Side::BID, 100, 5), quote(4, Side::BID, 100, 5)]),
    ];
    let mut incoming = quote(9, Side::ASK, 99, 100);
    let mut trades = Vec::new();
    order_matching::book::sweep_side(&mut bids, &mut incoming, &mut trades);
    assert_eq!(
        trades,
        vec![quote(3, Side::BID, 100, 5), quote(4, Side::BID, 100, 5), quote(2, Side::BID, 99, 5)]
    );
    assert_eq!(incoming.volume, 85);
    assert_eq!(bids.len(), 1);
    assert_eq!(bids[0].price, 98);
}
