use order_matching::matching_engine::{MatchingEngine, Order, Side};

fn resting(order_id: u64, symbol: &str, side: Side, price: u64, volume: u64) -> Order {
    Order { symbol: symbol.to_string(), side, order_id, price, volume }
}

fn bid(order_id: u64, price: u64, volume: u64) -> Order {
    resting(order_id, "AAPL", Side::BID, price, volume)
}

fn ask(order_id: u64, price: u64, volume: u64) -> Order {
    resting(order_id, "AAPL", Side::ASK, price, volume)
}

fn aapl() -> String {
    "AAPL".to_string()
}

fn identifiers(orders: &Vec<Order>) -> Vec<u64> {
    orders.iter().map(|order| order.order_id).collect()
}

fn volumes(orders: &Vec<Order>) -> Vec<u64> {
    orders.iter().map(|order| order.volume).collect()
}

fn prices(orders: &Vec<Order>) -> Vec<u64> {
    orders.iter().map(|order| order.price).collect()
}

#[test]
fn an_order_that_does_not_cross_rests() {
    let mut engine = MatchingEngine::default();
    assert!(engine.insert(bid(1, 100, 5)).is_empty());
    assert!(engine.insert(ask(2, 101, 7)).is_empty());
    assert_eq!(engine.best_bid(&aapl()), Some(100));
    assert_eq!(engine.best_ask(&aapl()), Some(101));
    assert_eq!(engine.order(1), Some(bid(1, 100, 5)));
    assert_eq!(engine.order(2), Some(ask(2, 101, 7)));
    assert_eq!(engine.queue(&aapl(), Side::BID, 100), vec![bid(1, 100, 5)]);
    assert_eq!(engine.queue(&aapl(), Side::ASK, 101), vec![ask(2, 101, 7)]);
}

#[test]
fn a_new_engine_holds_nothing() {
    let engine = MatchingEngine::default();
    assert_eq!(engine.best_bid(&aapl()), None);
    assert_eq!(engine.best_ask(&aapl()), None);
    assert_eq!(engine.order(1), None);
    assert!(engine.queue(&aapl(), Side::BID, 100).is_empty());
}

#[test]
fn a_trade_is_at_the_resting_price() {
    let mut engine = MatchingEngine::default();
    engine.insert(bid(1, 122_000, 5));
    let trades = engine.insert(ask(2, 121_000, 8));
    assert_eq!(trades, vec![bid(1, 122_000, 5)]);
    assert_eq!(engine.order(1), None);
    assert_eq!(engine.order(2), Some(ask(2, 121_000, 3)));
    assert_eq!(engine.best_bid(&aapl()), None);
    assert_eq!(engine.best_ask(&aapl()), Some(121_000));
    assert_eq!(engine.queue(&aapl(), Side::ASK, 121_000), vec![ask(2, 121_000, 3)]);
}

#[test]
fn a_bid_crosses_at_its_limit_and_not_above() {
    let mut engine = MatchingEngine::default();
    engine.insert(ask(1, 100, 1));
    assert!(engine.insert(bid(2, 99, 1)).is_empty());
    assert_eq!(engine.insert(bid(3, 100, 1)), vec![ask(1, 100, 1)]);
}

#[test]
fn an_ask_crosses_at_its_limit_and_not_below() {
    let mut engine = MatchingEngine::default();
    engine.insert(bid(1, 100, 1));
    assert!(engine.insert(ask(2, 101, 1)).is_empty());
    assert_eq!(engine.insert(ask(3, 100, 1)), vec![bid(1, 100, 1)]);
}

#[test]
fn orders_at_one_price_trade_oldest_first() {
    let mut engine = MatchingEngine::default();
    engine.insert(bid(30, 100, 2));
    engine.insert(bid(10, 100, 3));
    engine.insert(bid(20, 100, 4));
    assert_eq!(identifiers(&engine.queue(&aapl(), Side::BID, 100)), vec![30, 10, 20]);
    let trades = engine.insert(ask(99, 100, 6));
    assert_eq!(identifiers(&trades), vec![30, 10, 20]);
    assert_eq!(volumes(&trades), vec![2, 3, 1]);
    assert_eq!(engine.queue(&aapl(), Side::BID, 100), vec![bid(20, 100, 3)]);
}

#[test]
fn a_bid_takes_the_lowest_asks_first() {
    let mut engine = MatchingEngine::default();
    engine.insert(ask(1, 101, 1));
    engine.insert(ask(2, 100, 1));
    engine.insert(ask(3, 102, 1));
    engine.insert(ask(4, 103, 1));
    let trades = engine.insert(bid(9, 102, 10));
    assert_eq!(identifiers(&trades), vec![2, 1, 3]);
    assert_eq!(prices(&trades), vec![100, 101, 102]);
    assert_eq!(engine.best_ask(&aapl()), Some(103));
    assert_eq!(engine.best_bid(&aapl()), Some(102));
    assert_eq!(engine.order(9), Some(bid(9, 102, 7)));
}

#[test]
fn an_ask_takes_the_highest_bids_first() {
    let mut engine = MatchingEngine::default();
    engine.insert(bid(1, 99, 1));
    engine.insert(bid(2, 100, 1));
    engine.insert(bid(3, 98, 1));
    engine.insert(bid(4, 97, 1));
    let trades = engine.insert(ask(9, 98, 10));
    assert_eq!(identifiers(&trades), vec![2, 1, 3]);
    assert_eq!(prices(&trades), vec![100, 99, 98]);
    assert_eq!(engine.best_bid(&aapl()), Some(97));
    assert_eq!(engine.best_ask(&aapl()), Some(98));
    assert_eq!(engine.order(9), Some(ask(9, 98, 7)));
}

#[test]
fn a_sweep_ends_when_the_incoming_order_is_filled() {
    let mut engine = MatchingEngine::default();
    engine.insert(ask(1, 100, 4));
    engine.insert(ask(2, 100, 4));
    engine.insert(ask(3, 101, 4));
    let trades = engine.insert(bid(9, 105, 8));
    assert_eq!(trades, vec![ask(1, 100, 4), ask(2, 100, 4)]);
    assert_eq!(engine.order(9), None);
    assert_eq!(engine.best_bid(&aapl()), None);
    assert_eq!(engine.best_ask(&aapl()), Some(101));
    assert!(engine.queue(&aapl(), Side::ASK, 100).is_empty());
}

#[test]
fn a_resting_order_hit_in_part_keeps_its_place() {
    let mut engine = MatchingEngine::default();
    engine.insert(ask(1, 100, 10));
    engine.insert(ask(2, 100, 10));
    let trades = engine.insert(bid(9, 100, 4));
    assert_eq!(trades, vec![ask(1, 100, 4)]);
    assert_eq!(engine.order(1), Some(ask(1, 100, 6)));
    assert_eq!(engine.queue(&aapl(), Side::ASK, 100), vec![ask(1, 100, 6), ask(2, 100, 10)]);
    let trades = engine.insert(bid(10, 100, 7));
    assert_eq!(trades, vec![ask(1, 100, 6), ask(2, 100, 1)]);
    assert_eq!(engine.order(1), None);
    assert_eq!(engine.order(2), Some(ask(2, 100, 9)));
}

#[test]
fn traded_volume_never_exceeds_either_order() {
    let mut engine = MatchingEngine::default();
    engine.insert(bid(6, 142_350, 6));
    engine.insert(bid(7, 142_350, 12));
    engine.insert(bid(2, 142_340, 5));
    engine.insert(bid(1, 142_300, 3));
    let trades = engine.insert(ask(4, 142_340, 25));
    assert_eq!(
        trades,
        vec![bid(6, 142_350, 6), bid(7, 142_350, 12), bid(2, 142_340, 5)]
    );
    let traded: u64 = volumes(&trades).iter().sum();
    assert_eq!(traded, 23);
    assert_eq!(engine.order(4), Some(ask(4, 142_340, 2)));
    assert_eq!(engine.order(1), Some(bid(1, 142_300, 3)));
    assert_eq!(engine.best_bid(&aapl()), Some(142_300));
}

#[test]
fn the_index_follows_the_book() {
    let mut engine = MatchingEngine::default();
    engine.insert(bid(1, 100, 5));
    engine.insert(bid(2, 100, 5));
    engine.insert(bid(3, 99, 5));
    engine.insert(ask(4, 100, 7));
    assert_eq!(engine.order(1), None);
    assert_eq!(engine.order(2), Some(bid(2, 100, 3)));
    assert_eq!(engine.order(3), Some(bid(3, 99, 5)));
    assert_eq!(engine.order(4), None);
    engine.amend(2, 100, 1);
    assert_eq!(engine.order(2), Some(bid(2, 100, 1)));
    assert_eq!(engine.queue(&aapl(), Side::BID, 100), vec![bid(2, 100, 1)]);
    engine.amend(3, 101, 4);
    assert_eq!(engine.order(3), Some(bid(3, 101, 4)));
    assert_eq!(engine.queue(&aapl(), Side::BID, 101), vec![bid(3, 101, 4)]);
    assert!(engine.queue(&aapl(), Side::BID, 99).is_empty());
    engine.cancel(2);
    assert_eq!(engine.order(2), None);
    assert!(engine.queue(&aapl(), Side::BID, 100).is_empty());
    assert_eq!(engine.best_bid(&aapl()), Some(101));
}

#[test]
fn an_identifier_that_rests_is_turned_away() {
    let mut engine = MatchingEngine::default();
    engine.insert(ask(1, 100, 5));
    engine.insert(bid(2, 90, 5));
    assert!(engine.insert(bid(1, 100, 5)).is_empty());
    assert!(engine.insert(resting(2, "TSLA", Side::ASK, 1, 1)).is_empty());
    assert_eq!(engine.order(1), Some(ask(1, 100, 5)));
    assert_eq!(engine.order(2), Some(bid(2, 90, 5)));
    assert_eq!(engine.queue(&aapl(), Side::ASK, 100), vec![ask(1, 100, 5)]);
    assert_eq!(engine.best_bid(&aapl()), Some(90));
    assert_eq!(engine.best_ask(&"TSLA".to_string()), None);
}

#[test]
fn an_identifier_is_free_again_once_its_order_is_gone() {
    let mut engine = MatchingEngine::default();
    engine.insert(ask(1, 100, 5));
    engine.cancel(1);
    assert!(engine.insert(bid(1, 100, 5)).is_empty());
    assert_eq!(engine.order(1), Some(bid(1, 100, 5)));
    assert_eq!(engine.insert(ask(2, 100, 5)), vec![bid(1, 100, 5)]);
    assert!(engine.insert(ask(1, 100, 5)).is_empty());
    assert_eq!(engine.order(1), Some(ask(1, 100, 5)));
}

#[test]
fn an_order_without_volume_does_not_rest() {
    let mut engine = MatchingEngine::default();
    engine.insert(ask(1, 100, 5));
    assert!(engine.insert(bid(2, 100, 0)).is_empty());
    assert_eq!(engine.order(2), None);
    assert_eq!(engine.best_bid(&aapl()), None);
    assert_eq!(engine.order(1), Some(ask(1, 100, 5)));
}

#[test]
fn cancel_of_an_unknown_identifier_changes_nothing() {
    let mut engine = MatchingEngine::default();
    engine.cancel(7);
    assert_eq!(engine.best_bid(&aapl()), None);
    engine.insert(bid(1, 100, 5));
    engine.insert(ask(2, 101, 6));
    engine.cancel(7);
    assert_eq!(engine.order(1), Some(bid(1, 100, 5)));
    assert_eq!(engine.order(2), Some(ask(2, 101, 6)));
    assert_eq!(engine.order(7), None);
    assert_eq!(engine.queue(&aapl(), Side::BID, 100), vec![bid(1, 100, 5)]);
    assert_eq!(engine.queue(&aapl(), Side::ASK, 101), vec![ask(2, 101, 6)]);
    assert_eq!(engine.best_bid(&aapl()), Some(100));
    assert_eq!(engine.best_ask(&aapl()), Some(101));
}

#[test]
fn cancel_takes_the_order_out_of_its_queue() {
    let mut engine = MatchingEngine::default();
    engine.insert(bid(1, 100, 5));
    engine.insert(bid(2, 100, 6));
    engine.insert(bid(3, 100, 7));
    engine.cancel(2);
    assert_eq!(engine.order(2), None);
    assert_eq!(engine.queue(&aapl(), Side::BID, 100), vec![bid(1, 100, 5), bid(3, 100, 7)]);
    assert_eq!(identifiers(&engine.insert(ask(9, 100, 100))), vec![1, 3]);
}

#[test]
fn cancel_of_the_last_order_drops_the_level() {
    let mut engine = MatchingEngine::default();
    engine.insert(bid(1, 100, 5));
    engine.insert(bid(2, 99, 5));
    engine.insert(ask(3, 105, 5));
    engine.insert(ask(4, 106, 5));
    engine.cancel(1);
    assert_eq!(engine.best_bid(&aapl()), Some(99));
    engine.cancel(3);
    assert_eq!(engine.best_ask(&aapl()), Some(106));
    engine.cancel(2);
    engine.cancel(4);
    assert_eq!(engine.best_bid(&aapl()), None);
    assert_eq!(engine.best_ask(&aapl()), None);
}

#[test]
fn amend_to_a_smaller_volume_keeps_the_place_in_the_queue() {
    let mut engine = MatchingEngine::default();
    engine.insert(bid(1, 100, 5));
    engine.insert(bid(2, 100, 6));
    engine.insert(bid(3, 100, 7));
    assert!(engine.amend(1, 100, 3).is_empty());
    assert!(engine.amend(2, 100, 6).is_empty());
    assert_eq!(
        engine.queue(&aapl(), Side::BID, 100),
        vec![bid(1, 100, 3), bid(2, 100, 6), bid(3, 100, 7)]
    );
    assert_eq!(engine.order(1), Some(bid(1, 100, 3)));
    assert_eq!(engine.insert(ask(9, 100, 4)), vec![bid(1, 100, 3), bid(2, 100, 1)]);
}

#[test]
fn amend_to_a_larger_volume_goes_to_the_tail() {
    let mut engine = MatchingEngine::default();
    engine.insert(bid(1, 100, 5));
    engine.insert(bid(2, 100, 6));
    engine.insert(bid(3, 100, 7));
    assert!(engine.amend(1, 100, 6).is_empty());
    assert_eq!(
        engine.queue(&aapl(), Side::BID, 100),
        vec![bid(2, 100, 6), bid(3, 100, 7), bid(1, 100, 6)]
    );
    assert_eq!(engine.order(1), Some(bid(1, 100, 6)));
}

#[test]
fn amend_to_another_price_moves_the_order() {
    let mut engine = MatchingEngine::default();
    engine.insert(bid(1, 100, 5));
    engine.insert(bid(2, 100, 6));
    engine.insert(bid(3, 99, 7));
    assert!(engine.amend(1, 99, 2).is_empty());
    assert_eq!(engine.queue(&aapl(), Side::BID, 100), vec![bid(2, 100, 6)]);
    assert_eq!(engine.queue(&aapl(), Side::BID, 99), vec![bid(3, 99, 7), bid(1, 99, 2)]);
    assert_eq!(engine.order(1), Some(bid(1, 99, 2)));
}

#[test]
fn amend_to_a_crossing_price_trades_at_once() {
    let mut engine = MatchingEngine::default();
    engine.insert(bid(1, 459_500, 5));
    engine.insert(bid(2, 459_500, 6));
    engine.insert(ask(4, 460_000, 8));
    let trades = engine.amend(2, 460_000, 3);
    assert_eq!(trades, vec![ask(4, 460_000, 3)]);
    assert_eq!(engine.order(2), None);
    assert_eq!(engine.order(4), Some(ask(4, 460_000, 5)));
    assert_eq!(engine.queue(&aapl(), Side::BID, 459_500), vec![bid(1, 459_500, 5)]);
}

#[test]
fn amend_is_cancel_then_insert_when_it_does_not_keep_its_place() {
    let commands = |engine: &mut MatchingEngine| {
        engine.insert(ask(1, 100, 5));
        engine.insert(ask(2, 100, 6));
        engine.insert(bid(3, 98, 7));
        engine.insert(bid(4, 98, 1));
    };
    let mut amended = MatchingEngine::default();
    commands(&mut amended);
    let by_amend = amended.amend(3, 100, 8);
    let mut replaced = MatchingEngine::default();
    commands(&mut replaced);
    replaced.cancel(3);
    let by_insert = replaced.insert(bid(3, 100, 8));
    assert_eq!(by_amend, vec![ask(1, 100, 5), ask(2, 100, 3)]);
    assert_eq!(by_amend, by_insert);
    for order_id in 1..5 {
        assert_eq!(amended.order(order_id), replaced.order(order_id));
    }
    assert_eq!(amended.order(2), Some(ask(2, 100, 3)));
    assert_eq!(amended.order(3), None);
    assert_eq!(amended.best_bid(&aapl()), replaced.best_bid(&aapl()));
    assert_eq!(amended.best_ask(&aapl()), replaced.best_ask(&aapl()));
}

#[test]
fn amend_of_an_unknown_identifier_is_ignored() {
    let mut engine = MatchingEngine::default();
    engine.insert(bid(1, 100, 5));
    assert!(engine.amend(2, 100, 1).is_empty());
    assert!(engine.amend(2, 1, 1_000).is_empty());
    assert_eq!(engine.order(1), Some(bid(1, 100, 5)));
    assert_eq!(engine.order(2), None);
    assert_eq!(engine.queue(&aapl(), Side::BID, 100), vec![bid(1, 100, 5)]);
    assert_eq!(engine.best_ask(&aapl()), None);
}

#[test]
fn amend_to_no_volume_at_another_price_is_a_cancel() {
    let mut engine = MatchingEngine::default();
    engine.insert(bid(1, 100, 5));
    assert!(engine.amend(1, 101, 0).is_empty());
    assert_eq!(engine.order(1), None);
    assert_eq!(engine.best_bid(&aapl()), None);
}

#[test]
fn amend_to_no_volume_in_place_keeps_the_order_until_it_is_hit() {
    let mut engine = MatchingEngine::default();
    engine.insert(bid(1, 100, 5));
    engine.insert(bid(2, 100, 6));
    assert!(engine.amend(1, 100, 0).is_empty());
    assert_eq!(engine.order(1), Some(bid(1, 100, 0)));
    assert_eq!(engine.queue(&aapl(), Side::BID, 100), vec![bid(1, 100, 0), bid(2, 100, 6)]);
    let trades = engine.insert(ask(9, 100, 2));
    assert_eq!(trades, vec![bid(1, 100, 0), bid(2, 100, 2)]);
    assert_eq!(engine.order(1), None);
    assert_eq!(engine.order(2), Some(bid(2, 100, 4)));
}

#[test]
fn three_bids_at_one_price_are_drained_in_the_order_they_came() {
    let mut engine = MatchingEngine::default();
    engine.insert(resting(1, "WEBB", Side::BID, 459_500, 3));
    engine.insert(resting(2, "WEBB", Side::BID, 459_500, 3));
    engine.insert(resting(3, "WEBB", Side::BID, 459_500, 300));
    assert!(engine.insert(resting(11, "WEBB", Side::ASK, 460_000, 8)).is_empty());
    assert!(engine.amend(11, 460_000, 1_000).is_empty());
    assert_eq!(engine.order(11), Some(resting(11, "WEBB", Side::ASK, 460_000, 1_000)));
    let trades = engine.amend(11, 450_001, 1_000);
    assert_eq!(
        trades,
        vec![
            resting(1, "WEBB", Side::BID, 459_500, 3),
            resting(2, "WEBB", Side::BID, 459_500, 3),
            resting(3, "WEBB", Side::BID, 459_500, 300),
        ]
    );
    let webb = "WEBB".to_string();
    assert_eq!(engine.best_bid(&webb), None);
    assert!(engine.queue(&webb, Side::BID, 459_500).is_empty());
    assert_eq!(engine.order(11), Some(resting(11, "WEBB", Side::ASK, 450_001, 694)));
    assert_eq!(engine.best_ask(&webb), Some(450_001));
}

#[test]
fn every_symbol_has_its_own_book() {
    let mut engine = MatchingEngine::default();
    engine.insert(resting(1, "WEBB", Side::BID, 3_854, 5));
    engine.insert(resting(2, "TSLA", Side::BID, 4_120_000, 31));
    assert!(engine.insert(resting(4, "AAPL", Side::ASK, 3_000, 8)).is_empty());
    assert_eq!(engine.best_bid(&"WEBB".to_string()), Some(3_854));
    assert_eq!(engine.best_bid(&"TSLA".to_string()), Some(4_120_000));
    assert_eq!(engine.best_bid(&aapl()), None);
    assert_eq!(engine.best_ask(&aapl()), Some(3_000));
    let trades = engine.insert(resting(11, "WEBB", Side::ASK, 3_854, 4));
    assert_eq!(trades, vec![resting(1, "WEBB", Side::BID, 3_854, 4)]);
    engine.cancel(2);
    assert_eq!(engine.best_bid(&"TSLA".to_string()), None);
    assert_eq!(engine.best_bid(&"WEBB".to_string()), Some(3_854));
}

#[test]
fn levels_are_kept_in_order_of_price() {
    let mut engine = MatchingEngine::default();
    for (order_id, price) in [(1u64, 105u64), (2, 101), (3, 109), (4, 103), (5, 101), (6, 107)] {
        engine.insert(ask(order_id, price, 1));
    }
    assert_eq!(engine.best_ask(&aapl()), Some(101));
    let trades = engine.insert(bid(9, 200, 10));
    assert_eq!(identifiers(&trades), vec![2, 5, 4, 1, 6, 3]);
    assert_eq!(prices(&trades), vec![101, 101, 103, 105, 107, 109]);
    assert_eq!(engine.best_ask(&aapl()), None);
    assert_eq!(engine.order(9), Some(bid(9, 200, 4)));
}

#[test]
fn the_largest_values_are_handled() {
    let mut engine = MatchingEngine::default();
    engine.insert(ask(u64::MAX, u64::MAX, u64::MAX));
    engine.insert(ask(1, 0, u64::MAX));
    let trades = engine.insert(bid(2, u64::MAX, u64::MAX));
    assert_eq!(trades, vec![ask(1, 0, u64::MAX)]);
    assert_eq!(engine.order(2), None);
    let trades = engine.insert(bid(3, u64::MAX, 1));
    assert_eq!(trades, vec![ask(u64::MAX, u64::MAX, 1)]);
    assert_eq!(engine.order(u64::MAX), Some(ask(u64::MAX, u64::MAX, u64::MAX - 1)));
}
