//! Order-book behaviour: placing, matching and cancelling. Sizes and prices
//! are in tenths of a unit.

use yolo_core::Order;
use yolo_core::OrderBook;
use yolo_core::OrderBookError;
use yolo_core::Side;

#[test]
fn test_market_bid_fully_matches_limit_ask() {
    let mut order_book = OrderBook::new();

    let ask_price = 1000;
    let ask_order = Order::ask(50);
    let ask_order_id = ask_order.id;

    order_book.place_limit_order(ask_price, ask_order);

    assert_eq!(order_book.ask_total_volume, 50);

    let mut market_bid_order = Order::bid(50);
    let market_bid_order_id = market_bid_order.id;

    let result = order_book.place_market_order(&mut market_bid_order);
    assert!(result.is_ok());
    let matches = result.unwrap();
    assert_eq!(matches.len(), 1);

    let market_match = &matches[0];
    assert_eq!(market_match.bid.id, market_bid_order_id);
    assert_eq!(market_match.ask.id, ask_order_id);
    assert_eq!(market_match.size_filled, 50);
    assert_eq!(market_match.price, ask_price);

    assert!(market_bid_order.is_filled());
    assert_eq!(order_book.ask_total_volume, 0);
    assert_eq!(order_book.asks.len(), 0);
}

#[test]
fn test_market_ask_partially_matches_multiple_limits() {
    let mut order_book = OrderBook::new();

    let bid_price1 = 1020;
    let bid_price2 = 1010;
    let bid_price3 = 1000;

    let bid_order1 = Order::bid(30);
    let bid_order2 = Order::bid(20);
    let bid_order3 = Order::bid(40);

    let bid_id1 = bid_order1.id;
    let bid_id2 = bid_order2.id;

    order_book.place_limit_order(bid_price1, bid_order1);
    order_book.place_limit_order(bid_price2, bid_order2);
    order_book.place_limit_order(bid_price3, bid_order3);
    assert_eq!(order_book.bid_total_volume, 90);

    let mut market_order = Order::ask(50);

    let result = order_book.place_market_order(&mut market_order);

    assert!(result.is_ok());
    let matches = result.unwrap();
    assert_eq!(matches.len(), 2); // Should match against two highest bids

    assert_eq!(matches[0].price, bid_price1);
    assert_eq!(matches[0].bid.id, bid_id1);
    assert_eq!(matches[0].size_filled, 30);

    assert_eq!(matches[1].price, bid_price2);
    assert_eq!(matches[1].bid.id, bid_id2);
    assert_eq!(matches[1].size_filled, 20);

    assert!(market_order.is_filled());
    assert_eq!(order_book.bid_total_volume, 40); // Only the lowest bid remains
    assert_eq!(order_book.bids.len(), 1);
    assert!(order_book.bids.iter().any(|l| l.price == bid_price3));
}

#[test]
fn test_market_order_fails_with_insufficient_volume() {
    let mut orderbook = OrderBook::new();

    let ask_price = 1000;
    let ask_order = Order::ask(20);

    orderbook.place_limit_order(ask_price, ask_order);
    assert_eq!(orderbook.ask_total_volume, 20);

    let mut market_order = Order::bid(50);

    let result = orderbook.place_market_order(&mut market_order);

    assert!(result.is_err());

    match result {
        Err(OrderBookError::NotEnoughVolume { side, expected_volume, actual_volume }) => {
            assert_eq!(side, Side::Bid);
            assert_eq!(expected_volume, 50);
            assert_eq!(actual_volume, 20);
        }
        _ => panic!("Expected NotEnoughVolume error"),
    }

    assert_eq!(orderbook.ask_total_volume, 20);
    assert_eq!(orderbook.asks.len(), 1);
    assert!(!market_order.is_filled());
}

#[test]
fn test_place_single_bid_limit_order() {
    let mut order_book = OrderBook::new();

    let price = 1000;
    let bid_order = Order::bid(50);
    let bid_order_id = bid_order.id;

    order_book.place_limit_order(price, bid_order);

    assert_eq!(order_book.bid_total_volume, 50);
    assert_eq!(order_book.ask_total_volume, 0);

    assert!(order_book.bids.iter().any(|l| l.price == price));
    assert!(order_book.contains_order(bid_order_id));

    assert_eq!(order_book.bids.len(), 1);
    assert_eq!(order_book.asks.len(), 0);

    let limit = order_book.bids.iter().find(|l| l.price == price).unwrap();
    assert_eq!(limit.price, price);
    assert_eq!(limit.total_volume, 50);
    assert!(limit.orders.iter().any(|o| o.id == bid_order_id));
    assert_eq!(limit.orders.len(), 1);
}

#[test]
fn test_place_multiple_ask_limit_orders_at_same_price() {
    let mut order_book = OrderBook::new();

    let price = 500;

    let ask_order1 = Order::ask(20);
    let ask_order2 = Order::ask(30);
    let ask_order3 = Order::ask(15);

    let ask_order1_id = ask_order1.id;
    let ask_order2_id = ask_order2.id;
    let ask_order3_id = ask_order3.id;

    order_book.place_limit_order(price, ask_order1);
    order_book.place_limit_order(price, ask_order2);
    order_book.place_limit_order(price, ask_order3);

    assert_eq!(order_book.ask_total_volume, 65);
    assert_eq!(order_book.bids.len(), 0);
    assert!(order_book.asks.iter().any(|l| l.price == price));

    assert!(order_book.contains_order(ask_order1_id));
    assert!(order_book.contains_order(ask_order2_id));
    assert!(order_book.contains_order(ask_order3_id));

    let limit = order_book.asks.iter().find(|l| l.price == price).unwrap();

    assert_eq!(limit.total_volume, 65);
    assert_eq!(limit.price, price);
    assert!(limit.orders.iter().any(|o| o.id == ask_order1_id));
    assert!(limit.orders.iter().any(|o| o.id == ask_order2_id));
    assert!(limit.orders.iter().any(|o| o.id == ask_order3_id));
    assert_eq!(limit.orders.len(), 3);
}

#[test]
fn test_place_multiple_limit_orders_at_multiple_price_levels() {
    let mut order_book = OrderBook::new();

    let bid_price1 = 900;
    let bid_price2 = 950;

    let ask_price1 = 1100;

    let bid_order1 = Order::bid(10);
    let bid_order2 = Order::bid(20);
    let bid_order3 = Order::bid(30);

    let ask_order = Order::ask(30);

    order_book.place_limit_order(bid_price1, bid_order1);
    order_book.place_limit_order(bid_price2, bid_order2);
    order_book.place_limit_order(bid_price2, bid_order3);
    order_book.place_limit_order(ask_price1, ask_order);

    assert_eq!(order_book.bid_total_volume, 60);
    assert_eq!(order_book.ask_total_volume, 30);

    assert_eq!(order_book.bids.len(), 2);
    assert_eq!(order_book.asks.len(), 1);

    assert!(order_book.bids.iter().any(|l| l.price == bid_price1));
    assert!(order_book.bids.iter().any(|l| l.price == bid_price2));
    assert!(order_book.asks.iter().any(|l| l.price == ask_price1));

    assert_eq!(
        order_book.bids.iter().find(|l| l.price == bid_price1).unwrap().total_volume,
        10
    );
    assert_eq!(
        order_book.bids.iter().find(|l| l.price == bid_price2).unwrap().total_volume,
        50
    );
    assert_eq!(
        order_book.asks.iter().find(|l| l.price == ask_price1).unwrap().total_volume,
        30
    );
}

#[test]
fn test_cancel_bid_order() {
    let mut order_book = OrderBook::new();
    let price = 1000;
    let bid_order = Order::bid(50);
    let bid_order_id = bid_order.id;

    order_book.place_limit_order(price, bid_order);
    assert_eq!(order_book.bid_total_volume, 50);
    assert_eq!(order_book.bids.len(), 1);

    let cancelled_order = order_book.cancel_order(bid_order_id).unwrap();

    assert_eq!(cancelled_order.id, bid_order_id);
    assert_eq!(order_book.bid_total_volume, 0);
    assert_eq!(order_book.bids.len(), 0);
}

#[test]
fn test_cancel_ask_order() {
    let mut order_book = OrderBook::new();
    let price = 1000;
    let ask_order = Order::ask(50);
    let ask_order_id = ask_order.id;

    order_book.place_limit_order(price, ask_order);
    assert_eq!(order_book.ask_total_volume, 50);

    let cancelled_order = order_book.cancel_order(ask_order_id).unwrap();

    assert_eq!(cancelled_order.id, ask_order_id);
    assert_eq!(order_book.ask_total_volume, 0);
    assert_eq!(order_book.asks.len(), 0);
}

#[test]
fn test_cancel_one_of_multiple_orders_at_price_level() {
    let mut order_book = OrderBook::new();
    let price = 1000;

    let order1 = Order::bid(10);
    let order2 = Order::bid(20);
    let order3 = Order::bid(30);

    let id1 = order1.id;
    let id2 = order2.id;
    let id3 = order3.id;

    order_book.place_limit_order(price, order1);
    order_book.place_limit_order(price, order2);
    order_book.place_limit_order(price, order3);

    assert_eq!(order_book.bid_total_volume, 60);

    let cancelled_order = order_book.cancel_order(id2).unwrap();

    assert_eq!(cancelled_order.id, id2);
    assert_eq!(order_book.bid_total_volume, 40); // 60 - 20 = 40
    assert_eq!(order_book.bids.len(), 1);

    let limit = order_book.bids.iter().find(|l| l.price == price).unwrap();
    assert_eq!(limit.orders.len(), 2);
    assert!(limit.orders.iter().any(|o| o.id == id1));
    assert!(limit.orders.iter().any(|o| o.id == id3));
}

#[test]
fn test_cancel_twice_reports_order_not_found() {
    let mut order_book = OrderBook::new();
    let price = 1000;

    let order1 = Order::bid(10);
    let order2 = Order::bid(20);
    let order3 = Order::bid(30);
    let id2 = order2.id;

    order_book.place_limit_order(price, order1);
    order_book.place_limit_order(price, order2);
    order_book.place_limit_order(price, order3);

    let cancelled = order_book.cancel_order(id2).unwrap();
    assert_eq!(cancelled.id, id2);
    assert_eq!(order_book.bid_total_volume, 40);
    assert!(!order_book.contains_order(id2));

    match order_book.cancel_order(id2) {
        Err(OrderBookError::OrderNotFound(id)) => assert_eq!(id, id2),
        _ => panic!("Expected OrderNotFound error"),
    }
    assert_eq!(order_book.bid_total_volume, 40);
    assert_eq!(order_book.bids.len(), 1);
}

#[test]
fn test_cancel_on_empty_book_reports_order_not_found() {
    let mut order_book = OrderBook::new();
    match order_book.cancel_order(42) {
        Err(OrderBookError::OrderNotFound(id)) => assert_eq!(id, 42),
        _ => panic!("Expected OrderNotFound error"),
    }
    assert_eq!(order_book.asks.len(), 0);
    assert_eq!(order_book.bids.len(), 0);
}

#[test]
fn test_zero_size_market_order_matches_nothing() {
    let mut order_book = OrderBook::new();
    order_book.place_limit_order(1000, Order::ask(20));

    let mut market_order = Order::bid(0);
    let matches = order_book.place_market_order(&mut market_order).unwrap();

    assert_eq!(matches.len(), 0);
    assert!(market_order.is_filled());
    assert_eq!(order_book.ask_total_volume, 20);
    assert_eq!(order_book.asks.len(), 1);
}

#[test]
fn test_market_order_consumes_entire_side() {
    let mut order_book = OrderBook::new();
    order_book.place_limit_order(1000, Order::ask(20));
    order_book.place_limit_order(1010, Order::ask(30));

    let mut market_order = Order::bid(50);
    let matches = order_book.place_market_order(&mut market_order).unwrap();

    assert_eq!(matches.len(), 2);
    assert!(market_order.is_filled());
    assert_eq!(order_book.ask_total_volume, 0);
    assert_eq!(order_book.asks.len(), 0);
    // The consumed resting orders also left the cancellation index.
    assert!(!order_book.contains_order(matches[0].ask.id));
    assert!(!order_book.contains_order(matches[1].ask.id));
}

#[test]
fn test_volumes_track_resident_orders() {
    let mut order_book = OrderBook::new();
    let bid1 = Order::bid(10);
    let bid1_id = bid1.id;
    order_book.place_limit_order(950, bid1);
    order_book.place_limit_order(960, Order::bid(25));
    order_book.place_limit_order(1040, Order::ask(40));
    order_book.place_limit_order(1050, Order::ask(5));

    order_book.cancel_order(bid1_id).unwrap();
    let mut market_ask = Order::ask(20);
    order_book.place_market_order(&mut market_ask).unwrap();

    let bid_sum: u64 = order_book.bid_orders().iter().map(|(_, o)| o.size).sum();
    let ask_sum: u64 = order_book.ask_orders().iter().map(|(_, o)| o.size).sum();
    assert_eq!(order_book.bid_total_volume, bid_sum);
    assert_eq!(order_book.ask_total_volume, ask_sum);
    assert_eq!(order_book.bid_total_volume, 5);
    assert_eq!(order_book.ask_total_volume, 45);
}

#[test]
fn test_snapshot_lists_orders_best_price_first() {
    let mut order_book = OrderBook::new();
    order_book.place_limit_order(1010, Order::ask(10));
    order_book.place_limit_order(1000, Order::ask(20));
    order_book.place_limit_order(950, Order::bid(30));
    order_book.place_limit_order(960, Order::bid(40));

    let asks = order_book.ask_orders();
    let bids = order_book.bid_orders();

    assert_eq!(asks.len(), 2);
    assert_eq!(asks[0].0, 1000);
    assert_eq!(asks[0].1.size, 20);
    assert_eq!(asks[1].0, 1010);
    assert_eq!(asks[1].1.size, 10);

    assert_eq!(bids.len(), 2);
    assert_eq!(bids[0].0, 960);
    assert_eq!(bids[0].1.size, 40);
    assert_eq!(bids[1].0, 950);
    assert_eq!(bids[1].1.size, 30);
}
