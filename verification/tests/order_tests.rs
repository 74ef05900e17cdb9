//! Orders, sides and the arrival-order key.

use yolo_core::Order;
use yolo_core::OrderByTimestamp;
use yolo_core::ServerEnv;
use yolo_core::Side;

#[test]
fn test_side_opposite() {
    assert_eq!(Side::Bid.opposite(), Side::Ask);
    assert_eq!(Side::Ask.opposite(), Side::Bid);
}

#[test]
fn test_side_names() {
    assert_eq!(Side::Bid.as_str(), "bid");
    assert_eq!(Side::Ask.as_str(), "ask");
}

#[test]
fn test_order_constructors() {
    let bid = Order::bid(50);
    assert_eq!(bid.side, Side::Bid);
    assert_eq!(bid.size, 50);
    assert!(!bid.is_filled());

    let ask = Order::ask(20);
    assert_eq!(ask.side, Side::Ask);
    assert_eq!(ask.size, 20);

    let empty = Order::new(Side::Bid, 0);
    assert!(empty.is_filled());
}

#[test]
fn test_orders_are_equal_by_id() {
    let a = Order { id: 7, size: 10, side: Side::Bid, timestamp: 1 };
    let b = Order { id: 7, size: 99, side: Side::Ask, timestamp: 5 };
    let c = Order { id: 8, size: 10, side: Side::Bid, timestamp: 1 };
    assert_eq!(a, b);
    assert_ne!(a, c);
}

#[test]
fn test_order_by_timestamp_ranks_by_arrival_then_id() {
    let early = OrderByTimestamp(Order { id: 5, size: 10, side: Side::Bid, timestamp: 1 });
    let late = OrderByTimestamp(Order { id: 3, size: 10, side: Side::Bid, timestamp: 2 });
    let tied_low = OrderByTimestamp(Order { id: 2, size: 10, side: Side::Bid, timestamp: 2 });
    assert!(early.lt(&late));
    assert!(!late.lt(&early));
    assert!(tied_low.lt(&late));
    assert!(!late.lt(&tied_low));
}

#[test]
fn test_server_env_names() {
    assert_eq!(ServerEnv::Local.as_str(), "local");
    assert_eq!(ServerEnv::Production.as_str(), "production");
}
