//! Price-level behaviour: insertion, removal, arrival ordering and the
//! in-level matching step. Sizes and prices are in tenths of a unit.

use yolo_core::Limit;
use yolo_core::Order;
use yolo_core::Side;

#[test]
fn test_add_and_remove_order() {
    let mut limit = Limit::new(420);
    let order1 = Order::bid(10);
    let order2 = Order::ask(25);

    limit.add_order(order1.clone());
    limit.add_order(order2.clone());

    assert_eq!(limit.orders.len(), 2);
    assert_eq!(limit.total_volume, order1.size + order2.size);

    let removed1 = limit.remove_order(order1.id);
    assert_eq!(removed1, Some(order1));
    assert_eq!(limit.orders.len(), 1);
    assert_eq!(limit.total_volume, order2.size);

    let removed2 = limit.remove_order(order2.id);
    assert_eq!(removed2, Some(order2));
    assert_eq!(limit.orders.len(), 0);
    assert_eq!(limit.total_volume, 0);
}

#[test]
fn test_orders_by_timestamp_are_sorted() {
    let mut limit = Limit::new(1000);
    let order1 = Order { id: 1, size: 10, side: Side::Bid, timestamp: 5 };
    let order2 = Order { id: 2, size: 20, side: Side::Ask, timestamp: 2 };
    let order3 = Order { id: 3, size: 30, side: Side::Bid, timestamp: 3 };
    let order4 = Order { id: 4, size: 40, side: Side::Ask, timestamp: 7 };

    limit.add_order(order1.clone());
    limit.add_order(order2.clone());
    limit.add_order(order3.clone());
    limit.add_order(order4.clone());

    limit.remove_order(order1.id);
    limit.remove_order(order3.id);

    let timestamps = limit.orders.iter().map(|o| o.timestamp).collect::<Vec<_>>();

    assert_eq!(timestamps, vec![2, 7]);
}

#[test]
fn test_fill_respects_arrival_order() {
    let mut limit = Limit::new(1000);
    // Inserted out of arrival order; ids break the timestamp tie.
    let late = Order { id: 1, size: 10, side: Side::Ask, timestamp: 5 };
    let first = Order { id: 2, size: 10, side: Side::Ask, timestamp: 2 };
    let second = Order { id: 3, size: 10, side: Side::Ask, timestamp: 2 };
    limit.add_order(late);
    limit.add_order(second);
    limit.add_order(first);

    let mut taker = Order { id: 9, size: 25, side: Side::Bid, timestamp: 10 };
    let matches = limit.fill(&mut taker);

    assert_eq!(matches.len(), 3);
    assert_eq!(matches[0].ask.id, 2);
    assert_eq!(matches[1].ask.id, 3);
    assert_eq!(matches[2].ask.id, 1);
    assert_eq!(matches[0].size_filled, 10);
    assert_eq!(matches[1].size_filled, 10);
    assert_eq!(matches[2].size_filled, 5);
    assert!(taker.is_filled());
    // The partially filled latest arrival stays resident.
    assert_eq!(limit.orders.len(), 1);
    assert_eq!(limit.orders[0].id, 1);
    assert_eq!(limit.orders[0].size, 5);
    assert_eq!(limit.total_volume, 5);
}

#[test]
fn test_fill_prices_every_match_at_limit_price() {
    let mut limit = Limit::new(777);
    limit.add_order(Order { id: 1, size: 10, side: Side::Bid, timestamp: 1 });
    limit.add_order(Order { id: 2, size: 10, side: Side::Bid, timestamp: 2 });

    let mut taker = Order { id: 9, size: 15, side: Side::Ask, timestamp: 3 };
    let matches = limit.fill(&mut taker);

    assert_eq!(matches.len(), 2);
    for m in &matches {
        assert_eq!(m.price, 777);
        assert!(m.size_filled > 0);
    }
    // The maker snapshot is the resting bid, never the aggressor.
    assert_eq!(matches[0].maker(Side::Ask).id, 1);
    assert_eq!(matches[1].maker(Side::Ask).id, 2);
}

#[test]
fn test_remove_missing_order_is_reported() {
    let mut limit = Limit::new(100);
    limit.add_order(Order { id: 1, size: 10, side: Side::Bid, timestamp: 1 });
    assert_eq!(limit.remove_order(2), None);
    assert_eq!(limit.orders.len(), 1);
    assert_eq!(limit.total_volume, 10);
}
