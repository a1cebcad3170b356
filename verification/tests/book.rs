use lob::{LevelSummary, OrderBook, OrderId, Price, Qty, RestingOrder, SeqNo, Side};

fn book(orders: &[(Side, i64, u64)]) -> OrderBook {
    let mut b = OrderBook::new();
    for (i, &(side, price, qty)) in (1u64..).zip(orders) {
        b.insert(OrderId(i), side, Price(price), Qty(qty), SeqNo(i));
    }
    b
}

fn summary(price: i64, qty: u64, orders: u32) -> LevelSummary {
    LevelSummary {
        price: Price(price),
        qty: Qty(qty),
        orders,
    }
}

#[test]
fn empty_book_has_no_top() {
    let b = OrderBook::new();
    assert!(b.is_empty());
    assert_eq!((b.best_bid(), b.best_ask()), (None, None));
    assert!(b.depth(Side::Buy, 10).is_empty());
}

#[test]
fn best_prices_track_the_inside() {
    let b = book(&[
        (Side::Buy, 99, 1),
        (Side::Buy, 100, 1),
        (Side::Buy, 98, 1),
        (Side::Sell, 102, 1),
        (Side::Sell, 101, 1),
        (Side::Sell, 103, 1),
    ]);
    assert_eq!(b.best_bid(), Some(Price(100)));
    assert_eq!(b.best_ask(), Some(Price(101)));
    assert_eq!(b.best(Side::Buy), b.best_bid());
    assert_eq!(b.best(Side::Sell), b.best_ask());
    assert_eq!(b.len(), 6);
}

#[test]
fn depth_is_best_first_and_aggregated() {
    let b = book(&[
        (Side::Buy, 99, 5),
        (Side::Buy, 100, 2),
        (Side::Buy, 99, 3),
        (Side::Sell, 105, 4),
        (Side::Sell, 104, 1),
        (Side::Sell, 104, 6),
    ]);
    assert_eq!(
        b.depth(Side::Buy, 10),
        [summary(100, 2, 1), summary(99, 8, 2)]
    );
    assert_eq!(
        b.depth(Side::Sell, 10),
        [summary(104, 7, 2), summary(105, 4, 1)]
    );
    assert_eq!(b.depth(Side::Sell, 1), [summary(104, 7, 2)]);
}

#[test]
fn level_orders_are_in_time_priority() {
    let b = book(&[
        (Side::Sell, 50, 3),
        (Side::Sell, 51, 1),
        (Side::Sell, 50, 4),
    ]);
    let ids: Vec<_> = b
        .level_orders(Side::Sell, Price(50))
        .iter()
        .map(|o| o.id)
        .collect();
    assert_eq!(ids, [OrderId(1), OrderId(3)]);
    assert!(b.level_orders(Side::Buy, Price(50)).is_empty());
}

#[test]
fn remove_updates_level_and_drops_empty_levels() {
    let mut b = book(&[(Side::Buy, 10, 3), (Side::Buy, 10, 4), (Side::Buy, 9, 5)]);
    let removed = b.remove(OrderId(1)).unwrap();
    assert_eq!((removed.price, removed.qty), (Price(10), Qty(3)));
    assert_eq!(
        b.depth(Side::Buy, 10),
        [summary(10, 4, 1), summary(9, 5, 1)]
    );

    b.remove(OrderId(2)).unwrap();
    assert_eq!(b.best_bid(), Some(Price(9)));
    assert_eq!(b.depth(Side::Buy, 10), [summary(9, 5, 1)]);
    assert_eq!(b.order(OrderId(2)), None);
    assert_eq!(b.len(), 1);
}

#[test]
fn removing_unknown_or_removed_id_is_none() {
    let mut b = book(&[(Side::Sell, 10, 1)]);
    assert_eq!(b.remove(OrderId(99)), None);
    assert!(b.remove(OrderId(1)).is_some());
    assert_eq!(b.remove(OrderId(1)), None);
    assert!(b.is_empty());
}

#[test]
fn order_lookup_reports_resting_state() {
    let b = book(&[(Side::Buy, 7, 11)]);
    let o = b.order(OrderId(1)).unwrap();
    assert_eq!(
        o,
        RestingOrder {
            id: OrderId(1),
            side: Side::Buy,
            price: Price(7),
            qty: Qty(11),
            seq: SeqNo(1),
        }
    );
}

#[test]
fn reduce_keeps_queue_position() {
    let mut b = book(&[(Side::Sell, 10, 5), (Side::Sell, 10, 5)]);
    b.reduce(OrderId(1), Qty(2));
    assert_eq!(b.depth(Side::Sell, 1), [summary(10, 7, 2)]);
    let queue: Vec<_> = b
        .level_orders(Side::Sell, Price(10))
        .iter()
        .map(|o| (o.id, o.qty))
        .collect();
    assert_eq!(queue, [(OrderId(1), Qty(2)), (OrderId(2), Qty(5))]);
}

#[test]
fn orders_lists_a_side_in_priority_order() {
    let b = book(&[
        (Side::Buy, 99, 5),
        (Side::Buy, 100, 2),
        (Side::Buy, 99, 3),
        (Side::Sell, 104, 6),
    ]);
    let ids: Vec<_> = b.orders(Side::Buy).iter().map(|o| o.id.0).collect();
    assert_eq!(ids, [2, 1, 3]);
    assert_eq!(b.front(Side::Sell).map(|o| o.id), Some(OrderId(4)));
    assert!(b.level_orders(Side::Buy, Price(i64::MIN)).is_empty());
}

#[test]
fn removed_order_is_gone_and_levels_add_up() {
    let mut b = book(&[
        (Side::Buy, 10, 3),
        (Side::Buy, 10, 4),
        (Side::Buy, 9, 5),
        (Side::Sell, 12, 1),
    ]);
    let orders: u32 = b.depth(Side::Buy, usize::MAX).iter().map(|l| l.orders).sum::<u32>()
        + b.depth(Side::Sell, usize::MAX).iter().map(|l| l.orders).sum::<u32>();
    assert_eq!(orders as usize, b.len());
    b.remove(OrderId(2)).unwrap();
    assert_eq!(b.order(OrderId(2)), None);
    assert_eq!(b.len(), 3);
    assert_eq!(b.remove(OrderId(2)), None);
    assert_eq!(b.len(), 3);
    let prices: Vec<Price> = b.depth(Side::Buy, usize::MAX).iter().map(|l| l.price).collect();
    assert_eq!(prices, [Price(10), Price(9)]);
}

#[test]
fn every_level_order_is_found_under_its_id() {
    let b = book(&[
        (Side::Buy, 10, 3),
        (Side::Buy, 10, 4),
        (Side::Buy, 9, 5),
        (Side::Sell, 12, 1),
        (Side::Sell, 12, 2),
    ]);
    for (side, price) in [(Side::Buy, 10), (Side::Buy, 9), (Side::Sell, 12)] {
        for o in b.level_orders(side, Price(price)) {
            assert_eq!(o.side, side);
            assert_eq!(o.price, Price(price));
            assert_eq!(b.order(o.id), Some(o));
        }
    }
}

#[test]
fn depth_is_a_prefix_in_price_order_with_level_totals() {
    let b = book(&[
        (Side::Buy, 10, 3),
        (Side::Buy, 12, 4),
        (Side::Buy, 10, 6),
        (Side::Buy, 9, 5),
        (Side::Sell, 14, 1),
        (Side::Sell, 13, 2),
    ]);
    let all = b.depth(Side::Buy, usize::MAX);
    assert_eq!(all.len(), 3);
    assert_eq!(b.depth(Side::Buy, 2), all[..2]);
    assert_eq!(Some(all[0].price), b.best(Side::Buy));
    assert!(all.windows(2).all(|w| w[0].price > w[1].price));
    for l in &all {
        let orders = b.level_orders(Side::Buy, l.price);
        assert_eq!(l.orders as usize, orders.len());
        assert_eq!(l.qty.0, orders.iter().map(|o| o.qty.0).sum::<u64>());
    }
    let asks = b.depth(Side::Sell, usize::MAX);
    assert!(asks.windows(2).all(|w| w[0].price < w[1].price));
    assert_eq!(Some(asks[0].price), b.best(Side::Sell));
    let total: u32 = all.iter().chain(&asks).map(|l| l.orders).sum();
    assert_eq!(total as usize, b.len());
}
