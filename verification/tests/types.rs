use lob::types::{MAX_PRICE, MAX_QTY};
use lob::{OrderType, Price, Qty, Side};

#[test]
fn price_bounds() {
    assert!(!Price(0).is_valid());
    assert!(!Price(-1).is_valid());
    assert!(Price(1).is_valid());
    assert!(Price(MAX_PRICE).is_valid());
    assert!(!Price(MAX_PRICE + 1).is_valid());
    assert!(!Price(i64::MIN).is_valid());
}

#[test]
fn qty_bounds() {
    assert!(!Qty(0).is_valid());
    assert!(Qty(1).is_valid());
    assert!(Qty(MAX_QTY).is_valid());
    assert!(!Qty(MAX_QTY + 1).is_valid());
    assert!(!Qty(u64::MAX).is_valid());
}

#[test]
fn level_total_cannot_overflow() {
    assert!(u128::from(MAX_QTY) * u128::from(u32::MAX) < u128::from(u64::MAX));
}

#[test]
fn crossing_is_inclusive_and_side_dependent() {
    let p = Price(100);
    assert!(Side::Buy.crosses(Price(100), p));
    assert!(Side::Buy.crosses(Price(101), p));
    assert!(!Side::Buy.crosses(Price(99), p));
    assert!(Side::Sell.crosses(Price(100), p));
    assert!(Side::Sell.crosses(Price(99), p));
    assert!(!Side::Sell.crosses(Price(101), p));
}

#[test]
fn opposite_is_an_involution() {
    for side in [Side::Buy, Side::Sell] {
        assert_ne!(side.opposite(), side);
        assert_eq!(side.opposite().opposite(), side);
    }
}

#[test]
fn market_has_no_limit() {
    assert_eq!(OrderType::Market.limit(), None);
    assert_eq!(OrderType::Ioc { price: Price(5) }.limit(), Some(Price(5)));
    assert_eq!(OrderType::Limit { price: Price(7) }.limit(), Some(Price(7)));
}

#[test]
fn zero_quantity_is_zero_and_invalid() {
    assert!(Qty(0).is_zero());
    assert!(!Qty(1).is_zero());
    assert!(!Qty(0).is_valid());
}
