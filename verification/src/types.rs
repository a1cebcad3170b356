//! Primitive domain types.
//!
//! Prices and quantities are integers (ticks and lots). The newtypes can hold
//! out-of-range values so that bad input can be represented and rejected by
//! the engine; code past validation relies on [`Price::is_valid`] and
//! [`Qty::is_valid`].
use vstd::prelude::*;

verus! {

/// Largest accepted price, in ticks.
pub const MAX_PRICE: i64 = 1_000_000_000;

/// Largest accepted order quantity, in lots.
///
/// With at most `u32::MAX` resting orders at one price, a level total is
/// bounded by `MAX_QTY * u32::MAX < u64::MAX`, so level accounting cannot
/// overflow.
pub const MAX_QTY: u64 = 1_000_000_000;

/// A price in ticks. Valid prices are `1..=MAX_PRICE`.
#[derive(Clone, Copy, Debug, PartialEq, Eq, PartialOrd, Ord, Hash, Structural)]
pub struct Price(pub i64);

/// Whether a raw price lies in `1..=MAX_PRICE`.
pub open spec fn price_in_range(p: i64) -> bool {
    1 <= p <= MAX_PRICE
}

/// Whether a raw quantity lies in `1..=MAX_QTY`.
pub open spec fn qty_in_range(q: u64) -> bool {
    1 <= q <= MAX_QTY
}

impl Price {
    /// Whether the price is inside the accepted range.
    pub fn is_valid(self) -> (r: bool)
        ensures
            r == price_in_range(self.0),
    {
        self.0 >= 1 && self.0 <= MAX_PRICE
    }
}

/// A quantity in lots. Valid order quantities are `1..=MAX_QTY`.
#[derive(Clone, Copy, Debug, PartialEq, Eq, PartialOrd, Ord, Hash, Default, Structural)]
pub struct Qty(pub u64);

impl Qty {
    /// Whether the quantity is acceptable for an order.
    pub fn is_valid(self) -> (r: bool)
        ensures
            r == qty_in_range(self.0),
    {
        self.0 >= 1 && self.0 <= MAX_QTY
    }

    /// Whether the quantity is zero.
    pub fn is_zero(self) -> (r: bool)
        ensures
            r == (self.0 == 0),
    {
        self.0 == 0
    }
}

/// Engine-assigned order identifier. The first order is id 1.
#[derive(Clone, Copy, Debug, PartialEq, Eq, PartialOrd, Ord, Hash, Structural)]
pub struct OrderId(pub u64);

/// Logical time. A resting order's sequence number is its queue position:
/// within a price level, lower sequence numbers trade first.
#[derive(Clone, Copy, Debug, PartialEq, Eq, PartialOrd, Ord, Hash, Structural)]
pub struct SeqNo(pub u64);

/// Order side.
#[derive(Clone, Copy, Debug, PartialEq, Eq, Hash, Structural)]
pub enum Side {
    /// Bid.
    Buy,
    /// Ask.
    Sell,
}

/// The side that an order on `s` trades against.
pub open spec fn spec_opposite(s: Side) -> Side {
    match s {
        Side::Buy => Side::Sell,
        Side::Sell => Side::Buy,
    }
}

/// Whether an order on `side` with limit `limit` can trade against a resting
/// order at `resting`.
pub open spec fn spec_crosses(side: Side, limit: i64, resting: i64) -> bool {
    match side {
        Side::Buy => limit >= resting,
        Side::Sell => limit <= resting,
    }
}

impl Side {
    /// The side this one trades against.
    pub fn opposite(self) -> (r: Side)
        ensures
            r == spec_opposite(self),
    {
        match self {
            Side::Buy => Side::Sell,
            Side::Sell => Side::Buy,
        }
    }

    /// Whether an order on this side with limit `limit` can trade against a
    /// resting order at `resting`.
    pub fn crosses(self, limit: Price, resting: Price) -> (r: bool)
        ensures
            r == spec_crosses(self, limit.0, resting.0),
    {
        match self {
            Side::Buy => limit.0 >= resting.0,
            Side::Sell => limit.0 <= resting.0,
        }
    }
}

/// How an incoming order treats its unfilled remainder.
#[derive(Clone, Copy, Debug, PartialEq, Eq, Hash, Structural)]
pub enum OrderType {
    /// Trade while crossing, then rest the remainder at `price`.
    Limit {
        /// Limit price.
        price: Price,
    },
    /// Trade while crossing, then cancel the remainder.
    Ioc {
        /// Limit price.
        price: Price,
    },
    /// Trade at any price, then cancel the remainder.
    Market,
}

/// The limit price of an order type, if it has one.
pub open spec fn spec_limit(k: OrderType) -> Option<Price> {
    match k {
        OrderType::Limit { price } => Some(price),
        OrderType::Ioc { price } => Some(price),
        OrderType::Market => None,
    }
}

impl OrderType {
    /// The limit price, if the type has one.
    pub fn limit(self) -> (r: Option<Price>)
        ensures
            r == spec_limit(self),
    {
        match self {
            OrderType::Limit { price } => Some(price),
            OrderType::Ioc { price } => Some(price),
            OrderType::Market => None,
        }
    }
}

/// Opposite sides are an involution.
pub proof fn opposite_is_an_involution(s: Side)
    ensures
        spec_opposite(s) != s,
        spec_opposite(spec_opposite(s)) == s,
{
}

/// The level-total bound of [`MAX_QTY`]: `u32::MAX` orders of the largest
/// quantity still fit in a `u64`.
pub proof fn level_total_fits()
    ensures
        (MAX_QTY as int) * (u32::MAX as int) < u64::MAX as int,
{
}

} // verus!
