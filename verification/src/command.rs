//! Engine input ([`Command`]) and output ([`Event`]).
//!
//! A command journal plus the engine's initial state fully determines the
//! event stream, so events carry everything an observer needs to rebuild
//! per-order accounting without inspecting the book.
use vstd::prelude::*;

use crate::types::{price_in_range, qty_in_range, spec_limit, OrderId, OrderType, Price, Qty, SeqNo, Side, MAX_QTY};

verus! {

/// An instruction to the engine.
#[derive(Clone, Copy, Debug, PartialEq, Eq, Hash, Structural)]
pub enum Command {
    /// Enter a new order.
    Submit {
        /// Buy or sell.
        side: Side,
        /// Limit, IOC or market.
        kind: OrderType,
        /// Quantity in lots.
        qty: Qty,
    },
    /// Remove a resting order.
    Cancel {
        /// Order to cancel.
        id: OrderId,
    },
    /// Change a resting order's open quantity and optionally its price.
    Amend {
        /// Order to amend.
        id: OrderId,
        /// New price; `None` keeps the current price.
        price: Option<Price>,
        /// New open quantity.
        qty: Qty,
    },
}

/// Why a command was rejected. A rejected command has no other effect.
#[derive(Clone, Copy, Debug, PartialEq, Eq, Hash, Structural)]
pub enum RejectReason {
    /// Quantity was zero.
    ZeroQuantity,
    /// Quantity exceeded [`crate::types::MAX_QTY`].
    QuantityTooLarge,
    /// Price was outside `1..=MAX_PRICE`.
    PriceOutOfRange,
    /// The id was never issued or the order is no longer resting.
    UnknownOrder,
    /// An amend that would change neither price nor quantity.
    AmendNoChange,
}

/// Why open quantity left the book without trading.
#[derive(Clone, Copy, Debug, PartialEq, Eq, Hash, Structural)]
pub enum CancelReason {
    /// Explicit cancel command.
    User,
    /// Unfilled remainder of an IOC order.
    IocRemainder,
    /// Unfilled remainder of a market order.
    NoLiquidity,
}

/// Whether an amend kept the order's queue position.
#[derive(Clone, Copy, Debug, PartialEq, Eq, Hash, Structural)]
pub enum Priority {
    /// Same position in the queue.
    Kept,
    /// Moved to the back of the queue with a new sequence number.
    Lost,
}

/// Something the engine did in response to a command.
///
/// Per command the order is: `Rejected` alone; or `Accepted`/`Amended`,
/// then any `Trade`s (each maker that completes is followed by its
/// `Filled`), then exactly one of `Filled` (taker), `Rested` or `Cancelled`
/// for the incoming order's remainder. A same-price quantity decrease is
/// just `Amended`. A cancel is just `Cancelled`.
#[derive(Clone, Copy, Debug, PartialEq, Eq, Hash, Structural)]
#[allow(inconsistent_fields)]
pub enum Event {
    /// A submitted order passed validation and was assigned an id.
    Accepted {
        /// New order id.
        id: OrderId,
        /// Order side.
        side: Side,
        /// Order type.
        kind: OrderType,
        /// Submitted quantity.
        qty: Qty,
        /// Priority sequence number.
        seq: SeqNo,
    },
    /// The command was rejected and had no effect.
    Rejected {
        /// Target order, for cancel and amend.
        id: Option<OrderId>,
        /// Reason.
        reason: RejectReason,
    },
    /// A resting order was amended.
    Amended {
        /// Order id.
        id: OrderId,
        /// Price after the amend.
        price: Price,
        /// Open quantity before the amend.
        old_qty: Qty,
        /// Open quantity after the amend, before any resulting trades.
        qty: Qty,
        /// Sequence number after the amend.
        seq: SeqNo,
        /// Whether the queue position was kept.
        priority: Priority,
    },
    /// Two orders traded.
    Trade {
        /// Resting order.
        maker: OrderId,
        /// Incoming order.
        taker: OrderId,
        /// Side of the incoming order.
        taker_side: Side,
        /// Execution price (the maker's price).
        price: Price,
        /// Traded quantity.
        qty: Qty,
    },
    /// An order's open quantity reached zero by trading.
    Filled {
        /// Order id.
        id: OrderId,
    },
    /// An order was placed at the back of a price level.
    Rested {
        /// Order id.
        id: OrderId,
        /// Side.
        side: Side,
        /// Level price.
        price: Price,
        /// Open quantity placed.
        qty: Qty,
        /// Priority sequence number.
        seq: SeqNo,
    },
    /// Open quantity was removed without trading.
    Cancelled {
        /// Order id.
        id: OrderId,
        /// Quantity removed.
        qty: Qty,
        /// Reason.
        reason: CancelReason,
    },
}

/// The first problem with a quantity and an optional price, checked in the
/// order quantity-zero, quantity-too-large, price-out-of-range.
pub open spec fn field_error(qty: Option<Qty>, price: Option<Price>) -> Option<RejectReason> {
    if qty is Some && qty.unwrap().0 == 0 {
        Some(RejectReason::ZeroQuantity)
    } else if qty is Some && qty.unwrap().0 > MAX_QTY {
        Some(RejectReason::QuantityTooLarge)
    } else if price is Some && !price_in_range(price.unwrap().0) {
        Some(RejectReason::PriceOutOfRange)
    } else {
        None
    }
}

/// The field checks of a command, independent of book state.
pub open spec fn spec_check_fields(c: Command) -> Result<(), RejectReason> {
    let e = match c {
        Command::Submit { kind, qty, .. } => field_error(Some(qty), spec_limit(kind)),
        Command::Cancel { .. } => field_error(None, None),
        Command::Amend { price, qty, .. } => field_error(Some(qty), price),
    };
    match e {
        Some(r) => Err(r),
        None => Ok(()),
    }
}

/// Checks one optional quantity and one optional price.
pub(crate) fn check_qty_price(qty: Option<Qty>, price: Option<Price>) -> (r: Option<RejectReason>)
    ensures
        r == field_error(qty, price),
{
    if let Some(q) = qty {
        if q.is_zero() {
            return Some(RejectReason::ZeroQuantity);
        }
        if !q.is_valid() {
            return Some(RejectReason::QuantityTooLarge);
        }
    }
    if let Some(p) = price {
        if !p.is_valid() {
            return Some(RejectReason::PriceOutOfRange);
        }
    }
    None
}

impl Command {
    /// Checks that depend only on the command itself, not on book state.
    /// Returns the first reason the command's fields are unacceptable.
    pub fn check_fields(&self) -> (r: Result<(), RejectReason>)
        ensures
            r == spec_check_fields(*self),
    {
        let e = match *self {
            Command::Submit { kind, qty, .. } => check_qty_price(Some(qty), kind.limit()),
            Command::Cancel { .. } => check_qty_price(None, None),
            Command::Amend { price, qty, .. } => check_qty_price(Some(qty), price),
        };
        match e {
            Some(r) => Err(r),
            None => Ok(()),
        }
    }
}

} // verus!
