use lob::types::{MAX_PRICE, MAX_QTY};
use lob::{Command, OrderId, OrderType, Price, Qty, RejectReason, Side};

fn submit(kind: OrderType, qty: u64) -> Command {
    Command::Submit {
        side: Side::Buy,
        kind,
        qty: Qty(qty),
    }
}

#[test]
fn valid_commands_pass_field_checks() {
    assert_eq!(
        submit(OrderType::Limit { price: Price(10) }, 5).check_fields(),
        Ok(())
    );
    assert_eq!(submit(OrderType::Market, MAX_QTY).check_fields(), Ok(()));
    assert_eq!(Command::Cancel { id: OrderId(0) }.check_fields(), Ok(()));
    let amend = Command::Amend {
        id: OrderId(1),
        price: None,
        qty: Qty(1),
    };
    assert_eq!(amend.check_fields(), Ok(()));
}

#[test]
fn quantity_is_checked_before_price() {
    let cmd = submit(OrderType::Limit { price: Price(0) }, 0);
    assert_eq!(cmd.check_fields(), Err(RejectReason::ZeroQuantity));
}

#[test]
fn out_of_range_fields_are_rejected() {
    let limit = |p| OrderType::Limit { price: Price(p) };
    let ioc = |p| OrderType::Ioc { price: Price(p) };
    assert_eq!(
        submit(OrderType::Market, MAX_QTY + 1).check_fields(),
        Err(RejectReason::QuantityTooLarge)
    );
    assert_eq!(
        submit(limit(0), 1).check_fields(),
        Err(RejectReason::PriceOutOfRange)
    );
    assert_eq!(
        submit(ioc(-5), 1).check_fields(),
        Err(RejectReason::PriceOutOfRange)
    );
    assert_eq!(
        submit(limit(MAX_PRICE + 1), 1).check_fields(),
        Err(RejectReason::PriceOutOfRange)
    );
}

#[test]
fn amend_fields_are_checked() {
    let amend = |price, qty| Command::Amend {
        id: OrderId(1),
        price,
        qty: Qty(qty),
    };
    assert_eq!(
        amend(None, 0).check_fields(),
        Err(RejectReason::ZeroQuantity)
    );
    assert_eq!(
        amend(Some(Price(0)), 3).check_fields(),
        Err(RejectReason::PriceOutOfRange)
    );
    assert_eq!(
        amend(None, u64::MAX).check_fields(),
        Err(RejectReason::QuantityTooLarge)
    );
}
