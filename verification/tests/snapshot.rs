use lob::snapshot::fnv1a;
use lob::{OrderId, Price, Qty, RestingOrder, SeqNo, Side, Snapshot, SnapshotError};

fn order(id: u64, side: Side, price: i64, qty: u64, seq: u64) -> RestingOrder {
    RestingOrder {
        id: OrderId(id),
        side,
        price: Price(price),
        qty: Qty(qty),
        seq: SeqNo(seq),
    }
}

fn sample() -> Snapshot {
    Snapshot {
        next_id: 10,
        next_seq: 12,
        bids: vec![
            order(3, Side::Buy, 100, 5, 3),
            order(7, Side::Buy, 100, 2, 9),
            order(1, Side::Buy, 99, 4, 1),
        ],
        asks: vec![
            order(2, Side::Sell, 101, 1, 11),
            order(4, Side::Sell, 105, 8, 4),
        ],
    }
}

#[test]
fn fnv1a_matches_reference_vectors() {
    assert_eq!(fnv1a(b""), 0xcbf2_9ce4_8422_2325);
    assert_eq!(fnv1a(b"a"), 0xaf63_dc4c_8601_ec8c);
    assert_eq!(fnv1a(b"foobar"), 0x8594_4171_f739_67e8);
}

#[test]
fn encode_decode_round_trips() {
    let s = sample();
    let bytes = s.encode();
    assert_eq!(bytes.len(), 8 + 16 + 8 + 3 * 32 + 8 + 2 * 32);
    assert_eq!(Snapshot::decode(&bytes), Ok(s));
}

#[test]
fn digest_depends_on_every_field() {
    let base = sample().digest();
    let mut s = sample();
    s.next_seq += 1;
    assert_ne!(s.digest(), base);
    let mut s = sample();
    s.bids[1].qty = Qty(3);
    assert_ne!(s.digest(), base);
    let mut s = sample();
    s.bids.swap(0, 1);
    assert_ne!(s.digest(), base);
}

#[test]
fn malformed_bytes_are_rejected() {
    let bytes = sample().encode();
    assert_eq!(Snapshot::decode(b""), Err(SnapshotError::Truncated));
    assert_eq!(
        Snapshot::decode(b"LOBSNAP2xxxxxxxxxxxxxxxx"),
        Err(SnapshotError::BadMagic)
    );
    for cut in [9, 24, 40, bytes.len() - 1] {
        assert_eq!(
            Snapshot::decode(&bytes[..cut]),
            Err(SnapshotError::Truncated),
            "cut {cut}"
        );
    }
    let mut long = bytes.clone();
    long.push(0);
    assert_eq!(Snapshot::decode(&long), Err(SnapshotError::TrailingBytes));
}

#[test]
fn huge_order_count_fails_without_allocating() {
    let mut bytes = b"LOBSNAP1".to_vec();
    bytes.extend_from_slice(&1u64.to_le_bytes());
    bytes.extend_from_slice(&1u64.to_le_bytes());
    bytes.extend_from_slice(&u64::MAX.to_le_bytes());
    assert_eq!(Snapshot::decode(&bytes), Err(SnapshotError::Truncated));
}

#[test]
fn invalid_states_are_rejected() {
    let check = |edit: fn(&mut Snapshot), expected| {
        let mut s = sample();
        edit(&mut s);
        assert_eq!(s.validate(), Err(expected));
        assert_eq!(Snapshot::decode(&s.encode()), Err(expected));
    };
    assert_eq!(sample().validate(), Ok(()));
    check(|s| s.next_id = 0, SnapshotError::ZeroCounter);
    let mut s = sample();
    s.bids[0].side = Side::Sell;
    assert_eq!(s.validate(), Err(SnapshotError::WrongSide(OrderId(3))));
    check(
        |s| s.asks[0].price = Price(0),
        SnapshotError::PriceOutOfRange(OrderId(2)),
    );
    check(
        |s| s.asks[0].qty = Qty(0),
        SnapshotError::QuantityOutOfRange(OrderId(2)),
    );
    check(|s| s.bids[0].id = OrderId(10), SnapshotError::IdNotIssued(OrderId(10)));
    check(|s| s.bids[0].id = OrderId(0), SnapshotError::IdNotIssued(OrderId(0)));
    check(|s| s.bids[0].seq = SeqNo(12), SnapshotError::SeqNotIssued(OrderId(3)));
    check(|s| s.asks[1].id = OrderId(3), SnapshotError::DuplicateId(OrderId(3)));
    check(|s| s.bids.swap(0, 1), SnapshotError::OutOfOrder(OrderId(3)));
    check(|s| s.bids.swap(1, 2), SnapshotError::OutOfOrder(OrderId(7)));
    check(|s| s.asks.swap(0, 1), SnapshotError::OutOfOrder(OrderId(2)));
    check(|s| s.asks[0].price = Price(100), SnapshotError::Crossed);
}

#[test]
fn encoding_is_little_endian_with_header() {
    let s = Snapshot {
        next_id: 0x0102,
        next_seq: 1,
        bids: vec![],
        asks: vec![order(1, Side::Sell, -2, 3, 4)],
    };
    let b = s.encode();
    assert_eq!(&b[..8], b"LOBSNAP1");
    assert_eq!(&b[8..16], &[2, 1, 0, 0, 0, 0, 0, 0]);
    assert_eq!(&b[24..32], &[0; 8]);
    assert_eq!(&b[32..40], &[1, 0, 0, 0, 0, 0, 0, 0]);
    assert_eq!(&b[48..56], &(-2i64).to_le_bytes());
    assert_eq!(s.digest(), fnv1a(&b));
}

#[test]
fn snapshot_errors_have_messages() {
    assert_eq!(SnapshotError::Truncated.text(), "snapshot is truncated");
    assert_eq!(
        SnapshotError::DuplicateId(OrderId(7)).text(),
        "order id 7 appears twice"
    );
    assert_eq!(
        SnapshotError::ZeroCounter.text(),
        "id and sequence counters must start at 1"
    );
    assert_eq!(
        SnapshotError::CounterTooLarge.text(),
        "id and sequence counters must be at most 2^63"
    );
}

#[test]
fn counters_out_of_range_are_named() {
    let mut s = sample();
    s.next_seq = 0;
    assert_eq!(s.validate(), Err(SnapshotError::ZeroCounter));
    s.next_id = (1 << 63) + 1;
    assert_eq!(s.validate(), Err(SnapshotError::ZeroCounter));
    s.next_seq = 12;
    assert_eq!(s.validate(), Err(SnapshotError::CounterTooLarge));
    assert_eq!(Snapshot::decode(&s.encode()), Err(SnapshotError::CounterTooLarge));
    s.next_id = 1 << 63;
    assert_eq!(s.validate(), Ok(()));
}
