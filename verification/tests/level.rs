use lob::level::{Arena, Level};
use lob::{OrderId, Price, Qty, RestingOrder, SeqNo, Side};

fn setup(qtys: &[u64]) -> (Arena, Level, Vec<u32>) {
    let mut arena = Arena::new();
    let mut level = Level::new();
    let mut handles = Vec::new();
    for (i, &q) in (1u64..).zip(qtys) {
        let h = arena.allocate(OrderId(i), Side::Buy, Price(100), Qty(q), SeqNo(i));
        level.push_back(&mut arena, h);
        handles.push(h);
    }
    (arena, level, handles)
}

fn ids(level: &Level, arena: &Arena) -> Vec<u64> {
    let mut out: Vec<RestingOrder> = Vec::new();
    level.append_orders(arena, &mut out);
    out.iter().map(|o| o.id.0).collect()
}

#[test]
fn push_back_preserves_arrival_order() {
    let (arena, level, _) = setup(&[5, 7, 9]);
    assert_eq!(ids(&level, &arena), [1, 2, 3]);
    assert_eq!(level.total(), Qty(21));
    assert_eq!(level.count(), 3);
}

#[test]
fn unlink_head_middle_and_tail() {
    let (mut arena, mut level, h) = setup(&[1, 2, 3, 4]);
    level.unlink(&mut arena, h[1]);
    assert_eq!(ids(&level, &arena), [1, 3, 4]);
    level.unlink(&mut arena, h[0]);
    assert_eq!(ids(&level, &arena), [3, 4]);
    level.unlink(&mut arena, h[3]);
    assert_eq!(ids(&level, &arena), [3]);
    assert_eq!((level.total(), level.count()), (Qty(3), 1));
    level.unlink(&mut arena, h[2]);
    assert!(level.is_empty());
    assert_eq!((level.total(), level.count()), (Qty(0), 0));
}

#[test]
fn unlinked_order_can_rejoin_at_back() {
    let (mut arena, mut level, h) = setup(&[1, 2, 3]);
    level.unlink(&mut arena, h[0]);
    level.push_back(&mut arena, h[0]);
    assert_eq!(ids(&level, &arena), [2, 3, 1]);
    assert_eq!(level.total(), Qty(6));
}

#[test]
fn reduce_keeps_position_and_updates_total() {
    let (mut arena, mut level, h) = setup(&[10, 20]);
    level.reduce(&mut arena, h[0], Qty(4));
    assert_eq!(ids(&level, &arena), [1, 2]);
    assert_eq!(arena.get(h[0]).open, Qty(6));
    assert_eq!(level.total(), Qty(26));
}

#[test]
fn freed_slots_are_reused() {
    let (mut arena, mut level, h) = setup(&[1, 2]);
    level.unlink(&mut arena, h[0]);
    arena.free(h[0]);
    let again = arena.allocate(OrderId(9), Side::Sell, Price(1), Qty(1), SeqNo(9));
    assert_eq!(again, h[0]);
    assert_eq!(arena.get(again).id, OrderId(9));
}

#[test]
fn walk_checked_lists_slots_head_first_or_reports_too_long() {
    let (mut arena, mut level, h) = setup(&[5, 6, 7]);
    assert_eq!(level.walk_checked(&arena, 3).unwrap(), h);
    assert_eq!(
        level.walk_checked(&arena, 2).unwrap_err(),
        "queue longer than the number of indexed orders (cycle?)"
    );
    level.unlink(&mut arena, h[1]);
    assert_eq!(level.walk_checked(&arena, 10).unwrap(), [h[0], h[2]]);
    assert!(Level::new().walk_checked(&arena, 0).unwrap().is_empty());
}
