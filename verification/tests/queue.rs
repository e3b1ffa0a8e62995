use order_book_hybrid::{Order, OrderQueue, OrderSide, PriceLevel};

fn order(id: u64, qty: u64) -> Order {
    Order::new(id, OrderSide::Bid, 100, qty, 1, "u".to_string())
}

#[test]
fn queue_keeps_arrival_order_and_aggregate() {
    let mut q = OrderQueue::new();
    q.add_order(order(1, 5));
    q.add_order(order(2, 7));
    q.add_order(order(3, 1));
    assert_eq!(q.len(), 3);
    assert!(!q.is_empty());
    assert_eq!(q.get_total_quantity(), 13);
    assert_eq!(q.get_first_order().unwrap().id, 1);
    let first = q.remove_first_order().unwrap();
    assert_eq!(first.id, 1);
    assert_eq!(q.get_total_quantity(), 8);
    assert_eq!(q.get_first_order().unwrap().id, 2);
}

#[test]
fn queue_removes_and_updates_by_id() {
    let mut q = OrderQueue::new();
    q.add_order(order(1, 5));
    q.add_order(order(2, 7));
    q.add_order(order(3, 2));
    let gone = q.remove_order(2).unwrap();
    assert_eq!(gone.quantity, 7);
    assert_eq!(q.get_total_quantity(), 7);
    assert!(q.remove_order(2).is_none());
    assert!(q.update_order(1, 4));
    assert_eq!(q.get_total_quantity(), 6);
    // the updated order keeps its place at the head
    assert_eq!(q.get_first_order().unwrap().id, 1);
    assert_eq!(q.get_first_order().unwrap().quantity, 4);
    assert!(!q.update_order(9, 1));
    assert_eq!(q.get_order(3).unwrap().quantity, 2);
    assert!(q.get_order(9).is_none());
}

#[test]
fn price_level_delegates_to_its_queue() {
    let mut lvl = PriceLevel::new(100);
    assert!(lvl.is_empty());
    lvl.add_order(order(1, 3));
    lvl.add_order(order(2, 4));
    assert_eq!(lvl.price, 100);
    assert_eq!(lvl.len(), 2);
    assert_eq!(lvl.get_total_quantity(), 7);
    assert_eq!(lvl.get_first_order().unwrap().id, 1);
    assert_eq!(lvl.remove_first_order().unwrap().id, 1);
    assert_eq!(lvl.remove_order(2).unwrap().id, 2);
    assert!(lvl.is_empty());
}
