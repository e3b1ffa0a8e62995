use order_book_hybrid::api::{
    default_order_type, engine_side, order_status, parse_order_id, DeleteOrderRequest,
    OrderStatus, OrderType, Side,
};
use order_book_hybrid::{Order, OrderSide, Trade};

#[test]
fn default_order_type_is_limit() {
    assert_eq!(default_order_type(), OrderType::Limit);
}

#[test]
fn request_sides_map_to_book_sides() {
    assert_eq!(engine_side(&Side::Buy), OrderSide::Bid);
    assert_eq!(engine_side(&Side::Sell), OrderSide::Ask);
}

#[test]
fn parse_order_id_accepts_decimal_numerals() {
    assert_eq!(parse_order_id("123"), Some(123));
    assert_eq!(parse_order_id("+7"), Some(7));
    assert_eq!(parse_order_id("0"), Some(0));
    assert_eq!(parse_order_id("18446744073709551615"), Some(u64::MAX));
}

#[test]
fn parse_order_id_rejects_malformed_ids() {
    assert_eq!(parse_order_id(""), None);
    assert_eq!(parse_order_id("+"), None);
    assert_eq!(parse_order_id("12a"), None);
    assert_eq!(parse_order_id("-3"), None);
    assert_eq!(parse_order_id("1 2"), None);
    assert_eq!(parse_order_id("18446744073709551616"), None);
}

#[test]
fn order_status_follows_fill_and_remainder() {
    assert!(matches!(order_status(0, 5), OrderStatus::New));
    assert!(matches!(order_status(3, 2), OrderStatus::PartiallyFilled));
    assert!(matches!(order_status(5, 0), OrderStatus::Filled));
}

#[test]
fn delete_request_carries_id_and_user() {
    let req = DeleteOrderRequest { order_id: "42".to_string(), user_id: "u1".to_string() };
    assert_eq!(parse_order_id(&req.order_id), Some(42));
    assert_eq!(req.user_id, "u1");
}

#[test]
fn trade_value_is_exact_notional() {
    let t = Trade::new(1, 2, 250, 4, 9);
    assert_eq!(t.get_trade_value(), 1000);
    let big = Trade::new(1, 2, u64::MAX, u64::MAX, 0);
    assert_eq!(big.get_trade_value(), (u64::MAX as u128) * (u64::MAX as u128));
}

#[test]
fn order_new_populates_all_fields() {
    let o = Order::new(5, OrderSide::Ask, 101, 7, 13, "who".to_string());
    assert_eq!(o.id, 5);
    assert_eq!(o.side, OrderSide::Ask);
    assert_eq!(o.price, 101);
    assert_eq!(o.quantity, 7);
    assert_eq!(o.timestamp, 13);
    assert_eq!(o.user_id, "who");
}
