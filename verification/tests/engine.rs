use order_book_hybrid::{OrderBook, OrderSide};
use order_book_hybrid::api::{order_status, trades_filled_quantity, OrderStatus};

fn filled_and_status(trades: &Vec<order_book_hybrid::Trade>, quantity: u64) -> (u128, OrderStatus) {
    let filled = trades_filled_quantity(trades);
    let remaining = quantity - filled as u64;
    (filled, order_status(filled, remaining))
}

#[test]
fn submit_into_empty_book_rests() {
    let mut book = OrderBook::new();
    let (id, trades) = book
        .add_order(OrderSide::Bid, 100, 1, 7, "u1".to_string())
        .unwrap();
    assert_eq!(id, 1);
    assert!(trades.is_empty());
    let (filled, status) = filled_and_status(&trades, 1);
    assert_eq!(filled, 0);
    assert!(matches!(status, OrderStatus::New));
    assert_eq!(book.get_best_bid(), Some(100));
    assert_eq!(book.get_best_ask(), None);
}

#[test]
fn aggressive_bid_trades_at_maker_price() {
    let mut book = OrderBook::new();
    let (ask_id, _) = book
        .add_order(OrderSide::Ask, 100, 1, 1, "m".to_string())
        .unwrap();
    let (bid_id, trades) = book
        .add_order(OrderSide::Bid, 101, 1, 2, "t".to_string())
        .unwrap();
    assert_eq!(trades.len(), 1);
    assert_eq!(trades[0].price, 100);
    assert_eq!(trades[0].quantity, 1);
    assert_eq!(trades[0].timestamp, 1);
    assert_eq!(trades[0].ask_order_id, ask_id);
    assert_eq!(trades[0].bid_order_id, bid_id);
    let (_, status) = filled_and_status(&trades, 1);
    assert!(matches!(status, OrderStatus::Filled));
    assert_eq!(book.get_best_bid(), None);
    assert_eq!(book.get_best_ask(), None);
}

#[test]
fn partial_fill_keeps_maker_at_head() {
    let mut book = OrderBook::new();
    let (ask_id, _) = book
        .add_order(OrderSide::Ask, 100, 2, 1, "m".to_string())
        .unwrap();
    let (_, trades) = book
        .add_order(OrderSide::Bid, 100, 1, 2, "t".to_string())
        .unwrap();
    assert_eq!(trades.len(), 1);
    assert_eq!(trades[0].price, 100);
    assert_eq!(trades[0].quantity, 1);
    // the maker stays at the head with the remainder
    assert_eq!(book.asks[0].orders.orders[0].id, ask_id);
    assert_eq!(book.asks[0].orders.orders[0].quantity, 1);
    // the next aggressor hits the same maker
    let (_, trades2) = book
        .add_order(OrderSide::Bid, 100, 1, 3, "t2".to_string())
        .unwrap();
    assert_eq!(trades2.len(), 1);
    assert_eq!(trades2[0].ask_order_id, ask_id);
    assert_eq!(book.get_best_ask(), None);
}

#[test]
fn fifo_order_at_one_price() {
    let mut book = OrderBook::new();
    let (a, _) = book
        .add_order(OrderSide::Ask, 100, 1, 1, "a".to_string())
        .unwrap();
    let (b, _) = book
        .add_order(OrderSide::Ask, 100, 1, 2, "b".to_string())
        .unwrap();
    let (_, trades) = book
        .add_order(OrderSide::Bid, 100, 2, 3, "t".to_string())
        .unwrap();
    assert_eq!(trades.len(), 2);
    assert_eq!(trades[0].ask_order_id, a);
    assert_eq!(trades[1].ask_order_id, b);
    assert_eq!(trades[0].price, 100);
    assert_eq!(trades[1].price, 100);
}

#[test]
fn best_bid_matched_before_worse_bid() {
    let mut book = OrderBook::new();
    book.add_order(OrderSide::Bid, 99, 5, 1, "u".to_string()).unwrap();
    book.add_order(OrderSide::Bid, 100, 5, 2, "u".to_string()).unwrap();
    let (_, trades) = book
        .add_order(OrderSide::Ask, 99, 7, 3, "t".to_string())
        .unwrap();
    assert_eq!(trades.len(), 2);
    assert_eq!(trades[0].price, 100);
    assert_eq!(trades[0].quantity, 5);
    assert_eq!(trades[1].price, 99);
    assert_eq!(trades[1].quantity, 2);
    // remaining bid 99@3
    assert_eq!(book.get_best_bid(), Some(99));
    let (bids, asks) = book.get_market_depth(20);
    assert_eq!(bids, vec![(99, 3)]);
    assert!(asks.is_empty());
}

#[test]
fn cancel_checks_owner_and_is_idempotent() {
    let mut book = OrderBook::new();
    let (id, _) = book
        .add_order(OrderSide::Bid, 100, 1, 1, "u1".to_string())
        .unwrap();
    // a stranger cannot cancel: indistinguishable from not-found
    assert!(book.remove_order(id, "u2").is_none());
    assert_eq!(book.get_best_bid(), Some(100));
    // the owner can
    let removed = book.remove_order(id, "u1").unwrap();
    assert_eq!(removed.id, id);
    assert_eq!(removed.quantity, 1);
    assert_eq!(book.get_best_bid(), None);
    // a second cancel finds nothing
    assert!(book.remove_order(id, "u1").is_none());
}

#[test]
fn order_ids_strictly_increase_and_are_not_reused() {
    let mut book = OrderBook::new();
    let (id1, _) = book.add_order(OrderSide::Bid, 10, 1, 1, "u".to_string()).unwrap();
    let (id2, _) = book.add_order(OrderSide::Bid, 11, 1, 2, "u".to_string()).unwrap();
    book.remove_order(id2, "u").unwrap();
    let (id3, _) = book.add_order(OrderSide::Ask, 99, 1, 3, "u".to_string()).unwrap();
    assert!(id1 < id2 && id2 < id3);
    book.clear();
    let (id4, _) = book.add_order(OrderSide::Bid, 10, 1, 4, "u".to_string()).unwrap();
    assert!(id3 < id4);
}

#[test]
fn invalid_inputs_are_rejected_before_an_id_is_allocated() {
    let mut book = OrderBook::new();
    assert!(book.add_order(OrderSide::Bid, 0, 1, 1, "u".to_string()).is_err());
    assert!(book.add_order(OrderSide::Ask, 100, 0, 1, "u".to_string()).is_err());
    let (id, _) = book.add_order(OrderSide::Bid, 1, 1, 1, "u".to_string()).unwrap();
    assert_eq!(id, 1);
}

#[test]
fn level_aggregate_equals_sum_of_quantities() {
    let mut book = OrderBook::new();
    book.add_order(OrderSide::Bid, 100, 3, 1, "u".to_string()).unwrap();
    book.add_order(OrderSide::Bid, 100, 4, 2, "v".to_string()).unwrap();
    book.add_order(OrderSide::Bid, 99, 5, 3, "w".to_string()).unwrap();
    for level in book.bids.iter().chain(book.asks.iter()) {
        // every level in a ladder is non-empty
        assert!(!level.orders.orders.is_empty());
        let sum: u128 = level.orders.orders.iter().map(|o| o.quantity as u128).sum();
        assert_eq!(level.orders.total_quantity, sum);
    }
}

#[test]
fn index_holds_exactly_the_resting_orders() {
    let mut book = OrderBook::new();
    let (b1, _) = book.add_order(OrderSide::Bid, 100, 3, 1, "u".to_string()).unwrap();
    let (a1, _) = book.add_order(OrderSide::Ask, 105, 2, 2, "v".to_string()).unwrap();
    let (b2, _) = book.add_order(OrderSide::Bid, 99, 1, 3, "w".to_string()).unwrap();
    // the taker consumes a1 fully: its entry must vanish
    let (_, trades) = book.add_order(OrderSide::Bid, 105, 2, 4, "t".to_string()).unwrap();
    assert_eq!(trades.len(), 1);
    let mut ids: Vec<u64> = book.index.iter().map(|e| e.id).collect();
    ids.sort();
    assert_eq!(ids, vec![b1, b2]);
    assert!(!ids.contains(&a1));
    // every entry points at a live order on its side
    for e in book.index.iter() {
        let lad = if e.side == OrderSide::Bid { &book.bids } else { &book.asks };
        let lvl = lad.iter().find(|l| l.price == e.price).unwrap();
        assert!(lvl.orders.orders.iter().any(|o| o.id == e.id));
    }
}

#[test]
fn book_never_crossed_after_mutations() {
    let mut book = OrderBook::new();
    book.add_order(OrderSide::Bid, 100, 5, 1, "u".to_string()).unwrap();
    book.add_order(OrderSide::Ask, 101, 5, 2, "v".to_string()).unwrap();
    book.add_order(OrderSide::Bid, 101, 2, 3, "t".to_string()).unwrap();
    if let (Some(bb), Some(ba)) = (book.get_best_bid(), book.get_best_ask()) {
        assert!(bb < ba);
    }
    book.add_order(OrderSide::Ask, 100, 2, 4, "t".to_string()).unwrap();
    if let (Some(bb), Some(ba)) = (book.get_best_bid(), book.get_best_ask()) {
        assert!(bb < ba);
    }
}

#[test]
fn stats_track_counts_volume_and_market_data() {
    let mut book = OrderBook::new();
    book.add_order(OrderSide::Bid, 100, 2, 5, "u".to_string()).unwrap();
    book.add_order(OrderSide::Ask, 104, 2, 6, "v".to_string()).unwrap();
    let st = book.get_stats();
    assert_eq!(st.total_orders_created, 2);
    assert_eq!(st.total_orders_matched, 0);
    assert_eq!(st.total_volume_traded, 0);
    assert_eq!(st.best_bid, Some(100));
    assert_eq!(st.best_ask, Some(104));
    assert_eq!(st.spread, Some(4));
    assert_eq!(st.mid_price, Some(102));
    assert_eq!(st.last_match_time, None);
    assert_eq!(book.get_spread(), Some(4));

    let (_, trades) = book.add_order(OrderSide::Bid, 104, 1, 9, "t".to_string()).unwrap();
    assert_eq!(trades.len(), 1);
    let st = book.get_stats();
    assert_eq!(st.total_orders_created, 3);
    assert_eq!(st.total_orders_matched, 1);
    assert_eq!(st.total_volume_traded, 104);
    assert_eq!(st.last_match_time, Some(9));

    let (id, _) = book.add_order(OrderSide::Bid, 90, 1, 10, "u".to_string()).unwrap();
    book.remove_order(id, "u").unwrap();
    let st = book.get_stats();
    assert_eq!(st.total_orders_cancelled, 1);
}

#[test]
fn depth_is_sorted_and_truncated() {
    let mut book = OrderBook::new();
    for (p, q) in [(100u64, 1u64), (98, 2), (99, 3)] {
        book.add_order(OrderSide::Bid, p, q, 1, "u".to_string()).unwrap();
    }
    for (p, q) in [(103u64, 1u64), (101, 2), (102, 3)] {
        book.add_order(OrderSide::Ask, p, q, 1, "u".to_string()).unwrap();
    }
    let (bids, asks) = book.get_market_depth(2);
    assert_eq!(bids, vec![(100, 1), (99, 3)]);
    assert_eq!(asks, vec![(101, 2), (102, 3)]);
    let (bids, asks) = book.get_market_depth(20);
    assert_eq!(bids.len(), 3);
    assert_eq!(asks.len(), 3);
}

#[test]
fn clear_empties_the_book_and_resets_stats() {
    let mut book = OrderBook::new();
    book.add_order(OrderSide::Bid, 100, 1, 1, "u".to_string()).unwrap();
    book.add_order(OrderSide::Ask, 101, 1, 2, "v".to_string()).unwrap();
    book.clear();
    assert!(book.bids.is_empty());
    assert!(book.asks.is_empty());
    assert!(book.index.is_empty());
    let st = book.get_stats();
    assert_eq!(st.total_orders_created, 0);
    assert_eq!(st.best_bid, None);
    assert_eq!(st.best_ask, None);
}

#[test]
fn conservation_within_one_submit() {
    let mut book = OrderBook::new();
    book.add_order(OrderSide::Ask, 100, 3, 1, "m".to_string()).unwrap();
    book.add_order(OrderSide::Ask, 101, 3, 2, "m".to_string()).unwrap();
    let quantity = 10u64;
    let (_, trades) = book
        .add_order(OrderSide::Bid, 101, quantity, 3, "t".to_string())
        .unwrap();
    let filled = trades_filled_quantity(&trades);
    assert_eq!(filled, 6);
    assert!(filled <= quantity as u128);
    let (bids, _) = book.get_market_depth(20);
    assert_eq!(bids, vec![(101, 4)]);
    let status = order_status(filled, quantity - filled as u64);
    assert!(matches!(status, OrderStatus::PartiallyFilled));
}

#[test]
fn no_self_trade_prevention() {
    // the same owner on both sides trades against itself
    let mut book = OrderBook::new();
    book.add_order(OrderSide::Ask, 100, 1, 1, "u1".to_string()).unwrap();
    let (_, trades) = book.add_order(OrderSide::Bid, 100, 1, 2, "u1".to_string()).unwrap();
    assert_eq!(trades.len(), 1);
    assert_eq!(trades[0].price, 100);
}

#[test]
fn spread_and_mid_need_both_sides() {
    let mut book = OrderBook::new();
    book.add_order(OrderSide::Bid, 100, 1, 1, "u".to_string()).unwrap();
    let st = book.get_stats();
    assert_eq!(st.best_bid, Some(100));
    assert_eq!(st.best_ask, None);
    assert_eq!(st.spread, None);
    assert_eq!(st.mid_price, None);
}
