use order_book_hybrid::feed::{synthetic_rung, Coin};
use order_book_hybrid::{OrderBook, OrderSide};

#[test]
fn coin_symbols_and_names() {
    assert_eq!(Coin::BTC.symbol(), "btcusdt");
    assert_eq!(Coin::ETH.symbol(), "ethusdt");
    assert_eq!(Coin::SOL.symbol(), "solusdt");
    assert_eq!(Coin::BTC.display_name(), "Bitcoin");
    assert_eq!(Coin::ETH.display_name(), "Ethereum");
    assert_eq!(Coin::SOL.display_name(), "Solana");
}

#[test]
fn synthetic_rung_offsets_and_scales() {
    // two steps of five ticks around 1000, quantity scaled by 120%
    let (bid, ask, qty) = synthetic_rung(1000, 100, 2, 5, 100, 10);
    assert_eq!(bid, Some(990));
    assert_eq!(ask, Some(1010));
    assert_eq!(qty, 120);
}

#[test]
fn synthetic_rung_drops_out_of_range_prices() {
    // the bid side would go to or below zero
    let (bid, ask, _) = synthetic_rung(5, 10, 1, 10, 100, 0);
    assert_eq!(bid, None);
    assert_eq!(ask, Some(15));
    // the ask side would overflow
    let (bid2, ask2, _) = synthetic_rung(u64::MAX - 3, 10, 1, 10, 100, 0);
    assert_eq!(bid2, Some(u64::MAX - 13));
    assert_eq!(ask2, None);
}

#[test]
fn synthetic_rungs_feed_the_book() {
    let mut book = OrderBook::new();
    for i in 1..=3u64 {
        let (bid, ask, qty) = synthetic_rung(1000, 100, i, 5, 100, 10);
        if let Some(p) = bid {
            if qty > 0 {
                book.add_order(OrderSide::Bid, p, qty, i, "feed_bid".to_string()).unwrap();
            }
        }
        if let Some(p) = ask {
            if qty > 0 {
                book.add_order(OrderSide::Ask, p, qty, i, "feed_ask".to_string()).unwrap();
            }
        }
    }
    assert_eq!(book.get_best_bid(), Some(995));
    assert_eq!(book.get_best_ask(), Some(1005));
    let (bids, asks) = book.get_market_depth(20);
    assert_eq!(bids, vec![(995, 110), (990, 120), (985, 130)]);
    assert_eq!(asks, vec![(1005, 110), (1010, 120), (1015, 130)]);
}
