//! A limit-order matching engine for a single instrument.
//!
//! Prices and quantities are fixed-point integers in tick units; conversions
//! to and from decimal representations happen at the API boundary, outside
//! this crate. The engine keeps two price ladders (bids and asks), matches
//! inbound limit orders under price-time priority, and maintains an order
//! index and running statistics.

#![verifier::loop_isolation(false)]

pub mod api;
pub mod book;
pub mod feed;
pub mod laws;
pub mod level;
pub mod model;
pub mod order;

pub use api::{DeleteOrderRequest, OrderStatus, OrderType, Side};
pub use feed::Coin;
pub use book::{IndexEntry, OrderBook, OrderBookError, OrderBookStats};
pub use level::{OrderQueue, PriceLevel};
pub use order::{Order, OrderSide, Trade};
