//! Orders and trades, the basic records of the engine.
//!
//! Prices, quantities and timestamps are plain integers: a price is a count
//! of ticks, a quantity a count of lots, a timestamp milliseconds supplied by
//! the caller.

use vstd::prelude::*;

verus! {

/// The side of the book an order belongs to.
#[derive(Clone, Copy, Debug, PartialEq, Eq, Structural)]
pub enum OrderSide {
    Bid,
    Ask,
}

/// The side whose resting orders an inbound order of side `s` trades against.
pub open spec fn spec_opposite(s: OrderSide) -> OrderSide {
    match s {
        OrderSide::Bid => OrderSide::Ask,
        OrderSide::Ask => OrderSide::Bid,
    }
}

impl OrderSide {
    /// The other side of the book.
    pub fn opposite(self) -> (r: OrderSide)
        ensures
            r == spec_opposite(self),
    {
        match self {
            OrderSide::Bid => OrderSide::Ask,
            OrderSide::Ask => OrderSide::Bid,
        }
    }
}

/// A limit order. While the order rests in the book, `quantity` is the
/// unfilled remainder and is always positive.
#[derive(Clone, Debug)]
pub struct Order {
    pub id: u64,
    pub side: OrderSide,
    pub price: u64,
    pub quantity: u64,
    pub timestamp: u64,
    pub user_id: String,
}

impl Order {
    pub fn new(id: u64, side: OrderSide, price: u64, quantity: u64, timestamp: u64, user_id: String) -> (r: Order)
        ensures
            r.id == id,
            r.side == side,
            r.price == price,
            r.quantity == quantity,
            r.timestamp == timestamp,
            r.user_id == user_id,
    {
        Order { id, side, price, quantity, timestamp, user_id }
    }
}

/// A fill between a resting order and an aggressor, at the resting order's
/// price. `timestamp` is the earlier of the two orders' timestamps.
#[derive(Clone, Copy, Debug, PartialEq, Eq, Structural)]
pub struct Trade {
    pub bid_order_id: u64,
    pub ask_order_id: u64,
    pub price: u64,
    pub quantity: u64,
    pub timestamp: u64,
}

impl Trade {
    pub fn new(bid_order_id: u64, ask_order_id: u64, price: u64, quantity: u64, timestamp: u64) -> (r: Trade)
        ensures
            r == (Trade { bid_order_id, ask_order_id, price, quantity, timestamp }),
    {
        Trade { bid_order_id, ask_order_id, price, quantity, timestamp }
    }

    /// The notional value of the trade, exact in 128 bits.
    pub fn get_trade_value(&self) -> (r: u128)
        ensures
            r == self.price * self.quantity,
    {
        proof {
            assert(self.price * self.quantity <= u64::MAX * u64::MAX) by (nonlinear_arith)
                requires
                    self.price <= u64::MAX,
                    self.quantity <= u64::MAX,
            ;
        }
        (self.price as u128) * (self.quantity as u128)
    }
}

} // verus!
