//! The instruments the demo feeds carry, and the arithmetic of the
//! synthetic depth they place around an observed trade price.

use vstd::prelude::*;
use crate::book::{sat_u64, sat_u128};

verus! {

/// An instrument a market-data feed can follow.
#[derive(Clone, Copy, Debug, PartialEq, Eq, Structural)]
pub enum Coin {
    BTC,
    ETH,
    SOL,
}

impl Coin {
    /// The lower-case spot symbol of the instrument.
    pub fn symbol(&self) -> (r: &str)
        ensures
            *self == Coin::BTC ==> r@ == "btcusdt"@,
            *self == Coin::ETH ==> r@ == "ethusdt"@,
            *self == Coin::SOL ==> r@ == "solusdt"@,
    {
        match self {
            Coin::BTC => "btcusdt",
            Coin::ETH => "ethusdt",
            Coin::SOL => "solusdt",
        }
    }

    /// The human-readable name of the instrument.
    pub fn display_name(&self) -> (r: &str)
        ensures
            *self == Coin::BTC ==> r@ == "Bitcoin"@,
            *self == Coin::ETH ==> r@ == "Ethereum"@,
            *self == Coin::SOL ==> r@ == "Solana"@,
    {
        match self {
            Coin::BTC => "Bitcoin",
            Coin::ETH => "Ethereum",
            Coin::SOL => "Solana",
        }
    }
}

/// The `i`-th synthetic depth rung around an observed price: the bid price
/// `i` steps below it and the ask price `i` steps above it, where those stay
/// positive and in range, and the observed quantity scaled by
/// `(base + i * step)` percent, clamped to 64 bits.
pub fn synthetic_rung(
    price: u64,
    quantity: u64,
    i: u64,
    price_step: u64,
    qty_base_centi: u64,
    qty_step_centi: u64,
) -> (r: (Option<u64>, Option<u64>, u64))
    ensures
        r.0 == (if price > i * price_step {
            Some((price - i * price_step) as u64)
        } else {
            None::<u64>
        }),
        r.1 == (if price + i * price_step <= u64::MAX {
            Some((price + i * price_step) as u64)
        } else {
            None::<u64>
        }),
        r.2 == sat_u64(quantity * (sat_u64(qty_base_centi + i * qty_step_centi) as int) / 100),
{
    proof {
        assert(i * price_step <= u64::MAX * u64::MAX) by (nonlinear_arith)
            requires
                i <= u64::MAX,
                price_step <= u64::MAX,
        ;
        assert(i * price_step >= 0) by (nonlinear_arith);
        assert(i * qty_step_centi <= u64::MAX * u64::MAX) by (nonlinear_arith)
            requires
                i <= u64::MAX,
                qty_step_centi <= u64::MAX,
        ;
        assert(i * qty_step_centi >= 0) by (nonlinear_arith);
    }
    let offset = (i as u128) * (price_step as u128);
    let bid = if offset < price as u128 {
        Some(price - offset as u64)
    } else {
        None
    };
    let ask = if offset <= (u64::MAX as u128) - (price as u128) {
        Some(price + offset as u64)
    } else {
        None
    };
    let scale_wide = (qty_base_centi as u128) + (i as u128) * (qty_step_centi as u128);
    let scale = if scale_wide > u64::MAX as u128 {
        u64::MAX
    } else {
        scale_wide as u64
    };
    proof {
        assert(quantity * scale <= u64::MAX * u64::MAX) by (nonlinear_arith)
            requires
                quantity <= u64::MAX,
                scale <= u64::MAX,
        ;
        assert(quantity * scale >= 0) by (nonlinear_arith);
        assert(quantity * scale / 100 <= quantity * scale) by (nonlinear_arith)
            requires
                quantity * scale >= 0,
        ;
    }
    let scaled_wide = (quantity as u128) * (scale as u128) / 100;
    let scaled = if scaled_wide > u64::MAX as u128 {
        u64::MAX
    } else {
        scaled_wide as u64
    };
    (bid, ask, scaled)
}

} // verus!
