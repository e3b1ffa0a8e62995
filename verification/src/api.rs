//! The request-level vocabulary of the engine's callers, and the pure
//! computations the request handlers need: side mapping, order-id parsing,
//! and the fill summary of a submission.

use vstd::prelude::*;
use vstd::string::StringSliceAdditionalSpecFns;
use crate::order::{OrderSide, Trade};
use crate::model::{lemma_sum_trade_qty_bounds, sum_trade_qty};

verus! {

/// The side of an inbound request.
#[derive(Clone, Copy, Debug, PartialEq, Eq, Structural)]
pub enum Side {
    Buy,
    Sell,
}

/// The order kind of an inbound request. The engine treats every inbound
/// order as a limit with a price bound.
#[derive(Clone, Copy, Debug, PartialEq, Eq, Structural)]
pub enum OrderType {
    Limit,
    Market,
}

/// The order type assumed when a request names none.
pub fn default_order_type() -> (r: OrderType)
    ensures
        r == OrderType::Limit,
{
    OrderType::Limit
}

/// The lifecycle state a submission response reports.
#[derive(Clone, Copy, Debug, PartialEq, Eq, Structural)]
pub enum OrderStatus {
    New,
    PartiallyFilled,
    Filled,
    Cancelled,
}

/// A cancellation request: the order id as text, and the caller's identity.
#[derive(Clone, Debug)]
pub struct DeleteOrderRequest {
    pub order_id: String,
    pub user_id: String,
}

/// The book side a request side stands for: buys bid, sells ask.
pub fn engine_side(side: &Side) -> (r: OrderSide)
    ensures
        r == (match side {
            Side::Buy => OrderSide::Bid,
            Side::Sell => OrderSide::Ask,
        }),
{
    match side {
        Side::Buy => OrderSide::Bid,
        Side::Sell => OrderSide::Ask,
    }
}

/// The number a string of decimal digits denotes.
pub open spec fn dec_value(s: Seq<u8>) -> int
    decreases s.len(),
{
    if s.len() == 0 {
        0
    } else {
        dec_value(s.drop_last()) * 10 + (s.last() - 48)
    }
}

/// Every byte is an ASCII decimal digit.
pub open spec fn all_digits(s: Seq<u8>) -> bool {
    forall|i: int| 0 <= i < s.len() ==> 48 <= #[trigger] s[i] <= 57
}

/// The digits of a decimal numeral, with an optional leading plus sign.
pub open spec fn numeral_digits(s: Seq<u8>) -> Seq<u8> {
    if s.len() > 0 && s[0] == 43 {
        s.drop_first()
    } else {
        s
    }
}

/// Whether the bytes parse as a decimal `u64`: at least one digit after an
/// optional leading plus sign, all digits, value in range.
pub open spec fn parses_as_u64(s: Seq<u8>) -> bool {
    &&& numeral_digits(s).len() > 0
    &&& all_digits(numeral_digits(s))
    &&& dec_value(numeral_digits(s)) <= u64::MAX
}

/// The value only grows as digits are appended.
proof fn lemma_dec_value_grows(s: Seq<u8>, i: int)
    requires
        all_digits(s),
        0 <= i <= s.len(),
    ensures
        0 <= dec_value(s.subrange(0, i)) <= dec_value(s),
    decreases s.len() - i,
{
    if i == s.len() {
        assert(s.subrange(0, i) =~= s);
        lemma_dec_value_nonneg(s);
    } else {
        lemma_dec_value_grows(s, i + 1);
        let t = s.subrange(0, i + 1);
        assert(t.drop_last() =~= s.subrange(0, i));
        assert(dec_value(t) == dec_value(s.subrange(0, i)) * 10 + (s[i] - 48));
        lemma_dec_value_nonneg(s.subrange(0, i));
        assert(dec_value(s.subrange(0, i)) * 10 >= dec_value(s.subrange(0, i)))
            by (nonlinear_arith)
            requires
                dec_value(s.subrange(0, i)) >= 0,
        ;
    }
}

proof fn lemma_dec_value_nonneg(s: Seq<u8>)
    requires
        all_digits(s),
    ensures
        dec_value(s) >= 0,
    decreases s.len(),
{
    if s.len() > 0 {
        assert(all_digits(s.drop_last()));
        lemma_dec_value_nonneg(s.drop_last());
        assert(dec_value(s.drop_last()) * 10 >= 0) by (nonlinear_arith)
            requires
                dec_value(s.drop_last()) >= 0,
        ;
    }
}

/// Parses a decimal order id, as a cancellation request carries it. Returns
/// the value exactly when the text is a decimal numeral (an optional
/// leading plus sign, then digits) that fits in 64 bits.
pub fn parse_order_id(s: &str) -> (r: Option<u64>)
    ensures
        parses_as_u64(s.spec_bytes()) ==> r == Some(
            dec_value(numeral_digits(s.spec_bytes())) as u64,
        ),
        !parses_as_u64(s.spec_bytes()) ==> r == None::<u64>,
{
    let b = s.as_bytes();
    let n = b.len();
    let start: usize = if n > 0 && b[0] == 43 {
        1
    } else {
        0
    };
    let ghost digits = numeral_digits(s.spec_bytes());
    proof {
        if start == 1 {
            assert(digits =~= s.spec_bytes().drop_first());
        } else {
            assert(digits =~= s.spec_bytes());
        }
        assert(forall|x: int| 0 <= x < digits.len() ==> digits[x] == b@[start + x]);
    }
    if start >= n {
        return None;
    }
    let mut acc: u64 = 0;
    let mut i: usize = start;
    proof {
        assert(digits.subrange(0, 0) =~= Seq::<u8>::empty());
    }
    while i < n
        invariant
            start <= i <= n,
            n == b@.len(),
            digits.len() == n - start,
            forall|x: int| 0 <= x < digits.len() ==> digits[x] == b@[start + x],
            all_digits(digits.subrange(0, i - start)),
            acc == dec_value(digits.subrange(0, i - start)),
        decreases n - i,
    {
        let c = b[i];
        if c < 48 || c > 57 {
            proof {
                assert(digits[i - start] == c);
                assert(!all_digits(digits));
            }
            return None;
        }
        let d = c - 48;
        let ghost pre = digits.subrange(0, i - start);
        let ghost cur = digits.subrange(0, i - start + 1);
        proof {
            assert(cur.drop_last() =~= pre);
            assert(cur.last() == c);
            assert(dec_value(cur) == dec_value(pre) * 10 + d);
            assert(forall|x: int| 0 <= x < cur.len() ==> cur[x] == digits[x]);
        }
        if acc > (u64::MAX - d as u64) / 10 {
            proof {
                // this prefix already exceeds the range, so the whole does
                assert(dec_value(cur) > u64::MAX) by (nonlinear_arith)
                    requires
                        dec_value(cur) == dec_value(pre) * 10 + d,
                        dec_value(pre) == acc,
                        acc > (u64::MAX - d as u64) / 10,
                        0 <= d <= 9,
                        acc <= u64::MAX,
                ;
                if parses_as_u64(s.spec_bytes()) {
                    lemma_dec_value_grows(digits, i - start + 1);
                    assert(dec_value(digits) >= dec_value(cur));
                }
            }
            return None;
        }
        proof {
            assert(acc * 10 + d <= u64::MAX) by (nonlinear_arith)
                requires
                    acc <= (u64::MAX - d as u64) / 10,
                    0 <= d <= 9,
            ;
        }
        acc = acc * 10 + d as u64;
        i = i + 1;
    }
    proof {
        assert(digits.subrange(0, (n - start) as int) =~= digits);
    }
    Some(acc)
}

/// The quantity a submission filled: the exact sum of its trades'
/// quantities.
pub fn trades_filled_quantity(trades: &Vec<Trade>) -> (r: u128)
    ensures
        r == sum_trade_qty(trades@),
{
    let n = trades.len();
    let mut acc: u128 = 0;
    let mut i: usize = 0;
    proof {
        assert(trades@.subrange(0, 0) =~= Seq::<Trade>::empty());
    }
    while i < n
        invariant
            0 <= i <= n,
            n == trades@.len(),
            acc == sum_trade_qty(trades@.subrange(0, i as int)),
        decreases n - i,
    {
        let t = trades[i];
        proof {
            let pre = trades@.subrange(0, i as int);
            let cur = trades@.subrange(0, i + 1);
            assert(cur =~= pre.push(trades@[i as int]));
            lemma_sum_qty_snoc(pre, trades@[i as int]);
            lemma_sum_trade_qty_bounds(pre);
            assert(pre.len() * (u64::MAX as int) + (u64::MAX as int) <= u128::MAX as int)
                by (nonlinear_arith)
                requires
                    pre.len() <= 0xffff_ffff_ffff_ffff,
            ;
        }
        acc = acc + t.quantity as u128;
        i = i + 1;
    }
    proof {
        assert(trades@.subrange(0, n as int) =~= trades@);
    }
    acc
}

/// Appending one trade adds its quantity to the sum.
proof fn lemma_sum_qty_snoc(s: Seq<Trade>, t: Trade)
    ensures
        sum_trade_qty(s.push(t)) == sum_trade_qty(s) + t.quantity,
    decreases s.len(),
{
    let u = s.push(t);
    if s.len() == 0 {
        assert(u[0] == t);
        assert(u.drop_first() =~= Seq::<Trade>::empty());
        assert(sum_trade_qty(u) == u[0].quantity + sum_trade_qty(u.drop_first()));
    } else {
        assert(u[0] == s[0]);
        assert(u.drop_first() =~= s.drop_first().push(t));
        lemma_sum_qty_snoc(s.drop_first(), t);
        assert(sum_trade_qty(u) == u[0].quantity + sum_trade_qty(u.drop_first()));
    }
}

/// The status a submission response reports: `New` when nothing filled,
/// `Filled` when nothing remains, `PartiallyFilled` otherwise.
pub fn order_status(filled_quantity: u128, remaining_quantity: u64) -> (r: OrderStatus)
    ensures
        filled_quantity == 0 ==> r == OrderStatus::New,
        filled_quantity > 0 && remaining_quantity > 0 ==> r == OrderStatus::PartiallyFilled,
        filled_quantity > 0 && remaining_quantity == 0 ==> r == OrderStatus::Filled,
{
    if filled_quantity == 0 {
        OrderStatus::New
    } else if remaining_quantity > 0 {
        OrderStatus::PartiallyFilled
    } else {
        OrderStatus::Filled
    }
}

} // verus!
