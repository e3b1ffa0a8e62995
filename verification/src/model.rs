//! The mathematical model of the book.
//!
//! A ladder is a sequence of price levels held in priority order: the best
//! level first (highest price for bids, lowest for asks). `match_rec` is the
//! matching step itself, written as a recursive function over that model; the
//! executable engine is proved to compute exactly this function.

use vstd::prelude::*;
use crate::order::{Order, OrderSide, Trade};
use crate::level::{LevelV, PriceLevel, has_id, idx_of, queue_inv};

verus! {

/// The view of a ladder: each level's price and resting orders.
pub open spec fn lv(s: Seq<PriceLevel>) -> Seq<LevelV> {
    s.map_values(|p: PriceLevel| p@)
}

/// Whether price `a` has strictly better priority than price `b` on a ladder
/// of the given side.
pub open spec fn earlier(side: OrderSide, a: u64, b: u64) -> bool {
    match side {
        OrderSide::Bid => a > b,
        OrderSide::Ask => a < b,
    }
}

/// Whether an aggressor limited at `limit` trades against a resting level at
/// `best` on the opposite side.
pub open spec fn crosses(side: OrderSide, limit: u64, best: u64) -> bool {
    match side {
        OrderSide::Bid => limit >= best,
        OrderSide::Ask => limit <= best,
    }
}

/// Well-formedness of one ladder holding orders of side `side`: levels are in
/// strictly decreasing priority, each level is non-empty, its queue invariant
/// holds, and every order carries the level's price and the ladder's side.
pub open spec fn ladder_wf(side: OrderSide, s: Seq<LevelV>) -> bool {
    &&& forall|i: int, j: int| 0 <= i < j < s.len() ==> earlier(side, s[i].price, s[j].price)
    &&& forall|i: int| 0 <= i < s.len() ==> (#[trigger] s[i]).orders.len() > 0
    &&& forall|i: int| 0 <= i < s.len() ==> queue_inv((#[trigger] s[i]).orders)
    &&& forall|i: int, j: int|
        0 <= i < s.len() && 0 <= j < s[i].orders.len() ==> (#[trigger] s[i].orders[j]).price
            == s[i].price && s[i].orders[j].side == side
}

/// Whether an order with the id rests somewhere in the ladder.
pub open spec fn ladder_has_id(s: Seq<LevelV>, id: u64) -> bool {
    exists|i: int| 0 <= i < s.len() && has_id((#[trigger] s[i]).orders, id)
}

/// Whether the ladder holds a level at the price.
pub open spec fn has_price(s: Seq<LevelV>, price: u64) -> bool {
    exists|i: int| 0 <= i < s.len() && (#[trigger] s[i]).price == price
}

/// The best price of a ladder, if any: the price of its first level.
pub open spec fn best_price(s: Seq<LevelV>) -> Option<u64> {
    if s.len() == 0 {
        None
    } else {
        Some(s[0].price)
    }
}

/// The book is not crossed: the best bid is strictly below the best ask
/// whenever both sides are non-empty.
pub open spec fn not_crossed(bids: Seq<LevelV>, asks: Seq<LevelV>) -> bool {
    bids.len() > 0 && asks.len() > 0 ==> bids[0].price < asks[0].price
}

/// Every resting order's id is strictly below `bound`.
pub open spec fn ids_below(s: Seq<LevelV>, bound: u64) -> bool {
    forall|i: int, j: int|
        0 <= i < s.len() && 0 <= j < s[i].orders.len() ==> (#[trigger] s[i].orders[j]).id < bound
}

/// The position at which a level with `price` stands or would be inserted,
/// scanning from the best level.
pub open spec fn insert_pos(side: OrderSide, s: Seq<LevelV>, price: u64) -> int
    decreases s.len(),
{
    if s.len() == 0 {
        0
    } else if earlier(side, s[0].price, price) {
        1 + insert_pos(side, s.drop_first(), price)
    } else {
        0
    }
}

/// The ladder after resting `o` at `price`: appended to the level at that
/// price if one exists, else a new level in priority position.
pub open spec fn ladder_insert(side: OrderSide, s: Seq<LevelV>, price: u64, o: Order) -> Seq<
    LevelV,
> {
    let p = insert_pos(side, s, price);
    if p < s.len() && s[p].price == price {
        s.update(p, LevelV { price, orders: s[p].orders.push(o) })
    } else {
        s.insert(p, LevelV { price, orders: seq![o] })
    }
}

/// The first position of the level at `price`.
pub open spec fn price_pos(s: Seq<LevelV>, price: u64) -> int
    decreases s.len(),
{
    if s.len() == 0 {
        0
    } else if s[0].price == price {
        0
    } else {
        1 + price_pos(s.drop_first(), price)
    }
}

/// The ladder after removing the order with `id` from the level at `price`,
/// dropping the level if it empties.
pub open spec fn ladder_remove_order(s: Seq<LevelV>, price: u64, id: u64) -> Seq<LevelV> {
    let p = price_pos(s, price);
    let lvl = s[p];
    let k = idx_of(lvl.orders, id);
    let orders2 = lvl.orders.remove(k);
    if orders2.len() == 0 {
        s.remove(p)
    } else {
        s.update(p, LevelV { price: lvl.price, orders: orders2 })
    }
}

/// If a level with the price exists, `price_pos` finds its first occurrence.
pub proof fn lemma_price_pos(s: Seq<LevelV>, price: u64)
    requires
        has_price(s, price),
    ensures
        0 <= price_pos(s, price) < s.len(),
        s[price_pos(s, price)].price == price,
        forall|j: int| 0 <= j < price_pos(s, price) ==> s[j].price != price,
    decreases s.len(),
{
    if s.len() > 0 && s[0].price != price {
        let r = s.drop_first();
        assert(has_price(r, price)) by {
            let i = choose|i: int| 0 <= i < s.len() && s[i].price == price;
            assert(r[i - 1].price == price);
        }
        lemma_price_pos(r, price);
        let k = price_pos(s, price);
        assert(s[k] == r[k - 1]);
        assert forall|j: int| 0 <= j < k implies s[j].price != price by {
            if j > 0 {
                assert(s[j] == r[j - 1]);
            }
        }
    }
}

/// `insert_pos` splits a sorted ladder: everything before it is strictly
/// better than `price`, everything at or after it is not.
pub proof fn lemma_insert_pos(side: OrderSide, s: Seq<LevelV>, price: u64)
    requires
        forall|i: int, j: int| 0 <= i < j < s.len() ==> earlier(side, s[i].price, s[j].price),
    ensures
        0 <= insert_pos(side, s, price) <= s.len(),
        forall|j: int| 0 <= j < insert_pos(side, s, price) ==> earlier(side, s[j].price, price),
        forall|j: int|
            insert_pos(side, s, price) <= j < s.len() ==> !earlier(side, s[j].price, price),
    decreases s.len(),
{
    if s.len() > 0 && earlier(side, s[0].price, price) {
        let r = s.drop_first();
        assert(forall|i: int, j: int|
            0 <= i < j < r.len() ==> earlier(side, (#[trigger] r[i]).price, (#[trigger] r[j]).price));
        lemma_insert_pos(side, r, price);
        let k = insert_pos(side, s, price);
        assert forall|j: int| 0 <= j < k implies earlier(side, s[j].price, price) by {
            if j > 0 {
                assert(r[j - 1] == s[j]);
            }
        }
        assert forall|j: int| k <= j < s.len() implies !earlier(side, s[j].price, price) by {
            assert(r[j - 1] == s[j]);
        }
    } else if s.len() > 0 {
        assert forall|j: int| 0 <= j < s.len() implies !earlier(side, s[j].price, price) by {
            if j > 0 {
                assert(earlier(side, s[0].price, s[j].price));
            }
        }
    }
}

/// The sum of the quantities of a sequence of trades.
pub open spec fn sum_trade_qty(s: Seq<Trade>) -> int
    decreases s.len(),
{
    if s.len() == 0 {
        0
    } else {
        s[0].quantity + sum_trade_qty(s.drop_first())
    }
}

/// The trade-quantity sum is never negative and never exceeds the trade
/// count scaled by the largest single quantity.
pub proof fn lemma_sum_trade_qty_bounds(s: Seq<Trade>)
    ensures
        0 <= sum_trade_qty(s) <= s.len() * (u64::MAX as int),
    decreases s.len(),
{
    if s.len() > 0 {
        lemma_sum_trade_qty_bounds(s.drop_first());
        assert((s.len() - 1) * (u64::MAX as int) + (u64::MAX as int) == s.len() * (u64::MAX
            as int)) by (nonlinear_arith);
    }
}

pub proof fn lemma_sum_trade_qty_cons(t: Trade, r: Seq<Trade>)
    ensures
        sum_trade_qty(seq![t] + r) == t.quantity + sum_trade_qty(r),
{
    let s = seq![t] + r;
    assert(s[0] == t);
    assert(s.drop_first() =~= r);
    assert(sum_trade_qty(s) == s[0].quantity + sum_trade_qty(s.drop_first()));
}

/// The notional value (price times quantity, summed) of a sequence of
/// trades.
pub open spec fn sum_notional(s: Seq<Trade>) -> int
    decreases s.len(),
{
    if s.len() == 0 {
        0
    } else {
        s[0].price * s[0].quantity + sum_notional(s.drop_first())
    }
}

pub proof fn lemma_sum_notional_cons(t: Trade, r: Seq<Trade>)
    ensures
        sum_notional(seq![t] + r) == t.price * t.quantity + sum_notional(r),
{
    let s = seq![t] + r;
    assert(s[0] == t);
    assert(s.drop_first() =~= r);
    assert(sum_notional(s) == s[0].price * s[0].quantity + sum_notional(s.drop_first()));
}

pub proof fn lemma_sum_notional_push(s: Seq<Trade>, t: Trade)
    ensures
        sum_notional(s.push(t)) == sum_notional(s) + t.price * t.quantity,
    decreases s.len(),
{
    let u = s.push(t);
    if s.len() == 0 {
        assert(u[0] == t);
        assert(u.drop_first() =~= Seq::<Trade>::empty());
        assert(sum_notional(u) == u[0].price * u[0].quantity + sum_notional(u.drop_first()));
    } else {
        assert(u[0] == s[0]);
        assert(u.drop_first() =~= s.drop_first().push(t));
        lemma_sum_notional_push(s.drop_first(), t);
        assert(sum_notional(u) == u[0].price * u[0].quantity + sum_notional(u.drop_first()));
    }
}

pub proof fn lemma_sum_notional_nonneg(s: Seq<Trade>)
    ensures
        sum_notional(s) >= 0,
    decreases s.len(),
{
    if s.len() > 0 {
        lemma_sum_notional_nonneg(s.drop_first());
        assert(s[0].price * s[0].quantity >= 0) by (nonlinear_arith);
    }
}

/// Whether the level at `price` holds an order with `id`.
pub open spec fn level_contains(s: Seq<LevelV>, price: u64, id: u64) -> bool {
    exists|i: int|
        0 <= i < s.len() && (#[trigger] s[i]).price == price && has_id(s[i].orders, id)
}

/// Whether the level at `price` holds exactly the order `o`.
pub open spec fn level_has_order(s: Seq<LevelV>, price: u64, o: Order) -> bool {
    exists|i: int, j: int|
        0 <= i < s.len() && s[i].price == price && 0 <= j < s[i].orders.len() && (#[trigger] s[i].orders[j]) == o
}

/// What resting an order does to a well-formed ladder: the result is well
/// formed, carries exactly the old ids plus the new one, keeps every old
/// order at its price, and its best level moves only if the new price is
/// strictly better.
pub proof fn lemma_ladder_insert(side: OrderSide, s: Seq<LevelV>, price: u64, o: Order)
    requires
        ladder_wf(side, s),
        o.price == price,
        o.side == side,
        o.quantity >= 1,
        !ladder_has_id(s, o.id),
    ensures
        ({
            let r = ladder_insert(side, s, price, o);
            &&& ladder_wf(side, r)
            &&& r.len() >= 1
            &&& forall|id: u64|
                ladder_has_id(r, id) <==> ladder_has_id(s, id) || id == o.id
            &&& forall|pr: u64, id: u64|
                level_contains(s, pr, id) ==> level_contains(r, pr, id)
            &&& level_contains(r, price, o.id)
            &&& forall|i: int, j: int|
                0 <= i < r.len() && 0 <= j < r[i].orders.len() ==> (level_has_order(
                    s,
                    r[i].price,
                    #[trigger] r[i].orders[j],
                ) || (r[i].price == price && r[i].orders[j] == o))
            &&& (if insert_pos(side, s, price) == 0 {
                r[0].price == price
            } else {
                r[0] == s[0]
            })
        }),
{
    lemma_insert_pos(side, s, price);
    let p = insert_pos(side, s, price);
    let r = ladder_insert(side, s, price, o);
    if p < s.len() && s[p].price == price {
        let orders2 = s[p].orders.push(o);
        assert(r == s.update(p, LevelV { price, orders: orders2 }));
        assert(forall|i: int| 0 <= i < r.len() && i != p ==> r[i] == s[i]);
        assert(r[p].orders == orders2);
        assert(forall|j: int| 0 <= j < s[p].orders.len() ==> orders2[j] == s[p].orders[j]);
        assert(orders2[s[p].orders.len() as int] == o);
        assert(!has_id(s[p].orders, o.id));
        assert(queue_inv(orders2)) by {
            assert forall|a: int, b: int| 0 <= a < b < orders2.len() implies orders2[a].id
                != orders2[b].id by {
                if b < orders2.len() - 1 {
                } else {
                    assert(orders2[a] == s[p].orders[a]);
                    assert(has_id(s[p].orders, orders2[a].id));
                }
            }
        }
        assert(ladder_wf(side, r));
        assert forall|id: u64| ladder_has_id(r, id) implies ladder_has_id(s, id) || id == o.id by {
            let i = choose|i: int| 0 <= i < r.len() && has_id(r[i].orders, id);
            if i != p {
                assert(has_id(s[i].orders, id));
            } else {
                let j = choose|j: int| 0 <= j < orders2.len() && orders2[j].id == id;
                if j < s[p].orders.len() {
                    assert(has_id(s[p].orders, id));
                } else {
                    assert(orders2[j] == o);
                }
            }
        }
        assert forall|id: u64| ladder_has_id(s, id) || id == o.id implies ladder_has_id(
            r,
            id,
        ) by {
            if id == o.id {
                assert(orders2[s[p].orders.len() as int].id == id);
                assert(has_id(r[p].orders, id));
            } else {
                let i = choose|i: int| 0 <= i < s.len() && has_id(s[i].orders, id);
                if i != p {
                    assert(has_id(r[i].orders, id));
                } else {
                    let j = choose|j: int|
                        0 <= j < s[p].orders.len() && s[p].orders[j].id == id;
                    assert(orders2[j].id == id);
                    assert(has_id(r[p].orders, id));
                }
            }
        }
        assert forall|pr: u64, id: u64| level_contains(s, pr, id) implies level_contains(
            r,
            pr,
            id,
        ) by {
            let i = choose|i: int|
                0 <= i < s.len() && (#[trigger] s[i]).price == pr && has_id(s[i].orders, id);
            if i != p {
                assert(r[i].price == pr && has_id(r[i].orders, id));
            } else {
                let j = choose|j: int| 0 <= j < s[p].orders.len() && s[p].orders[j].id == id;
                assert(orders2[j].id == id);
                assert(r[p].price == pr && has_id(r[p].orders, id));
            }
        }
        assert(has_id(r[p].orders, o.id)) by {
            assert(orders2[s[p].orders.len() as int].id == o.id);
        }
        assert(level_contains(r, price, o.id));
        assert forall|i: int, j: int|
            0 <= i < r.len() && 0 <= j < r[i].orders.len() implies (level_has_order(
            s,
            r[i].price,
            #[trigger] r[i].orders[j],
        ) || (r[i].price == price && r[i].orders[j] == o)) by {
            if i != p {
                assert(r[i] == s[i]);
                assert(level_has_order(s, r[i].price, r[i].orders[j]));
            } else if j < s[p].orders.len() {
                assert(r[p].orders[j] == s[p].orders[j]);
                assert(level_has_order(s, r[p].price, r[p].orders[j]));
            } else {
                assert(r[p].orders[j] == o);
            }
        }
    } else {
        assert(r == s.insert(p, LevelV { price, orders: seq![o] }));
        assert(forall|i: int| 0 <= i < p ==> r[i] == s[i]);
        assert(forall|i: int| p < i < r.len() ==> r[i] == s[i - 1]);
        assert(r[p].price == price && r[p].orders == seq![o]);
        assert(r[p].orders[0] == o);
        assert(ladder_wf(side, r)) by {
            assert forall|i: int, j: int| 0 <= i < j < r.len() implies earlier(
                side,
                r[i].price,
                r[j].price,
            ) by {
                if i < p && j < p {
                } else if i < p && j == p {
                    assert(earlier(side, s[i].price, price));
                } else if i < p && j > p {
                    assert(r[j] == s[j - 1]);
                } else if i == p && j > p {
                    assert(r[j] == s[j - 1]);
                    assert(!earlier(side, s[j - 1].price, price));
                    assert(s[j - 1].price != price);
                } else {
                    assert(r[i] == s[i - 1] && r[j] == s[j - 1]);
                }
            }
        }
        assert forall|id: u64| ladder_has_id(r, id) implies ladder_has_id(s, id) || id == o.id by {
            let i = choose|i: int| 0 <= i < r.len() && has_id(r[i].orders, id);
            if i < p {
                assert(has_id(s[i].orders, id));
            } else if i == p {
                let j = choose|j: int| 0 <= j < r[p].orders.len() && r[p].orders[j].id == id;
                assert(r[p].orders[j] == o);
            } else {
                assert(has_id(s[i - 1].orders, id));
            }
        }
        assert forall|id: u64| ladder_has_id(s, id) || id == o.id implies ladder_has_id(
            r,
            id,
        ) by {
            if id == o.id {
                assert(has_id(r[p].orders, id));
            } else {
                let i = choose|i: int| 0 <= i < s.len() && has_id(s[i].orders, id);
                if i < p {
                    assert(has_id(r[i].orders, id));
                } else {
                    assert(r[i + 1] == s[i]);
                    assert(has_id(r[i + 1].orders, id));
                }
            }
        }
        assert forall|pr: u64, id: u64| level_contains(s, pr, id) implies level_contains(
            r,
            pr,
            id,
        ) by {
            let i = choose|i: int|
                0 <= i < s.len() && (#[trigger] s[i]).price == pr && has_id(s[i].orders, id);
            if i < p {
                assert(r[i].price == pr && has_id(r[i].orders, id));
            } else {
                assert(r[i + 1] == s[i]);
                assert(r[i + 1].price == pr && has_id(r[i + 1].orders, id));
            }
        }
        assert(has_id(r[p].orders, o.id));
        assert(level_contains(r, price, o.id));
        assert forall|i: int, j: int|
            0 <= i < r.len() && 0 <= j < r[i].orders.len() implies (level_has_order(
            s,
            r[i].price,
            #[trigger] r[i].orders[j],
        ) || (r[i].price == price && r[i].orders[j] == o)) by {
            if i < p {
                assert(r[i] == s[i]);
                assert(level_has_order(s, r[i].price, r[i].orders[j]));
            } else if i == p {
                assert(r[p].orders[j] == o);
            } else {
                assert(r[i] == s[i - 1]);
                assert(level_has_order(s, r[i].price, r[i].orders[j]));
            }
        }
    }
}

/// The trade produced when an aggressor of side `side` takes `q` from a
/// resting maker at the maker's `price`.
pub open spec fn spec_trade(
    side: OrderSide,
    maker: Order,
    taker_id: u64,
    taker_ts: u64,
    price: u64,
    q: int,
) -> Trade {
    Trade {
        bid_order_id: if side == OrderSide::Bid {
            taker_id
        } else {
            maker.id
        },
        ask_order_id: if side == OrderSide::Bid {
            maker.id
        } else {
            taker_id
        },
        price,
        quantity: q as u64,
        timestamp: if maker.timestamp <= taker_ts {
            maker.timestamp
        } else {
            taker_ts
        },
    }
}

/// The maker's order id recorded in a trade taken by side `taker_side`.
pub open spec fn maker_of(t: Trade, taker_side: OrderSide) -> u64 {
    if taker_side == OrderSide::Bid {
        t.ask_order_id
    } else {
        t.bid_order_id
    }
}

/// The outcome of matching one inbound order against the opposite ladder:
/// the trades in match order, the ladder left behind, and the inbound
/// quantity still unfilled.
pub ghost struct MatchResultV {
    pub trades: Seq<Trade>,
    pub opp: Seq<LevelV>,
    pub left: int,
}

/// One inbound order of side `side`, limited at `limit`, with `qty` still to
/// fill, matched against the opposite ladder `opp`. While quantity remains
/// and the best opposite level crosses, the head maker of that level is
/// filled for the smaller of the two quantities, at the maker's price; fully
/// consumed makers leave their queue, an emptied level leaves the ladder, and
/// a partial fill leaves the maker at the head with its quantity reduced.
pub open spec fn match_rec(
    opp: Seq<LevelV>,
    side: OrderSide,
    limit: u64,
    qty: int,
    taker_id: u64,
    taker_ts: u64,
) -> MatchResultV
    decreases opp.len(), (if opp.len() > 0 { opp[0].orders.len() } else { 0 }),
{
    if qty <= 0 || opp.len() == 0 || !crosses(side, limit, opp[0].price) || opp[0].orders.len()
        == 0 {
        MatchResultV { trades: Seq::empty(), opp, left: qty }
    } else {
        let lvl = opp[0];
        let maker = lvl.orders[0];
        if maker.quantity <= qty {
            let q = maker.quantity as int;
            let t = spec_trade(side, maker, taker_id, taker_ts, lvl.price, q);
            let opp1 = if lvl.orders.len() == 1 {
                opp.drop_first()
            } else {
                opp.update(0, LevelV { price: lvl.price, orders: lvl.orders.drop_first() })
            };
            let rest = match_rec(opp1, side, limit, qty - q, taker_id, taker_ts);
            MatchResultV { trades: seq![t] + rest.trades, opp: rest.opp, left: rest.left }
        } else {
            let t = spec_trade(side, maker, taker_id, taker_ts, lvl.price, qty);
            let opp1 = opp.update(
                0,
                LevelV {
                    price: lvl.price,
                    orders: lvl.orders.update(
                        0,
                        Order { quantity: (maker.quantity - qty) as u64, ..maker },
                    ),
                },
            );
            MatchResultV { trades: seq![t], opp: opp1, left: 0 }
        }
    }
}

/// Unfolds one full-fill step of `match_rec`: the head maker is consumed
/// whole, its trade is prepended, and matching continues on the shrunk
/// ladder, which is well formed again.
pub proof fn lemma_match_step_full(
    opp: Seq<LevelV>,
    side: OrderSide,
    limit: u64,
    qty: int,
    taker_id: u64,
    taker_ts: u64,
)
    requires
        ladder_wf(crate::order::spec_opposite(side), opp),
        qty > 0,
        opp.len() > 0,
        crosses(side, limit, opp[0].price),
        opp[0].orders[0].quantity <= qty,
    ensures
        ({
            let maker = opp[0].orders[0];
            let q = maker.quantity as int;
            let opp1 = if opp[0].orders.len() == 1 {
                opp.drop_first()
            } else {
                opp.update(0, LevelV { price: opp[0].price, orders: opp[0].orders.drop_first() })
            };
            let m0 = match_rec(opp, side, limit, qty, taker_id, taker_ts);
            let m1 = match_rec(opp1, side, limit, qty - q, taker_id, taker_ts);
            &&& m0.trades == seq![
                spec_trade(side, maker, taker_id, taker_ts, opp[0].price, q),
            ] + m1.trades
            &&& m0.opp == m1.opp
            &&& m0.left == m1.left
            &&& ladder_wf(crate::order::spec_opposite(side), opp1)
        }),
{
    let mside = crate::order::spec_opposite(side);
    let maker = opp[0].orders[0];
    let opp1 = if opp[0].orders.len() == 1 {
        opp.drop_first()
    } else {
        opp.update(0, LevelV { price: opp[0].price, orders: opp[0].orders.drop_first() })
    };
    assert(opp[0].orders.len() > 0);
    assert(ladder_wf(mside, opp1)) by {
        if opp[0].orders.len() == 1 {
            assert(forall|i: int| 0 <= i < opp1.len() ==> opp1[i] == opp[i + 1]);
        } else {
            let o1 = opp[0].orders.drop_first();
            assert(forall|j: int| 0 <= j < o1.len() ==> o1[j] == opp[0].orders[j + 1]);
        }
    }
}

/// Unfolds one partial-fill step of `match_rec`: the inbound is exhausted
/// against the head maker, which stays at the head with its quantity
/// reduced; the resulting ladder is well formed.
pub proof fn lemma_match_step_partial(
    opp: Seq<LevelV>,
    side: OrderSide,
    limit: u64,
    qty: int,
    taker_id: u64,
    taker_ts: u64,
)
    requires
        ladder_wf(crate::order::spec_opposite(side), opp),
        qty > 0,
        opp.len() > 0,
        crosses(side, limit, opp[0].price),
        opp[0].orders[0].quantity > qty,
    ensures
        ({
            let maker = opp[0].orders[0];
            let maker2 = Order { quantity: (maker.quantity - qty) as u64, ..maker };
            let opp1 = opp.update(
                0,
                LevelV { price: opp[0].price, orders: opp[0].orders.update(0, maker2) },
            );
            let m0 = match_rec(opp, side, limit, qty, taker_id, taker_ts);
            &&& m0.trades == seq![
                spec_trade(side, maker, taker_id, taker_ts, opp[0].price, qty),
            ]
            &&& m0.opp == opp1
            &&& m0.left == 0
            &&& ladder_wf(crate::order::spec_opposite(side), opp1)
        }),
{
    let mside = crate::order::spec_opposite(side);
    let maker = opp[0].orders[0];
    let maker2 = Order { quantity: (maker.quantity - qty) as u64, ..maker };
    let opp1 = opp.update(
        0,
        LevelV { price: opp[0].price, orders: opp[0].orders.update(0, maker2) },
    );
    assert(opp[0].orders.len() > 0);
    assert(ladder_wf(mside, opp1)) by {
        let o1 = opp[0].orders.update(0, maker2);
        assert(forall|j: int| 1 <= j < o1.len() ==> o1[j] == opp[0].orders[j]);
        assert(o1[0] == maker2);
        assert(forall|i: int| 1 <= i < opp1.len() ==> opp1[i] == opp[i]);
    }
}

/// The facts the engine needs about one matching step: the ladder left
/// behind is well formed and no deeper than before; quantity is conserved;
/// no new ids appear; every trade executes at a resting maker's price, no
/// worse than the aggressor's limit; and if quantity is left over, the
/// remaining best level does not cross it.
pub proof fn lemma_match_rec_properties(
    opp: Seq<LevelV>,
    side: OrderSide,
    limit: u64,
    qty: int,
    taker_id: u64,
    taker_ts: u64,
)
    requires
        ladder_wf(crate::order::spec_opposite(side), opp),
        qty >= 0,
    ensures
        ({
            let m = match_rec(opp, side, limit, qty, taker_id, taker_ts);
            &&& ladder_wf(crate::order::spec_opposite(side), m.opp)
            &&& 0 <= m.left <= qty
            &&& sum_trade_qty(m.trades) + m.left == qty
            &&& m.opp.len() > 0 && opp.len() > 0 ==> !earlier(
                crate::order::spec_opposite(side),
                m.opp[0].price,
                opp[0].price,
            )
            &&& m.left > 0 && m.opp.len() > 0 ==> !crosses(side, limit, m.opp[0].price)
            &&& forall|id: u64| ladder_has_id(m.opp, id) ==> ladder_has_id(opp, id)
            &&& forall|k: int|
                0 <= k < m.trades.len() ==> {
                    let t = #[trigger] m.trades[k];
                    &&& crosses(side, limit, t.price)
                    &&& has_price(opp, t.price)
                    &&& t.quantity >= 1
                    &&& ladder_has_id(opp, maker_of(t, side))
                    &&& (if side == OrderSide::Bid {
                        t.bid_order_id
                    } else {
                        t.ask_order_id
                    }) == taker_id
                }
        }),
    decreases opp.len(), (if opp.len() > 0 { opp[0].orders.len() } else { 0 }),
{
    let mside = crate::order::spec_opposite(side);
    let m = match_rec(opp, side, limit, qty, taker_id, taker_ts);
    if qty <= 0 || opp.len() == 0 || !crosses(side, limit, opp[0].price) || opp[0].orders.len()
        == 0 {
        // no step taken
    } else {
        let lvl = opp[0];
        let maker = lvl.orders[0];
        if maker.quantity <= qty {
            let q = maker.quantity as int;
            let t = spec_trade(side, maker, taker_id, taker_ts, lvl.price, q);
            let opp1 = if lvl.orders.len() == 1 {
                opp.drop_first()
            } else {
                opp.update(0, LevelV { price: lvl.price, orders: lvl.orders.drop_first() })
            };
            assert(ladder_wf(mside, opp1)) by {
                if lvl.orders.len() == 1 {
                    assert(forall|i: int| 0 <= i < opp1.len() ==> opp1[i] == opp[i + 1]);
                } else {
                    let o1 = lvl.orders.drop_first();
                    assert(forall|j: int| 0 <= j < o1.len() ==> o1[j] == lvl.orders[j + 1]);
                }
            }
            let rest = match_rec(opp1, side, limit, qty - q, taker_id, taker_ts);
            lemma_match_rec_properties(opp1, side, limit, qty - q, taker_id, taker_ts);
            lemma_sum_trade_qty_cons(t, rest.trades);
            // ids of opp1 are ids of opp
            assert forall|id: u64| ladder_has_id(opp1, id) implies ladder_has_id(opp, id) by {
                let i = choose|i: int| 0 <= i < opp1.len() && has_id(opp1[i].orders, id);
                if lvl.orders.len() == 1 {
                    assert(opp1[i] == opp[i + 1]);
                    assert(has_id(opp[i + 1].orders, id));
                } else {
                    if i == 0 {
                        let j = choose|j: int|
                            0 <= j < opp1[0].orders.len() && opp1[0].orders[j].id == id;
                        assert(opp1[0].orders[j] == lvl.orders[j + 1]);
                        assert(has_id(opp[0].orders, id));
                    } else {
                        assert(opp1[i] == opp[i]);
                        assert(has_id(opp[i].orders, id));
                    }
                }
            }
            assert(has_id(lvl.orders, maker.id));
            assert(ladder_has_id(opp, maker.id));
            assert(has_price(opp, lvl.price));
            // price ordering: best of opp1 is no better than best of opp
            assert(m.opp == rest.opp);
            if rest.opp.len() > 0 {
                if opp1.len() > 0 {
                    assert(!earlier(mside, rest.opp[0].price, opp1[0].price));
                    if lvl.orders.len() == 1 {
                        assert(opp1[0] == opp[1]);
                        assert(earlier(mside, opp[0].price, opp[1].price));
                    } else {
                        assert(opp1[0].price == opp[0].price);
                    }
                }
            }
            // per-trade facts
            assert forall|k: int| 0 <= k < m.trades.len() implies {
                let tt = #[trigger] m.trades[k];
                &&& crosses(side, limit, tt.price)
                &&& has_price(opp, tt.price)
                &&& tt.quantity >= 1
                &&& ladder_has_id(opp, maker_of(tt, side))
                &&& (if side == OrderSide::Bid {
                    tt.bid_order_id
                } else {
                    tt.ask_order_id
                }) == taker_id
            } by {
                if k == 0 {
                    assert(m.trades[0] == t);
                } else {
                    assert(m.trades[k] == rest.trades[k - 1]);
                    let tt = rest.trades[k - 1];
                    assert(has_price(opp1, tt.price));
                    let i = choose|i: int| 0 <= i < opp1.len() && opp1[i].price == tt.price;
                    if lvl.orders.len() == 1 {
                        assert(opp1[i] == opp[i + 1]);
                        assert(has_price(opp, tt.price));
                    } else {
                        if i == 0 {
                            assert(opp1[0].price == opp[0].price);
                        } else {
                            assert(opp1[i] == opp[i]);
                        }
                        assert(has_price(opp, tt.price));
                    }
                    assert(ladder_has_id(opp1, maker_of(tt, side)));
                }
            }
        } else {
            let maker2 = Order { quantity: (maker.quantity - qty) as u64, ..maker };
            let opp1 = opp.update(
                0,
                LevelV { price: lvl.price, orders: lvl.orders.update(0, maker2) },
            );
            assert(m.opp == opp1);
            assert(ladder_wf(mside, opp1)) by {
                let o1 = lvl.orders.update(0, maker2);
                assert(forall|j: int| 1 <= j < o1.len() ==> o1[j] == lvl.orders[j]);
                assert(o1[0] == maker2);
                assert(forall|i: int| 1 <= i < opp1.len() ==> opp1[i] == opp[i]);
            }
            let t = spec_trade(side, maker, taker_id, taker_ts, lvl.price, qty);
            assert(m.trades[0] == t);
            assert(m.trades.drop_first() =~= Seq::<Trade>::empty());
            assert(sum_trade_qty(m.trades) == t.quantity + sum_trade_qty(m.trades.drop_first()));
            assert(has_id(lvl.orders, maker.id));
            assert(ladder_has_id(opp, maker.id));
            assert(has_price(opp, lvl.price));
            assert forall|id: u64| ladder_has_id(opp1, id) implies ladder_has_id(opp, id) by {
                let i = choose|i: int| 0 <= i < opp1.len() && has_id(opp1[i].orders, id);
                if i == 0 {
                    let j = choose|j: int|
                        0 <= j < opp1[0].orders.len() && opp1[0].orders[j].id == id;
                    if j == 0 {
                        assert(lvl.orders[0].id == id);
                    } else {
                        assert(opp1[0].orders[j] == lvl.orders[j]);
                    }
                    assert(has_id(opp[0].orders, id));
                } else {
                    assert(opp1[i] == opp[i]);
                    assert(has_id(opp[i].orders, id));
                }
            }
        }
    }
}

} // verus!
