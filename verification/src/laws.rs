//! The laws of the matching step, proved once over the model.
//!
//! Each law is stated about `match_rec` (or the cancel model), so it covers
//! every call of the engine: the executable code is proved elsewhere to
//! compute exactly those functions.

use vstd::prelude::*;
use crate::order::{Order, OrderSide, Trade};
use crate::level::{has_id, idx_of, LevelV};
use crate::model::{
    crosses, has_price, ladder_has_id, ladder_remove_order, ladder_wf, level_has_order,
    lemma_match_rec_properties, lemma_price_pos, level_contains, maker_of, match_rec, price_pos,
    sum_trade_qty,
};

verus! {

/// No two resting orders of the ladder share an id, across all its levels.
pub open spec fn ladder_ids_unique(s: Seq<LevelV>) -> bool {
    forall|i: int, j: int, i2: int, j2: int|
        0 <= i < s.len() && 0 <= j < s[i].orders.len() && 0 <= i2 < s.len() && 0 <= j2
            < s[i2].orders.len() && !(i == i2 && j == j2) ==> (#[trigger] s[i].orders[j]).id != (
        #[trigger] s[i2].orders[j2]).id
}

/// `after` is what is left of the FIFO `before` once a prefix was consumed:
/// a suffix of it, whose head may have a reduced quantity but is otherwise
/// the same order.
pub open spec fn fifo_tail(before: Seq<Order>, after: Seq<Order>, k: int) -> bool {
    &&& 0 <= k <= before.len()
    &&& after.len() == before.len() - k
    &&& forall|x: int| 1 <= x < after.len() ==> after[x] == before[k + x]
    &&& (after.len() > 0 ==> {
        let h = after[0];
        let h0 = before[k];
        &&& h.id == h0.id
        &&& h.price == h0.price
        &&& h.side == h0.side
        &&& h.timestamp == h0.timestamp
        &&& h.user_id == h0.user_id
        &&& h.quantity <= h0.quantity
    })
}

/// What one match leaves of the opposite ladder: the `k` best levels are
/// gone, the levels behind them untouched, and the new best level is the
/// old level at `k` with a prefix of its FIFO consumed.
pub open spec fn match_structure(before: Seq<LevelV>, after: Seq<LevelV>, k: int) -> bool {
    &&& 0 <= k <= before.len()
    &&& after.len() == before.len() - k
    &&& forall|x: int| 1 <= x < after.len() ==> after[x] == before[k + x]
    &&& (after.len() > 0 ==> after[0].price == before[k].price && exists|k2: int|
        fifo_tail(before[k].orders, after[0].orders, k2))
}

/// **Priority law, structural form.** A match consumes levels from the best
/// inward and, within the level it stops in, orders from the head inward:
/// the ladder left behind relates to the old one by `match_structure`.
pub proof fn lemma_match_structure(
    opp: Seq<LevelV>,
    side: OrderSide,
    limit: u64,
    qty: int,
    taker_id: u64,
    taker_ts: u64,
)
    requires
        ladder_wf(crate::order::spec_opposite(side), opp),
    ensures
        exists|k: int|
            match_structure(
                opp,
                #[trigger] match_rec(opp, side, limit, qty, taker_id, taker_ts).opp,
                k,
            ),
    decreases opp.len(), (if opp.len() > 0 { opp[0].orders.len() } else { 0 }),
{
    let m = match_rec(opp, side, limit, qty, taker_id, taker_ts);
    if qty <= 0 || opp.len() == 0 || !crosses(side, limit, opp[0].price) || opp[0].orders.len()
        == 0 {
        if opp.len() > 0 {
            assert(fifo_tail(opp[0].orders, opp[0].orders, 0));
        }
        assert(match_structure(opp, m.opp, 0));
    } else {
        let lvl = opp[0];
        let maker = lvl.orders[0];
        if maker.quantity <= qty {
            let q = maker.quantity as int;
            let opp1 = if lvl.orders.len() == 1 {
                opp.drop_first()
            } else {
                opp.update(0, LevelV { price: lvl.price, orders: lvl.orders.drop_first() })
            };
            assert(ladder_wf(crate::order::spec_opposite(side), opp1)) by {
                crate::model::lemma_match_step_full(opp, side, limit, qty, taker_id, taker_ts);
            }
            lemma_match_structure(opp1, side, limit, qty - q, taker_id, taker_ts);
            let rest = match_rec(opp1, side, limit, qty - q, taker_id, taker_ts);
            let k1 = choose|k: int| match_structure(opp1, #[trigger] rest.opp, k);
            assert(m.opp == rest.opp);
            if lvl.orders.len() == 1 {
                // one level shorter: shift the consumed count by one
                assert(forall|x: int| 0 <= x < opp1.len() ==> opp1[x] == opp[x + 1]);
                assert(match_structure(opp, m.opp, k1 + 1)) by {
                    if m.opp.len() > 0 {
                        assert(m.opp[0].price == opp1[k1].price);
                        assert(opp1[k1] == opp[k1 + 1]);
                        let k2 = choose|k2: int| fifo_tail(opp1[k1].orders, m.opp[0].orders, k2);
                        assert(fifo_tail(opp[k1 + 1].orders, m.opp[0].orders, k2));
                    }
                }
            } else {
                let o1 = lvl.orders.drop_first();
                assert(forall|x: int| 0 <= x < o1.len() ==> o1[x] == lvl.orders[x + 1]);
                assert(forall|x: int| 1 <= x < opp1.len() ==> opp1[x] == opp[x]);
                if k1 == 0 {
                    // still inside the best level: one more head order is gone
                    assert(match_structure(opp, m.opp, 0)) by {
                        if m.opp.len() > 0 {
                            let k2 = choose|k2: int| fifo_tail(opp1[0].orders, m.opp[0].orders, k2);
                            assert(fifo_tail(lvl.orders, m.opp[0].orders, k2 + 1)) by {
                                assert forall|x: int|
                                    1 <= x < m.opp[0].orders.len() implies (
                                #[trigger] m.opp[0].orders[x]) == lvl.orders[k2 + 1 + x] by {
                                    assert(m.opp[0].orders[x] == o1[k2 + x]);
                                    assert(o1[k2 + x] == lvl.orders[k2 + 1 + x]);
                                }
                            }
                        }
                    }
                } else {
                    // the shrunk level was consumed whole as well
                    assert(match_structure(opp, m.opp, k1)) by {
                        if m.opp.len() > 0 {
                            assert(opp1[k1] == opp[k1]);
                            let k2 = choose|k2: int| fifo_tail(opp1[k1].orders, m.opp[0].orders, k2);
                            assert(fifo_tail(opp[k1].orders, m.opp[0].orders, k2));
                        }
                    }
                }
            }
        } else {
            let maker2 = Order { quantity: (maker.quantity - qty) as u64, ..maker };
            let o1 = lvl.orders.update(0, maker2);
            assert(m.opp == opp.update(0, LevelV { price: lvl.price, orders: o1 }));
            assert(match_structure(opp, m.opp, 0)) by {
                assert(forall|x: int| 1 <= x < m.opp.len() ==> m.opp[x] == opp[x]);
                assert(fifo_tail(lvl.orders, o1, 0)) by {
                    assert(forall|x: int| 1 <= x < o1.len() ==> o1[x] == lvl.orders[x]);
                }
            }
        }
    }
}

/// **Priority law.** If order A stood before order B in the FIFO at one
/// price, and any part of A survives a match, then B was not touched at
/// all: it still rests, unchanged, at the same price. Equivalently, B is
/// consumed only after A is fully consumed.
pub proof fn lemma_priority(
    opp: Seq<LevelV>,
    side: OrderSide,
    limit: u64,
    qty: int,
    taker_id: u64,
    taker_ts: u64,
    li: int,
    a: int,
    b: int,
)
    requires
        ladder_wf(crate::order::spec_opposite(side), opp),
        ladder_ids_unique(opp),
        0 <= li < opp.len(),
        0 <= a < b < opp[li].orders.len(),
    ensures
        ({
            let m = match_rec(opp, side, limit, qty, taker_id, taker_ts);
            ladder_has_id(m.opp, opp[li].orders[a].id) ==> level_has_order(
                m.opp,
                opp[li].price,
                opp[li].orders[b],
            )
        }),
{
    let m = match_rec(opp, side, limit, qty, taker_id, taker_ts);
    let aid = opp[li].orders[a].id;
    lemma_match_structure(opp, side, limit, qty, taker_id, taker_ts);
    let k = choose|k: int| match_structure(opp, #[trigger] m.opp, k);
    if ladder_has_id(m.opp, aid) {
        let x = choose|x: int| 0 <= x < m.opp.len() && has_id((#[trigger] m.opp[x]).orders, aid);
        let y = choose|y: int| 0 <= y < m.opp[x].orders.len() && m.opp[x].orders[y].id == aid;
        // map the surviving occurrence of A back into the old ladder
        let (i0, j0): (int, int) = if x >= 1 {
            (k + x, y)
        } else {
            let k2 = choose|k2: int| fifo_tail(opp[k].orders, m.opp[0].orders, k2);
            (k, k2 + y)
        };
        assert(opp[i0].orders[j0].id == aid) by {
            if x >= 1 {
                assert(m.opp[x] == opp[k + x]);
            } else {
                let k2 = choose|k2: int| fifo_tail(opp[k].orders, m.opp[0].orders, k2);
                if y == 0 {
                    assert(m.opp[0].orders[0].id == opp[k].orders[k2].id);
                } else {
                    assert(m.opp[0].orders[y] == opp[k].orders[k2 + y]);
                }
            }
        }
        assert(i0 == li && j0 == a);
        // A survives, so its level was not consumed past it; B sits behind A
        assert(li >= k);
        if x >= 1 {
            // A's whole level is untouched, so B is too
            assert(m.opp[x] == opp[li]);
            assert(m.opp[x].orders[b] == opp[li].orders[b]);
            assert(level_has_order(m.opp, opp[li].price, opp[li].orders[b]));
        } else {
            assert(li == k);
            let k2 = choose|k2: int| fifo_tail(opp[k].orders, m.opp[0].orders, k2);
            assert(k2 + y == a);
            assert(b - k2 >= 1);
            assert(m.opp[0].orders[b - k2] == opp[li].orders[b]);
            assert(m.opp[0].price == opp[li].price);
            assert(level_has_order(m.opp, opp[li].price, opp[li].orders[b]));
        }
    }
}

/// **Price-improvement law.** Every trade of a match executes at the price
/// of a resting maker level, and that price is no worse than the
/// aggressor's limit: at or below it for an inbound bid, at or above it for
/// an inbound ask.
pub proof fn lemma_price_improvement(
    opp: Seq<LevelV>,
    side: OrderSide,
    limit: u64,
    qty: int,
    taker_id: u64,
    taker_ts: u64,
)
    requires
        ladder_wf(crate::order::spec_opposite(side), opp),
        qty >= 0,
    ensures
        ({
            let m = match_rec(opp, side, limit, qty, taker_id, taker_ts);
            forall|k: int|
                0 <= k < m.trades.len() ==> crosses(side, limit, (#[trigger] m.trades[k]).price)
                    && has_price(opp, m.trades[k].price)
        }),
{
    lemma_match_rec_properties(opp, side, limit, qty, taker_id, taker_ts);
}

/// **Conservation law.** Within one match the trade quantities sum to
/// exactly the part of the inbound quantity that is not left over; the
/// trades never exceed the inbound quantity, and exhaust it exactly when
/// nothing is left to rest (the filled case).
pub proof fn lemma_conservation(
    opp: Seq<LevelV>,
    side: OrderSide,
    limit: u64,
    qty: int,
    taker_id: u64,
    taker_ts: u64,
)
    requires
        ladder_wf(crate::order::spec_opposite(side), opp),
        qty >= 0,
    ensures
        ({
            let m = match_rec(opp, side, limit, qty, taker_id, taker_ts);
            &&& sum_trade_qty(m.trades) + m.left == qty
            &&& 0 <= m.left <= qty
            &&& (sum_trade_qty(m.trades) == qty <==> m.left == 0)
        }),
{
    lemma_match_rec_properties(opp, side, limit, qty, taker_id, taker_ts);
}

/// The quantity a given maker order contributes across the trades, by the
/// maker ids the trades record.
pub open spec fn traded_for(ts: Seq<Trade>, id: u64, taker_side: OrderSide) -> int
    decreases ts.len(),
{
    if ts.len() == 0 {
        0
    } else {
        (if maker_of(ts[0], taker_side) == id {
            ts[0].quantity as int
        } else {
            0
        }) + traded_for(ts.drop_first(), id, taker_side)
    }
}

/// **Maker conservation.** Within one match, the quantity traded against
/// any one resting maker never exceeds that maker's resting quantity; for
/// the aggressor the same bound is the conservation law.
pub proof fn lemma_maker_conservation(
    opp: Seq<LevelV>,
    side: OrderSide,
    limit: u64,
    qty: int,
    taker_id: u64,
    taker_ts: u64,
    li: int,
    a: int,
)
    requires
        ladder_wf(crate::order::spec_opposite(side), opp),
        ladder_ids_unique(opp),
        0 <= li < opp.len(),
        0 <= a < opp[li].orders.len(),
        qty >= 0,
    ensures
        ({
            let m = match_rec(opp, side, limit, qty, taker_id, taker_ts);
            traded_for(m.trades, opp[li].orders[a].id, side) <= opp[li].orders[a].quantity
        }),
    decreases opp.len(), (if opp.len() > 0 { opp[0].orders.len() } else { 0 }),
{
    let m = match_rec(opp, side, limit, qty, taker_id, taker_ts);
    let id = opp[li].orders[a].id;
    if qty <= 0 || opp.len() == 0 || !crosses(side, limit, opp[0].price) || opp[0].orders.len()
        == 0 {
    } else {
        let lvl = opp[0];
        let maker = lvl.orders[0];
        if maker.quantity <= qty {
            let q = maker.quantity as int;
            let t = crate::model::spec_trade(side, maker, taker_id, taker_ts, lvl.price, q);
            let opp1 = if lvl.orders.len() == 1 {
                opp.drop_first()
            } else {
                opp.update(0, LevelV { price: lvl.price, orders: lvl.orders.drop_first() })
            };
            let rest = match_rec(opp1, side, limit, qty - q, taker_id, taker_ts);
            crate::model::lemma_match_step_full(opp, side, limit, qty, taker_id, taker_ts);
            assert(ladder_ids_unique(opp1)) by {
                if lvl.orders.len() == 1 {
                    assert(forall|x: int| 0 <= x < opp1.len() ==> opp1[x] == opp[x + 1]);
                } else {
                    let o1 = lvl.orders.drop_first();
                    assert(forall|x: int| 0 <= x < o1.len() ==> o1[x] == lvl.orders[x + 1]);
                    assert(forall|x: int| 1 <= x < opp1.len() ==> opp1[x] == opp[x]);
                    assert forall|i: int, j: int, i2: int, j2: int|
                        0 <= i < opp1.len() && 0 <= j < opp1[i].orders.len() && 0 <= i2
                            < opp1.len() && 0 <= j2 < opp1[i2].orders.len() && !(i == i2 && j
                            == j2) implies (#[trigger] opp1[i].orders[j]).id != (
                    #[trigger] opp1[i2].orders[j2]).id by {
                        let ja = if i == 0 {
                            j + 1
                        } else {
                            j
                        };
                        let jb = if i2 == 0 {
                            j2 + 1
                        } else {
                            j2
                        };
                        assert(opp1[i].orders[j] == opp[i].orders[ja]);
                        assert(opp1[i2].orders[j2] == opp[i2].orders[jb]);
                    }
                }
            }
            assert(m.trades == seq![t] + rest.trades);
            assert(m.trades[0] == t);
            assert(m.trades.drop_first() =~= rest.trades);
            if id == maker.id {
                // the head maker leaves the book: no later trade names it
                assert(li == 0 && a == 0);
                assert(!ladder_has_id(opp1, id)) by {
                    if ladder_has_id(opp1, id) {
                        let x = choose|x: int|
                            0 <= x < opp1.len() && has_id((#[trigger] opp1[x]).orders, id);
                        let y = choose|y: int|
                            0 <= y < opp1[x].orders.len() && opp1[x].orders[y].id == id;
                        if lvl.orders.len() == 1 {
                            assert(opp1[x].orders[y] == opp[x + 1].orders[y]);
                            assert(opp[x + 1].orders[y].id != opp[0].orders[0].id);
                        } else {
                            let ya = if x == 0 {
                                y + 1
                            } else {
                                y
                            };
                            assert(opp1[x].orders[y] == opp[x].orders[ya]);
                            assert(opp[x].orders[ya].id != opp[0].orders[0].id);
                        }
                    }
                }
                assert(traded_for(rest.trades, id, side) == 0) by {
                    lemma_traded_for_absent(opp1, side, limit, qty - q, taker_id, taker_ts, id);
                }
                assert(traded_for(m.trades, id, side) == t.quantity);
            } else {
                // the order keeps its place (possibly shifted) and quantity
                let (li1, a1): (int, int) = if lvl.orders.len() == 1 {
                    (li - 1, a)
                } else {
                    if li == 0 {
                        (0, a - 1)
                    } else {
                        (li, a)
                    }
                };
                assert(li1 >= 0) by {
                    if li == 0 && lvl.orders.len() == 1 {
                        assert(a == 0);
                        assert(false);
                    }
                }
                assert(a1 >= 0) by {
                    if li == 0 && a == 0 {
                        assert(false);
                    }
                }
                assert(opp1[li1].orders[a1] == opp[li].orders[a]) by {
                    if lvl.orders.len() == 1 {
                        assert(opp1[li1] == opp[li]);
                    } else {
                        if li == 0 {
                            assert(opp1[0].orders[a - 1] == lvl.orders.drop_first()[a - 1]);
                        } else {
                            assert(opp1[li] == opp[li]);
                        }
                    }
                }
                lemma_maker_conservation(
                    opp1,
                    side,
                    limit,
                    qty - q,
                    taker_id,
                    taker_ts,
                    li1,
                    a1,
                );
                assert(maker_of(t, side) == maker.id);
                assert(traded_for(m.trades, id, side) == traded_for(rest.trades, id, side));
            }
        } else {
            let t = crate::model::spec_trade(side, maker, taker_id, taker_ts, lvl.price, qty);
            assert(m.trades == seq![t]);
            assert(m.trades[0] == t);
            assert(m.trades.drop_first() =~= Seq::<Trade>::empty());
            assert(traded_for(Seq::<Trade>::empty(), id, side) == 0);
            assert(traded_for(m.trades, id, side) == (if maker_of(m.trades[0], side) == id {
                m.trades[0].quantity as int
            } else {
                0
            }) + traded_for(m.trades.drop_first(), id, side));
            if id == maker.id {
                assert(li == 0 && a == 0);
                assert(traded_for(m.trades, id, side) == qty);
            } else {
                assert(traded_for(m.trades, id, side) == 0);
            }
        }
    }
}

/// No trade of a match names a maker id that was not resting.
pub proof fn lemma_traded_for_absent(
    opp: Seq<LevelV>,
    side: OrderSide,
    limit: u64,
    qty: int,
    taker_id: u64,
    taker_ts: u64,
    id: u64,
)
    requires
        ladder_wf(crate::order::spec_opposite(side), opp),
        qty >= 0,
        !ladder_has_id(opp, id),
    ensures
        traded_for(
            match_rec(opp, side, limit, qty, taker_id, taker_ts).trades,
            id,
            side,
        ) == 0,
{
    let m = match_rec(opp, side, limit, qty, taker_id, taker_ts);
    lemma_match_rec_properties(opp, side, limit, qty, taker_id, taker_ts);
    lemma_traded_for_only_makers(m.trades, id, side, opp);
}

/// If every trade's maker rests in `opp` and `id` does not, nothing was
/// traded for `id`.
proof fn lemma_traded_for_only_makers(
    ts: Seq<Trade>,
    id: u64,
    side: OrderSide,
    opp: Seq<LevelV>,
)
    requires
        forall|k: int| 0 <= k < ts.len() ==> ladder_has_id(opp, maker_of(#[trigger] ts[k], side)),
        !ladder_has_id(opp, id),
    ensures
        traded_for(ts, id, side) == 0,
    decreases ts.len(),
{
    if ts.len() > 0 {
        assert(maker_of(ts[0], side) != id);
        assert(forall|k: int|
            0 <= k < ts.drop_first().len() ==> ts.drop_first()[k] == ts[k + 1]);
        lemma_traded_for_only_makers(ts.drop_first(), id, side, opp);
    }
}

/// **Idempotent cancel.** Cancelling removes the only resting order with
/// that id, so a second cancel of the same id finds nothing, whoever asks.
pub proof fn lemma_cancel_idempotent(s: Seq<LevelV>, side: OrderSide, price: u64, id: u64)
    requires
        ladder_wf(side, s),
        ladder_ids_unique(s),
        level_contains(s, price, id),
    ensures
        !ladder_has_id(ladder_remove_order(s, price, id), id),
        forall|ow: Seq<char>| #![auto] !crate::book::ladder_order_with(
            ladder_remove_order(s, price, id),
            id,
            ow,
        ),
{
    assert(has_price(s, price)) by {
        let i = choose|i: int|
            0 <= i < s.len() && (#[trigger] s[i]).price == price && has_id(s[i].orders, id);
    }
    lemma_price_pos(s, price);
    let p = price_pos(s, price);
    assert(has_id(s[p].orders, id)) by {
        let i = choose|i: int|
            0 <= i < s.len() && (#[trigger] s[i]).price == price && has_id(s[i].orders, id);
        if i != p {
            if i < p {
                assert(s[i].price != price);
            } else {
                assert(crate::model::earlier(side, s[p].price, s[i].price));
            }
        }
    }
    crate::level::lemma_idx_of(s[p].orders, id);
    let k = idx_of(s[p].orders, id);
    let s1 = ladder_remove_order(s, price, id);
    assert(!ladder_has_id(s1, id)) by {
        if ladder_has_id(s1, id) {
            let x = choose|x: int| 0 <= x < s1.len() && has_id((#[trigger] s1[x]).orders, id);
            let y = choose|y: int| 0 <= y < s1[x].orders.len() && s1[x].orders[y].id == id;
            if s[p].orders.len() == 1 {
                let x0 = if x < p {
                    x
                } else {
                    x + 1
                };
                assert(s1[x] == s[x0]);
                assert(s[x0].orders[y].id == s[p].orders[k].id);
                assert(!(x0 == p));
                assert(false);
            } else {
                if x == p {
                    let y0 = if y < k {
                        y
                    } else {
                        y + 1
                    };
                    assert(s1[x].orders[y] == s[p].orders[y0]);
                    assert(s[p].orders[y0].id == s[p].orders[k].id);
                    assert(y0 != k);
                    assert(false);
                } else {
                    assert(s1[x] == s[x]);
                    assert(s[x].orders[y].id == s[p].orders[k].id);
                    assert(false);
                }
            }
        }
    }
    assert forall|ow: Seq<char>| #![auto] !crate::book::ladder_order_with(s1, id, ow) by {
        if crate::book::ladder_order_with(s1, id, ow) {
            let (x, y): (int, int) = choose|x: int, y: int|
                0 <= x < s1.len() && 0 <= y < s1[x].orders.len() && (
                #[trigger] s1[x].orders[y]).id == id && s1[x].orders[y].user_id@ == ow;
            assert(has_id(s1[x].orders, id));
            assert(ladder_has_id(s1, id));
        }
    }
}

} // verus!
