//! The order book: two price ladders, an order index, and statistics.
//!
//! `add_order` matches an inbound limit order against the opposite ladder
//! under price-time priority and rests the residue; `remove_order` cancels a
//! resting order on behalf of its owner. Both are proved against the model in
//! `model`: matching computes exactly `match_rec`, and the book's invariants
//! (non-empty levels, exact aggregates, an index of exactly the resting
//! orders, no crossed book, ids below the allocator) hold after every
//! mutation.

use vstd::prelude::*;
use crate::order::{Order, OrderSide, Trade};
use crate::level::{has_id, idx_of, sum_qty, LevelV, PriceLevel};
use crate::model::{
    best_price, crosses, earlier, has_price, ids_below, insert_pos, ladder_has_id, ladder_insert,
    ladder_remove_order, ladder_wf, lemma_insert_pos, lemma_match_rec_properties, lemma_match_step_full,
    lemma_match_step_partial, lemma_price_pos,
    level_contains, level_has_order, lv, match_rec, not_crossed, price_pos, spec_trade,
    sum_notional, lemma_ladder_insert,
};

verus! {

/// Why a submission was rejected.
#[derive(Clone, Copy, Debug, PartialEq, Eq, Structural)]
pub enum OrderBookError {
    /// A zero price or zero quantity; rejected before an id is allocated.
    InvalidInput,
}

/// One entry of the order index: a resting order's id and where it rests.
#[derive(Clone, Copy, Debug, PartialEq, Eq, Structural)]
pub struct IndexEntry {
    pub id: u64,
    pub side: OrderSide,
    pub price: u64,
}

/// Whether the index holds an entry for the id.
pub open spec fn ix_has(ix: Seq<IndexEntry>, id: u64) -> bool {
    exists|k: int| 0 <= k < ix.len() && (#[trigger] ix[k]).id == id
}

/// The first position of the entry for the id.
pub open spec fn ix_pos(ix: Seq<IndexEntry>, id: u64) -> int
    decreases ix.len(),
{
    if ix.len() == 0 {
        0
    } else if ix[0].id == id {
        0
    } else {
        1 + ix_pos(ix.drop_first(), id)
    }
}

/// Whether the index holds exactly this entry.
pub open spec fn ix_has_entry(ix: Seq<IndexEntry>, id: u64, side: OrderSide, price: u64) -> bool {
    exists|k: int| 0 <= k < ix.len() && (#[trigger] ix[k]) == (IndexEntry { id, side, price })
}

/// The entry's order really rests at the entry's side and price.
pub open spec fn entry_resting(e: IndexEntry, bids: Seq<LevelV>, asks: Seq<LevelV>) -> bool {
    level_contains(if e.side == OrderSide::Bid { bids } else { asks }, e.price, e.id)
}

/// The index holds exactly the resting orders: ids are unique, every entry's
/// order rests where the entry says, and every resting order has its entry.
pub open spec fn index_ok(ix: Seq<IndexEntry>, bids: Seq<LevelV>, asks: Seq<LevelV>) -> bool {
    &&& forall|a: int, b: int| 0 <= a < b < ix.len() ==> ix[a].id != ix[b].id
    &&& forall|k: int| 0 <= k < ix.len() ==> entry_resting(#[trigger] ix[k], bids, asks)
    &&& forall|i: int, j: int|
        0 <= i < bids.len() && 0 <= j < bids[i].orders.len() ==> ix_has_entry(
            ix,
            (#[trigger] bids[i].orders[j]).id,
            OrderSide::Bid,
            bids[i].price,
        )
    &&& forall|i: int, j: int|
        0 <= i < asks.len() && 0 <= j < asks[i].orders.len() ==> ix_has_entry(
            ix,
            (#[trigger] asks[i].orders[j]).id,
            OrderSide::Ask,
            asks[i].price,
        )
}

/// If the index holds the id, `ix_pos` finds its first entry.
pub proof fn lemma_ix_pos(ix: Seq<IndexEntry>, id: u64)
    requires
        ix_has(ix, id),
    ensures
        0 <= ix_pos(ix, id) < ix.len(),
        ix[ix_pos(ix, id)].id == id,
        forall|j: int| 0 <= j < ix_pos(ix, id) ==> ix[j].id != id,
    decreases ix.len(),
{
    if ix.len() > 0 && ix[0].id != id {
        let r = ix.drop_first();
        assert(ix_has(r, id)) by {
            let k = choose|k: int| 0 <= k < ix.len() && ix[k].id == id;
            assert(r[k - 1].id == id);
        }
        lemma_ix_pos(r, id);
        let p = ix_pos(ix, id);
        assert(ix[p] == r[p - 1]);
        assert forall|j: int| 0 <= j < p implies ix[j].id != id by {
            if j > 0 {
                assert(ix[j] == r[j - 1]);
            }
        }
    }
}

/// The spread implied by a pair of best prices.
pub open spec fn spec_spread(bb: Option<u64>, ba: Option<u64>) -> Option<u64> {
    match (bb, ba) {
        (Some(b), Some(a)) => Some((a - b) as u64),
        _ => None,
    }
}

/// The mid price implied by a pair of best prices, rounded down.
pub open spec fn spec_mid(bb: Option<u64>, ba: Option<u64>) -> Option<u64> {
    match (bb, ba) {
        (Some(b), Some(a)) => Some(((b + a) / 2) as u64),
        _ => None,
    }
}

/// The all-zero statistics a fresh book starts with.
pub open spec fn zero_stats() -> OrderBookStats {
    OrderBookStats {
        total_orders_created: 0,
        total_orders_matched: 0,
        total_orders_cancelled: 0,
        total_volume_traded: 0,
        best_bid: None,
        best_ask: None,
        spread: None,
        mid_price: None,
        last_match_time: None,
    }
}

/// Running counters and the derived market snapshot.
#[derive(Clone, Copy, Debug)]
pub struct OrderBookStats {
    pub total_orders_created: u64,
    pub total_orders_matched: u64,
    pub total_orders_cancelled: u64,
    pub total_volume_traded: u128,
    pub best_bid: Option<u64>,
    pub best_ask: Option<u64>,
    pub spread: Option<u64>,
    pub mid_price: Option<u64>,
    pub last_match_time: Option<u64>,
}

impl OrderBookStats {
    pub fn new() -> (r: OrderBookStats)
        ensures
            r == zero_stats(),
    {
        OrderBookStats {
            total_orders_created: 0,
            total_orders_matched: 0,
            total_orders_cancelled: 0,
            total_volume_traded: 0,
            best_bid: None,
            best_ask: None,
            spread: None,
            mid_price: None,
            last_match_time: None,
        }
    }

    /// Replaces the market snapshot: the best prices as given, spread and mid
    /// derived from them, `None` when either side is empty.
    pub fn update_market_data(&mut self, best_bid: Option<u64>, best_ask: Option<u64>)
        requires
            match (best_bid, best_ask) {
                (Some(b), Some(a)) => b <= a,
                _ => true,
            },
        ensures
            *final(self) == (OrderBookStats {
                best_bid,
                best_ask,
                spread: spec_spread(best_bid, best_ask),
                mid_price: spec_mid(best_bid, best_ask),
                ..*old(self)
            }),
    {
        self.best_bid = best_bid;
        self.best_ask = best_ask;
        match (best_bid, best_ask) {
            (Some(b), Some(a)) => {
                self.spread = Some(a - b);
                self.mid_price = Some((((b as u128) + (a as u128)) / 2) as u64);
            },
            _ => {
                self.spread = None;
                self.mid_price = None;
            },
        }
    }
}

/// A sum clamped to the largest 64-bit value.
pub open spec fn sat_u64(x: int) -> u64 {
    if x <= u64::MAX {
        x as u64
    } else {
        u64::MAX
    }
}

/// A sum clamped to the largest 128-bit value.
pub open spec fn sat_u128(x: int) -> u128 {
    if x <= u128::MAX {
        x as u128
    } else {
        u128::MAX
    }
}

/// Saturating addition, stated exactly.
pub fn sat_add_u64(a: u64, b: u64) -> (r: u64)
    ensures
        r == sat_u64(a + b),
{
    if a > u64::MAX - b {
        u64::MAX
    } else {
        a + b
    }
}

/// Saturating addition, stated exactly.
pub fn sat_add_u128(a: u128, b: u128) -> (r: u128)
    ensures
        r == sat_u128(a + b),
{
    if a > u128::MAX - b {
        u128::MAX
    } else {
        a + b
    }
}

/// The total notional of a list of trades, clamped to 128 bits.
pub fn trades_notional(trades: &Vec<Trade>) -> (r: u128)
    ensures
        r == sat_u128(sum_notional(trades@)),
{
    let n = trades.len();
    let mut acc: u128 = 0;
    let mut i: usize = 0;
    proof {
        assert(trades@.subrange(0, 0) =~= Seq::<Trade>::empty());
    }
    while i < n
        invariant
            0 <= i <= n,
            n == trades@.len(),
            acc == sat_u128(sum_notional(trades@.subrange(0, i as int))),
        decreases n - i,
    {
        let t = trades[i];
        proof {
            assert(t.price * t.quantity <= u64::MAX * u64::MAX) by (nonlinear_arith)
                requires
                    t.price <= u64::MAX,
                    t.quantity <= u64::MAX,
            ;
            assert(t.price * t.quantity >= 0) by (nonlinear_arith);
            assert(trades@.subrange(0, i + 1) =~= trades@.subrange(0, i as int).push(t));
            crate::model::lemma_sum_notional_push(trades@.subrange(0, i as int), t);
            crate::model::lemma_sum_notional_nonneg(trades@.subrange(0, i as int));
        }
        let term = (t.price as u128) * (t.quantity as u128);
        acc = sat_add_u128(acc, term);
        i = i + 1;
    }
    proof {
        assert(trades@.subrange(0, n as int) =~= trades@);
    }
    acc
}

/// The bid ladder of a pair arranged by which side `lad` holds.
pub open spec fn arr_bids(side: OrderSide, lad: Seq<LevelV>, oth: Seq<LevelV>) -> Seq<LevelV> {
    if side == OrderSide::Bid {
        lad
    } else {
        oth
    }
}

/// The ask ladder of a pair arranged by which side `lad` holds.
pub open spec fn arr_asks(side: OrderSide, lad: Seq<LevelV>, oth: Seq<LevelV>) -> Seq<LevelV> {
    if side == OrderSide::Bid {
        oth
    } else {
        lad
    }
}

/// The ladder of side `side` after the order at level `li`, position `oj`
/// leaves: the level shrinks, or is dropped when it empties.
pub open spec fn ladder_after_remove(lad: Seq<LevelV>, li: int, oj: int) -> Seq<LevelV> {
    if lad[li].orders.len() == 1 {
        lad.remove(li)
    } else {
        lad.update(li, LevelV { price: lad[li].price, orders: lad[li].orders.remove(oj) })
    }
}

/// Removing one resting order, dropping its level if it empties, and taking
/// its entry out of the index leaves the index exact again.
#[verifier::rlimit(100)]
pub proof fn lemma_index_remove_order(
    ix: Seq<IndexEntry>,
    side: OrderSide,
    lad: Seq<LevelV>,
    oth: Seq<LevelV>,
    li: int,
    oj: int,
)
    requires
        index_ok(ix, arr_bids(side, lad, oth), arr_asks(side, lad, oth)),
        ladder_wf(side, lad),
        0 <= li < lad.len(),
        0 <= oj < lad[li].orders.len(),
    ensures
        ({
            let id = lad[li].orders[oj].id;
            let s1 = ladder_after_remove(lad, li, oj);
            &&& ix_has(ix, id)
            &&& ix[ix_pos(ix, id)] == (IndexEntry { id, side, price: lad[li].price })
            &&& index_ok(
                ix.remove(ix_pos(ix, id)),
                arr_bids(side, s1, oth),
                arr_asks(side, s1, oth),
            )
        }),
{
    let id = lad[li].orders[oj].id;
    let pr = lad[li].price;
    let s1 = ladder_after_remove(lad, li, oj);
    let bids0 = arr_bids(side, lad, oth);
    let asks0 = arr_asks(side, lad, oth);
    // the entry for the removed order exists
    assert(ix_has_entry(ix, id, side, pr)) by {
        if side == OrderSide::Bid {
            assert(bids0[li].orders[oj].id == id);
        } else {
            assert(asks0[li].orders[oj].id == id);
        }
    }
    let ke = choose|k: int| 0 <= k < ix.len() && (#[trigger] ix[k]) == (IndexEntry {
        id,
        side,
        price: pr,
    });
    assert(ix_has(ix, id));
    lemma_ix_pos(ix, id);
    let p = ix_pos(ix, id);
    // the id appears only once, so the found position holds exactly that entry
    assert forall|k: int| 0 <= k < ix.len() && (#[trigger] ix[k]).id == id implies k == p by {
        if k < p {
            assert(ix[k].id != id);
        } else if k > p {
            assert(ix[p].id != ix[k].id);
        }
    }
    assert(ke == p);
    assert(ix[p] == (IndexEntry { id, side, price: pr }));
    let ix1 = ix.remove(p);
    assert(forall|a: int| 0 <= a < p ==> ix1[a] == ix[a]);
    assert(forall|a: int| p <= a < ix1.len() ==> ix1[a] == ix[a + 1]);
    // any other resting order on this side keeps a distinct id
    assert forall|i: int, j: int|
        0 <= i < lad.len() && 0 <= j < lad[i].orders.len() && !(i == li && j == oj) implies (
    #[trigger] lad[i].orders[j]).id != id by {
        if lad[i].orders[j].id == id {
            assert(ix_has_entry(ix, id, side, lad[i].price)) by {
                if side == OrderSide::Bid {
                    assert(bids0[i].orders[j].id == id);
                } else {
                    assert(asks0[i].orders[j].id == id);
                }
            }
            let k2 = choose|k: int| 0 <= k < ix.len() && (#[trigger] ix[k]) == (IndexEntry {
                id,
                side,
                price: lad[i].price,
            });
            assert(k2 == p);
            assert(lad[i].price == pr);
            if i != li {
                if i < li {
                    assert(earlier(side, lad[i].price, lad[li].price));
                } else {
                    assert(earlier(side, lad[li].price, lad[i].price));
                }
                assert(false);
            }
            assert(j != oj);
            assert(false);
        }
    }
    // no order on the other side carries the removed id
    let oside = crate::order::spec_opposite(side);
    assert forall|i: int, j: int|
        0 <= i < oth.len() && 0 <= j < oth[i].orders.len() implies (
    #[trigger] oth[i].orders[j]).id != id by {
        if oth[i].orders[j].id == id {
            assert(ix_has_entry(ix, id, oside, oth[i].price)) by {
                if side == OrderSide::Bid {
                    assert(asks0[i].orders[j].id == id);
                } else {
                    assert(bids0[i].orders[j].id == id);
                }
            }
            let k2 = choose|k: int| 0 <= k < ix.len() && (#[trigger] ix[k]) == (IndexEntry {
                id,
                side: oside,
                price: oth[i].price,
            });
            assert(k2 == p);
            assert(false);
        }
    }
    // the shrunk ladder keeps every other order, with its level price
    assert(s1.len() == if lad[li].orders.len() == 1 {
        lad.len() - 1
    } else {
        lad.len() as int
    });
    // uniqueness in the shrunk index
    assert forall|a: int, b: int| 0 <= a < b < ix1.len() implies ix1[a].id != ix1[b].id by {
        let a0 = if a < p {
            a
        } else {
            a + 1
        };
        let b0 = if b < p {
            b
        } else {
            b + 1
        };
        assert(ix1[a] == ix[a0] && ix1[b] == ix[b0]);
    }
    // every remaining entry still rests
    assert forall|k: int| 0 <= k < ix1.len() implies entry_resting(
        #[trigger] ix1[k],
        arr_bids(side, s1, oth),
        arr_asks(side, s1, oth),
    ) by {
        let k0 = if k < p {
            k
        } else {
            k + 1
        };
        let e = ix1[k];
        assert(e == ix[k0]);
        assert(e.id != id);
        assert(entry_resting(e, bids0, asks0));
        if e.side == side {
            let s_old = if side == OrderSide::Bid {
                bids0
            } else {
                asks0
            };
            assert(level_contains(lad, e.price, e.id));
            let i = choose|i: int|
                0 <= i < lad.len() && (#[trigger] lad[i]).price == e.price && has_id(
                    lad[i].orders,
                    e.id,
                );
            let j = choose|j: int| 0 <= j < lad[i].orders.len() && lad[i].orders[j].id == e.id;
            if i == li {
                // same level: the removed order had a different id
                assert(j != oj);
                if lad[li].orders.len() == 1 {
                    assert(false);
                } else {
                    let o2 = lad[li].orders.remove(oj);
                    if j < oj {
                        assert(o2[j] == lad[li].orders[j]);
                        assert(has_id(o2, e.id));
                    } else {
                        assert(o2[j - 1] == lad[li].orders[j]);
                        assert(has_id(o2, e.id));
                    }
                    assert(s1[li].price == e.price && has_id(s1[li].orders, e.id));
                    assert(level_contains(s1, e.price, e.id));
                }
            } else {
                if lad[li].orders.len() == 1 {
                    let i1 = if i < li {
                        i
                    } else {
                        i - 1
                    };
                    assert(s1[i1] == lad[i]);
                    assert(level_contains(s1, e.price, e.id));
                } else {
                    assert(s1[i] == lad[i]);
                    assert(level_contains(s1, e.price, e.id));
                }
            }
            assert(entry_resting(e, arr_bids(side, s1, oth), arr_asks(side, s1, oth)));
        } else {
            assert(level_contains(oth, e.price, e.id));
            assert(entry_resting(e, arr_bids(side, s1, oth), arr_asks(side, s1, oth)));
        }
    }
    // every remaining resting order keeps its entry
    assert forall|i: int, j: int|
        0 <= i < s1.len() && 0 <= j < s1[i].orders.len() implies ix_has_entry(
        ix1,
        (#[trigger] s1[i].orders[j]).id,
        side,
        s1[i].price,
    ) by {
        // map back into the old ladder
        let (i0, j0): (int, int) = if lad[li].orders.len() == 1 {
            (if i < li {
                i
            } else {
                i + 1
            }, j)
        } else {
            if i == li {
                (li, if j < oj {
                    j
                } else {
                    j + 1
                })
            } else {
                (i, j)
            }
        };
        assert(s1[i].orders[j] == lad[i0].orders[j0] && s1[i].price == lad[i0].price);
        let x = lad[i0].orders[j0].id;
        assert(!(i0 == li && j0 == oj));
        assert(x != id);
        assert(ix_has_entry(ix, x, side, lad[i0].price)) by {
            if side == OrderSide::Bid {
                assert(bids0[i0].orders[j0].id == x);
            } else {
                assert(asks0[i0].orders[j0].id == x);
            }
        }
        let k2 = choose|k: int| 0 <= k < ix.len() && (#[trigger] ix[k]) == (IndexEntry {
            id: x,
            side,
            price: lad[i0].price,
        });
        assert(k2 != p);
        let k3 = if k2 < p {
            k2
        } else {
            k2 - 1
        };
        assert(ix1[k3] == ix[k2]);
    }
    // every order on the untouched side keeps its entry
    assert forall|i: int, j: int|
        0 <= i < oth.len() && 0 <= j < oth[i].orders.len() implies ix_has_entry(
        ix1,
        (#[trigger] oth[i].orders[j]).id,
        oside,
        oth[i].price,
    ) by {
        let x = oth[i].orders[j].id;
        assert(x != id);
        assert(ix_has_entry(ix, x, oside, oth[i].price)) by {
            if side == OrderSide::Bid {
                assert(asks0[i].orders[j].id == x);
            } else {
                assert(bids0[i].orders[j].id == x);
            }
        }
        let k2 = choose|k: int| 0 <= k < ix.len() && (#[trigger] ix[k]) == (IndexEntry {
            id: x,
            side: oside,
            price: oth[i].price,
        });
        assert(k2 != p);
        let k3 = if k2 < p {
            k2
        } else {
            k2 - 1
        };
        assert(ix1[k3] == ix[k2]);
    }
    assert(index_ok(ix1, arr_bids(side, s1, oth), arr_asks(side, s1, oth))) by {
        if side == OrderSide::Bid {
            assert(arr_bids(side, s1, oth) == s1 && arr_asks(side, s1, oth) == oth);
        } else {
            assert(arr_bids(side, s1, oth) == oth && arr_asks(side, s1, oth) == s1);
        }
    }
}

/// Reducing the head quantity of a resting order moves no order and no
/// entry: the index stays exact.
pub proof fn lemma_index_update_qty(
    ix: Seq<IndexEntry>,
    side: OrderSide,
    lad: Seq<LevelV>,
    oth: Seq<LevelV>,
    li: int,
    oj: int,
    new_qty: u64,
)
    requires
        index_ok(ix, arr_bids(side, lad, oth), arr_asks(side, lad, oth)),
        0 <= li < lad.len(),
        0 <= oj < lad[li].orders.len(),
    ensures
        ({
            let s1 = lad.update(
                li,
                LevelV {
                    price: lad[li].price,
                    orders: lad[li].orders.update(
                        oj,
                        Order { quantity: new_qty, ..lad[li].orders[oj] },
                    ),
                },
            );
            index_ok(ix, arr_bids(side, s1, oth), arr_asks(side, s1, oth))
        }),
{
    let s1 = lad.update(
        li,
        LevelV {
            price: lad[li].price,
            orders: lad[li].orders.update(oj, Order { quantity: new_qty, ..lad[li].orders[oj] }),
        },
    );
    let bids0 = arr_bids(side, lad, oth);
    let asks0 = arr_asks(side, lad, oth);
    assert(forall|i: int| 0 <= i < s1.len() && i != li ==> s1[i] == lad[i]);
    assert(s1[li].price == lad[li].price);
    assert(forall|j: int|
        0 <= j < s1[li].orders.len() && j != oj ==> s1[li].orders[j] == lad[li].orders[j]);
    assert(s1[li].orders[oj].id == lad[li].orders[oj].id);
    assert forall|k: int| 0 <= k < ix.len() implies entry_resting(
        #[trigger] ix[k],
        arr_bids(side, s1, oth),
        arr_asks(side, s1, oth),
    ) by {
        let e = ix[k];
        assert(entry_resting(e, bids0, asks0));
        if e.side == side {
            assert(level_contains(lad, e.price, e.id));
            let i = choose|i: int|
                0 <= i < lad.len() && (#[trigger] lad[i]).price == e.price && has_id(
                    lad[i].orders,
                    e.id,
                );
            let j = choose|j: int| 0 <= j < lad[i].orders.len() && lad[i].orders[j].id == e.id;
            assert(s1[i].orders[j].id == e.id);
            assert(level_contains(s1, e.price, e.id));
        } else {
            assert(level_contains(oth, e.price, e.id));
        }
    }
    assert forall|i: int, j: int|
        0 <= i < s1.len() && 0 <= j < s1[i].orders.len() implies ix_has_entry(
        ix,
        (#[trigger] s1[i].orders[j]).id,
        side,
        s1[i].price,
    ) by {
        assert(s1[i].orders[j].id == lad[i].orders[j].id && s1[i].price == lad[i].price);
        if side == OrderSide::Bid {
            assert(bids0[i].orders[j].id == lad[i].orders[j].id);
        } else {
            assert(asks0[i].orders[j].id == lad[i].orders[j].id);
        }
    }
    assert(index_ok(ix, arr_bids(side, s1, oth), arr_asks(side, s1, oth)));
}

/// Resting a new order and appending its entry leaves the index exact,
/// provided the id is genuinely new.
pub proof fn lemma_index_rest_order(
    ix: Seq<IndexEntry>,
    side: OrderSide,
    lad: Seq<LevelV>,
    oth: Seq<LevelV>,
    price: u64,
    o: Order,
)
    requires
        index_ok(ix, arr_bids(side, lad, oth), arr_asks(side, lad, oth)),
        ladder_wf(side, lad),
        o.price == price,
        o.side == side,
        o.quantity >= 1,
        !ladder_has_id(lad, o.id),
        !ix_has(ix, o.id),
    ensures
        ({
            let s1 = ladder_insert(side, lad, price, o);
            index_ok(
                ix.push(IndexEntry { id: o.id, side, price }),
                arr_bids(side, s1, oth),
                arr_asks(side, s1, oth),
            )
        }),
{
    crate::model::lemma_ladder_insert(side, lad, price, o);
    let s1 = ladder_insert(side, lad, price, o);
    let e_new = IndexEntry { id: o.id, side, price };
    let ix1 = ix.push(e_new);
    let bids0 = arr_bids(side, lad, oth);
    let asks0 = arr_asks(side, lad, oth);
    assert(forall|k: int| 0 <= k < ix.len() ==> ix1[k] == ix[k]);
    assert(ix1[ix.len() as int] == e_new);
    assert forall|a: int, b: int| 0 <= a < b < ix1.len() implies ix1[a].id != ix1[b].id by {
        if b == ix.len() {
            assert(ix1[a] == ix[a]);
            if ix[a].id == o.id {
                assert(ix_has(ix, o.id));
            }
        } else {
            assert(ix1[a] == ix[a] && ix1[b] == ix[b]);
        }
    }
    assert forall|k: int| 0 <= k < ix1.len() implies entry_resting(
        #[trigger] ix1[k],
        arr_bids(side, s1, oth),
        arr_asks(side, s1, oth),
    ) by {
        if k == ix.len() {
            assert(level_contains(s1, price, o.id));
        } else {
            let e = ix1[k];
            assert(e == ix[k]);
            assert(entry_resting(e, bids0, asks0));
            if e.side == side {
                assert(level_contains(lad, e.price, e.id));
                assert(level_contains(s1, e.price, e.id));
            } else {
                assert(level_contains(oth, e.price, e.id));
            }
        }
    }
    let oside = crate::order::spec_opposite(side);
    assert forall|i: int, j: int|
        0 <= i < s1.len() && 0 <= j < s1[i].orders.len() implies ix_has_entry(
        ix1,
        (#[trigger] s1[i].orders[j]).id,
        side,
        s1[i].price,
    ) by {
        if level_has_order(lad, s1[i].price, s1[i].orders[j]) {
            let (i0, j0): (int, int) = choose|i0: int, j0: int|
                0 <= i0 < lad.len() && lad[i0].price == s1[i].price && 0 <= j0
                    < lad[i0].orders.len() && (#[trigger] lad[i0].orders[j0]) == s1[i].orders[j];
            assert(ix_has_entry(ix, s1[i].orders[j].id, side, s1[i].price)) by {
                if side == OrderSide::Bid {
                    assert(bids0[i0].orders[j0].id == s1[i].orders[j].id);
                } else {
                    assert(asks0[i0].orders[j0].id == s1[i].orders[j].id);
                }
            }
            let k2 = choose|k: int| 0 <= k < ix.len() && (#[trigger] ix[k]) == (IndexEntry {
                id: s1[i].orders[j].id,
                side,
                price: s1[i].price,
            });
            assert(ix1[k2] == ix[k2]);
        } else {
            assert(s1[i].price == price && s1[i].orders[j] == o);
            assert(ix1[ix.len() as int] == e_new);
        }
    }
    assert forall|i: int, j: int|
        0 <= i < oth.len() && 0 <= j < oth[i].orders.len() implies ix_has_entry(
        ix1,
        (#[trigger] oth[i].orders[j]).id,
        oside,
        oth[i].price,
    ) by {
        assert(ix_has_entry(ix, oth[i].orders[j].id, oside, oth[i].price)) by {
            if side == OrderSide::Bid {
                assert(asks0[i].orders[j].id == oth[i].orders[j].id);
            } else {
                assert(bids0[i].orders[j].id == oth[i].orders[j].id);
            }
        }
        let k2 = choose|k: int| 0 <= k < ix.len() && (#[trigger] ix[k]) == (IndexEntry {
            id: oth[i].orders[j].id,
            side: oside,
            price: oth[i].price,
        });
        assert(ix1[k2] == ix[k2]);
    }
    assert(index_ok(ix1, arr_bids(side, s1, oth), arr_asks(side, s1, oth)));
}

/// Price comparison in the priority order of the given side.
fn price_better(side: OrderSide, a: u64, b: u64) -> (r: bool)
    ensures
        r == earlier(side, a, b),
{
    match side {
        OrderSide::Bid => a > b,
        OrderSide::Ask => a < b,
    }
}

/// Removes the entry for the id from the index.
fn index_remove(index: &mut Vec<IndexEntry>, id: u64)
    requires
        ix_has(old(index)@, id),
    ensures
        final(index)@ == old(index)@.remove(ix_pos(old(index)@, id)),
{
    let n = index.len();
    let mut k: usize = 0;
    while k < n
        invariant
            *index == *old(index),
            n == index@.len(),
            0 <= k <= n,
            forall|j: int| 0 <= j < k ==> index@[j].id != id,
        decreases n - k,
    {
        if index[k].id == id {
            proof {
                lemma_ix_pos(index@, id);
                assert(ix_pos(index@, id) == k);
            }
            index.remove(k);
            return ;
        }
        k = k + 1;
    }
    proof {
        let j = choose|j: int| 0 <= j < index@.len() && index@[j].id == id;
        assert(false);
    }
}

/// After a match and the resting of any remainder, the book is still not
/// crossed: the surviving opposite best is no better than before, and a
/// resting remainder failed to cross it.
pub proof fn lemma_not_crossed_after(
    side: OrderSide,
    opp0: Seq<LevelV>,
    own0: Seq<LevelV>,
    o: Order,
    qty: int,
    tid: u64,
    tts: u64,
)
    requires
        ladder_wf(side, own0),
        ladder_wf(crate::order::spec_opposite(side), opp0),
        not_crossed(arr_bids(side, own0, opp0), arr_asks(side, own0, opp0)),
        o.side == side,
        qty >= 0,
    ensures
        ({
            let m = match_rec(opp0, side, o.price, qty, tid, tts);
            let own1 = if m.left > 0 {
                ladder_insert(side, own0, o.price, o)
            } else {
                own0
            };
            not_crossed(arr_bids(side, own1, m.opp), arr_asks(side, own1, m.opp))
        }),
{
    let m = match_rec(opp0, side, o.price, qty, tid, tts);
    lemma_match_rec_properties(opp0, side, o.price, qty, tid, tts);
    lemma_insert_pos(side, own0, o.price);
    let own1 = if m.left > 0 {
        ladder_insert(side, own0, o.price, o)
    } else {
        own0
    };
    if m.opp.len() > 0 && own1.len() > 0 {
        assert(opp0.len() > 0);
        assert(!earlier(crate::order::spec_opposite(side), m.opp[0].price, opp0[0].price));
        if m.left > 0 {
            assert(!crosses(side, o.price, m.opp[0].price));
            let p = insert_pos(side, own0, o.price);
            if p < own0.len() && own0[p].price == o.price {
                assert(own1 == own0.update(
                    p,
                    LevelV { price: o.price, orders: own0[p].orders.push(o) },
                ));
                if p == 0 {
                    assert(own1[0].price == o.price);
                } else {
                    assert(own1[0] == own0[0]);
                    assert(own0.len() > 0);
                }
            } else {
                assert(own1 == own0.insert(p, LevelV { price: o.price, orders: seq![o] }));
                if p == 0 {
                    assert(own1[0].price == o.price);
                } else {
                    assert(own1[0] == own0[0]);
                    assert(own0.len() > 0);
                }
            }
            if own1[0].price == o.price {
            } else {
                assert(own1[0] == own0[0]);
                assert(earlier(side, own0[0].price, o.price));
            }
        }
    }
}

/// After a match and the resting of any remainder, every resting id stays
/// below the allocator bound, provided the new order's id does.
pub proof fn lemma_ids_below_after(
    side: OrderSide,
    opp0: Seq<LevelV>,
    own0: Seq<LevelV>,
    o: Order,
    qty: int,
    tid: u64,
    tts: u64,
    bound: u64,
)
    requires
        ladder_wf(side, own0),
        ladder_wf(crate::order::spec_opposite(side), opp0),
        ids_below(opp0, bound),
        ids_below(own0, bound),
        o.side == side,
        o.id < bound,
        match_rec(opp0, side, o.price, qty, tid, tts).left > 0 ==> o.quantity >= 1
            && !ladder_has_id(own0, o.id),
        qty >= 0,
    ensures
        ({
            let m = match_rec(opp0, side, o.price, qty, tid, tts);
            let own1 = if m.left > 0 {
                ladder_insert(side, own0, o.price, o)
            } else {
                own0
            };
            ids_below(m.opp, bound) && ids_below(own1, bound)
        }),
{
    let m = match_rec(opp0, side, o.price, qty, tid, tts);
    lemma_match_rec_properties(opp0, side, o.price, qty, tid, tts);
    let own1 = if m.left > 0 {
        ladder_insert(side, own0, o.price, o)
    } else {
        own0
    };
    assert forall|i: int, j: int|
        0 <= i < m.opp.len() && 0 <= j < m.opp[i].orders.len() implies (
    #[trigger] m.opp[i].orders[j]).id < bound by {
        let id = m.opp[i].orders[j].id;
        assert(has_id(m.opp[i].orders, id));
        assert(ladder_has_id(m.opp, id));
        assert(ladder_has_id(opp0, id));
        let i2 = choose|i2: int| 0 <= i2 < opp0.len() && has_id((#[trigger] opp0[i2]).orders, id);
        let j2 = choose|j2: int| 0 <= j2 < opp0[i2].orders.len() && opp0[i2].orders[j2].id == id;
        assert(opp0[i2].orders[j2].id < bound);
    }
    if m.left > 0 {
        lemma_ladder_insert(side, own0, o.price, o);
        assert forall|i: int, j: int|
            0 <= i < own1.len() && 0 <= j < own1[i].orders.len() implies (
        #[trigger] own1[i].orders[j]).id < bound by {
            let id = own1[i].orders[j].id;
            assert(has_id(own1[i].orders, id));
            assert(ladder_has_id(own1, id));
            if id != o.id {
                assert(ladder_has_id(own0, id));
                let i2 = choose|i2: int|
                    0 <= i2 < own0.len() && has_id((#[trigger] own0[i2]).orders, id);
                let j2 = choose|j2: int|
                    0 <= j2 < own0[i2].orders.len() && own0[i2].orders[j2].id == id;
                assert(own0[i2].orders[j2].id < bound);
            }
        }
    }
}

/// Rests `order` in the ladder holding side `side`: appended to the level at
/// its price, or opening a new level in priority position.
fn rest_order(ladder: &mut Vec<PriceLevel>, side: OrderSide, order: Order)
    requires
        ladder_wf(side, lv(old(ladder)@)),
        forall|i: int|
            0 <= i < old(ladder)@.len() ==> (#[trigger] old(ladder)@[i]).orders.well_formed(),
        order.side == side,
        order.quantity >= 1,
        !ladder_has_id(lv(old(ladder)@), order.id),
    ensures
        lv(final(ladder)@) == ladder_insert(side, lv(old(ladder)@), order.price, order),
        forall|i: int|
            0 <= i < final(ladder)@.len() ==> (#[trigger] final(ladder)@[i]).orders.well_formed(),
{
    let ghost s0 = lv(old(ladder)@);
    let price = order.price;
    let n = ladder.len();
    let mut i: usize = 0;
    while i < n && price_better(side, ladder[i].price, price)
        invariant
            *ladder == *old(ladder),
            0 <= i <= n,
            n == ladder@.len(),
            forall|j: int| 0 <= j < i ==> earlier(side, lv(ladder@)[j].price, price),
        decreases n - i,
    {
        i = i + 1;
    }
    proof {
        lemma_insert_pos(side, s0, price);
        let p = insert_pos(side, s0, price);
        if p < i {
            assert(earlier(side, s0[p].price, price));
            assert(false);
        }
        if p > i {
            assert(i < n);
            assert(earlier(side, s0[i as int].price, price));
            assert(false);
        }
    }
    if i < n && ladder[i].price == price {
        let mut lvl = ladder.remove(i);
        proof {
            assert(!has_id(lvl@.orders, order.id)) by {
                if has_id(lvl@.orders, order.id) {
                    assert(has_id(s0[i as int].orders, order.id));
                }
            }
        }
        lvl.add_order(order);
        ladder.insert(i, lvl);
        proof {
            assert(lv(ladder@) =~= ladder_insert(side, s0, price, order));
        }
    } else {
        let mut lvl = PriceLevel::new(price);
        lvl.add_order(order);
        ladder.insert(i, lvl);
        proof {
            assert(lvl@.orders =~= seq![order]);
            assert(lvl@ == (LevelV { price, orders: seq![order] }));
            assert(lv(ladder@) =~= ladder_insert(side, s0, price, order));
        }
    }
}

/// Removes the head maker of the best level, dropping the level if it
/// empties, and takes its entry out of the index.
fn consume_head(
    opp: &mut Vec<PriceLevel>,
    index: &mut Vec<IndexEntry>,
    opp_side: OrderSide,
    Ghost(oth): Ghost<Seq<LevelV>>,
)
    requires
        ladder_wf(opp_side, lv(old(opp)@)),
        forall|i: int|
            0 <= i < old(opp)@.len() ==> (#[trigger] old(opp)@[i]).orders.well_formed(),
        index_ok(
            old(index)@,
            arr_bids(opp_side, lv(old(opp)@), oth),
            arr_asks(opp_side, lv(old(opp)@), oth),
        ),
        old(opp)@.len() > 0,
    ensures
        ({
            let s0 = lv(old(opp)@);
            let s1 = lv(final(opp)@);
            &&& s1 == ladder_after_remove(s0, 0, 0)
            &&& s1 == (if s0[0].orders.len() == 1 {
                s0.drop_first()
            } else {
                s0.update(0, LevelV { price: s0[0].price, orders: s0[0].orders.drop_first() })
            })
        }),
        forall|i: int|
            0 <= i < final(opp)@.len() ==> (#[trigger] final(opp)@[i]).orders.well_formed(),
        index_ok(
            final(index)@,
            arr_bids(opp_side, lv(final(opp)@), oth),
            arr_asks(opp_side, lv(final(opp)@), oth),
        ),
{
    let ghost s0 = lv(opp@);
    proof {
        assert(s0[0].orders.len() > 0);
        lemma_index_remove_order(index@, opp_side, s0, oth, 0, 0);
    }
    let maker_id = {
        let head = opp[0].get_first_order();
        head.unwrap().id
    };
    let mut lvl = opp.remove(0);
    lvl.remove_first_order();
    index_remove(index, maker_id);
    let emptied = lvl.is_empty();
    if !emptied {
        opp.insert(0, lvl);
    }
    let ghost s1 = lv(opp@);
    proof {
        if s0[0].orders.len() == 1 {
            assert(emptied);
            assert(s1 =~= s0.drop_first());
            assert(s0.remove(0) =~= s0.drop_first());
        } else {
            assert(!emptied);
            assert(lvl@.orders =~= s0[0].orders.drop_first());
            assert(lvl@ == (LevelV { price: s0[0].price, orders: s0[0].orders.drop_first() }));
            assert(s1 =~= s0.update(
                0,
                LevelV { price: s0[0].price, orders: s0[0].orders.drop_first() },
            ));
            assert(s0[0].orders.remove(0) =~= s0[0].orders.drop_first());
        }
        assert(s1 == ladder_after_remove(s0, 0, 0));
    }
}

/// Reduces the head maker's quantity in place; no order moves and the index
/// does not change.
fn reduce_head(opp: &mut Vec<PriceLevel>, new_qty: u64)
    requires
        ladder_wf(old(opp)@[0]@.orders[0].side, lv(old(opp)@)),
        forall|i: int|
            0 <= i < old(opp)@.len() ==> (#[trigger] old(opp)@[i]).orders.well_formed(),
        old(opp)@.len() > 0,
        old(opp)@[0]@.orders.len() > 0,
        new_qty >= 1,
    ensures
        ({
            let s0 = lv(old(opp)@);
            lv(final(opp)@) == s0.update(
                0,
                LevelV {
                    price: s0[0].price,
                    orders: s0[0].orders.update(
                        0,
                        Order { quantity: new_qty, ..s0[0].orders[0] },
                    ),
                },
            )
        }),
        forall|i: int|
            0 <= i < final(opp)@.len() ==> (#[trigger] final(opp)@[i]).orders.well_formed(),
{
    let ghost s0 = lv(opp@);
    let maker_id = {
        let head = opp[0].get_first_order();
        head.unwrap().id
    };
    proof {
        assert(idx_of(s0[0].orders, maker_id) == 0);
    }
    let mut lvl = opp.remove(0);
    lvl.update_order(maker_id, new_qty);
    opp.insert(0, lvl);
    let ghost s1 = lv(opp@);
    proof {
        let maker2 = Order { quantity: new_qty, ..s0[0].orders[0] };
        assert(lvl@.orders =~= s0[0].orders.update(0, maker2));
        assert(lvl@ == (LevelV { price: s0[0].price, orders: s0[0].orders.update(0, maker2) }));
        assert(s1 =~= s0.update(
            0,
            LevelV { price: s0[0].price, orders: s0[0].orders.update(0, maker2) },
        ));
    }
}

/// Matches an inbound order of the side opposite to `opp_side` against the
/// ladder `opp`, removing filled makers from the ladder and the index.
/// Returns the trades in match order and the unfilled remainder; computes
/// exactly `match_rec` on the ladder's model. `oth` is the (untouched) model
/// of the other ladder, which the index is kept exact against.
#[verifier::rlimit(100)]
fn match_against(
    opp: &mut Vec<PriceLevel>,
    index: &mut Vec<IndexEntry>,
    opp_side: OrderSide,
    limit: u64,
    qty: u64,
    taker_id: u64,
    taker_ts: u64,
    Ghost(oth): Ghost<Seq<LevelV>>,
) -> (r: (Vec<Trade>, u64))
    requires
        ladder_wf(opp_side, lv(old(opp)@)),
        forall|i: int|
            0 <= i < old(opp)@.len() ==> (#[trigger] old(opp)@[i]).orders.well_formed(),
        index_ok(
            old(index)@,
            arr_bids(opp_side, lv(old(opp)@), oth),
            arr_asks(opp_side, lv(old(opp)@), oth),
        ),
    ensures
        ({
            let m = match_rec(
                lv(old(opp)@),
                crate::order::spec_opposite(opp_side),
                limit,
                qty as int,
                taker_id,
                taker_ts,
            );
            &&& r.0@ == m.trades
            &&& lv(final(opp)@) == m.opp
            &&& r.1 == m.left
        }),
        forall|i: int|
            0 <= i < final(opp)@.len() ==> (#[trigger] final(opp)@[i]).orders.well_formed(),
        index_ok(
            final(index)@,
            arr_bids(opp_side, lv(final(opp)@), oth),
            arr_asks(opp_side, lv(final(opp)@), oth),
        ),
    decreases opp@.len(), (if opp@.len() > 0 {
        opp@[0]@.orders.len()
    } else {
        0
    }),
{
    let ghost s0 = lv(opp@);
    let ghost taker_side_s = crate::order::spec_opposite(opp_side);
    let ghost m0 = match_rec(s0, taker_side_s, limit, qty as int, taker_id, taker_ts);
    let taker_side = opp_side.opposite();
    if qty == 0 || opp.len() == 0 {
        return (Vec::new(), qty);
    }
    let best = opp[0].price;
    let cross_ok = match taker_side {
        OrderSide::Bid => limit >= best,
        OrderSide::Ask => limit <= best,
    };
    if !cross_ok {
        assert(!crosses(taker_side_s, limit, s0[0].price));
        return (Vec::new(), qty);
    }
    let ghost maker_s = s0[0].orders[0];
    let (maker_id, maker_qty, maker_t) = {
        let head = opp[0].get_first_order();
        let o = head.unwrap();
        (o.id, o.quantity, o.timestamp)
    };
    proof {
        assert(maker_s.id == maker_id && maker_s.quantity == maker_qty && maker_s.timestamp
            == maker_t);
        assert(maker_qty >= 1);
    }
    let q = if qty < maker_qty {
        qty
    } else {
        maker_qty
    };
    let tmin = if maker_t <= taker_ts {
        maker_t
    } else {
        taker_ts
    };
    let trade = match taker_side {
        OrderSide::Bid => Trade::new(taker_id, maker_id, best, q, tmin),
        OrderSide::Ask => Trade::new(maker_id, taker_id, best, q, tmin),
    };
    if maker_qty <= qty {
        // the maker is fully consumed
        let ghost opp1 = if s0[0].orders.len() == 1 {
            s0.drop_first()
        } else {
            s0.update(0, LevelV { price: s0[0].price, orders: s0[0].orders.drop_first() })
        };
        proof {
            lemma_match_step_full(s0, taker_side_s, limit, qty as int, taker_id, taker_ts);
            assert(trade == spec_trade(taker_side_s, maker_s, taker_id, taker_ts, best, q as int));
        }
        consume_head(opp, index, opp_side, Ghost(oth));
        let ghost s1 = lv(opp@);
        proof {
            assert(s1 == opp1);
        }
        let (mut rest, left) = match_against(
            opp,
            index,
            opp_side,
            limit,
            qty - q,
            taker_id,
            taker_ts,
            Ghost(oth),
        );
        let ghost rest0 = rest@;
        let mut out: Vec<Trade> = Vec::new();
        out.push(trade);
        out.append(&mut rest);
        proof {
            let m1 = match_rec(opp1, taker_side_s, limit, (qty - q) as int, taker_id, taker_ts);
            assert(m0.trades == seq![trade] + m1.trades && m0.opp == m1.opp && m0.left == m1.left);
            assert(out@ =~= seq![trade] + rest0);
        }
        return (out, left);
    } else {
        // the maker absorbs the whole remainder and stays at the head
        let new_qty = maker_qty - q;
        let ghost maker2 = Order { quantity: new_qty, ..maker_s };
        let ghost opp1 = s0.update(
            0,
            LevelV { price: s0[0].price, orders: s0[0].orders.update(0, maker2) },
        );
        proof {
            assert(new_qty >= 1);
            lemma_match_step_partial(s0, taker_side_s, limit, qty as int, taker_id, taker_ts);
            lemma_index_update_qty(index@, opp_side, s0, oth, 0, 0, new_qty);
            assert(trade == spec_trade(
                taker_side_s,
                maker_s,
                taker_id,
                taker_ts,
                best,
                qty as int,
            ));
        }
        reduce_head(opp, new_qty);
        let mut out: Vec<Trade> = Vec::new();
        out.push(trade);
        let ghost s1 = lv(opp@);
        proof {
            assert(s1 == opp1);
            assert(m0.trades == seq![trade] && m0.opp == s1 && m0.left == 0);
            assert(out@ =~= seq![trade]);
            assert(index_ok(index@, arr_bids(opp_side, s1, oth), arr_asks(opp_side, s1, oth)));
        }
        return (out, 0);
    }
}


/// A fresh id—one no resting order has reached—appears in neither ladder
/// nor the index.
pub proof fn lemma_fresh_id(
    ix: Seq<IndexEntry>,
    side: OrderSide,
    own0: Seq<LevelV>,
    opp1: Seq<LevelV>,
    opp0: Seq<LevelV>,
    order_id: u64,
)
    requires
        index_ok(ix, arr_bids(side, own0, opp1), arr_asks(side, own0, opp1)),
        forall|id: u64| ladder_has_id(opp1, id) ==> ladder_has_id(opp0, id),
        ids_below(own0, order_id),
        ids_below(opp0, order_id),
    ensures
        !ladder_has_id(own0, order_id),
        !ix_has(ix, order_id),
{
    assert(!ladder_has_id(own0, order_id)) by {
        if ladder_has_id(own0, order_id) {
            let i = choose|i: int|
                0 <= i < own0.len() && has_id((#[trigger] own0[i]).orders, order_id);
            let j = choose|j: int|
                0 <= j < own0[i].orders.len() && own0[i].orders[j].id == order_id;
            assert(own0[i].orders[j].id < order_id);
        }
    }
    assert(!ix_has(ix, order_id)) by {
        if ix_has(ix, order_id) {
            let k = choose|k: int| 0 <= k < ix.len() && (#[trigger] ix[k]).id == order_id;
            let e = ix[k];
            let lad = if e.side == OrderSide::Bid {
                arr_bids(side, own0, opp1)
            } else {
                arr_asks(side, own0, opp1)
            };
            assert(level_contains(lad, e.price, e.id));
            let i = choose|i: int|
                0 <= i < lad.len() && (#[trigger] lad[i]).price == e.price && has_id(
                    lad[i].orders,
                    order_id,
                );
            let j = choose|j: int| 0 <= j < lad[i].orders.len() && lad[i].orders[j].id == order_id;
            if lad == opp1 {
                assert(ladder_has_id(opp1, order_id));
                assert(ladder_has_id(opp0, order_id));
                let i2 = choose|i2: int|
                    0 <= i2 < opp0.len() && has_id((#[trigger] opp0[i2]).orders, order_id);
                let j2 = choose|j2: int|
                    0 <= j2 < opp0[i2].orders.len() && opp0[i2].orders[j2].id == order_id;
                assert(opp0[i2].orders[j2].id < order_id);
            } else {
                assert(lad == own0);
                assert(own0[i].orders[j].id < order_id);
            }
        }
    }
}

/// The ladder-and-index half of a submission, with the ladders already
/// arranged: `own` holds the inbound side, `opp` the other. Matches exactly
/// as `match_rec` describes, rests any remainder and indexes it.
#[verifier::rlimit(100)]
fn submit_arranged(
    opp: &mut Vec<PriceLevel>,
    own: &mut Vec<PriceLevel>,
    index: &mut Vec<IndexEntry>,
    side: OrderSide,
    price: u64,
    quantity: u64,
    timestamp: u64,
    user_id: String,
    order_id: u64,
) -> (r: (Vec<Trade>, u64))
    requires
        ladder_wf(side, lv(old(own)@)),
        ladder_wf(crate::order::spec_opposite(side), lv(old(opp)@)),
        forall|i: int|
            0 <= i < old(own)@.len() ==> (#[trigger] old(own)@[i]).orders.well_formed(),
        forall|i: int|
            0 <= i < old(opp)@.len() ==> (#[trigger] old(opp)@[i]).orders.well_formed(),
        index_ok(
            old(index)@,
            arr_bids(side, lv(old(own)@), lv(old(opp)@)),
            arr_asks(side, lv(old(own)@), lv(old(opp)@)),
        ),
        not_crossed(
            arr_bids(side, lv(old(own)@), lv(old(opp)@)),
            arr_asks(side, lv(old(own)@), lv(old(opp)@)),
        ),
        ids_below(lv(old(own)@), order_id),
        ids_below(lv(old(opp)@), order_id),
        order_id < u64::MAX,
        price >= 1,
        quantity >= 1,
    ensures
        ({
            let opp0 = lv(old(opp)@);
            let own0 = lv(old(own)@);
            let m = match_rec(opp0, side, price, quantity as int, order_id, timestamp);
            let resting = Order {
                id: order_id,
                side,
                price,
                quantity: m.left as u64,
                timestamp,
                user_id,
            };
            let own1 = if m.left > 0 {
                ladder_insert(side, own0, price, resting)
            } else {
                own0
            };
            &&& r.0@ == m.trades
            &&& r.1 == m.left
            &&& lv(final(opp)@) == m.opp
            &&& lv(final(own)@) == own1
        }),
        ladder_wf(side, lv(final(own)@)),
        ladder_wf(crate::order::spec_opposite(side), lv(final(opp)@)),
        forall|i: int|
            0 <= i < final(own)@.len() ==> (#[trigger] final(own)@[i]).orders.well_formed(),
        forall|i: int|
            0 <= i < final(opp)@.len() ==> (#[trigger] final(opp)@[i]).orders.well_formed(),
        index_ok(
            final(index)@,
            arr_bids(side, lv(final(own)@), lv(final(opp)@)),
            arr_asks(side, lv(final(own)@), lv(final(opp)@)),
        ),
        not_crossed(
            arr_bids(side, lv(final(own)@), lv(final(opp)@)),
            arr_asks(side, lv(final(own)@), lv(final(opp)@)),
        ),
        ids_below(lv(final(own)@), (order_id + 1) as u64),
        ids_below(lv(final(opp)@), (order_id + 1) as u64),
{
    let ghost opp0 = lv(opp@);
    let ghost own0 = lv(own@);
    let ghost m = match_rec(opp0, side, price, quantity as int, order_id, timestamp);
    let opp_side = side.opposite();
    proof {
        assert(arr_bids(opp_side, opp0, own0) == arr_bids(side, own0, opp0));
        assert(arr_asks(opp_side, opp0, own0) == arr_asks(side, own0, opp0));
    }
    let (trades, left) = match_against(
        opp,
        index,
        opp_side,
        price,
        quantity,
        order_id,
        timestamp,
        Ghost(own0),
    );
    proof {
        lemma_match_rec_properties(opp0, side, price, quantity as int, order_id, timestamp);
        assert(arr_bids(opp_side, m.opp, own0) == arr_bids(side, own0, m.opp));
        assert(arr_asks(opp_side, m.opp, own0) == arr_asks(side, own0, m.opp));
    }
    if left > 0 {
        let order = Order::new(order_id, side, price, left, timestamp, user_id);
        proof {
            lemma_fresh_id(index@, side, own0, m.opp, opp0, order_id);
            lemma_index_rest_order(index@, side, own0, m.opp, price, order);
            lemma_ladder_insert(side, own0, price, order);
        }
        rest_order(own, side, order);
        index.push(IndexEntry { id: order_id, side, price });
    }
    proof {
        let resting = Order {
            id: order_id,
            side,
            price,
            quantity: m.left as u64,
            timestamp,
            user_id: user_id,
        };
        lemma_not_crossed_after(side, opp0, own0, resting, quantity as int, order_id, timestamp);
        lemma_ids_below_after(
            side,
            opp0,
            own0,
            resting,
            quantity as int,
            order_id,
            timestamp,
            (order_id + 1) as u64,
        );
    }
    (trades, left)
}

/// The ladder-and-index half of a submission: dispatches on the inbound side
/// and hands the arranged ladders to `submit_arranged`.
#[verifier::rlimit(100)]
fn submit_core(
    bids: &mut Vec<PriceLevel>,
    asks: &mut Vec<PriceLevel>,
    index: &mut Vec<IndexEntry>,
    side: OrderSide,
    price: u64,
    quantity: u64,
    timestamp: u64,
    user_id: String,
    order_id: u64,
) -> (r: (Vec<Trade>, u64))
    requires
        ladder_wf(OrderSide::Bid, lv(old(bids)@)),
        ladder_wf(OrderSide::Ask, lv(old(asks)@)),
        forall|i: int|
            0 <= i < old(bids)@.len() ==> (#[trigger] old(bids)@[i]).orders.well_formed(),
        forall|i: int|
            0 <= i < old(asks)@.len() ==> (#[trigger] old(asks)@[i]).orders.well_formed(),
        index_ok(old(index)@, lv(old(bids)@), lv(old(asks)@)),
        not_crossed(lv(old(bids)@), lv(old(asks)@)),
        ids_below(lv(old(bids)@), order_id),
        ids_below(lv(old(asks)@), order_id),
        order_id < u64::MAX,
        price >= 1,
        quantity >= 1,
    ensures
        ({
            let opp0 = if side == OrderSide::Bid {
                lv(old(asks)@)
            } else {
                lv(old(bids)@)
            };
            let own0 = if side == OrderSide::Bid {
                lv(old(bids)@)
            } else {
                lv(old(asks)@)
            };
            let m = match_rec(opp0, side, price, quantity as int, order_id, timestamp);
            let resting = Order {
                id: order_id,
                side,
                price,
                quantity: m.left as u64,
                timestamp,
                user_id,
            };
            let own1 = if m.left > 0 {
                ladder_insert(side, own0, price, resting)
            } else {
                own0
            };
            &&& r.0@ == m.trades
            &&& r.1 == m.left
            &&& (if side == OrderSide::Bid {
                lv(final(asks)@)
            } else {
                lv(final(bids)@)
            }) == m.opp
            &&& (if side == OrderSide::Bid {
                lv(final(bids)@)
            } else {
                lv(final(asks)@)
            }) == own1
        }),
        ladder_wf(OrderSide::Bid, lv(final(bids)@)),
        ladder_wf(OrderSide::Ask, lv(final(asks)@)),
        forall|i: int|
            0 <= i < final(bids)@.len() ==> (#[trigger] final(bids)@[i]).orders.well_formed(),
        forall|i: int|
            0 <= i < final(asks)@.len() ==> (#[trigger] final(asks)@[i]).orders.well_formed(),
        index_ok(final(index)@, lv(final(bids)@), lv(final(asks)@)),
        not_crossed(lv(final(bids)@), lv(final(asks)@)),
        ids_below(lv(final(bids)@), (order_id + 1) as u64),
        ids_below(lv(final(asks)@), (order_id + 1) as u64),
{
    match side {
        OrderSide::Bid => submit_arranged(
            asks,
            bids,
            index,
            side,
            price,
            quantity,
            timestamp,
            user_id,
            order_id,
        ),
        OrderSide::Ask => submit_arranged(
            bids,
            asks,
            index,
            side,
            price,
            quantity,
            timestamp,
            user_id,
            order_id,
        ),
    }
}

/// Any resting order carrying the id of the order at (`li`, `oj`) is that
/// order itself; the other ladder holds no order with that id.
pub proof fn lemma_id_unique_location(
    ix: Seq<IndexEntry>,
    side: OrderSide,
    lad: Seq<LevelV>,
    oth: Seq<LevelV>,
    li: int,
    oj: int,
)
    requires
        index_ok(ix, arr_bids(side, lad, oth), arr_asks(side, lad, oth)),
        ladder_wf(side, lad),
        0 <= li < lad.len(),
        0 <= oj < lad[li].orders.len(),
    ensures
        ({
            let id = lad[li].orders[oj].id;
            &&& forall|i: int, j: int|
                0 <= i < lad.len() && 0 <= j < lad[i].orders.len() && (
                #[trigger] lad[i].orders[j]).id == id ==> i == li && j == oj
            &&& forall|i: int, j: int|
                0 <= i < oth.len() && 0 <= j < oth[i].orders.len() ==> (
                #[trigger] oth[i].orders[j]).id != id
        }),
{
    let id = lad[li].orders[oj].id;
    let pr = lad[li].price;
    let bids0 = arr_bids(side, lad, oth);
    let asks0 = arr_asks(side, lad, oth);
    assert(ix_has_entry(ix, id, side, pr)) by {
        if side == OrderSide::Bid {
            assert(bids0[li].orders[oj].id == id);
        } else {
            assert(asks0[li].orders[oj].id == id);
        }
    }
    let p = choose|k: int| 0 <= k < ix.len() && (#[trigger] ix[k]) == (IndexEntry {
        id,
        side,
        price: pr,
    });
    assert forall|i: int, j: int|
        0 <= i < lad.len() && 0 <= j < lad[i].orders.len() && (#[trigger] lad[i].orders[j]).id
            == id implies i == li && j == oj by {
        assert(ix_has_entry(ix, id, side, lad[i].price)) by {
            if side == OrderSide::Bid {
                assert(bids0[i].orders[j].id == id);
            } else {
                assert(asks0[i].orders[j].id == id);
            }
        }
        let k2 = choose|k: int| 0 <= k < ix.len() && (#[trigger] ix[k]) == (IndexEntry {
            id,
            side,
            price: lad[i].price,
        });
        assert(k2 == p || ix[k2].id == ix[p].id);
        if k2 < p {
            assert(ix[k2].id != ix[p].id);
        } else if k2 > p {
            assert(ix[p].id != ix[k2].id);
        }
        assert(k2 == p);
        assert(lad[i].price == pr);
        if i != li {
            if i < li {
                assert(earlier(side, lad[i].price, lad[li].price));
            } else {
                assert(earlier(side, lad[li].price, lad[i].price));
            }
            assert(false);
        }
        if j != oj {
            assert(false);
        }
    }
    let oside = crate::order::spec_opposite(side);
    assert forall|i: int, j: int|
        0 <= i < oth.len() && 0 <= j < oth[i].orders.len() implies (
    #[trigger] oth[i].orders[j]).id != id by {
        if oth[i].orders[j].id == id {
            assert(ix_has_entry(ix, id, oside, oth[i].price)) by {
                if side == OrderSide::Bid {
                    assert(asks0[i].orders[j].id == id);
                } else {
                    assert(bids0[i].orders[j].id == id);
                }
            }
            let k2 = choose|k: int| 0 <= k < ix.len() && (#[trigger] ix[k]) == (IndexEntry {
                id,
                side: oside,
                price: oth[i].price,
            });
            if k2 < p {
                assert(ix[k2].id != ix[p].id);
            } else if k2 > p {
                assert(ix[p].id != ix[k2].id);
            }
            assert(k2 == p);
            assert(false);
        }
    }
}

/// Whether some order with the id and the owner rests in the ladder.
pub open spec fn ladder_order_with(s: Seq<LevelV>, id: u64, owner: Seq<char>) -> bool {
    exists|i: int, j: int|
        0 <= i < s.len() && 0 <= j < s[i].orders.len() && (#[trigger] s[i].orders[j]).id == id
            && s[i].orders[j].user_id@ == owner
}

/// Finds the position of the index entry for the id.
fn find_index_entry(index: &Vec<IndexEntry>, id: u64) -> (r: Option<usize>)
    ensures
        match r {
            Some(k) => k == ix_pos(index@, id) && k < index@.len() && index@[k as int].id == id,
            None => !ix_has(index@, id),
        },
{
    let n = index.len();
    let mut k: usize = 0;
    while k < n
        invariant
            0 <= k <= n,
            n == index@.len(),
            forall|j: int| 0 <= j < k ==> index@[j].id != id,
        decreases n - k,
    {
        if index[k].id == id {
            proof {
                lemma_ix_pos(index@, id);
            }
            return Some(k);
        }
        k = k + 1;
    }
    None
}

/// Finds the position of the level at the price.
fn find_level_pos(lad: &Vec<PriceLevel>, price: u64) -> (r: usize)
    requires
        has_price(lv(lad@), price),
    ensures
        r == price_pos(lv(lad@), price),
        r < lad@.len(),
        lv(lad@)[r as int].price == price,
{
    let n = lad.len();
    let mut i: usize = 0;
    while i < n
        invariant
            0 <= i <= n,
            n == lad@.len(),
            forall|j: int| 0 <= j < i ==> lv(lad@)[j].price != price,
        decreases n - i,
    {
        if lad[i].price == price {
            proof {
                lemma_price_pos(lv(lad@), price);
                let p = price_pos(lv(lad@), price);
                if p < i {
                    assert(lv(lad@)[p].price == price);
                    assert(false);
                }
                if p > i {
                    assert(lv(lad@)[i as int].price != price);
                    assert(false);
                }
            }
            return i;
        }
        i = i + 1;
    }
    proof {
        let j = choose|j: int| 0 <= j < lv(lad@).len() && lv(lad@)[j].price == price;
        assert(false);
    }
    0
}

/// Removing one order from a well-formed ladder leaves it well formed,
/// introduces no id, and moves the best level only when the best level
/// itself vanishes.
pub proof fn lemma_ladder_remove_wf(side: OrderSide, s0: Seq<LevelV>, li: int, oj: int)
    requires
        ladder_wf(side, s0),
        0 <= li < s0.len(),
        0 <= oj < s0[li].orders.len(),
    ensures
        ({
            let s1 = ladder_after_remove(s0, li, oj);
            &&& ladder_wf(side, s1)
            &&& (forall|id2: u64| ladder_has_id(s1, id2) ==> ladder_has_id(s0, id2))
            &&& (s1.len() > 0 ==> s1[0].price == s0[0].price || (s0.len() > 1 && s1[0] == s0[1]))
        }),
{
    let s1 = ladder_after_remove(s0, li, oj);
    assert(ladder_wf(side, s1)) by {
        if s0[li].orders.len() == 1 {
            assert(forall|x: int| 0 <= x < li ==> s1[x] == s0[x]);
            assert(forall|x: int| li <= x < s1.len() ==> s1[x] == s0[x + 1]);
        } else {
            let o1 = s0[li].orders.remove(oj);
            assert(forall|x: int| 0 <= x < oj ==> o1[x] == s0[li].orders[x]);
            assert(forall|x: int| oj <= x < o1.len() ==> o1[x] == s0[li].orders[x + 1]);
            assert(forall|x: int| 0 <= x < s1.len() && x != li ==> s1[x] == s0[x]);
        }
    }
    assert forall|id2: u64| ladder_has_id(s1, id2) implies ladder_has_id(s0, id2) by {
        let a = choose|a: int| 0 <= a < s1.len() && has_id((#[trigger] s1[a]).orders, id2);
        let b = choose|b: int| 0 <= b < s1[a].orders.len() && s1[a].orders[b].id == id2;
        if s0[li].orders.len() == 1 {
            let a0 = if a < li {
                a
            } else {
                a + 1
            };
            assert(s1[a] == s0[a0]);
            assert(has_id(s0[a0].orders, id2));
        } else {
            if a == li {
                let b0 = if b < oj {
                    b
                } else {
                    b + 1
                };
                assert(s1[a].orders[b] == s0[li].orders[b0]);
                assert(has_id(s0[li].orders, id2));
            } else {
                assert(s1[a] == s0[a]);
                assert(has_id(s0[a].orders, id2));
            }
        }
    }
    if s1.len() > 0 {
        if s0[li].orders.len() == 1 {
            if li == 0 {
                assert(s1[0] == s0[1]);
            } else {
                assert(s1[0] == s0[0]);
            }
        } else {
            if li == 0 {
                assert(s1[0].price == s0[0].price);
            } else {
                assert(s1[0] == s0[0]);
            }
        }
    }
}

/// Removes the order with `order_id` from the level at position `li`,
/// dropping the level if it empties. The index is not touched.
fn level_remove_at(lad: &mut Vec<PriceLevel>, li: usize, order_id: u64) -> (r: Order)
    requires
        ladder_wf(old(lad)@[li as int]@.orders[0].side, lv(old(lad)@)),
        forall|i: int|
            0 <= i < old(lad)@.len() ==> (#[trigger] old(lad)@[i]).orders.well_formed(),
        li < old(lad)@.len(),
        has_id(lv(old(lad)@)[li as int].orders, order_id),
    ensures
        ({
            let s0 = lv(old(lad)@);
            let s1 = lv(final(lad)@);
            let oj = idx_of(s0[li as int].orders, order_id);
            &&& r == s0[li as int].orders[oj]
            &&& s1 == ladder_after_remove(s0, li as int, oj)
        }),
        forall|i: int|
            0 <= i < final(lad)@.len() ==> (#[trigger] final(lad)@[i]).orders.well_formed(),
{
    let ghost s0 = lv(lad@);
    let ghost oj = idx_of(s0[li as int].orders, order_id);
    proof {
        crate::level::lemma_idx_of(s0[li as int].orders, order_id);
    }
    let mut lvl = lad.remove(li);
    let removed = lvl.remove_order(order_id);
    let emptied = lvl.is_empty();
    if !emptied {
        lad.insert(li, lvl);
    }
    let ghost s1 = lv(lad@);
    proof {
        if s0[li as int].orders.len() == 1 {
            assert(oj == 0);
            assert(emptied);
            assert(s1 =~= s0.remove(li as int));
        } else {
            assert(!emptied);
            assert(lvl@.orders =~= s0[li as int].orders.remove(oj));
            assert(lvl@ == (LevelV {
                price: s0[li as int].price,
                orders: s0[li as int].orders.remove(oj),
            }));
            assert(s1 =~= s0.update(
                li as int,
                LevelV { price: s0[li as int].price, orders: s0[li as int].orders.remove(oj) },
            ));
        }
        assert(s1 == ladder_after_remove(s0, li as int, oj));
    }
    removed.unwrap()
}

/// Removes the order with `order_id` resting at level position `li`, drops
/// the level if it empties, and removes the order's index entry.
#[verifier::rlimit(100)]
fn remove_resting(
    lad: &mut Vec<PriceLevel>,
    index: &mut Vec<IndexEntry>,
    side: OrderSide,
    li: usize,
    order_id: u64,
    Ghost(oth): Ghost<Seq<LevelV>>,
) -> (r: Order)
    requires
        ladder_wf(side, lv(old(lad)@)),
        forall|i: int|
            0 <= i < old(lad)@.len() ==> (#[trigger] old(lad)@[i]).orders.well_formed(),
        index_ok(
            old(index)@,
            arr_bids(side, lv(old(lad)@), oth),
            arr_asks(side, lv(old(lad)@), oth),
        ),
        li < old(lad)@.len(),
        has_id(lv(old(lad)@)[li as int].orders, order_id),
    ensures
        ({
            let s0 = lv(old(lad)@);
            let s1 = lv(final(lad)@);
            let oj = idx_of(s0[li as int].orders, order_id);
            &&& r == s0[li as int].orders[oj]
            &&& s1 == ladder_after_remove(s0, li as int, oj)
            &&& final(index)@ == old(index)@.remove(ix_pos(old(index)@, order_id))
            &&& ladder_wf(side, s1)
            &&& (forall|i: int|
                0 <= i < final(lad)@.len() ==> (#[trigger] final(lad)@[i]).orders.well_formed())
            &&& index_ok(final(index)@, arr_bids(side, s1, oth), arr_asks(side, s1, oth))
            &&& (forall|id2: u64| ladder_has_id(s1, id2) ==> ladder_has_id(s0, id2))
            &&& (s1.len() > 0 ==> s1[0].price == s0[0].price || (s0.len() > 1 && s1[0] == s0[1]))
        }),
{
    let ghost s0 = lv(lad@);
    let ghost oj = idx_of(s0[li as int].orders, order_id);
    proof {
        crate::level::lemma_idx_of(s0[li as int].orders, order_id);
        lemma_index_remove_order(index@, side, s0, oth, li as int, oj);
        lemma_ladder_remove_wf(side, s0, li as int, oj);
    }
    let removed = level_remove_at(lad, li, order_id);
    index_remove(index, order_id);
    removed
}

/// The cancellation step on the arranged ladder: the entry located the order/// The cancellation step on the arranged ladder: the entry located the order
/// at this side and price; the order leaves if and only if the owner
/// matches.
#[verifier::rlimit(100)]
fn cancel_arranged(
    lad: &mut Vec<PriceLevel>,
    index: &mut Vec<IndexEntry>,
    side: OrderSide,
    price: u64,
    order_id: u64,
    owner: &String,
    Ghost(oth): Ghost<Seq<LevelV>>,
) -> (r: Option<Order>)
    requires
        ladder_wf(side, lv(old(lad)@)),
        forall|i: int|
            0 <= i < old(lad)@.len() ==> (#[trigger] old(lad)@[i]).orders.well_formed(),
        index_ok(
            old(index)@,
            arr_bids(side, lv(old(lad)@), oth),
            arr_asks(side, lv(old(lad)@), oth),
        ),
        level_contains(lv(old(lad)@), price, order_id),
    ensures
        ({
            let s0 = lv(old(lad)@);
            let s1 = lv(final(lad)@);
            match r {
                Some(o) => {
                    &&& o.id == order_id
                    &&& o.user_id@ == owner@
                    &&& level_has_order(s0, price, o)
                    &&& s1 == ladder_remove_order(s0, price, order_id)
                    &&& final(index)@ == old(index)@.remove(ix_pos(old(index)@, order_id))
                    &&& ladder_wf(side, s1)
                    &&& (forall|i: int|
                        0 <= i < final(lad)@.len() ==> (
                        #[trigger] final(lad)@[i]).orders.well_formed())
                    &&& index_ok(final(index)@, arr_bids(side, s1, oth), arr_asks(side, s1, oth))
                    &&& (forall|id2: u64| ladder_has_id(s1, id2) ==> ladder_has_id(s0, id2))
                    &&& (s1.len() > 0 ==> s1[0].price == s0[0].price || (s0.len() > 1 && s1[0]
                        == s0[1]))
                    &&& !ladder_order_with(oth, order_id, owner@)
                },
                None => {
                    &&& *final(lad) == *old(lad)
                    &&& *final(index) == *old(index)
                    &&& !ladder_order_with(lv(old(lad)@), order_id, owner@)
                    &&& !ladder_order_with(oth, order_id, owner@)
                },
            }
        }),
{
    let ghost s0 = lv(lad@);
    let i = find_level_pos(lad, price);
    let ghost li = i as int;
    let ghost oj = idx_of(s0[li].orders, order_id);
    proof {
        assert(has_id(s0[li].orders, order_id)) by {
            let i2 = choose|i2: int|
                0 <= i2 < s0.len() && (#[trigger] s0[i2]).price == price && has_id(
                    s0[i2].orders,
                    order_id,
                );
            if i2 != li {
                lemma_price_pos(s0, price);
                if i2 < li {
                    assert(s0[i2].price != price);
                } else {
                    assert(earlier(side, s0[li].price, s0[i2].price));
                }
            }
        }
        crate::level::lemma_idx_of(s0[li].orders, order_id);
        lemma_id_unique_location(index@, side, s0, oth, li, oj);
    }
    let owner_matches = {
        let cand = lad[i].orders.get_order(order_id);
        let o_ref = cand.unwrap();
        o_ref.user_id == *owner
    };
    proof {
        assert(!ladder_order_with(oth, order_id, owner@)) by {
            if ladder_order_with(oth, order_id, owner@) {
                let (a, b): (int, int) = choose|a: int, b: int|
                    0 <= a < oth.len() && 0 <= b < oth[a].orders.len() && (
                    #[trigger] oth[a].orders[b]).id == order_id && oth[a].orders[b].user_id@
                        == owner@;
            }
        }
    }
    if !owner_matches {
        proof {
            assert(!ladder_order_with(s0, order_id, owner@)) by {
                if ladder_order_with(s0, order_id, owner@) {
                    let (a, b): (int, int) = choose|a: int, b: int|
                        0 <= a < s0.len() && 0 <= b < s0[a].orders.len() && (
                        #[trigger] s0[a].orders[b]).id == order_id && s0[a].orders[b].user_id@
                            == owner@;
                    assert(a == li && b == oj);
                }
            }
        }
        return None;
    }
    let removed = remove_resting(lad, index, side, i, order_id, Ghost(oth));
    proof {
        assert(removed == s0[li].orders[oj]);
        assert(level_has_order(s0, price, removed));
        lemma_price_pos(s0, price);
        assert(price_pos(s0, price) == li);
        assert(lv(lad@) == ladder_remove_order(s0, price, order_id));
    }
    Some(removed)
}

/// The ladder-and-index half of a cancellation: the index entry said the
/// order rests on `side` at `price`. The order leaves if and only if the
/// owner matches; the book stays well formed and uncrossed.
#[verifier::rlimit(100)]
fn cancel_core(
    bids: &mut Vec<PriceLevel>,
    asks: &mut Vec<PriceLevel>,
    index: &mut Vec<IndexEntry>,
    side: OrderSide,
    price: u64,
    order_id: u64,
    owner: &String,
) -> (r: Option<Order>)
    requires
        ladder_wf(OrderSide::Bid, lv(old(bids)@)),
        ladder_wf(OrderSide::Ask, lv(old(asks)@)),
        forall|i: int|
            0 <= i < old(bids)@.len() ==> (#[trigger] old(bids)@[i]).orders.well_formed(),
        forall|i: int|
            0 <= i < old(asks)@.len() ==> (#[trigger] old(asks)@[i]).orders.well_formed(),
        index_ok(old(index)@, lv(old(bids)@), lv(old(asks)@)),
        not_crossed(lv(old(bids)@), lv(old(asks)@)),
        level_contains(
            if side == OrderSide::Bid {
                lv(old(bids)@)
            } else {
                lv(old(asks)@)
            },
            price,
            order_id,
        ),
    ensures
        ladder_wf(OrderSide::Bid, lv(final(bids)@)),
        ladder_wf(OrderSide::Ask, lv(final(asks)@)),
        forall|i: int|
            0 <= i < final(bids)@.len() ==> (#[trigger] final(bids)@[i]).orders.well_formed(),
        forall|i: int|
            0 <= i < final(asks)@.len() ==> (#[trigger] final(asks)@[i]).orders.well_formed(),
        index_ok(final(index)@, lv(final(bids)@), lv(final(asks)@)),
        not_crossed(lv(final(bids)@), lv(final(asks)@)),
        forall|id2: u64| ladder_has_id(lv(final(bids)@), id2) ==> ladder_has_id(
            lv(old(bids)@),
            id2,
        ),
        forall|id2: u64| ladder_has_id(lv(final(asks)@), id2) ==> ladder_has_id(
            lv(old(asks)@),
            id2,
        ),
        match r {
            Some(o) => {
                &&& o.id == order_id
                &&& o.user_id@ == owner@
                &&& o.side == side
                &&& (if side == OrderSide::Bid {
                    &&& level_has_order(lv(old(bids)@), o.price, o)
                    &&& lv(final(bids)@) == ladder_remove_order(
                        lv(old(bids)@),
                        o.price,
                        order_id,
                    )
                    &&& *final(asks) == *old(asks)
                } else {
                    &&& level_has_order(lv(old(asks)@), o.price, o)
                    &&& lv(final(asks)@) == ladder_remove_order(
                        lv(old(asks)@),
                        o.price,
                        order_id,
                    )
                    &&& *final(bids) == *old(bids)
                })
            },
            None => {
                &&& *final(bids) == *old(bids)
                &&& *final(asks) == *old(asks)
                &&& *final(index) == *old(index)
                &&& !ladder_order_with(lv(old(bids)@), order_id, owner@)
                &&& !ladder_order_with(lv(old(asks)@), order_id, owner@)
            },
        },
{
    let ghost bids0 = lv(bids@);
    let ghost asks0 = lv(asks@);
    let res = match side {
        OrderSide::Bid => cancel_arranged(
            bids,
            index,
            OrderSide::Bid,
            price,
            order_id,
            owner,
            Ghost(asks0),
        ),
        OrderSide::Ask => cancel_arranged(
            asks,
            index,
            OrderSide::Ask,
            price,
            order_id,
            owner,
            Ghost(bids0),
        ),
    };
    proof {
        if res is Some {
            let s0 = if side == OrderSide::Bid {
                bids0
            } else {
                asks0
            };
            let s1 = if side == OrderSide::Bid {
                lv(bids@)
            } else {
                lv(asks@)
            };
            if s1.len() > 0 && s0.len() > 1 && s1[0] == s0[1] {
                assert(earlier(side, s0[0].price, s0[1].price));
            }
            assert(not_crossed(lv(bids@), lv(asks@)));
            let o = res.unwrap();
            assert(o.price == price && o.side == side) by {
                let (a, b): (int, int) = choose|a: int, b: int|
                    0 <= a < s0.len() && s0[a].price == price && 0 <= b < s0[a].orders.len() && (
                    #[trigger] s0[a].orders[b]) == o;
            }
        }
    }
    res
}

/// An id without an index entry rests nowhere, under no owner.
pub proof fn lemma_absent_id(ix: Seq<IndexEntry>, bids: Seq<LevelV>, asks: Seq<LevelV>, id: u64)
    requires
        index_ok(ix, bids, asks),
        !ix_has(ix, id),
    ensures
        forall|ow: Seq<char>| !ladder_order_with(bids, id, ow),
        forall|ow: Seq<char>| !ladder_order_with(asks, id, ow),
{
    assert forall|ow: Seq<char>| !ladder_order_with(bids, id, ow) by {
        if ladder_order_with(bids, id, ow) {
            let (a, b): (int, int) = choose|a: int, b: int|
                0 <= a < bids.len() && 0 <= b < bids[a].orders.len() && (
                #[trigger] bids[a].orders[b]).id == id && bids[a].orders[b].user_id@ == ow;
            assert(ix_has_entry(ix, id, OrderSide::Bid, bids[a].price));
            let k = choose|k: int| 0 <= k < ix.len() && (#[trigger] ix[k]) == (IndexEntry {
                id,
                side: OrderSide::Bid,
                price: bids[a].price,
            });
            assert(ix_has(ix, id));
        }
    }
    assert forall|ow: Seq<char>| !ladder_order_with(asks, id, ow) by {
        if ladder_order_with(asks, id, ow) {
            let (a, b): (int, int) = choose|a: int, b: int|
                0 <= a < asks.len() && 0 <= b < asks[a].orders.len() && (
                #[trigger] asks[a].orders[b]).id == id && asks[a].orders[b].user_id@ == ow;
            assert(ix_has_entry(ix, id, OrderSide::Ask, asks[a].price));
            let k = choose|k: int| 0 <= k < ix.len() && (#[trigger] ix[k]) == (IndexEntry {
                id,
                side: OrderSide::Ask,
                price: asks[a].price,
            });
            assert(ix_has(ix, id));
        }
    }
}

/// A ladder whose ids all come from another inherits its id bound.
pub proof fn lemma_ids_below_subset(s0: Seq<LevelV>, s1: Seq<LevelV>, bound: u64)
    requires
        forall|id2: u64| ladder_has_id(s1, id2) ==> ladder_has_id(s0, id2),
        ids_below(s0, bound),
    ensures
        ids_below(s1, bound),
{
    assert forall|i: int, j: int|
        0 <= i < s1.len() && 0 <= j < s1[i].orders.len() implies (
    #[trigger] s1[i].orders[j]).id < bound by {
        let id = s1[i].orders[j].id;
        assert(has_id(s1[i].orders, id));
        assert(ladder_has_id(s1, id));
        assert(ladder_has_id(s0, id));
        let a = choose|a: int| 0 <= a < s0.len() && has_id((#[trigger] s0[a]).orders, id);
        let b = choose|b: int| 0 <= b < s0[a].orders.len() && s0[a].orders[b].id == id;
        assert(s0[a].orders[b].id < bound);
    }
}

/// The order book for one instrument: a bid ladder and an ask ladder, each
/// The order book for one instrument: a bid ladder and an ask ladder, each
/// best price first, the index of resting orders, the id allocator, and
/// statistics.
#[derive(Debug)]
pub struct OrderBook {
    pub bids: Vec<PriceLevel>,
    pub asks: Vec<PriceLevel>,
    pub index: Vec<IndexEntry>,
    pub next_order_id: u64,
    pub stats: OrderBookStats,
}

impl OrderBook {
    /// The bid ladder as a model value.
    pub open spec fn bids_v(self) -> Seq<LevelV> {
        lv(self.bids@)
    }

    /// The ask ladder as a model value.
    pub open spec fn asks_v(self) -> Seq<LevelV> {
        lv(self.asks@)
    }

    /// The book's invariant: both ladders well formed with exact aggregates,
    /// the index holding exactly the resting orders, no crossed book, all
    /// resting ids below the allocator, and the market snapshot in the stats
    /// agreeing with the ladders.
    pub open spec fn well_formed(self) -> bool {
        &&& ladder_wf(OrderSide::Bid, self.bids_v())
        &&& ladder_wf(OrderSide::Ask, self.asks_v())
        &&& forall|i: int|
            0 <= i < self.bids@.len() ==> (#[trigger] self.bids@[i]).orders.well_formed()
        &&& forall|i: int|
            0 <= i < self.asks@.len() ==> (#[trigger] self.asks@[i]).orders.well_formed()
        &&& index_ok(self.index@, self.bids_v(), self.asks_v())
        &&& not_crossed(self.bids_v(), self.asks_v())
        &&& ids_below(self.bids_v(), self.next_order_id)
        &&& ids_below(self.asks_v(), self.next_order_id)
        &&& self.next_order_id >= 1
        &&& self.stats.total_orders_created < self.next_order_id
        &&& self.stats.best_bid == best_price(self.bids_v())
        &&& self.stats.best_ask == best_price(self.asks_v())
        &&& self.stats.spread == spec_spread(self.stats.best_bid, self.stats.best_ask)
        &&& self.stats.mid_price == spec_mid(self.stats.best_bid, self.stats.best_ask)
    }

    pub fn new() -> (r: OrderBook)
        ensures
            r.well_formed(),
            r.bids_v() =~= Seq::<LevelV>::empty(),
            r.asks_v() =~= Seq::<LevelV>::empty(),
            r.index@ =~= Seq::<IndexEntry>::empty(),
            r.next_order_id == 1,
            r.stats == zero_stats(),
    {
        OrderBook {
            bids: Vec::new(),
            asks: Vec::new(),
            index: Vec::new(),
            next_order_id: 1,
            stats: OrderBookStats::new(),
        }
    }

    /// The best (highest) bid price, if any bid rests.
    pub fn get_best_bid(&self) -> (r: Option<u64>)
        ensures
            r == best_price(self.bids_v()),
    {
        if self.bids.len() == 0 {
            None
        } else {
            Some(self.bids[0].price)
        }
    }

    /// The best (lowest) ask price, if any ask rests.
    pub fn get_best_ask(&self) -> (r: Option<u64>)
        ensures
            r == best_price(self.asks_v()),
    {
        if self.asks.len() == 0 {
            None
        } else {
            Some(self.asks[0].price)
        }
    }

    /// The spread recorded in the statistics snapshot.
    pub fn get_spread(&self) -> (r: Option<u64>)
        ensures
            r == self.stats.spread,
    {
        self.stats.spread
    }

    /// A consistent copy of the statistics.
    pub fn get_stats(&self) -> (r: OrderBookStats)
        ensures
            r == self.stats,
    {
        self.stats
    }

    /// Submits a limit order. A zero price or quantity is rejected before an
    /// id is allocated. Otherwise the order takes the next id, matches
    /// against the opposite ladder exactly as `match_rec` describes, any
    /// remainder rests at its price and is indexed, and the statistics are
    /// updated: one more order created, one more match per trade, the
    /// notional of the trades added to the volume (clamped), the last match
    /// time set when any trade occurred, and the market snapshot refreshed.
    #[verifier::rlimit(100)]
    pub fn add_order(
        &mut self,
        side: OrderSide,
        price: u64,
        quantity: u64,
        timestamp: u64,
        user_id: String,
    ) -> (r: Result<(u64, Vec<Trade>), OrderBookError>)
        requires
            old(self).well_formed(),
            old(self).next_order_id < u64::MAX,
        ensures
            final(self).well_formed(),
            price == 0 || quantity == 0 ==> r == Err::<(u64, Vec<Trade>), OrderBookError>(
                OrderBookError::InvalidInput,
            ) && *final(self) == *old(self),
            price >= 1 && quantity >= 1 ==> ({
                let opp0 = if side == OrderSide::Bid {
                    old(self).asks_v()
                } else {
                    old(self).bids_v()
                };
                let own0 = if side == OrderSide::Bid {
                    old(self).bids_v()
                } else {
                    old(self).asks_v()
                };
                let m = match_rec(
                    opp0,
                    side,
                    price,
                    quantity as int,
                    old(self).next_order_id,
                    timestamp,
                );
                let resting = Order {
                    id: old(self).next_order_id,
                    side,
                    price,
                    quantity: m.left as u64,
                    timestamp,
                    user_id,
                };
                let own1 = if m.left > 0 {
                    ladder_insert(side, own0, price, resting)
                } else {
                    own0
                };
                &&& r matches Ok(v) && v.0 == old(self).next_order_id && v.1@ == m.trades
                &&& final(self).next_order_id == old(self).next_order_id + 1
                &&& (if side == OrderSide::Bid {
                    final(self).asks_v()
                } else {
                    final(self).bids_v()
                }) == m.opp
                &&& (if side == OrderSide::Bid {
                    final(self).bids_v()
                } else {
                    final(self).asks_v()
                }) == own1
                &&& final(self).stats.total_orders_created == old(
                    self,
                ).stats.total_orders_created + 1
                &&& final(self).stats.total_orders_matched == sat_u64(
                    old(self).stats.total_orders_matched + m.trades.len(),
                )
                &&& final(self).stats.total_volume_traded == sat_u128(
                    old(self).stats.total_volume_traded + sum_notional(m.trades),
                )
                &&& final(self).stats.total_orders_cancelled == old(
                    self,
                ).stats.total_orders_cancelled
                &&& final(self).stats.last_match_time == (if m.trades.len() > 0 {
                    Some(timestamp)
                } else {
                    old(self).stats.last_match_time
                })
            }),
    {
        if price == 0 || quantity == 0 {
            return Err(OrderBookError::InvalidInput);
        }
        let order_id = self.next_order_id;
        self.next_order_id = order_id + 1;
        let ghost m = match_rec(
            if side == OrderSide::Bid {
                self.asks_v()
            } else {
                self.bids_v()
            },
            side,
            price,
            quantity as int,
            order_id,
            timestamp,
        );
        let (trades, left) = submit_core(
            &mut self.bids,
            &mut self.asks,
            &mut self.index,
            side,
            price,
            quantity,
            timestamp,
            user_id,
            order_id,
        );
        self.stats.total_orders_created = self.stats.total_orders_created + 1;
        let tcount = trades.len();
        if tcount > 0 {
            self.stats.total_orders_matched = sat_add_u64(
                self.stats.total_orders_matched,
                tcount as u64,
            );
            let notional = trades_notional(&trades);
            self.stats.total_volume_traded = sat_add_u128(
                self.stats.total_volume_traded,
                notional,
            );
            self.stats.last_match_time = Some(timestamp);
        }
        let bb = self.get_best_bid();
        let ba = self.get_best_ask();
        self.stats.update_market_data(bb, ba);
        proof {
            if tcount == 0 {
                assert(sum_notional(m.trades) == 0);
            } else {
                assert(sat_u128(sat_u128(sum_notional(m.trades)) as int + old(
                    self,
                ).stats.total_volume_traded) == sat_u128(
                    old(self).stats.total_volume_traded + sum_notional(m.trades),
                )) by {
                    crate::model::lemma_sum_notional_nonneg(m.trades);
                }
            }
        }
        Ok((order_id, trades))
    }


    /// The cancellation path once the index entry for `order_id` was found:
    /// the order rests on `side` at `price`; it leaves exactly when the
    /// owner matches.
    #[verifier::rlimit(100)]
    fn cancel_found(
        &mut self,
        side: OrderSide,
        price: u64,
        order_id: u64,
        owner: &String,
    ) -> (r: Option<Order>)
        requires
            old(self).well_formed(),
            level_contains(
                if side == OrderSide::Bid {
                    old(self).bids_v()
                } else {
                    old(self).asks_v()
                },
                price,
                order_id,
            ),
        ensures
            final(self).well_formed(),
            r is Some <==> (ladder_order_with(old(self).bids_v(), order_id, owner@)
                || ladder_order_with(old(self).asks_v(), order_id, owner@)),
            r matches Some(o) ==> ({
                &&& o.id == order_id
                &&& o.user_id@ == owner@
                &&& (if o.side == OrderSide::Bid {
                    &&& level_has_order(old(self).bids_v(), o.price, o)
                    &&& final(self).bids_v() == ladder_remove_order(
                        old(self).bids_v(),
                        o.price,
                        order_id,
                    )
                    &&& final(self).asks_v() == old(self).asks_v()
                } else {
                    &&& level_has_order(old(self).asks_v(), o.price, o)
                    &&& final(self).asks_v() == ladder_remove_order(
                        old(self).asks_v(),
                        o.price,
                        order_id,
                    )
                    &&& final(self).bids_v() == old(self).bids_v()
                })
                &&& final(self).next_order_id == old(self).next_order_id
                &&& final(self).stats.total_orders_cancelled == sat_u64(
                    old(self).stats.total_orders_cancelled + 1,
                )
                &&& final(self).stats.total_orders_created == old(self).stats.total_orders_created
                &&& final(self).stats.total_orders_matched == old(self).stats.total_orders_matched
                &&& final(self).stats.total_volume_traded == old(self).stats.total_volume_traded
                &&& final(self).stats.last_match_time == old(self).stats.last_match_time
            }),
            r is None ==> *final(self) == *old(self),
    {
        let ghost bids0 = self.bids_v();
        let ghost asks0 = self.asks_v();
        let res = cancel_core(
            &mut self.bids,
            &mut self.asks,
            &mut self.index,
            side,
            price,
            order_id,
            owner,
        );
        proof {
            lemma_ids_below_subset(bids0, self.bids_v(), self.next_order_id);
            lemma_ids_below_subset(asks0, self.asks_v(), self.next_order_id);
        }
        match res {
            Some(o) => {
                self.stats.total_orders_cancelled = sat_add_u64(
                    self.stats.total_orders_cancelled,
                    1,
                );
                let bb = self.get_best_bid();
                let ba = self.get_best_ask();
                self.stats.update_market_data(bb, ba);
                proof {
                    let s0 = if o.side == OrderSide::Bid {
                        bids0
                    } else {
                        asks0
                    };
                    assert(ladder_order_with(s0, order_id, owner@)) by {
                        let (a, b): (int, int) = choose|a: int, b: int|
                            0 <= a < s0.len() && s0[a].price == o.price && 0 <= b
                                < s0[a].orders.len() && (#[trigger] s0[a].orders[b]) == o;
                    }
                }
                Some(o)
            },
            None => None,
        }
    }

    /// Cancels the resting order with `order_id` on behalf of `user_id`.
    /// Returns the removed order, whose `quantity` is the unfilled
    /// remainder, when such an order rests and the owner matches. An unknown
    /// id and a mismatched owner are indistinguishable: both leave the book
    /// unchanged and return nothing.
    #[verifier::rlimit(100)]
    pub fn remove_order(&mut self, order_id: u64, user_id: &str) -> (r: Option<Order>)
        requires
            old(self).well_formed(),
        ensures
            final(self).well_formed(),
            r is Some <==> (ladder_order_with(old(self).bids_v(), order_id, user_id@)
                || ladder_order_with(old(self).asks_v(), order_id, user_id@)),
            r matches Some(o) ==> ({
                &&& o.id == order_id
                &&& o.user_id@ == user_id@
                &&& (if o.side == OrderSide::Bid {
                    &&& level_has_order(old(self).bids_v(), o.price, o)
                    &&& final(self).bids_v() == ladder_remove_order(
                        old(self).bids_v(),
                        o.price,
                        order_id,
                    )
                    &&& final(self).asks_v() == old(self).asks_v()
                } else {
                    &&& level_has_order(old(self).asks_v(), o.price, o)
                    &&& final(self).asks_v() == ladder_remove_order(
                        old(self).asks_v(),
                        o.price,
                        order_id,
                    )
                    &&& final(self).bids_v() == old(self).bids_v()
                })
                &&& final(self).next_order_id == old(self).next_order_id
                &&& final(self).stats.total_orders_cancelled == sat_u64(
                    old(self).stats.total_orders_cancelled + 1,
                )
                &&& final(self).stats.total_orders_created == old(self).stats.total_orders_created
                &&& final(self).stats.total_orders_matched == old(self).stats.total_orders_matched
                &&& final(self).stats.total_volume_traded == old(self).stats.total_volume_traded
                &&& final(self).stats.last_match_time == old(self).stats.last_match_time
            }),
            r is None ==> *final(self) == *old(self),
    {
        let ghost bids0 = self.bids_v();
        let ghost asks0 = self.asks_v();
        let owner: String = user_id.to_owned();
        let found = find_index_entry(&self.index, order_id);
        match found {
            None => {
                proof {
                    lemma_absent_id(self.index@, bids0, asks0, order_id);
                }
                None
            },
            Some(k) => {
                let e = self.index[k];
                proof {
                    assert(entry_resting(e, bids0, asks0));
                }
                self.cancel_found(e.side, e.price, order_id, &owner)
            },
        }
    }

    /// Up to `levels` best levels of each side, best first: bids by
    /// descending price, asks by ascending price, each as the price and the
    /// aggregate resting quantity.
    pub fn get_market_depth(&self, levels: usize) -> (r: (
        Vec<(u64, u128)>,
        Vec<(u64, u128)>,
    ))
        requires
            self.well_formed(),
        ensures
            r.0@.len() == (if levels <= self.bids_v().len() {
                levels as int
            } else {
                self.bids_v().len() as int
            }),
            r.1@.len() == (if levels <= self.asks_v().len() {
                levels as int
            } else {
                self.asks_v().len() as int
            }),
            forall|i: int|
                0 <= i < r.0@.len() ==> (#[trigger] r.0@[i]).0 == self.bids_v()[i].price
                    && r.0@[i].1 == sum_qty(self.bids_v()[i].orders),
            forall|i: int|
                0 <= i < r.1@.len() ==> (#[trigger] r.1@[i]).0 == self.asks_v()[i].price
                    && r.1@[i].1 == sum_qty(self.asks_v()[i].orders),
    {
        let nb = self.bids.len();
        let kb = if levels <= nb {
            levels
        } else {
            nb
        };
        let mut out_bids: Vec<(u64, u128)> = Vec::new();
        let mut i: usize = 0;
        while i < kb
            invariant
                0 <= i <= kb,
                kb <= self.bids@.len(),
                out_bids@.len() == i,
                forall|j: int|
                    0 <= j < i ==> (#[trigger] out_bids@[j]).0 == self.bids_v()[j].price
                        && out_bids@[j].1 == sum_qty(self.bids_v()[j].orders),
            decreases kb - i,
        {
            let price = self.bids[i].price;
            let qty = self.bids[i].orders.get_total_quantity();
            out_bids.push((price, qty));
            i = i + 1;
        }
        let na = self.asks.len();
        let ka = if levels <= na {
            levels
        } else {
            na
        };
        let mut out_asks: Vec<(u64, u128)> = Vec::new();
        let mut j: usize = 0;
        while j < ka
            invariant
                0 <= j <= ka,
                ka <= self.asks@.len(),
                out_asks@.len() == j,
                forall|x: int|
                    0 <= x < j ==> (#[trigger] out_asks@[x]).0 == self.asks_v()[x].price
                        && out_asks@[x].1 == sum_qty(self.asks_v()[x].orders),
            decreases ka - j,
        {
            let price = self.asks[j].price;
            let qty = self.asks[j].orders.get_total_quantity();
            out_asks.push((price, qty));
            j = j + 1;
        }
        (out_bids, out_asks)
    }

    /// Empties both ladders and the index and resets the statistics. The id
    /// allocator is not reset: ids are never reused.
    pub fn clear(&mut self)
        requires
            old(self).well_formed(),
        ensures
            final(self).well_formed(),
            final(self).bids_v() =~= Seq::<LevelV>::empty(),
            final(self).asks_v() =~= Seq::<LevelV>::empty(),
            final(self).index@ =~= Seq::<IndexEntry>::empty(),
            final(self).next_order_id == old(self).next_order_id,
            final(self).stats == zero_stats(),
    {
        self.bids = Vec::new();
        self.asks = Vec::new();
        self.index = Vec::new();
        self.stats = OrderBookStats::new();
    }
}

} // verus!
