//! A per-price FIFO of resting orders with a maintained aggregate quantity.
//!
//! `OrderQueue` keeps the orders in arrival order and a running
//! `total_quantity` equal to the sum of their quantities. `PriceLevel` pairs a
//! queue with its price.

use vstd::prelude::*;
use crate::order::Order;

verus! {

/// The sum of the quantities of a sequence of orders.
pub open spec fn sum_qty(s: Seq<Order>) -> int
    decreases s.len(),
{
    if s.len() == 0 {
        0
    } else {
        s[0].quantity + sum_qty(s.drop_first())
    }
}

/// Whether some order in `s` carries the id.
pub open spec fn has_id(s: Seq<Order>, id: u64) -> bool {
    exists|i: int| 0 <= i < s.len() && s[i].id == id
}

/// The first position in `s` whose order carries the id.
pub open spec fn idx_of(s: Seq<Order>, id: u64) -> int
    decreases s.len(),
{
    if s.len() == 0 {
        0
    } else if s[0].id == id {
        0
    } else {
        1 + idx_of(s.drop_first(), id)
    }
}

/// Every resting order has a positive quantity, and ids are not repeated.
pub open spec fn queue_inv(s: Seq<Order>) -> bool {
    &&& forall|i: int| 0 <= i < s.len() ==> (#[trigger] s[i]).quantity >= 1
    &&& forall|i: int, j: int| 0 <= i < j < s.len() ==> s[i].id != s[j].id
}

pub proof fn lemma_sum_qty_push(s: Seq<Order>, o: Order)
    ensures
        sum_qty(s.push(o)) == sum_qty(s) + o.quantity,
    decreases s.len(),
{
    let t = s.push(o);
    if s.len() == 0 {
        assert(t[0] == o);
        assert(t.drop_first() =~= Seq::<Order>::empty());
        assert(sum_qty(t.drop_first()) == 0);
        assert(sum_qty(t) == t[0].quantity + sum_qty(t.drop_first()));
    } else {
        assert(t[0] == s[0]);
        assert(t.drop_first() =~= s.drop_first().push(o));
        lemma_sum_qty_push(s.drop_first(), o);
        assert(sum_qty(t) == t[0].quantity + sum_qty(t.drop_first()));
    }
}

pub proof fn lemma_sum_qty_remove(s: Seq<Order>, i: int)
    requires
        0 <= i < s.len(),
    ensures
        sum_qty(s.remove(i)) == sum_qty(s) - s[i].quantity,
    decreases s.len(),
{
    let t = s.remove(i);
    if i == 0 {
        assert(t =~= s.drop_first());
    } else {
        assert(t[0] == s[0]);
        assert(t.drop_first() =~= s.drop_first().remove(i - 1));
        lemma_sum_qty_remove(s.drop_first(), i - 1);
        assert(sum_qty(t) == t[0].quantity + sum_qty(t.drop_first()));
    }
}

pub proof fn lemma_sum_qty_update(s: Seq<Order>, i: int, o: Order)
    requires
        0 <= i < s.len(),
    ensures
        sum_qty(s.update(i, o)) == sum_qty(s) - s[i].quantity + o.quantity,
    decreases s.len(),
{
    let t = s.update(i, o);
    if i == 0 {
        assert(t[0] == o);
        assert(t.drop_first() =~= s.drop_first());
        assert(sum_qty(t) == t[0].quantity + sum_qty(t.drop_first()));
    } else {
        assert(t[0] == s[0]);
        assert(t.drop_first() =~= s.drop_first().update(i - 1, o));
        lemma_sum_qty_update(s.drop_first(), i - 1, o);
        assert(sum_qty(t) == t[0].quantity + sum_qty(t.drop_first()));
    }
}

/// The aggregate is never negative and never exceeds the number of orders
/// scaled by the largest single quantity.
pub proof fn lemma_sum_qty_bounds(s: Seq<Order>)
    ensures
        0 <= sum_qty(s) <= s.len() * (u64::MAX as int),
    decreases s.len(),
{
    if s.len() > 0 {
        lemma_sum_qty_bounds(s.drop_first());
        assert((s.len() - 1) * (u64::MAX as int) + (u64::MAX as int) == s.len() * (u64::MAX
            as int)) by (nonlinear_arith);
    }
}

/// With one more quantity added, the aggregate still fits in 128 bits.
pub proof fn lemma_sum_qty_fits(s: Seq<Order>, extra: int)
    requires
        s.len() <= 0xffff_ffff_ffff_ffff,
        0 <= extra <= u64::MAX as int,
    ensures
        sum_qty(s) + extra <= u128::MAX as int,
{
    lemma_sum_qty_bounds(s);
    assert(s.len() * (u64::MAX as int) + (u64::MAX as int) <= u128::MAX as int)
        by (nonlinear_arith)
        requires
            s.len() <= 0xffff_ffff_ffff_ffff,
    ;
}

/// If the id occurs in `s`, `idx_of` finds its first occurrence.
pub proof fn lemma_idx_of(s: Seq<Order>, id: u64)
    requires
        has_id(s, id),
    ensures
        0 <= idx_of(s, id) < s.len(),
        s[idx_of(s, id)].id == id,
        forall|j: int| 0 <= j < idx_of(s, id) ==> s[j].id != id,
    decreases s.len(),
{
    if s.len() > 0 && s[0].id != id {
        let r = s.drop_first();
        assert(has_id(r, id)) by {
            let i = choose|i: int| 0 <= i < s.len() && s[i].id == id;
            assert(r[i - 1].id == id);
        }
        lemma_idx_of(r, id);
        let k = idx_of(s, id);
        assert(k == 1 + idx_of(r, id));
        assert(s[k] == r[k - 1]);
        assert forall|j: int| 0 <= j < k implies s[j].id != id by {
            if j > 0 {
                assert(s[j] == r[j - 1]);
            }
        }
    }
}

/// A FIFO of resting orders in arrival order, with the sum of their
/// quantities maintained alongside.
#[derive(Debug)]
pub struct OrderQueue {
    pub orders: Vec<Order>,
    pub total_quantity: u128,
}

impl View for OrderQueue {
    type V = Seq<Order>;

    open spec fn view(&self) -> Seq<Order> {
        self.orders@
    }
}

impl OrderQueue {
    /// The maintained aggregate equals the sum of the resting quantities, and
    /// the queue holds no zero quantities or repeated ids.
    pub open spec fn well_formed(self) -> bool {
        &&& self.total_quantity == sum_qty(self@)
        &&& queue_inv(self@)
    }

    pub fn new() -> (r: OrderQueue)
        ensures
            r@ =~= Seq::<Order>::empty(),
            r.well_formed(),
    {
        OrderQueue { orders: Vec::new(), total_quantity: 0 }
    }

    /// Appends an order at the tail.
    pub fn add_order(&mut self, order: Order)
        requires
            old(self).well_formed(),
            order.quantity >= 1,
            !has_id(old(self)@, order.id),
        ensures
            final(self).well_formed(),
            final(self)@ == old(self)@.push(order),
    {
        let n = self.orders.len();
        proof {
            lemma_sum_qty_fits(self@, order.quantity as int);
            lemma_sum_qty_bounds(self@);
            lemma_sum_qty_push(self@, order);
        }
        self.total_quantity = self.total_quantity + order.quantity as u128;
        self.orders.push(order);
        proof {
            let s0 = old(self)@;
            assert forall|i: int, j: int| 0 <= i < j < self@.len() implies self@[i].id
                != self@[j].id by {
                if j < self@.len() - 1 {
                    assert(self@[i] == s0[i] && self@[j] == s0[j]);
                } else {
                    assert(self@[i] == s0[i]);
                }
            }
        }
    }

    /// Removes the order with the given id, wherever it stands in the queue.
    pub fn remove_order(&mut self, order_id: u64) -> (r: Option<Order>)
        requires
            old(self).well_formed(),
        ensures
            final(self).well_formed(),
            has_id(old(self)@, order_id) ==> {
                &&& r == Some(old(self)@[idx_of(old(self)@, order_id)])
                &&& final(self)@ == old(self)@.remove(idx_of(old(self)@, order_id))
            },
            !has_id(old(self)@, order_id) ==> r == None::<Order> && *final(self) == *old(self),
    {
        let n = self.orders.len();
        let mut i: usize = 0;
        while i < n
            invariant
                *self == *old(self),
                n == self.orders.len(),
                0 <= i <= n,
                forall|j: int| 0 <= j < i ==> self@[j].id != order_id,
            decreases n - i,
        {
            if self.orders[i].id == order_id {
                proof {
                    lemma_idx_of(self@, order_id);
                    assert(idx_of(self@, order_id) == i);
                    lemma_sum_qty_remove(self@, i as int);
                    lemma_sum_qty_bounds(self@.remove(i as int));
                }
                let o = self.orders.remove(i);
                self.total_quantity = self.total_quantity - o.quantity as u128;
                proof {
                    let s0 = old(self)@;
                    assert forall|a: int, b: int| 0 <= a < b < self@.len() implies self@[a].id
                        != self@[b].id by {
                        if a < i && b < i {
                            assert(self@[a] == s0[a] && self@[b] == s0[b]);
                        } else if a < i {
                            assert(self@[a] == s0[a] && self@[b] == s0[b + 1]);
                        } else {
                            assert(self@[a] == s0[a + 1] && self@[b] == s0[b + 1]);
                        }
                    }
                    assert forall|a: int| 0 <= a < self@.len() implies (#[trigger] self@[a]).quantity
                        >= 1 by {
                        if a < i {
                            assert(self@[a] == s0[a]);
                        } else {
                            assert(self@[a] == s0[a + 1]);
                        }
                    }
                }
                return Some(o);
            }
            i = i + 1;
        }
        None
    }

    /// Replaces the quantity of the order with the given id, keeping its
    /// position in the queue.
    pub fn update_order(&mut self, order_id: u64, new_quantity: u64) -> (r: bool)
        requires
            old(self).well_formed(),
            new_quantity >= 1,
        ensures
            final(self).well_formed(),
            r == has_id(old(self)@, order_id),
            has_id(old(self)@, order_id) ==> {
                let k = idx_of(old(self)@, order_id);
                final(self)@ == old(self)@.update(
                    k,
                    Order { quantity: new_quantity, ..old(self)@[k] },
                )
            },
            !has_id(old(self)@, order_id) ==> *final(self) == *old(self),
    {
        let n = self.orders.len();
        let mut i: usize = 0;
        while i < n
            invariant
                *self == *old(self),
                n == self.orders.len(),
                0 <= i <= n,
                forall|j: int| 0 <= j < i ==> self@[j].id != order_id,
            decreases n - i,
        {
            if self.orders[i].id == order_id {
                let ghost s0 = self@;
                let ghost k = i as int;
                let ghost o2 = Order { quantity: new_quantity, ..s0[k] };
                proof {
                    lemma_idx_of(s0, order_id);
                    assert(idx_of(s0, order_id) == k);
                    lemma_sum_qty_update(s0, k, o2);
                    lemma_sum_qty_remove(s0, k);
                    lemma_sum_qty_bounds(s0.remove(k));
                    lemma_sum_qty_fits(s0.remove(k), new_quantity as int);
                }
                let mut o = self.orders.remove(i);
                let old_quantity = o.quantity;
                o.quantity = new_quantity;
                self.orders.insert(i, o);
                self.total_quantity = self.total_quantity - old_quantity as u128 + new_quantity
                    as u128;
                proof {
                    assert(self@ =~= s0.update(k, o2));
                    assert(sum_qty(s0.remove(k)) == sum_qty(s0) - s0[k].quantity);
                    assert forall|a: int, b: int| 0 <= a < b < self@.len() implies self@[a].id
                        != self@[b].id by {
                        assert(self@[a].id == s0[a].id);
                        assert(self@[b].id == s0[b].id);
                    }
                    assert forall|a: int| 0 <= a < self@.len() implies (#[trigger] self@[a]).quantity
                        >= 1 by {
                        if a != k {
                            assert(self@[a] == s0[a]);
                        }
                    }
                }
                return true;
            }
            i = i + 1;
        }
        false
    }

    /// The maintained aggregate.
    pub fn get_total_quantity(&self) -> (r: u128)
        ensures
            r == self.total_quantity,
    {
        self.total_quantity
    }

    pub fn is_empty(&self) -> (r: bool)
        ensures
            r == (self@.len() == 0),
    {
        self.orders.len() == 0
    }

    pub fn len(&self) -> (r: usize)
        ensures
            r == self@.len(),
    {
        self.orders.len()
    }

    /// The order at the head of the queue, if any.
    pub fn get_first_order(&self) -> (r: Option<&Order>)
        ensures
            match r {
                Some(o) => self@.len() > 0 && *o == self@[0],
                None => self@.len() == 0,
            },
    {
        if self.orders.len() == 0 {
            None
        } else {
            Some(&self.orders[0])
        }
    }

    /// Removes and returns the order at the head of the queue.
    pub fn remove_first_order(&mut self) -> (r: Option<Order>)
        requires
            old(self).well_formed(),
        ensures
            final(self).well_formed(),
            old(self)@.len() > 0 ==> r == Some(old(self)@[0]) && final(self)@ == old(
                self,
            )@.drop_first(),
            old(self)@.len() == 0 ==> r == None::<Order> && *final(self) == *old(self),
    {
        if self.orders.len() == 0 {
            None
        } else {
            proof {
                lemma_sum_qty_remove(self@, 0);
                lemma_sum_qty_bounds(self@.remove(0));
                assert(self@.remove(0) =~= self@.drop_first());
            }
            let o = self.orders.remove(0);
            self.total_quantity = self.total_quantity - o.quantity as u128;
            proof {
                let s0 = old(self)@;
                assert forall|a: int, b: int| 0 <= a < b < self@.len() implies self@[a].id
                    != self@[b].id by {
                    assert(self@[a] == s0[a + 1] && self@[b] == s0[b + 1]);
                }
                assert forall|a: int| 0 <= a < self@.len() implies (#[trigger] self@[a]).quantity
                    >= 1 by {
                    assert(self@[a] == s0[a + 1]);
                }
            }
            Some(o)
        }
    }

    /// A reference to the order with the given id, if it rests here.
    pub fn get_order(&self, order_id: u64) -> (r: Option<&Order>)
        ensures
            has_id(self@, order_id) ==> r == Some(&self@[idx_of(self@, order_id)]),
            !has_id(self@, order_id) ==> r == None::<&Order>,
    {
        let n = self.orders.len();
        let mut i: usize = 0;
        while i < n
            invariant
                n == self.orders.len(),
                0 <= i <= n,
                forall|j: int| 0 <= j < i ==> self@[j].id != order_id,
            decreases n - i,
        {
            if self.orders[i].id == order_id {
                proof {
                    lemma_idx_of(self@, order_id);
                    assert(idx_of(self@, order_id) == i);
                }
                return Some(&self.orders[i]);
            }
            i = i + 1;
        }
        None
    }
}

/// The mathematical content of a price level: its price and the orders
/// resting there in arrival order.
pub ghost struct LevelV {
    pub price: u64,
    pub orders: Seq<Order>,
}

/// A price level: the FIFO of orders resting at one price.
#[derive(Debug)]
pub struct PriceLevel {
    pub price: u64,
    pub orders: OrderQueue,
}

impl View for PriceLevel {
    type V = LevelV;

    open spec fn view(&self) -> LevelV {
        LevelV { price: self.price, orders: self.orders@ }
    }
}

impl PriceLevel {
    pub fn new(price: u64) -> (r: PriceLevel)
        ensures
            r@.price == price,
            r@.orders =~= Seq::<Order>::empty(),
            r.orders.well_formed(),
    {
        PriceLevel { price, orders: OrderQueue::new() }
    }

    pub fn add_order(&mut self, order: Order)
        requires
            old(self).orders.well_formed(),
            order.quantity >= 1,
            !has_id(old(self)@.orders, order.id),
        ensures
            final(self).orders.well_formed(),
            final(self)@.price == old(self)@.price,
            final(self)@.orders == old(self)@.orders.push(order),
    {
        self.orders.add_order(order);
    }

    pub fn remove_order(&mut self, order_id: u64) -> (r: Option<Order>)
        requires
            old(self).orders.well_formed(),
        ensures
            final(self).orders.well_formed(),
            final(self)@.price == old(self)@.price,
            has_id(old(self)@.orders, order_id) ==> {
                &&& r == Some(old(self)@.orders[idx_of(old(self)@.orders, order_id)])
                &&& final(self)@.orders == old(self)@.orders.remove(
                    idx_of(old(self)@.orders, order_id),
                )
            },
            !has_id(old(self)@.orders, order_id) ==> r == None::<Order> && *final(self) == *old(
                self,
            ),
    {
        self.orders.remove_order(order_id)
    }

    pub fn update_order(&mut self, order_id: u64, new_quantity: u64) -> (r: bool)
        requires
            old(self).orders.well_formed(),
            new_quantity >= 1,
        ensures
            final(self).orders.well_formed(),
            final(self)@.price == old(self)@.price,
            r == has_id(old(self)@.orders, order_id),
            has_id(old(self)@.orders, order_id) ==> {
                let k = idx_of(old(self)@.orders, order_id);
                final(self)@.orders == old(self)@.orders.update(
                    k,
                    Order { quantity: new_quantity, ..old(self)@.orders[k] },
                )
            },
            !has_id(old(self)@.orders, order_id) ==> *final(self) == *old(self),
    {
        self.orders.update_order(order_id, new_quantity)
    }

    pub fn get_total_quantity(&self) -> (r: u128)
        ensures
            r == self.orders.total_quantity,
    {
        self.orders.get_total_quantity()
    }

    pub fn is_empty(&self) -> (r: bool)
        ensures
            r == (self@.orders.len() == 0),
    {
        self.orders.is_empty()
    }

    pub fn len(&self) -> (r: usize)
        ensures
            r == self@.orders.len(),
    {
        self.orders.len()
    }

    pub fn get_first_order(&self) -> (r: Option<&Order>)
        ensures
            match r {
                Some(o) => self@.orders.len() > 0 && *o == self@.orders[0],
                None => self@.orders.len() == 0,
            },
    {
        self.orders.get_first_order()
    }

    pub fn remove_first_order(&mut self) -> (r: Option<Order>)
        requires
            old(self).orders.well_formed(),
        ensures
            final(self).orders.well_formed(),
            final(self)@.price == old(self)@.price,
            old(self)@.orders.len() > 0 ==> r == Some(old(self)@.orders[0]) && final(self)@.orders
                == old(self)@.orders.drop_first(),
            old(self)@.orders.len() == 0 ==> r == None::<Order> && *final(self) == *old(self),
    {
        self.orders.remove_first_order()
    }
}

} // verus!
