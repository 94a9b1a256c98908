//! The reference book: the obvious implementation, kept to be right rather than
//! fast.
//!
//! Orders in a hash map, and per side a list of price levels in ascending order,
//! each with its queue of ids.

use crate::message::Side;
use crate::model::{
    add_outcome, ahead, delete_outcome, law_added_wf, law_reduced_keeps_priority, law_removed_wf,
    lemma_index_of, lemma_levels_are, queue_quantity, reduce_outcome, replace_outcome, take_depth,
    without, BookError, BookModel, Fault, Level, RestingOrder,
};
use std::collections::HashMap;
use vstd::prelude::*;
use vstd::wrapping::u128_specs::wrapping_add;

verus! {

broadcast use vstd::std_specs::hash::group_hash_axioms;

/// A price and the ids that queue there, first to arrive first.
#[derive(Debug)]
pub struct PriceLevel {
    pub price: i64,
    pub queue: Vec<u64>,
}

/// Prices ascend.
pub open spec fn ascending(levels: Seq<PriceLevel>) -> bool {
    forall|i: int, j: int|
        0 <= i < j < levels.len() ==> (#[trigger] levels[i]).price < (#[trigger] levels[j]).price
}

pub open spec fn is_level(levels: Seq<PriceLevel>, price: i64, i: int) -> bool {
    0 <= i < levels.len() && levels[i].price == price
}

/// The queue at `price`, empty where there is no such level.
pub open spec fn queue_in(levels: Seq<PriceLevel>, price: i64) -> Seq<u64> {
    if exists|i: int| is_level(levels, price, i) {
        levels[choose|i: int| is_level(levels, price, i)].queue@
    } else {
        Seq::empty()
    }
}

proof fn lemma_queue_in(levels: Seq<PriceLevel>, i: int)
    requires
        ascending(levels),
        0 <= i < levels.len(),
    ensures
        queue_in(levels, levels[i].price) == levels[i].queue@,
{
    let price = levels[i].price;
    assert(is_level(levels, price, i));
    let k = choose|k: int| is_level(levels, price, k);
    if k < i {
        assert(levels[k].price < levels[i].price);
    }
    if i < k {
        assert(levels[i].price < levels[k].price);
    }
}

/// Changing the queue of one level changes that queue only.
proof fn lemma_queue_changed(a: Seq<PriceLevel>, b: Seq<PriceLevel>, i: int)
    requires
        ascending(a),
        0 <= i < a.len(),
        b.len() == a.len(),
        forall|k: int| 0 <= k < a.len() ==> (#[trigger] b[k]).price == a[k].price,
        forall|k: int| 0 <= k < a.len() && k != i ==> (#[trigger] b[k]) == a[k],
    ensures
        ascending(b),
        forall|p: i64| #[trigger]
            queue_in(b, p) == (if p == a[i].price {
                b[i].queue@
            } else {
                queue_in(a, p)
            }),
{
    assert(ascending(b)) by {
        assert forall|k: int, l: int| 0 <= k < l < b.len() implies (#[trigger] b[k]).price < (
        #[trigger] b[l]).price by {
            assert(a[k].price < a[l].price);
        }
    }
    assert forall|p: i64| #[trigger]
        queue_in(b, p) == (if p == a[i].price {
            b[i].queue@
        } else {
            queue_in(a, p)
        }) by {
        if exists|k: int| is_level(b, p, k) {
            let k = choose|k: int| is_level(b, p, k);
            assert(is_level(a, p, k));
            lemma_queue_in(a, k);
            lemma_queue_in(b, k);
            if k < i {
                assert(a[k].price < a[i].price);
            } else if i < k {
                assert(a[i].price < a[k].price);
            }
        } else if exists|k: int| is_level(a, p, k) {
            let k = choose|k: int| is_level(a, p, k);
            assert(is_level(b, p, k));
        } else {
            assert(is_level(a, a[i].price, i));
        }
    }
}

/// Inserting a level adds its queue.
proof fn lemma_level_inserted(a: Seq<PriceLevel>, b: Seq<PriceLevel>, i: int, level: PriceLevel)
    requires
        ascending(a),
        0 <= i <= a.len(),
        b == a.insert(i, level),
        forall|k: int| 0 <= k < i ==> (#[trigger] a[k]).price < level.price,
        forall|k: int| i <= k < a.len() ==> level.price < (#[trigger] a[k]).price,
    ensures
        ascending(b),
        forall|p: i64| #[trigger]
            queue_in(b, p) == (if p == level.price {
                level.queue@
            } else {
                queue_in(a, p)
            }),
        queue_in(a, level.price) == Seq::<u64>::empty(),
{
    assert(ascending(b)) by {
        assert forall|k: int, l: int| 0 <= k < l < b.len() implies (#[trigger] b[k]).price < (
        #[trigger] b[l]).price by {
            let k0 = if k < i { k } else { k - 1 };
            let l0 = if l < i { l } else { l - 1 };
            if k != i && l != i {
                assert(a[k0].price < a[l0].price);
            }
        }
    }
    if exists|k: int| is_level(a, level.price, k) {
        let k = choose|k: int| is_level(a, level.price, k);
        assert(a[k].price == level.price);
    }
    assert forall|p: i64| #[trigger]
        queue_in(b, p) == (if p == level.price {
            level.queue@
        } else {
            queue_in(a, p)
        }) by {
        if p == level.price {
            assert(b[i] == level);
            lemma_queue_in(b, i);
        } else if exists|k: int| is_level(a, p, k) {
            let k = choose|k: int| is_level(a, p, k);
            let l = if k < i { k } else { k + 1 };
            assert(b[l] == a[k]);
            lemma_queue_in(a, k);
            lemma_queue_in(b, l);
        } else if exists|l: int| is_level(b, p, l) {
            let l = choose|l: int| is_level(b, p, l);
            let k = if l < i { l } else { l - 1 };
            assert(b[l] == a[k]);
            assert(is_level(a, p, k));
        }
    }
}

/// Removing a level removes its queue.
proof fn lemma_level_removed(a: Seq<PriceLevel>, b: Seq<PriceLevel>, i: int)
    requires
        ascending(a),
        0 <= i < a.len(),
        b == a.remove(i),
    ensures
        ascending(b),
        forall|p: i64| #[trigger]
            queue_in(b, p) == (if p == a[i].price {
                Seq::<u64>::empty()
            } else {
                queue_in(a, p)
            }),
{
    assert(ascending(b)) by {
        assert forall|k: int, l: int| 0 <= k < l < b.len() implies (#[trigger] b[k]).price < (
        #[trigger] b[l]).price by {
            let k0 = if k < i { k } else { k + 1 };
            let l0 = if l < i { l } else { l + 1 };
            assert(a[k0].price < a[l0].price);
        }
    }
    assert forall|p: i64| #[trigger]
        queue_in(b, p) == (if p == a[i].price {
            Seq::<u64>::empty()
        } else {
            queue_in(a, p)
        }) by {
        if exists|l: int| is_level(b, p, l) {
            let l = choose|l: int| is_level(b, p, l);
            let k = if l < i { l } else { l + 1 };
            assert(b[l] == a[k]);
            lemma_queue_in(a, k);
            lemma_queue_in(b, l);
            if k < i {
                assert(a[k].price < a[i].price);
            } else {
                assert(a[i].price < a[k].price);
            }
        } else if p != a[i].price && exists|k: int| is_level(a, p, k) {
            let k = choose|k: int| is_level(a, p, k);
            let l = if k < i { k } else { k - 1 };
            assert(b[l] == a[k]);
            assert(is_level(b, p, l));
        }
    }
}

/// Where `price` is among the levels, or where it would go.
fn find_level(levels: &Vec<PriceLevel>, price: i64) -> (r: Result<usize, usize>)
    requires
        ascending(levels@),
    ensures
        r matches Ok(i) ==> i < levels@.len() && levels@[i as int].price == price,
        r matches Err(i) ==> {
            &&& i <= levels@.len()
            &&& forall|k: int| 0 <= k < i ==> (#[trigger] levels@[k]).price < price
            &&& forall|k: int| i <= k < levels@.len() ==> price < (#[trigger] levels@[k]).price
        },
{
    let mut lo: usize = 0;
    let mut hi: usize = levels.len();
    while lo < hi
        invariant
            ascending(levels@),
            lo <= hi <= levels@.len(),
            forall|k: int| 0 <= k < lo ==> (#[trigger] levels@[k]).price < price,
            forall|k: int| hi <= k < levels@.len() ==> price < (#[trigger] levels@[k]).price,
        decreases hi - lo,
    {
        let mid: usize = lo + (hi - lo) / 2;
        let p: i64 = levels[mid].price;
        if p == price {
            return Ok(mid);
        }
        if p < price {
            lo = mid + 1;
        } else {
            hi = mid;
        }
    }
    Err(lo)
}

/// Appends `order_id` to the queue at `price`, opening the level if need be.
fn append(levels: &mut Vec<PriceLevel>, price: i64, order_id: u64)
    requires
        ascending(old(levels)@),
        all_filled(old(levels)@),
    ensures
        ascending(final(levels)@),
        all_filled(final(levels)@),
        forall|p: i64| #[trigger]
            queue_in(final(levels)@, p) == (if p == price {
                queue_in(old(levels)@, p).push(order_id)
            } else {
                queue_in(old(levels)@, p)
            }),
{
    let ghost a = levels@;
    match find_level(levels, price) {
        Ok(i) => {
            proof {
                lemma_queue_in(a, i as int);
            }
            levels[i].queue.push(order_id);
            proof {
                lemma_queue_changed(a, levels@, i as int);
            }
        },
        Err(i) => {
            let mut queue: Vec<u64> = Vec::new();
            queue.push(order_id);
            let level = PriceLevel { price, queue };
            levels.insert(i, level);
            proof {
                lemma_level_inserted(a, levels@, i as int, level);
                assert(Seq::<u64>::empty().push(order_id) =~= level.queue@);
                assert forall|k: int| 0 <= k < levels@.len() implies (
                #[trigger] levels@[k]).queue@.len() > 0 by {
                    if k < i {
                        assert(levels@[k] == a[k]);
                    } else if k > i {
                        assert(levels@[k] == a[k - 1]);
                    }
                }
            }
        },
    }
}

/// No level is left empty.
pub open spec fn all_filled(levels: Seq<PriceLevel>) -> bool {
    forall|k: int| 0 <= k < levels.len() ==> (#[trigger] levels[k]).queue@.len() > 0
}

/// Takes `order_id` out of the queue at `price`, closing the level if it was the
/// last.
fn unlink(levels: &mut Vec<PriceLevel>, price: i64, order_id: u64)
    requires
        ascending(old(levels)@),
        all_filled(old(levels)@),
        queue_in(old(levels)@, price).contains(order_id),
        queue_in(old(levels)@, price).no_duplicates(),
    ensures
        ascending(final(levels)@),
        all_filled(final(levels)@),
        forall|p: i64| #[trigger]
            queue_in(final(levels)@, p) == (if p == price {
                without(queue_in(old(levels)@, p), order_id)
            } else {
                queue_in(old(levels)@, p)
            }),
{
    let ghost a = levels@;
    match find_level(levels, price) {
        Err(_) => {
            proof {
                if exists|k: int| is_level(a, price, k) {
                    let k = choose|k: int| is_level(a, price, k);
                    assert(a[k].price == price);
                }
                assert(false);
            }
        },
        Ok(i) => {
            proof {
                lemma_queue_in(a, i as int);
            }
            let ghost q = a[i as int].queue@;
            let len: usize = levels[i].queue.len();
            let mut pos: usize = 0;
            while levels[i].queue[pos] != order_id
                invariant
                    len == q.len(),
                    levels@ == a,
                    i < a.len(),
                    q == a[i as int].queue@,
                    pos < q.len(),
                    q.contains(order_id),
                    forall|k: int| 0 <= k < pos ==> q[k] != order_id,
                decreases q.len() - pos,
            {
                pos = pos + 1;
                proof {
                    let k = choose|k: int| 0 <= k < q.len() && q[k] == order_id;
                }
            }
            proof {
                lemma_index_of(q, pos as int);
            }
            levels[i].queue.remove(pos);
            let ghost b = levels@;
            proof {
                lemma_queue_changed(a, b, i as int);
            }
            if levels[i].queue.len() == 0 {
                levels.remove(i);
                proof {
                    lemma_level_removed(b, levels@, i as int);
                    assert(q.remove(pos as int) =~= Seq::<u64>::empty());
                    assert forall|k: int| 0 <= k < levels@.len() implies (
                    #[trigger] levels@[k]).queue@.len() > 0 by {
                        let k0 = if k < i { k } else { k + 1 };
                        assert(levels@[k] == b[k0]);
                        assert(b[k0] == a[k0]);
                    }
                }
            }
        },
    }
}

#[derive(Debug)]
pub struct ReferenceBook {
    orders: HashMap<u64, RestingOrder>,
    bids: Vec<PriceLevel>,
    asks: Vec<PriceLevel>,
}

impl View for ReferenceBook {
    type V = BookModel;

    closed spec fn view(&self) -> BookModel {
        BookModel {
            orders: self.orders@,
            queues: |side: Side, price: i64| queue_in(self.side_levels(side), price),
        }
    }
}

impl ReferenceBook {
    spec fn side_levels(&self, side: Side) -> Seq<PriceLevel> {
        match side {
            Side::Bid => self.bids@,
            Side::Ask => self.asks@,
        }
    }

    pub closed spec fn wf(self) -> bool {
        &&& ascending(self.bids@)
        &&& ascending(self.asks@)
        &&& all_filled(self.bids@)
        &&& all_filled(self.asks@)
        &&& self@.wf()
    }

    /// A book's model is well-formed.
    pub proof fn lemma_model_wf(&self)
        requires
            self.wf(),
        ensures
            self@.wf(),
    {
    }

    /// An empty book.
    pub fn new() -> (r: Self)
        ensures
            r.wf(),
            r@ == BookModel::empty(),
    {
        let r = ReferenceBook { orders: HashMap::new(), bids: Vec::new(), asks: Vec::new() };
        proof {
            assert forall|side: Side, p: i64| #[trigger]
                queue_in(r.side_levels(side), p) == Seq::<u64>::empty() by {}
            assert(r@.queues =~= BookModel::empty().queues);
            assert(r@.orders =~= Map::<u64, RestingOrder>::empty());
        }
        r
    }

    /// Rests an order behind everything at its price.
    pub fn add(&mut self, order_id: u64, side: Side, price: i64, quantity: u32) -> (r: Result<
        (),
        BookError,
    >)
        requires
            old(self).wf(),
        ensures
            final(self).wf(),
            r == add_outcome(old(self)@, None, order_id, quantity),
            final(self)@ == (if r is Ok {
                old(self)@.added(RestingOrder { order_id, price, quantity, side })
            } else {
                old(self)@
            }),
    {
        if quantity == 0 {
            return Err(BookError::ZeroQuantity(order_id));
        }
        if self.orders.contains_key(&order_id) {
            return Err(BookError::DuplicateOrderId(order_id));
        }
        let order = RestingOrder { order_id, price, quantity, side };
        self.orders.insert(order_id, order);
        match side {
            Side::Bid => append(&mut self.bids, price, order_id),
            Side::Ask => append(&mut self.asks, price, order_id),
        }
        proof {
            let m = old(self)@.added(order);
            law_added_wf(old(self)@, order);
            assert forall|s: Side, p: i64| #[trigger]
                queue_in(self.side_levels(s), p) == (m.queues)(s, p) by {
                assert(old(self)@.queue(s, p) == queue_in(old(self).side_levels(s), p));
            }
            assert(self@.queues =~= m.queues);
            assert(self@.orders =~= m.orders);
        }
        Ok(())
    }

    /// Takes an order off the book.
    pub fn delete(&mut self, order_id: u64) -> (r: Result<RestingOrder, BookError>)
        requires
            old(self).wf(),
        ensures
            final(self).wf(),
            r == delete_outcome(old(self)@, order_id),
            final(self)@ == (if r is Ok {
                old(self)@.removed(order_id)
            } else {
                old(self)@
            }),
    {
        let order: RestingOrder = match self.orders.get(&order_id) {
            None => return Err(BookError::UnknownOrderId(order_id)),
            Some(order) => *order,
        };
        self.orders.remove(&order_id);
        proof {
            assert(old(self)@.has(order_id));
            assert(old(self)@.queue(order.side, order.price) == queue_in(
                old(self).side_levels(order.side),
                order.price,
            ));
        }
        match order.side {
            Side::Bid => unlink(&mut self.bids, order.price, order_id),
            Side::Ask => unlink(&mut self.asks, order.price, order_id),
        }
        proof {
            let m = old(self)@.removed(order_id);
            law_removed_wf(old(self)@, order_id);
            assert forall|s: Side, p: i64| #[trigger]
                queue_in(self.side_levels(s), p) == (m.queues)(s, p) by {
                assert(old(self)@.queue(s, p) == queue_in(old(self).side_levels(s), p));
            }
            assert(self@.queues =~= m.queues);
            assert(self@.orders =~= m.orders);
        }
        Ok(order)
    }

    /// Makes an order smaller where it stands.
    pub fn reduce(&mut self, order_id: u64, new_quantity: u32) -> (r: Result<(), BookError>)
        requires
            old(self).wf(),
        ensures
            final(self).wf(),
            r == reduce_outcome(old(self)@, order_id, new_quantity),
            final(self)@ == (if r is Ok {
                old(self)@.reduced(order_id, new_quantity)
            } else {
                old(self)@
            }),
    {
        let order: RestingOrder = match self.orders.get(&order_id) {
            None => return Err(BookError::UnknownOrderId(order_id)),
            Some(order) => *order,
        };
        assert(old(self)@.has(order_id));
        if new_quantity == 0 {
            return Err(BookError::ZeroQuantity(order_id));
        }
        if new_quantity > order.quantity {
            return Err(
                BookError::ReduceWouldIncrease { order_id, from: order.quantity, to: new_quantity },
            );
        }
        self.orders.insert(order_id, RestingOrder { quantity: new_quantity, ..order });
        proof {
            law_reduced_keeps_priority(old(self)@, order_id, new_quantity);
            let m = old(self)@.reduced(order_id, new_quantity);
            assert forall|s: Side, p: i64| #[trigger]
                queue_in(self.side_levels(s), p) == (m.queues)(s, p) by {}
            assert(self@.queues =~= m.queues);
            assert(self@.orders =~= m.orders);
        }
        Ok(())
    }

    /// Moves an order to a new price and quantity, behind everything there.
    pub fn replace(&mut self, order_id: u64, new_price: i64, new_quantity: u32) -> (r: Result<
        (),
        BookError,
    >)
        requires
            old(self).wf(),
        ensures
            final(self).wf(),
            r == replace_outcome(old(self)@, None, order_id, new_quantity),
            final(self)@ == (if r is Ok {
                old(self)@.replaced(order_id, new_price, new_quantity)
            } else {
                old(self)@
            }),
    {
        if new_quantity == 0 {
            return Err(BookError::ZeroQuantity(order_id));
        }
        let order: RestingOrder = match self.orders.get(&order_id) {
            None => return Err(BookError::UnknownOrderId(order_id)),
            Some(order) => *order,
        };
        proof {
            assert(old(self)@.has(order_id));
            assert(old(self)@.queue(order.side, order.price) == queue_in(
                old(self).side_levels(order.side),
                order.price,
            ));
        }
        match order.side {
            Side::Bid => {
                unlink(&mut self.bids, order.price, order_id);
                append(&mut self.bids, new_price, order_id);
            },
            Side::Ask => {
                unlink(&mut self.asks, order.price, order_id);
                append(&mut self.asks, new_price, order_id);
            },
        }
        let updated = RestingOrder { price: new_price, quantity: new_quantity, ..order };
        self.orders.insert(order_id, updated);
        proof {
            let m = old(self)@.replaced(order_id, new_price, new_quantity);
            crate::model::law_replaced_loses_priority(
                old(self)@,
                order_id,
                new_price,
                new_quantity,
            );
            assert forall|s: Side, p: i64| #[trigger]
                queue_in(self.side_levels(s), p) == (m.queues)(s, p) by {
                assert(old(self)@.queue(s, p) == queue_in(old(self).side_levels(s), p));
            }
            assert(self@.queues =~= m.queues);
            assert(self@.orders =~= m.orders);
        }
        Ok(())
    }

    /// The order of this id, if it rests.
    pub fn get(&self, order_id: u64) -> (r: Option<&RestingOrder>)
        ensures
            r is Some <==> self@.has(order_id),
            r matches Some(o) ==> *o == self@.orders[order_id],
    {
        self.orders.get(&order_id)
    }

    /// How many orders rest.
    pub fn len(&self) -> (r: usize)
        ensures
            r == self@.len(),
    {
        self.orders.len()
    }

    pub fn is_empty(&self) -> (r: bool)
        ensures
            r == (self@.len() == 0),
    {
        self.orders.len() == 0
    }

    /// Empties the book.
    pub fn clear(&mut self)
        ensures
            final(self).wf(),
            final(self)@ == BookModel::empty(),
    {
        self.orders.clear();
        self.bids.clear();
        self.asks.clear();
        proof {
            assert forall|side: Side, p: i64| #[trigger]
                queue_in(self.side_levels(side), p) == Seq::<u64>::empty() by {}
            assert(self@.queues =~= BookModel::empty().queues);
            assert(self@.orders =~= Map::<u64, RestingOrder>::empty());
        }
    }

    /// The index of the `k`th best level of a side of `n`.
    spec fn nth(side: Side, n: int, k: int) -> int {
        match side {
            Side::Bid => n - 1 - k,
            Side::Ask => k,
        }
    }

    /// The first `k` levels of a side, best first.
    spec fn first_levels(&self, side: Side, k: int) -> Seq<Level> {
        Seq::new(
            k as nat,
            |j: int|
                self@.level_at(
                    side,
                    self.side_levels(side)[Self::nth(
                        side,
                        self.side_levels(side).len() as int,
                        j,
                    )].price,
                ),
        )
    }

    /// All of them are the levels of the side.
    proof fn lemma_levels(&self, side: Side)
        requires
            self.wf(),
        ensures
            self@.levels(side) == self.first_levels(side, self.side_levels(side).len() as int),
    {
        let ls = self.side_levels(side);
        let n = ls.len() as int;
        let s = self.first_levels(side, n);
        assert(ascending(ls));
        assert(all_filled(ls));
        assert forall|i: int| 0 <= i < s.len() implies self@.queue(side, (
        #[trigger] s[i]).price).len() > 0 && s[i] == self@.level_at(side, s[i].price) by {
            let k = Self::nth(side, n, i);
            lemma_queue_in(ls, k);
            assert(self@.queue(side, ls[k].price) == ls[k].queue@);
        }
        assert forall|i: int, j: int| 0 <= i < j < s.len() implies ahead(
            side,
            (#[trigger] s[i]).price as int,
            (#[trigger] s[j]).price as int,
        ) by {
            let a = Self::nth(side, n, i);
            let b = Self::nth(side, n, j);
            if a < b {
                assert(ls[a].price < ls[b].price);
            } else {
                assert(ls[b].price < ls[a].price);
            }
        }
        assert forall|p: i64|
            (#[trigger] self@.queue(side, p)).len() > 0 implies exists|i: int|
            0 <= i < s.len() && (#[trigger] s[i]).price == p by {
            assert(self@.queue(side, p) == queue_in(ls, p));
            let k = choose|k: int| is_level(ls, p, k);
            assert(is_level(ls, p, k));
            let i = Self::nth(side, n, k);
            assert(Self::nth(side, n, i) == k);
            assert(s[i].price == p);
        }
        lemma_levels_are(self@, side, s);
    }

    /// The best price of `side` and the id of the order that trades first there.
    pub fn front(&self, side: Side) -> (r: Option<(i64, u64)>)
        requires
            self.wf(),
        ensures
            r == self@.front(side),
    {
        proof {
            self.lemma_levels(side);
        }
        let levels: &Vec<PriceLevel> = match side {
            Side::Bid => &self.bids,
            Side::Ask => &self.asks,
        };
        if levels.len() == 0 {
            return None;
        }
        let i: usize = match side {
            Side::Bid => levels.len() - 1,
            Side::Ask => 0,
        };
        proof {
            lemma_queue_in(levels@, i as int);
            assert(self@.levels(side)[0].price == levels@[i as int].price);
            assert(self@.queue(side, levels@[i as int].price) == levels@[i as int].queue@);
        }
        Some((levels[i].price, levels[i].queue[0]))
    }

    /// The levels of `side`, best price first, at most `depth` of them where `depth`
    /// is not zero.
    pub fn levels(&self, side: Side, depth: usize) -> (out: Vec<Level>)
        requires
            self.wf(),
            self@.len() <= u32::MAX,
        ensures
            out@ == take_depth(self@.levels(side), depth as int),
    {
        proof {
            self.lemma_levels(side);
        }
        let levels: &Vec<PriceLevel> = match side {
            Side::Bid => &self.bids,
            Side::Ask => &self.asks,
        };
        let n: usize = levels.len();
        let mut out: Vec<Level> = Vec::new();
        let mut k: usize = 0;
        while k < n
            invariant
                self.wf(),
                self@.len() <= u32::MAX,
                levels@ == self.side_levels(side),
                n == levels@.len(),
                k <= n,
                out@ == self.first_levels(side, k as int),
                depth != 0 ==> k <= depth,
                self@.levels(side) == self.first_levels(side, n as int),
            decreases n - k,
        {
            if depth != 0 && out.len() == depth {
                proof {
                    assert(self.first_levels(side, n as int).take(k as int) =~= self.first_levels(
                        side,
                        k as int,
                    ));
                }
                return out;
            }
            let i: usize = match side {
                Side::Bid => n - 1 - k,
                Side::Ask => k,
            };
            let price: i64 = levels[i].price;
            let ghost q = levels@[i as int].queue@;
            proof {
                lemma_queue_in(levels@, i as int);
                assert(self@.queue(side, price) == q);
                lemma_queue_fits(self@, side, price);
            }
            let mut quantity: u64 = 0;
            let mut j: usize = 0;
            while j < levels[i].queue.len()
                invariant
                    self.wf(),
                    i < levels@.len(),
                    q == levels@[i as int].queue@,
                    self@.queue(side, price) == q,
                    q.len() <= u32::MAX,
                    j <= q.len(),
                    quantity == queue_quantity(self.orders@, q.take(j as int)),
                    quantity <= j * 0xffff_ffff,
                decreases q.len() - j,
            {
                let id: u64 = levels[i].queue[j];
                proof {
                    assert(self@.has(self@.queue(side, price)[j as int]));
                    assert(q.take(j as int + 1).drop_last() =~= q.take(j as int));
                    assert(j * 0xffff_ffff + 0xffff_ffff <= u64::MAX) by (nonlinear_arith)
                        requires
                            j < 0xffff_ffff,
                    ;
                }
                match self.orders.get(&id) {
                    Some(order) => {
                        quantity = quantity + order.quantity as u64;
                    },
                    None => {
                        assert(false);
                    },
                }
                j = j + 1;
            }
            assert(q.take(j as int) =~= q);
            let ghost before = out@;
            out.push(Level { price, quantity, order_count: levels[i].queue.len() as u32 });
            proof {
                assert(Self::nth(side, n as int, k as int) == i);
                assert(out@[k as int] == self@.level_at(side, price));
                assert(out@ =~= self.first_levels(side, k as int + 1));
            }
            k = k + 1;
        }
        out
    }

    /// The best bid level.
    pub fn best_bid(&self) -> (r: Option<Level>)
        requires
            self.wf(),
            self@.len() <= u32::MAX,
        ensures
            r == self@.best(Side::Bid),
    {
        let out = self.levels(Side::Bid, 1);
        if out.len() == 0 {
            None
        } else {
            Some(out[0])
        }
    }

    /// The best ask level.
    pub fn best_ask(&self) -> (r: Option<Level>)
        requires
            self.wf(),
            self@.len() <= u32::MAX,
        ensures
            r == self@.best(Side::Ask),
    {
        let out = self.levels(Side::Ask, 1);
        if out.len() == 0 {
            None
        } else {
            Some(out[0])
        }
    }

    /// The orders of `side`, best price first and first to arrive first.
    pub fn orders_in_queue_order(&self, side: Side) -> (out: Vec<RestingOrder>)
        requires
            self.wf(),
        ensures
            out@ == self@.in_priority(side),
    {
        proof {
            self.lemma_levels(side);
        }
        let levels: &Vec<PriceLevel> = match side {
            Side::Bid => &self.bids,
            Side::Ask => &self.asks,
        };
        let n: usize = levels.len();
        let mut out: Vec<RestingOrder> = Vec::new();
        let mut k: usize = 0;
        while k < n
            invariant
                self.wf(),
                levels@ == self.side_levels(side),
                n == levels@.len(),
                k <= n,
                out@ == self@.orders_over(side, self.first_levels(side, k as int)),
                self@.levels(side) == self.first_levels(side, n as int),
            decreases n - k,
        {
            let i: usize = match side {
                Side::Bid => n - 1 - k,
                Side::Ask => k,
            };
            let price: i64 = levels[i].price;
            let ghost q = levels@[i as int].queue@;
            let ghost before = out@;
            let ghost here = self@.orders_at(side, price);
            proof {
                lemma_queue_in(levels@, i as int);
                assert(self@.queue(side, price) == q);
                assert(before + here.take(0) =~= before);
            }
            let mut j: usize = 0;
            while j < levels[i].queue.len()
                invariant
                    self.wf(),
                    i < levels@.len(),
                    q == levels@[i as int].queue@,
                    self@.queue(side, price) == q,
                    here == self@.orders_at(side, price),
                    j <= q.len(),
                    out@ == before + here.take(j as int),
                decreases q.len() - j,
            {
                let id: u64 = levels[i].queue[j];
                assert(self@.has(self@.queue(side, price)[j as int]));
                match self.orders.get(&id) {
                    Some(order) => {
                        out.push(*order);
                    },
                    None => {
                        assert(false);
                    },
                }
                proof {
                    assert(here.take(j as int + 1) =~= here.take(j as int).push(here[j as int]));
                    assert(out@ =~= before + here.take(j as int + 1));
                }
                j = j + 1;
            }
            proof {
                assert(here.take(j as int) =~= here);
                let a = self.first_levels(side, k as int);
                let b = self.first_levels(side, k as int + 1);
                assert(Self::nth(side, n as int, k as int) == i);
                assert(b.drop_last() =~= a);
                assert(b.last().price == price);
            }
            k = k + 1;
        }
        out
    }
}

/// A queue is no longer than the book.
proof fn lemma_queue_fits(m: BookModel, side: Side, price: i64)
    requires
        m.wf(),
    ensures
        m.queue(side, price).len() <= m.len(),
{
    let q = m.queue(side, price);
    assert(q.no_duplicates());
    q.unique_seq_to_set();
    assert(q.to_set().subset_of(m.orders.dom())) by {
        assert forall|id: u64| q.to_set().contains(id) implies m.orders.dom().contains(id) by {
            let i = choose|i: int| 0 <= i < q.len() && q[i] == id;
            assert(m.has(m.queue(side, price)[i]));
        }
    }
    vstd::set_lib::lemma_len_subset(q.to_set(), m.orders.dom());
}

/// The order of `id` is where a level of `side` at `price` says it is.
spec fn id_filed(orders: Map<u64, RestingOrder>, side: Side, price: i64, id: u64) -> bool {
    &&& orders.dom().contains(id)
    &&& orders[id].price == price
    &&& orders[id].side == side
    &&& orders[id].quantity > 0
}

spec fn level_filed(orders: Map<u64, RestingOrder>, side: Side, level: PriceLevel) -> bool {
    &&& level.queue@.len() > 0
    &&& forall|i: int|
        0 <= i < level.queue@.len() ==> id_filed(
            orders,
            side,
            level.price,
            #[trigger] level.queue@[i],
        )
}

/// How many ids the first `k` levels hold.
spec fn ids_filed(levels: Seq<PriceLevel>, k: int) -> int
    decreases k,
{
    if k <= 0 {
        0
    } else {
        ids_filed(levels, k - 1) + levels[k - 1].queue@.len()
    }
}

/// What is wrong with an id on a level.
spec fn id_fault(orders: Map<u64, RestingOrder>, side: Side, price: i64, id: u64) -> Option<Fault> {
    if !orders.dom().contains(id) {
        Some(Fault::NotInMap { order_id: id })
    } else if orders[id].price != price {
        Some(Fault::WrongPrice { order_id: id, filed_at: price, price: orders[id].price })
    } else if orders[id].side != side {
        Some(Fault::WrongSide { order_id: id })
    } else if orders[id].quantity == 0 {
        Some(Fault::RestsEmpty { order_id: id })
    } else {
        None
    }
}

/// What is wrong with the first id of a queue, from `i` on, that has anything wrong.
spec fn queue_fault(
    orders: Map<u64, RestingOrder>,
    side: Side,
    price: i64,
    q: Seq<u64>,
    i: int,
) -> Option<Fault>
    decreases q.len() - i,
{
    if i >= q.len() {
        None
    } else if id_fault(orders, side, price, q[i]) is Some {
        id_fault(orders, side, price, q[i])
    } else {
        queue_fault(orders, side, price, q, i + 1)
    }
}

/// What is wrong with the first level, from `k` on, that has anything wrong.
spec fn levels_fault(
    orders: Map<u64, RestingOrder>,
    side: Side,
    levels: Seq<PriceLevel>,
    k: int,
) -> Option<Fault>
    decreases levels.len() - k,
{
    if k >= levels.len() {
        None
    } else if levels[k].queue@.len() == 0 {
        Some(Fault::EmptyLevel { price: levels[k].price })
    } else if queue_fault(orders, side, levels[k].price, levels[k].queue@, 0) is Some {
        queue_fault(orders, side, levels[k].price, levels[k].queue@, 0)
    } else {
        levels_fault(orders, side, levels, k + 1)
    }
}

proof fn lemma_queue_passes(
    orders: Map<u64, RestingOrder>,
    side: Side,
    level: PriceLevel,
    i: int,
)
    requires
        level_filed(orders, side, level),
        0 <= i <= level.queue@.len(),
    ensures
        queue_fault(orders, side, level.price, level.queue@, i) is None,
    decreases level.queue@.len() - i,
{
    if i < level.queue@.len() {
        assert(id_filed(orders, side, level.price, level.queue@[i]));
        lemma_queue_passes(orders, side, level, i + 1);
    }
}

/// An audit finds nothing on levels that are as they should be.
proof fn lemma_levels_pass(
    orders: Map<u64, RestingOrder>,
    side: Side,
    levels: Seq<PriceLevel>,
    k: int,
)
    requires
        forall|k: int| 0 <= k < levels.len() ==> level_filed(orders, side, #[trigger] levels[k]),
        0 <= k <= levels.len(),
    ensures
        levels_fault(orders, side, levels, k) is None,
    decreases levels.len() - k,
{
    if k < levels.len() {
        assert(level_filed(orders, side, levels[k]));
        lemma_queue_passes(orders, side, levels[k], 0);
        lemma_levels_pass(orders, side, levels, k + 1);
    }
}

/// Audits the levels of one side, and says how many ids they hold.
fn audit_side(
    orders: &HashMap<u64, RestingOrder>,
    levels: &Vec<PriceLevel>,
    side: Side,
) -> (r: Result<u128, Fault>)
    ensures
        r is Ok <==> forall|k: int|
            0 <= k < levels@.len() ==> level_filed(orders@, side, #[trigger] levels@[k]),
        r matches Ok(n) ==> n == ids_filed(levels@, levels@.len() as int) && n <= levels@.len()
            * 0xffff_ffff_ffff_ffff,
        r is Ok <==> levels_fault(orders@, side, levels@, 0) is None,
        r matches Err(f) ==> levels_fault(orders@, side, levels@, 0) == Some(f),
{
    let mut k: usize = 0;
    let mut counted: u128 = 0;
    while k < levels.len()
        invariant
            k <= levels@.len(),
            counted == ids_filed(levels@, k as int),
            counted <= k * 0xffff_ffff_ffff_ffff,
            levels_fault(orders@, side, levels@, k as int) == levels_fault(
                orders@,
                side,
                levels@,
                0,
            ),
            forall|j: int| 0 <= j < k ==> level_filed(orders@, side, #[trigger] levels@[j]),
        decreases levels@.len() - k,
    {
        let price: i64 = levels[k].price;
        let n: usize = levels[k].queue.len();
        if n == 0 {
            assert(!level_filed(orders@, side, levels@[k as int]));
            return Err(Fault::EmptyLevel { price });
        }
        let mut i: usize = 0;
        while i < n
            invariant
                k < levels@.len(),
                n == levels@[k as int].queue@.len(),
                price == levels@[k as int].price,
                i <= n,
                queue_fault(orders@, side, price, levels@[k as int].queue@, i as int)
                    == queue_fault(orders@, side, price, levels@[k as int].queue@, 0),
                levels_fault(orders@, side, levels@, k as int) == levels_fault(
                    orders@,
                    side,
                    levels@,
                    0,
                ),
                forall|j: int|
                    0 <= j < i ==> id_filed(
                        orders@,
                        side,
                        price,
                        #[trigger] levels@[k as int].queue@[j],
                    ),
            decreases n - i,
        {
            let id: u64 = levels[k].queue[i];
            let fault: Option<Fault> = match orders.get(&id) {
                None => Some(Fault::NotInMap { order_id: id }),
                Some(o) => if o.price != price {
                    Some(Fault::WrongPrice { order_id: id, filed_at: price, price: o.price })
                } else if o.side != side {
                    Some(Fault::WrongSide { order_id: id })
                } else if o.quantity == 0 {
                    Some(Fault::RestsEmpty { order_id: id })
                } else {
                    None
                },
            };
            match fault {
                Some(f) => {
                    assert(!id_filed(orders@, side, price, levels@[k as int].queue@[i as int]));
                    assert(!level_filed(orders@, side, levels@[k as int]));
                    return Err(f);
                },
                None => {},
            }
            i = i + 1;
        }
        proof {
            assert(k * 0xffff_ffff_ffff_ffff + 0xffff_ffff_ffff_ffff <= u128::MAX) by (nonlinear_arith)
                requires
                    k <= 0xffff_ffff_ffff_ffff,
            ;
            assert((k + 1) * 0xffff_ffff_ffff_ffff == k * 0xffff_ffff_ffff_ffff + 0xffff_ffff_ffff_ffff) by (nonlinear_arith);
        }
        counted = counted + n as u128;
        k = k + 1;
    }
    Ok(counted)
}

impl ReferenceBook {
    /// Every level holds something, every id on a level belongs there, and every
    /// order is on a level.
    pub closed spec fn filed(&self) -> bool {
        &&& forall|k: int|
            0 <= k < self.bids@.len() ==> level_filed(
                self.orders@,
                Side::Bid,
                #[trigger] self.bids@[k],
            )
        &&& forall|k: int|
            0 <= k < self.asks@.len() ==> level_filed(
                self.orders@,
                Side::Ask,
                #[trigger] self.asks@[k],
            )
        &&& ids_filed(self.bids@, self.bids@.len() as int) + ids_filed(
            self.asks@,
            self.asks@.len() as int,
        ) == self.orders@.len()
    }

    /// The first thing that an audit finds: on the bids, on the asks, or in the count.
    pub closed spec fn first_fault(&self) -> Option<Fault> {
        let on_bids = ids_filed(self.bids@, self.bids@.len() as int);
        let on_asks = ids_filed(self.asks@, self.asks@.len() as int);
        if levels_fault(self.orders@, Side::Bid, self.bids@, 0) is Some {
            levels_fault(self.orders@, Side::Bid, self.bids@, 0)
        } else if levels_fault(self.orders@, Side::Ask, self.asks@, 0) is Some {
            levels_fault(self.orders@, Side::Ask, self.asks@, 0)
        } else if on_bids + on_asks != self.orders@.len() {
            Some(
                Fault::WrongLive {
                    live: self.orders@.len() as usize,
                    on_levels: wrapping_add(on_bids as u128, on_asks as u128),
                },
            )
        } else {
            None
        }
    }

    /// Audits the book. It passes if and only if everything is where it belongs, and
    /// names the first thing that is not.
    pub fn check_invariants(&self) -> (r: Result<(), Fault>)
        ensures
            r is Ok <==> self.filed(),
            r == (match self.first_fault() {
                None => Ok(()),
                Some(fault) => Err(fault),
            }),
    {
        let bids: u128 = match audit_side(&self.orders, &self.bids, Side::Bid) {
            Err(e) => return Err(e),
            Ok(n) => n,
        };
        let asks: u128 = match audit_side(&self.orders, &self.asks, Side::Ask) {
            Err(e) => return Err(e),
            Ok(n) => n,
        };
        let live: usize = self.orders.len();
        let differ: bool = match bids.checked_add(asks) {
            None => true,
            Some(counted) => counted != live as u128,
        };
        if differ {
            return Err(Fault::WrongLive { live, on_levels: bids.wrapping_add(asks) });
        }
        Ok(())
    }

    /// The ids whose price is among the first `k` levels of a side.
    spec fn ids_below(&self, side: Side, k: int) -> Set<u64> {
        Set::new(
            |id: u64|
                self.orders@.dom().contains(id) && self.orders@[id].side == side && exists|i: int|
                    0 <= i < k && (#[trigger] self.side_levels(side)[i]).price
                        == self.orders@[id].price,
        )
    }

    proof fn lemma_ids_counted(&self, side: Side, k: int)
        requires
            self.wf(),
            0 <= k <= self.side_levels(side).len(),
        ensures
            self.ids_below(side, k).finite(),
            self.ids_below(side, k).len() == ids_filed(self.side_levels(side), k),
        decreases k,
    {
        let ls = self.side_levels(side);
        assert(ascending(ls));
        if k <= 0 {
            assert(self.ids_below(side, k) =~= Set::empty());
        } else {
            self.lemma_ids_counted(side, k - 1);
            let price = ls[k - 1].price;
            let q = ls[k - 1].queue@;
            lemma_queue_in(ls, k - 1);
            assert(self@.queue(side, price) == q);
            assert(q.no_duplicates());
            q.unique_seq_to_set();
            let a = self.ids_below(side, k - 1);
            let b = q.to_set();
            let c = self.ids_below(side, k);
            assert forall|id: u64| b.contains(id) implies self@.has(id) && self.orders@[id].side
                == side && self.orders@[id].price == price by {
                let i = choose|i: int| 0 <= i < q.len() && q[i] == id;
                assert(self@.has(self@.queue(side, price)[i]));
            }
            assert(c =~= a.union(b)) by {
                assert forall|id: u64| c.contains(id) implies a.union(b).contains(id) by {
                    let i = choose|i: int|
                        0 <= i < k && (#[trigger] ls[i]).price == self.orders@[id].price;
                    if i == k - 1 {
                        assert(self@.has(id));
                        assert(self@.queue(side, price).contains(id));
                    } else {
                        assert(ls[i].price == self.orders@[id].price);
                    }
                }
                assert forall|id: u64| a.union(b).contains(id) implies c.contains(id) by {
                    if b.contains(id) {
                        assert(ls[k - 1].price == self.orders@[id].price);
                    } else {
                        let i = choose|i: int|
                            0 <= i < k - 1 && (#[trigger] ls[i]).price == self.orders@[id].price;
                        assert(ls[i].price == self.orders@[id].price);
                    }
                }
            }
            assert(a.disjoint(b)) by {
                assert forall|id: u64| !(a.contains(id) && b.contains(id)) by {
                    if a.contains(id) && b.contains(id) {
                        let i = choose|i: int|
                            0 <= i < k - 1 && (#[trigger] ls[i]).price == self.orders@[id].price;
                        assert(ls[i].price < ls[k - 1].price);
                    }
                }
            }
            vstd::set_lib::lemma_set_disjoint_lens(a, b);
        }
    }

    /// A book that the operations made passes its audit.
    pub proof fn law_wf_is_filed(&self)
        requires
            self.wf(),
        ensures
            self.filed(),
            self.first_fault() is None,
    {
        self.lemma_wf_is_filed();
        lemma_levels_pass(self.orders@, Side::Bid, self.bids@, 0);
        lemma_levels_pass(self.orders@, Side::Ask, self.asks@, 0);
    }

    proof fn lemma_wf_is_filed(&self)
        requires
            self.wf(),
        ensures
            self.filed(),
    {
        assert(self.side_levels(Side::Bid) == self.bids@);
        assert(self.side_levels(Side::Ask) == self.asks@);
        assert forall|side: Side, k: int|
            0 <= k < self.side_levels(side).len() implies level_filed(
            self.orders@,
            side,
            #[trigger] self.side_levels(side)[k],
        ) by {
            let ls = self.side_levels(side);
            assert(ascending(ls));
            assert(all_filled(ls));
            lemma_queue_in(ls, k);
            assert(self@.queue(side, ls[k].price) == ls[k].queue@);
            assert forall|i: int| 0 <= i < ls[k].queue@.len() implies id_filed(
                self.orders@,
                side,
                ls[k].price,
                #[trigger] ls[k].queue@[i],
            ) by {
                assert(self@.has(self@.queue(side, ls[k].price)[i]));
            }
        }
        assert forall|k: int| 0 <= k < self.bids@.len() implies level_filed(
            self.orders@,
            Side::Bid,
            #[trigger] self.bids@[k],
        ) by {
            assert(level_filed(self.orders@, Side::Bid, self.side_levels(Side::Bid)[k]));
        }
        assert forall|k: int| 0 <= k < self.asks@.len() implies level_filed(
            self.orders@,
            Side::Ask,
            #[trigger] self.asks@[k],
        ) by {
            assert(level_filed(self.orders@, Side::Ask, self.side_levels(Side::Ask)[k]));
        }
        let nb = self.bids@.len() as int;
        let na = self.asks@.len() as int;
        self.lemma_ids_counted(Side::Bid, nb);
        self.lemma_ids_counted(Side::Ask, na);
        let b = self.ids_below(Side::Bid, nb);
        let a = self.ids_below(Side::Ask, na);
        assert(b.disjoint(a));
        vstd::set_lib::lemma_set_disjoint_lens(b, a);
        assert(b.union(a) =~= self.orders@.dom()) by {
            assert forall|id: u64| self.orders@.dom().contains(id) implies b.union(a).contains(
                id,
            ) by {
                assert(self@.has(id));
                let o = self.orders@[id];
                assert(self@.queue(o.side, o.price) == queue_in(self.side_levels(o.side), o.price));
                let i = choose|i: int| is_level(self.side_levels(o.side), o.price, i);
                assert(is_level(self.side_levels(o.side), o.price, i));
                assert(self.side_levels(o.side)[i].price == o.price);
            }
        }
    }
}

} // verus!
