//! What an order book is, as mathematics.
//!
//! A book is the orders that rest on it and, for each side and price, the queue
//! of their ids in order of arrival. Every book of this library, however it is
//! laid out in memory, is described by this one model.

use crate::message::Side;
use vstd::prelude::*;

verus! {

/// Why a book refused a message.
#[derive(Debug, Clone, Copy, PartialEq, Eq, Structural)]
pub enum BookError {
    DuplicateOrderId(u64),
    UnknownOrderId(u64),
    ReduceWouldIncrease { order_id: u64, from: u32, to: u32 },
    ZeroQuantity(u64),
    PriceOffGrid { order_id: u64, price: i64 },
    PriceOutOfRange { order_id: u64, price: i64 },
    SlabFull { order_id: u64, capacity: usize },
}

/// What an audit of a book can find.
#[derive(Debug, Clone, Copy, PartialEq, Eq, Structural)]
pub enum Fault {
    RecordsOtherSlot { order_id: u64, level: usize, slot: u32 },
    WrongSide { order_id: u64 },
    WrongPrev { order_id: u64, prev: u32, came_from: u32 },
    RestsEmpty { order_id: u64 },
    NotInMap { order_id: u64 },
    Cyclic { level: usize },
    WrongTail { level: usize, tail: u32, ended_at: u32 },
    WrongOrderCount { level: usize, says: u32, holds: u32 },
    WrongQuantity { level: usize, cell_quantity: u64, list_quantity: u64 },
    WrongLevelCount { side: Side, says: u32, holds: u32 },
    WrongLive { live: usize, on_levels: u128 },
    WrongBest { side: Side, cached: Option<usize>, actual: Option<usize> },
    WrongMapEntries { live: usize, entries: usize },
    EmptyLevel { price: i64 },
    WrongPrice { order_id: u64, filed_at: i64, price: i64 },
}

/// An order at rest.
#[derive(Debug, Clone, Copy, PartialEq, Eq, Structural)]
pub struct RestingOrder {
    pub order_id: u64,
    pub price: i64,
    pub quantity: u32,
    pub side: Side,
}

/// A price level: how much rests there, and in how many orders.
#[derive(Debug, Clone, Copy, PartialEq, Eq, Structural)]
pub struct Level {
    pub price: i64,
    pub quantity: u64,
    pub order_count: u32,
}

/// `a` is the better price of the two on `side`: the higher bid, the lower ask.
pub open spec fn ahead(side: Side, a: int, b: int) -> bool {
    match side {
        Side::Bid => a > b,
        Side::Ask => a < b,
    }
}

/// A list cut to its first `depth` entries, where zero means all of them.
pub open spec fn take_depth<A>(s: Seq<A>, depth: int) -> Seq<A> {
    if depth == 0 || s.len() <= depth {
        s
    } else {
        s.take(depth)
    }
}

/// How much the orders of a queue hold together.
pub open spec fn queue_quantity(orders: Map<u64, RestingOrder>, q: Seq<u64>) -> int
    decreases q.len(),
{
    if q.len() == 0 {
        0
    } else {
        queue_quantity(orders, q.drop_last()) + orders[q.last()].quantity
    }
}

/// A queue without the one id.
pub open spec fn without(q: Seq<u64>, id: u64) -> Seq<u64> {
    q.remove(q.index_of(id))
}

#[verifier::ext_equal]
pub struct BookModel {
    pub orders: Map<u64, RestingOrder>,
    pub queues: spec_fn(Side, i64) -> Seq<u64>,
}

impl BookModel {
    pub open spec fn empty() -> BookModel {
        BookModel { orders: Map::empty(), queues: |side: Side, price: i64| Seq::empty() }
    }

    /// The ids that rest on `side` at `price`, first to arrive first.
    pub open spec fn queue(self, side: Side, price: i64) -> Seq<u64> {
        (self.queues)(side, price)
    }

    pub open spec fn has(self, order_id: u64) -> bool {
        self.orders.dom().contains(order_id)
    }

    pub open spec fn len(self) -> nat {
        self.orders.len()
    }

    /// Every order is in the queue of its own side and price, once, and the
    /// queues hold nothing else.
    pub open spec fn wf(self) -> bool {
        &&& self.orders.dom().finite()
        &&& forall|id: u64| #[trigger]
            self.has(id) ==> {
                &&& self.orders[id].order_id == id
                &&& self.orders[id].quantity > 0
                &&& self.queue(self.orders[id].side, self.orders[id].price).contains(id)
            }
        &&& forall|side: Side, price: i64, i: int|
            0 <= i < self.queue(side, price).len() ==> {
                let id = #[trigger] self.queue(side, price)[i];
                &&& self.has(id)
                &&& self.orders[id].side == side
                &&& self.orders[id].price == price
            }
        &&& forall|side: Side, price: i64| (#[trigger] self.queue(side, price)).no_duplicates()
    }

    pub open spec fn with_queue(self, side: Side, price: i64, q: Seq<u64>) -> BookModel {
        BookModel {
            orders: self.orders,
            queues: |s: Side, p: i64|
                if s == side && p == price {
                    q
                } else {
                    (self.queues)(s, p)
                },
        }
    }

    /// The book with `order` last in its queue.
    pub open spec fn added(self, order: RestingOrder) -> BookModel {
        BookModel {
            orders: self.orders.insert(order.order_id, order),
            ..self.with_queue(
                order.side,
                order.price,
                self.queue(order.side, order.price).push(order.order_id),
            )
        }
    }

    /// The book without the order, everything behind it moved up.
    pub open spec fn removed(self, id: u64) -> BookModel {
        let o = self.orders[id];
        BookModel {
            orders: self.orders.remove(id),
            ..self.with_queue(o.side, o.price, without(self.queue(o.side, o.price), id))
        }
    }

    /// The book with the order made smaller where it stands.
    pub open spec fn reduced(self, id: u64, quantity: u32) -> BookModel {
        BookModel {
            orders: self.orders.insert(
                id,
                RestingOrder { quantity: quantity, ..self.orders[id] },
            ),
            queues: self.queues,
        }
    }

    /// The book with the order taken out and put last in the queue of its new
    /// price.
    pub open spec fn replaced(self, id: u64, price: i64, quantity: u32) -> BookModel {
        self.removed(id).added(
            RestingOrder { order_id: id, price, quantity, side: self.orders[id].side },
        )
    }

    pub open spec fn quantity_at(self, side: Side, price: i64) -> int {
        queue_quantity(self.orders, self.queue(side, price))
    }

    pub open spec fn level_at(self, side: Side, price: i64) -> Level {
        Level {
            price,
            quantity: self.quantity_at(side, price) as u64,
            order_count: self.queue(side, price).len() as u32,
        }
    }

    /// `s` lists the prices at which something rests on `side`, best first.
    pub open spec fn lists_levels(self, side: Side, s: Seq<Level>) -> bool {
        &&& forall|i: int|
            0 <= i < s.len() ==> self.queue(side, (#[trigger] s[i]).price).len() > 0 && s[i]
                == self.level_at(side, s[i].price)
        &&& forall|i: int, j: int|
            0 <= i < j < s.len() ==> ahead(
                side,
                (#[trigger] s[i]).price as int,
                (#[trigger] s[j]).price as int,
            )
        &&& forall|p: i64|
            (#[trigger] self.queue(side, p)).len() > 0 ==> exists|i: int|
                0 <= i < s.len() && (#[trigger] s[i]).price == p
    }

    /// The levels of `side`, best price first.
    pub open spec fn levels(self, side: Side) -> Seq<Level> {
        choose|s: Seq<Level>| self.lists_levels(side, s)
    }

    /// The orders of a queue.
    pub open spec fn orders_at(self, side: Side, price: i64) -> Seq<RestingOrder> {
        Seq::new(
            self.queue(side, price).len(),
            |i: int| self.orders[self.queue(side, price)[i]],
        )
    }

    /// The orders of the given levels, level by level, each in queue order.
    pub open spec fn orders_over(self, side: Side, levels: Seq<Level>) -> Seq<RestingOrder>
        decreases levels.len(),
    {
        if levels.len() == 0 {
            Seq::empty()
        } else {
            self.orders_over(side, levels.drop_last()) + self.orders_at(side, levels.last().price)
        }
    }

    /// The orders of `side`, best price first and first to arrive first.
    pub open spec fn in_priority(self, side: Side) -> Seq<RestingOrder> {
        self.orders_over(side, self.levels(side))
    }

    pub open spec fn best(self, side: Side) -> Option<Level> {
        if self.levels(side).len() == 0 {
            None
        } else {
            Some(self.levels(side)[0])
        }
    }

    /// The best price of `side` and the order that trades first there.
    pub open spec fn front(self, side: Side) -> Option<(i64, u64)> {
        if self.levels(side).len() == 0 {
            None
        } else {
            let price = self.levels(side)[0].price;
            Some((price, self.queue(side, price)[0]))
        }
    }
}

/// What a book answers to an add, given what its layout refuses.
pub open spec fn add_outcome(
    m: BookModel,
    refusal: Option<BookError>,
    order_id: u64,
    quantity: u32,
) -> Result<(), BookError> {
    if quantity == 0 {
        Err(BookError::ZeroQuantity(order_id))
    } else if m.has(order_id) {
        Err(BookError::DuplicateOrderId(order_id))
    } else if refusal is Some {
        Err(refusal->0)
    } else {
        Ok(())
    }
}

/// What a book answers to a replace, given what its layout refuses.
pub open spec fn replace_outcome(
    m: BookModel,
    refusal: Option<BookError>,
    order_id: u64,
    quantity: u32,
) -> Result<(), BookError> {
    if quantity == 0 {
        Err(BookError::ZeroQuantity(order_id))
    } else if !m.has(order_id) {
        Err(BookError::UnknownOrderId(order_id))
    } else if refusal is Some {
        Err(refusal->0)
    } else {
        Ok(())
    }
}

/// What a book answers to a reduce.
pub open spec fn reduce_outcome(m: BookModel, order_id: u64, new_quantity: u32) -> Result<
    (),
    BookError,
> {
    if !m.has(order_id) {
        Err(BookError::UnknownOrderId(order_id))
    } else if new_quantity == 0 {
        Err(BookError::ZeroQuantity(order_id))
    } else if new_quantity > m.orders[order_id].quantity {
        Err(
            BookError::ReduceWouldIncrease {
                order_id,
                from: m.orders[order_id].quantity,
                to: new_quantity,
            },
        )
    } else {
        Ok(())
    }
}

/// What a book answers to a delete.
pub open spec fn delete_outcome(m: BookModel, order_id: u64) -> Result<RestingOrder, BookError> {
    if m.has(order_id) {
        Ok(m.orders[order_id])
    } else {
        Err(BookError::UnknownOrderId(order_id))
    }
}

/// The levels of a side are one list: two lists of them are equal.
pub proof fn law_levels_unique(m: BookModel, side: Side, a: Seq<Level>, b: Seq<Level>)
    requires
        m.lists_levels(side, a),
        m.lists_levels(side, b),
    ensures
        a == b,
{
    lemma_levels_prefix(m, side, a, b, if a.len() < b.len() { a.len() as int } else { b.len() as int });
    if a.len() < b.len() {
        let p = b[a.len() as int].price;
        assert(m.queue(side, p).len() > 0);
        let i = choose|i: int| 0 <= i < a.len() && (#[trigger] a[i]).price == p;
        assert(a[i] == b[i]);
        assert(ahead(side, b[i].price as int, b[a.len() as int].price as int));
    }
    if b.len() < a.len() {
        let p = a[b.len() as int].price;
        assert(m.queue(side, p).len() > 0);
        let i = choose|i: int| 0 <= i < b.len() && (#[trigger] b[i]).price == p;
        assert(a[i] == b[i]);
        assert(ahead(side, a[i].price as int, a[b.len() as int].price as int));
    }
    assert(a =~= b);
}

proof fn lemma_levels_prefix(m: BookModel, side: Side, a: Seq<Level>, b: Seq<Level>, k: int)
    requires
        m.lists_levels(side, a),
        m.lists_levels(side, b),
        0 <= k <= a.len(),
        k <= b.len(),
    ensures
        forall|i: int| 0 <= i < k ==> a[i] == b[i],
    decreases k,
{
    if k > 0 {
        lemma_levels_prefix(m, side, a, b, k - 1);
        let pa = a[k - 1].price;
        let pb = b[k - 1].price;
        assert(m.queue(side, pa).len() > 0);
        assert(m.queue(side, pb).len() > 0);
        let i = choose|i: int| 0 <= i < b.len() && (#[trigger] b[i]).price == pa;
        let j = choose|j: int| 0 <= j < a.len() && (#[trigger] a[j]).price == pb;
        if i < k - 1 {
            assert(a[i] == b[i]);
            assert(ahead(side, a[i].price as int, a[k - 1].price as int));
        }
        if j < k - 1 {
            assert(a[j] == b[j]);
            assert(ahead(side, b[j].price as int, b[k - 1].price as int));
        }
        if i > k - 1 {
            assert(ahead(side, b[k - 1].price as int, b[i].price as int));
        }
        if j > k - 1 {
            assert(ahead(side, a[k - 1].price as int, a[j].price as int));
        }
    }
}

/// A list of the levels is the list of the levels.
pub proof fn lemma_levels_are(m: BookModel, side: Side, s: Seq<Level>)
    requires
        m.lists_levels(side, s),
    ensures
        m.levels(side) == s,
{
    law_levels_unique(m, side, m.levels(side), s);
}

/// In a queue without repeats, the index of an element is where it stands.
pub proof fn lemma_index_of(q: Seq<u64>, i: int)
    requires
        q.no_duplicates(),
        0 <= i < q.len(),
    ensures
        q.index_of(q[i]) == i,
{
    assert(q.contains(q[i]));
}

/// Adding an order keeps a book well-formed.
pub proof fn law_added_wf(m: BookModel, order: RestingOrder)
    requires
        m.wf(),
        !m.has(order.order_id),
        order.quantity > 0,
    ensures
        m.added(order).wf(),
        m.added(order).len() == m.len() + 1,
{
    let n = m.added(order);
    let q = m.queue(order.side, order.price);
    assert(n.queue(order.side, order.price) == q.push(order.order_id));
    assert forall|id: u64| #[trigger] n.has(id) implies {
        &&& n.orders[id].order_id == id
        &&& n.orders[id].quantity > 0
        &&& n.queue(n.orders[id].side, n.orders[id].price).contains(id)
    } by {
        if id == order.order_id {
            assert(q.push(id)[q.len() as int] == id);
        } else {
            assert(m.has(id));
            let o = m.orders[id];
            let i = choose|i: int| 0 <= i < m.queue(o.side, o.price).len() && m.queue(
                o.side,
                o.price,
            )[i] == id;
            assert(n.queue(o.side, o.price)[i] == id);
        }
    }
    assert forall|side: Side, price: i64, i: int| 0 <= i < n.queue(side, price).len() implies {
        let id = #[trigger] n.queue(side, price)[i];
        &&& n.has(id)
        &&& n.orders[id].side == side
        &&& n.orders[id].price == price
    } by {
        if i < m.queue(side, price).len() {
            assert(n.queue(side, price)[i] == m.queue(side, price)[i]);
            assert(m.has(m.queue(side, price)[i]));
        }
    }
    assert forall|side: Side, price: i64| (#[trigger] n.queue(side, price)).no_duplicates() by {
        assert(m.queue(side, price).no_duplicates());
        if side == order.side && price == order.price {
            assert forall|i: int| 0 <= i < q.len() implies q[i] != order.order_id by {
                assert(m.has(m.queue(side, price)[i]));
            }
        }
    }
}

/// Removing an order keeps a book well-formed.
pub proof fn law_removed_wf(m: BookModel, id: u64)
    requires
        m.wf(),
        m.has(id),
    ensures
        m.removed(id).wf(),
        !m.removed(id).has(id),
        m.removed(id).len() == m.len() - 1,
{
    let n = m.removed(id);
    let o = m.orders[id];
    let q = m.queue(o.side, o.price);
    let at = q.index_of(id);
    assert(q.contains(id));
    assert(q[at] == id);
    assert(q.no_duplicates());
    assert(n.queue(o.side, o.price) == q.remove(at));
    assert forall|k: u64| #[trigger] n.has(k) implies {
        &&& n.orders[k].order_id == k
        &&& n.orders[k].quantity > 0
        &&& n.queue(n.orders[k].side, n.orders[k].price).contains(k)
    } by {
        assert(m.has(k));
        let ok = m.orders[k];
        let i = choose|i: int| 0 <= i < m.queue(ok.side, ok.price).len() && m.queue(
            ok.side,
            ok.price,
        )[i] == k;
        if ok.side == o.side && ok.price == o.price {
            let j = if i < at { i } else { i - 1 };
            assert(n.queue(ok.side, ok.price)[j] == k);
        } else {
            assert(n.queue(ok.side, ok.price)[i] == k);
        }
    }
    assert forall|side: Side, price: i64, i: int| 0 <= i < n.queue(side, price).len() implies {
        let k = #[trigger] n.queue(side, price)[i];
        &&& n.has(k)
        &&& n.orders[k].side == side
        &&& n.orders[k].price == price
    } by {
        if side == o.side && price == o.price {
            let j = if i < at { i } else { i + 1 };
            assert(n.queue(side, price)[i] == m.queue(side, price)[j]);
            assert(m.has(m.queue(side, price)[j]));
        } else {
            assert(m.has(m.queue(side, price)[i]));
        }
    }
    assert forall|side: Side, price: i64| (#[trigger] n.queue(side, price)).no_duplicates() by {
        assert(m.queue(side, price).no_duplicates());
    }
}

/// Reducing an order keeps a book well-formed and every queue as it was: the
/// order keeps its place.
pub proof fn law_reduced_keeps_priority(m: BookModel, id: u64, quantity: u32)
    requires
        m.wf(),
        m.has(id),
        quantity > 0,
    ensures
        m.reduced(id, quantity).wf(),
        m.reduced(id, quantity).len() == m.len(),
        forall|side: Side, price: i64|
            m.reduced(id, quantity).queue(side, price) == m.queue(side, price),
{
    let n = m.reduced(id, quantity);
    assert(n.orders.dom() =~= m.orders.dom());
    assert forall|k: u64| #[trigger] n.has(k) implies {
        &&& n.orders[k].order_id == k
        &&& n.orders[k].quantity > 0
        &&& n.queue(n.orders[k].side, n.orders[k].price).contains(k)
    } by {
        assert(m.has(k));
    }
    assert forall|side: Side, price: i64, i: int| 0 <= i < n.queue(side, price).len() implies {
        let k = #[trigger] n.queue(side, price)[i];
        &&& n.has(k)
        &&& n.orders[k].side == side
        &&& n.orders[k].price == price
    } by {
        assert(m.has(m.queue(side, price)[i]));
    }
    assert forall|side: Side, price: i64| (#[trigger] n.queue(side, price)).no_duplicates() by {
        assert(m.queue(side, price).no_duplicates());
    }
}

/// Replacing an order keeps a book well-formed, and the order is last in the
/// queue of its new price: it has lost its place.
pub proof fn law_replaced_loses_priority(m: BookModel, id: u64, price: i64, quantity: u32)
    requires
        m.wf(),
        m.has(id),
        quantity > 0,
    ensures
        m.replaced(id, price, quantity).wf(),
        m.replaced(id, price, quantity).len() == m.len(),
        m.replaced(id, price, quantity).queue(m.orders[id].side, price).last() == id,
{
    law_removed_wf(m, id);
    law_added_wf(
        m.removed(id),
        RestingOrder { order_id: id, price, quantity, side: m.orders[id].side },
    );
}

/// Adding an order and taking it out again leaves the book as it was.
pub proof fn law_remove_undoes_add(m: BookModel, order: RestingOrder)
    requires
        m.wf(),
        !m.has(order.order_id),
        order.quantity > 0,
    ensures
        m.added(order).removed(order.order_id) == m,
{
    law_added_wf(m, order);
    let a = m.added(order);
    let b = a.removed(order.order_id);
    let q = m.queue(order.side, order.price);
    assert(a.queue(order.side, order.price) == q.push(order.order_id));
    assert(a.queue(order.side, order.price).no_duplicates());
    lemma_index_of(q.push(order.order_id), q.len() as int);
    assert(b.orders =~= m.orders);
    assert(q.push(order.order_id).remove(q.len() as int) =~= q);
    assert(b.queues =~= m.queues);
}

/// `s` lists the prices of `prices`, best first.
spec fn lists_prices(side: Side, prices: Set<i64>, s: Seq<i64>) -> bool {
    &&& forall|i: int| 0 <= i < s.len() ==> prices.contains(#[trigger] s[i])
    &&& forall|i: int, j: int|
        0 <= i < j < s.len() ==> ahead(side, #[trigger] s[i] as int, #[trigger] s[j] as int)
    &&& forall|p: i64| #[trigger] prices.contains(p) ==> s.contains(p)
}

/// A price that is not in a list has a place in it.
proof fn lemma_place(side: Side, s: Seq<i64>, x: i64, k: int) -> (at: int)
    requires
        0 <= k <= s.len(),
        forall|i: int, j: int|
            0 <= i < j < s.len() ==> ahead(side, #[trigger] s[i] as int, #[trigger] s[j] as int),
        !s.contains(x),
        forall|i: int| k <= i < s.len() ==> ahead(side, x as int, #[trigger] s[i] as int),
    ensures
        0 <= at <= s.len(),
        forall|i: int| 0 <= i < at ==> ahead(side, #[trigger] s[i] as int, x as int),
        forall|i: int| at <= i < s.len() ==> ahead(side, x as int, #[trigger] s[i] as int),
    decreases k,
{
    if k == 0 {
        0
    } else if ahead(side, s[k - 1] as int, x as int) {
        assert forall|i: int| 0 <= i < k implies ahead(side, #[trigger] s[i] as int, x as int) by {
            if i < k - 1 {
                assert(ahead(side, s[i] as int, s[k - 1] as int));
            }
        }
        k
    } else {
        assert(s[k - 1] != x) by {
            assert(s.contains(s[k - 1]));
        }
        lemma_place(side, s, x, k - 1)
    }
}

/// Finitely many prices can be listed.
proof fn lemma_prices_listed(side: Side, prices: Set<i64>) -> (s: Seq<i64>)
    requires
        prices.finite(),
    ensures
        lists_prices(side, prices, s),
    decreases prices.len(),
{
    if prices.len() == 0 {
        assert(prices =~= Set::empty());
        Seq::empty()
    } else {
        let x = prices.choose();
        let rest = prices.remove(x);
        let t = lemma_prices_listed(side, rest);
        assert(!t.contains(x)) by {
            if t.contains(x) {
                let i = choose|i: int| 0 <= i < t.len() && t[i] == x;
                assert(rest.contains(t[i]));
            }
        }
        let at = lemma_place(side, t, x, t.len() as int);
        let s = t.insert(at, x);
        assert forall|i: int| 0 <= i < s.len() implies prices.contains(#[trigger] s[i]) by {
            if i < at {
                assert(s[i] == t[i]);
                assert(rest.contains(t[i]));
            } else if i > at {
                assert(s[i] == t[i - 1]);
                assert(rest.contains(t[i - 1]));
            }
        }
        assert forall|i: int, j: int| 0 <= i < j < s.len() implies ahead(
            side,
            #[trigger] s[i] as int,
            #[trigger] s[j] as int,
        ) by {
            let a = if i < at { i } else { i - 1 };
            let b = if j < at { j } else { j - 1 };
            if i != at && j != at {
                assert(ahead(side, t[a] as int, t[b] as int));
            } else if i == at {
                assert(ahead(side, x as int, t[b] as int));
            } else {
                assert(ahead(side, t[a] as int, x as int));
            }
        }
        assert forall|p: i64| #[trigger] prices.contains(p) implies s.contains(p) by {
            if p == x {
                assert(s[at] == x);
            } else {
                assert(rest.contains(p));
                let i = choose|i: int| 0 <= i < t.len() && t[i] == p;
                assert(s[if i < at { i } else { i + 1 }] == p);
            }
        }
        s
    }
}

/// Every well-formed book has a list of its levels.
pub proof fn law_levels_exist(m: BookModel, side: Side)
    requires
        m.wf(),
    ensures
        m.lists_levels(side, m.levels(side)),
{
    let here = m.orders.dom().filter(|id: u64| m.orders[id].side == side);
    let prices = here.map(|id: u64| m.orders[id].price);
    here.lemma_map_finite(|id: u64| m.orders[id].price);
    let s = lemma_prices_listed(side, prices);
    let levels = Seq::new(s.len(), |i: int| m.level_at(side, s[i]));
    assert forall|i: int| 0 <= i < levels.len() implies m.queue(side, (
    #[trigger] levels[i]).price).len() > 0 && levels[i] == m.level_at(side, levels[i].price) by {
        assert(prices.contains(s[i]));
        let id = choose|id: u64| here.contains(id) && m.orders[id].price == s[i];
        assert(m.has(id));
        assert(m.queue(side, s[i]).contains(id));
    }
    assert forall|p: i64|
        (#[trigger] m.queue(side, p)).len() > 0 implies exists|i: int|
        0 <= i < levels.len() && (#[trigger] levels[i]).price == p by {
        let id = m.queue(side, p)[0];
        assert(m.has(id));
        assert(here.contains(id));
        assert(prices.contains(p));
        let i = choose|i: int| 0 <= i < s.len() && s[i] == p;
        assert(levels[i].price == p);
    }
    assert(m.lists_levels(side, levels));
    lemma_levels_are(m, side, levels);
}

/// The front of a side is the first order at the best price at which something
/// rests, and there is one unless nothing rests there.
pub proof fn law_front_is_best(m: BookModel, side: Side)
    requires
        m.wf(),
    ensures
        m.front(side) matches Some((p, id)) ==> {
            &&& m.has(id)
            &&& m.orders[id].side == side
            &&& m.orders[id].price == p
            &&& m.orders[id].quantity > 0
            &&& m.queue(side, p).len() > 0
            &&& m.queue(side, p)[0] == id
            &&& forall|q: i64|
                (#[trigger] m.queue(side, q)).len() > 0 ==> !ahead(side, q as int, p as int)
        },
        m.front(side) is None ==> forall|q: i64| (#[trigger] m.queue(side, q)).len() == 0,
{
    law_levels_exist(m, side);
    let levels = m.levels(side);
    if levels.len() > 0 {
        let p = levels[0].price;
        assert(m.queue(side, p).len() > 0);
        let id = m.queue(side, p)[0];
        assert(m.has(id));
        assert forall|q: i64|
            (#[trigger] m.queue(side, q)).len() > 0 implies !ahead(side, q as int, p as int) by {
            let i = choose|i: int| 0 <= i < levels.len() && (#[trigger] levels[i]).price == q;
            if i > 0 {
                assert(ahead(side, levels[0].price as int, levels[i].price as int));
            }
        }
    }
}

proof fn lemma_queue_fits(m: BookModel, side: Side, price: i64)
    requires
        m.wf(),
    ensures
        m.queue(side, price).len() <= m.len(),
{
    let q = m.queue(side, price);
    q.unique_seq_to_set();
    assert(q.to_set().subset_of(m.orders.dom())) by {
        assert forall|id: u64| q.to_set().contains(id) implies m.orders.dom().contains(id) by {
            let i = choose|i: int| 0 <= i < q.len() && q[i] == id;
            assert(m.has(m.queue(side, price)[i]));
        }
    }
    vstd::set_lib::lemma_len_subset(q.to_set(), m.orders.dom());
}

proof fn lemma_quantity_bound(orders: Map<u64, RestingOrder>, q: Seq<u64>)
    ensures
        0 <= queue_quantity(orders, q) <= q.len() * 0xffff_ffff,
    decreases q.len(),
{
    if q.len() > 0 {
        lemma_quantity_bound(orders, q.drop_last());
    }
}

/// A level says how much rests at its price, and in how many orders, exactly: nothing is
/// cut off as long as the book's orders can be counted in 32 bits.
pub proof fn law_levels_are_exact(m: BookModel, side: Side)
    requires
        m.wf(),
        m.len() <= u32::MAX,
    ensures
        forall|p: i64|
            (#[trigger] m.level_at(side, p)).quantity == m.quantity_at(side, p) && m.level_at(
                side,
                p,
            ).order_count == m.queue(side, p).len(),
        forall|i: int|
            0 <= i < m.levels(side).len() ==> {
                let l = #[trigger] m.levels(side)[i];
                &&& l.quantity == m.quantity_at(side, l.price)
                &&& l.order_count == m.queue(side, l.price).len()
                &&& l.order_count > 0
            },
{
    assert forall|p: i64|
        (#[trigger] m.level_at(side, p)).quantity == m.quantity_at(side, p) && m.level_at(
            side,
            p,
        ).order_count == m.queue(side, p).len() by {
        let q = m.queue(side, p);
        lemma_queue_fits(m, side, p);
        lemma_quantity_bound(m.orders, q);
        let n = q.len() as int;
        assert(n * 0xffff_ffff <= 0xffff_ffff * 0xffff_ffff) by (nonlinear_arith)
            requires
                n <= 0xffff_ffff,
        ;
    }
    law_levels_exist(m, side);
    assert forall|i: int| 0 <= i < m.levels(side).len() implies {
        let l = #[trigger] m.levels(side)[i];
        &&& l.quantity == m.quantity_at(side, l.price)
        &&& l.order_count == m.queue(side, l.price).len()
        &&& l.order_count > 0
    } by {
        let l = m.levels(side)[i];
        assert(l == m.level_at(side, l.price));
    }
}

/// How many orders some levels count together.
pub open spec fn orders_in(levels: Seq<Level>) -> int
    decreases levels.len(),
{
    if levels.len() == 0 {
        0
    } else {
        orders_in(levels.drop_last()) + levels.last().order_count
    }
}

/// The ids of the given levels, level by level.
spec fn ids_over(m: BookModel, side: Side, levels: Seq<Level>) -> Seq<u64>
    decreases levels.len(),
{
    if levels.len() == 0 {
        Seq::empty()
    } else {
        ids_over(m, side, levels.drop_last()) + m.queue(side, levels.last().price)
    }
}

proof fn lemma_ids_over(m: BookModel, side: Side, levels: Seq<Level>, k: int)
    requires
        m.wf(),
        m.len() <= u32::MAX,
        m.lists_levels(side, levels),
        0 <= k <= levels.len(),
    ensures
        ids_over(m, side, levels.take(k)).len() == orders_in(levels.take(k)),
        ids_over(m, side, levels.take(k)).no_duplicates(),
        forall|id: u64| #[trigger]
            ids_over(m, side, levels.take(k)).contains(id) <==> m.has(id) && m.orders[id].side
                == side && exists|i: int|
                0 <= i < k && (#[trigger] levels[i]).price == m.orders[id].price,
    decreases k,
{
    if k > 0 {
        let a = levels.take(k - 1);
        let l = levels[k - 1];
        let q = m.queue(side, l.price);
        let before = ids_over(m, side, a);
        let now = ids_over(m, side, levels.take(k));
        assert(levels.take(k).drop_last() =~= a);
        lemma_ids_over(m, side, levels, k - 1);
        law_levels_are_exact(m, side);
        assert(l == m.level_at(side, l.price));
        assert forall|id: u64| #[trigger] now.contains(id) <==> m.has(id) && m.orders[id].side
            == side && exists|i: int|
            0 <= i < k && (#[trigger] levels[i]).price == m.orders[id].price by {
            if now.contains(id) {
                let j = choose|j: int| 0 <= j < now.len() && now[j] == id;
                if j < before.len() {
                    assert(before[j] == id);
                    assert(before.contains(id));
                } else {
                    assert(q[j - before.len()] == id);
                    assert(m.has(m.queue(side, l.price)[j - before.len()]));
                    assert(levels[k - 1].price == m.orders[id].price);
                }
            }
            if m.has(id) && m.orders[id].side == side && exists|i: int|
                0 <= i < k && (#[trigger] levels[i]).price == m.orders[id].price {
                let i = choose|i: int|
                    0 <= i < k && (#[trigger] levels[i]).price == m.orders[id].price;
                if i < k - 1 {
                    assert(before.contains(id));
                    let j = choose|j: int| 0 <= j < before.len() && before[j] == id;
                    assert(now[j] == id);
                } else {
                    assert(q.contains(id));
                    let j = choose|j: int| 0 <= j < q.len() && q[j] == id;
                    assert(now[before.len() + j] == id);
                }
            }
        }
        assert forall|x: int, y: int| 0 <= x < y < now.len() implies now[x] != now[y] by {
            if y < before.len() {
                assert(before[x] != before[y]);
            } else {
                let iy = y - before.len();
                assert(m.orders[m.queue(side, l.price)[iy]].price == l.price);
                if x < before.len() {
                    assert(before.contains(before[x]));
                    let i = choose|i: int|
                        0 <= i < k - 1 && (#[trigger] levels[i]).price
                            == m.orders[before[x]].price;
                    assert(ahead(side, levels[i].price as int, levels[k - 1].price as int));
                } else {
                    assert(q[x - before.len()] != q[iy]);
                }
            }
        }
    }
}

/// The levels of both sides count every order of the book.
pub proof fn law_levels_count_every_order(m: BookModel)
    requires
        m.wf(),
        m.len() <= u32::MAX,
    ensures
        m.len() == orders_in(m.levels(Side::Bid)) + orders_in(m.levels(Side::Ask)),
{
    let bids = m.levels(Side::Bid);
    let asks = m.levels(Side::Ask);
    law_levels_exist(m, Side::Bid);
    law_levels_exist(m, Side::Ask);
    lemma_ids_over(m, Side::Bid, bids, bids.len() as int);
    lemma_ids_over(m, Side::Ask, asks, asks.len() as int);
    assert(bids.take(bids.len() as int) =~= bids);
    assert(asks.take(asks.len() as int) =~= asks);
    let a = ids_over(m, Side::Bid, bids);
    let b = ids_over(m, Side::Ask, asks);
    let all = a + b;
    assert forall|x: int, y: int| 0 <= x < y < all.len() implies all[x] != all[y] by {
        if x < a.len() {
            assert(a.contains(a[x]));
        }
        if y >= a.len() {
            assert(b.contains(b[y - a.len()]));
        }
        if y < a.len() {
            assert(a[x] != a[y]);
        } else if x >= a.len() {
            assert(b[x - a.len()] != b[y - a.len()]);
        }
    }
    all.unique_seq_to_set();
    assert(all.to_set() =~= m.orders.dom()) by {
        assert forall|id: u64| all.to_set().contains(id) <==> m.orders.dom().contains(id) by {
            if all.to_set().contains(id) {
                let j = choose|j: int| 0 <= j < all.len() && all[j] == id;
                if j < a.len() {
                    assert(a.contains(a[j]));
                } else {
                    assert(b.contains(b[j - a.len()]));
                }
            }
            if m.has(id) {
                let o = m.orders[id];
                assert(m.queue(o.side, o.price).len() > 0);
                match o.side {
                    Side::Bid => {
                        assert(a.contains(id));
                        let j = choose|j: int| 0 <= j < a.len() && a[j] == id;
                        assert(all[j] == id);
                    },
                    Side::Ask => {
                        assert(b.contains(id));
                        let j = choose|j: int| 0 <= j < b.len() && b[j] == id;
                        assert(all[a.len() + j] == id);
                    },
                }
            }
        }
    }
}

/// An order that is added is on the book as it was given, last in the queue of its side and
/// price, and nothing else is different.
pub proof fn law_added_order_goes_last(m: BookModel, order: RestingOrder)
    requires
        m.wf(),
        !m.has(order.order_id),
        order.quantity > 0,
    ensures
        ({
            let n = m.added(order);
            let id = order.order_id;
            &&& n.has(id)
            &&& n.orders[id] == order
            &&& n.len() == m.len() + 1
            &&& n.queue(order.side, order.price).len() == m.queue(order.side, order.price).len() + 1
            &&& n.queue(order.side, order.price).last() == id
            &&& n.queue(order.side, order.price).drop_last() == m.queue(order.side, order.price)
            &&& forall|x: u64| x != id ==> (#[trigger] n.has(x) <==> m.has(x))
            &&& forall|x: u64| x != id ==> #[trigger] n.orders[x] == m.orders[x]
            &&& forall|s: Side, p: i64|
                !(s == order.side && p == order.price) ==> #[trigger] n.queue(s, p) == m.queue(s, p)
        }),
{
    law_added_wf(m, order);
    let n = m.added(order);
    assert(n.queue(order.side, order.price).drop_last() =~= m.queue(order.side, order.price));
}

/// An order that is taken out is gone, from its queue too, where those behind it move up and
/// keep their order, and nothing else is different.
pub proof fn law_removed_order_is_gone(m: BookModel, id: u64)
    requires
        m.wf(),
        m.has(id),
    ensures
        ({
            let n = m.removed(id);
            let o = m.orders[id];
            let q = m.queue(o.side, o.price);
            &&& !n.has(id)
            &&& n.len() == m.len() - 1
            &&& !n.queue(o.side, o.price).contains(id)
            &&& n.queue(o.side, o.price).len() == q.len() - 1
            &&& exists|i: int|
                0 <= i < q.len() && q[i] == id && n.queue(o.side, o.price) == #[trigger] q.take(i)
                    + q.skip(i + 1)
            &&& forall|x: u64| x != id ==> (#[trigger] n.has(x) <==> m.has(x))
            &&& forall|x: u64| x != id ==> #[trigger] n.orders[x] == m.orders[x]
            &&& forall|s: Side, p: i64|
                !(s == o.side && p == o.price) ==> #[trigger] n.queue(s, p) == m.queue(s, p)
        }),
{
    law_removed_wf(m, id);
    let n = m.removed(id);
    let o = m.orders[id];
    let q = m.queue(o.side, o.price);
    let i = q.index_of(id);
    assert(q.contains(id));
    assert(q[i] == id && 0 <= i < q.len());
    assert(q.remove(i) =~= q.take(i) + q.skip(i + 1));
    assert(!n.queue(o.side, o.price).contains(id)) by {
        let r = n.queue(o.side, o.price);
        if r.contains(id) {
            let k = choose|k: int| 0 <= k < r.len() && r[k] == id;
            assert(n.has(n.queue(o.side, o.price)[k]));
        }
    }
}

/// A reduced order is smaller, and nothing else of it or of the book is different.
pub proof fn law_reduced_order_is_only_smaller(m: BookModel, id: u64, quantity: u32)
    requires
        m.wf(),
        m.has(id),
    ensures
        ({
            let n = m.reduced(id, quantity);
            &&& n.has(id)
            &&& n.orders[id].quantity == quantity
            &&& n.orders[id].order_id == id
            &&& n.orders[id].price == m.orders[id].price
            &&& n.orders[id].side == m.orders[id].side
            &&& forall|x: u64| #[trigger] n.has(x) <==> m.has(x)
            &&& forall|x: u64| x != id ==> #[trigger] n.orders[x] == m.orders[x]
            &&& forall|s: Side, p: i64| #[trigger] n.queue(s, p) == m.queue(s, p)
        }),
{
}

/// A replaced order has its new price and quantity, on the side it was on, and stands last
/// at that price; every other order is as it was.
pub proof fn law_replaced_order_is_elsewhere(m: BookModel, id: u64, price: i64, quantity: u32)
    requires
        m.wf(),
        m.has(id),
        quantity > 0,
    ensures
        ({
            let n = m.replaced(id, price, quantity);
            let side = m.orders[id].side;
            &&& n.has(id)
            &&& n.orders[id].order_id == id
            &&& n.orders[id].price == price
            &&& n.orders[id].quantity == quantity
            &&& n.orders[id].side == side
            &&& n.queue(side, price).len() > 0
            &&& n.queue(side, price).last() == id
            &&& price != m.orders[id].price ==> !n.queue(side, m.orders[id].price).contains(id)
            &&& forall|x: u64| #[trigger] n.has(x) <==> m.has(x)
            &&& forall|x: u64| x != id ==> #[trigger] n.orders[x] == m.orders[x]
            &&& forall|s: Side, p: i64|
                !(s == side && (p == price || p == m.orders[id].price)) ==> #[trigger] n.queue(s, p)
                    == m.queue(s, p)
        }),
{
    law_removed_wf(m, id);
    law_removed_order_is_gone(m, id);
    law_added_order_goes_last(
        m.removed(id),
        RestingOrder { order_id: id, price, quantity, side: m.orders[id].side },
    );
}

/// What a book takes. An add needs a quantity, an id that is new, and room; a reduce an
/// order that is there, and a quantity that is not zero and not larger; a replace a
/// quantity, an order that is there, and room; a delete an order that is there.
pub proof fn law_what_a_book_takes(
    m: BookModel,
    refusal: Option<BookError>,
    order_id: u64,
    quantity: u32,
)
    ensures
        add_outcome(m, refusal, order_id, quantity) is Ok <==> quantity > 0 && !m.has(order_id)
            && refusal is None,
        reduce_outcome(m, order_id, quantity) is Ok <==> m.has(order_id) && 0 < quantity
            <= m.orders[order_id].quantity,
        replace_outcome(m, refusal, order_id, quantity) is Ok <==> quantity > 0 && m.has(order_id)
            && refusal is None,
        delete_outcome(m, order_id) is Ok <==> m.has(order_id),
        delete_outcome(m, order_id) matches Ok(o) ==> o == m.orders[order_id],
{
}

/// An answer of a book is true of what was asked: nothing is taken without a quantity, and
/// each complaint is about something that is so.
pub open spec fn answer_is_true(
    m: BookModel,
    refusal: Option<BookError>,
    order_id: u64,
    quantity: u32,
    r: Result<(), BookError>,
) -> bool {
    match r {
        Ok(()) => quantity > 0,
        Err(BookError::ZeroQuantity(id)) => id == order_id && quantity == 0,
        Err(BookError::DuplicateOrderId(id)) => id == order_id && m.has(id),
        Err(BookError::UnknownOrderId(id)) => id == order_id && !m.has(id),
        Err(BookError::ReduceWouldIncrease { order_id: id, from, to }) => id == order_id && m.has(
            id,
        ) && from == m.orders[id].quantity && to == quantity && to > from,
        Err(e) => refusal == Some(e),
    }
}

/// Why a book refuses: the complaint is true of what it complains of.
pub proof fn law_complaints_are_true(
    m: BookModel,
    refusal: Option<BookError>,
    order_id: u64,
    quantity: u32,
)
    requires
        refusal matches Some(e) ==> e is PriceOffGrid || e is PriceOutOfRange || e is SlabFull,
    ensures
        answer_is_true(
            m,
            refusal,
            order_id,
            quantity,
            add_outcome(m, refusal, order_id, quantity),
        ),
        answer_is_true(m, None, order_id, quantity, reduce_outcome(m, order_id, quantity)),
        answer_is_true(
            m,
            refusal,
            order_id,
            quantity,
            replace_outcome(m, refusal, order_id, quantity),
        ),
        delete_outcome(m, order_id) matches Err(e) ==> e == BookError::UnknownOrderId(order_id),
{
}

/// A list cut to a depth is its beginning, and no longer than the depth, where zero stands
/// for no limit.
pub proof fn law_depth_cuts<A>(s: Seq<A>, depth: int)
    requires
        0 <= depth,
    ensures
        take_depth(s, 0) == s,
        depth > 0 ==> take_depth(s, depth).len() <= depth,
        take_depth(s, depth).len() <= s.len(),
        take_depth(s, depth) == s.take(take_depth(s, depth).len() as int),
        depth > 0 && take_depth(s, depth).len() < s.len() ==> take_depth(s, depth).len() == depth,
{
    assert(s.take(s.len() as int) =~= s);
}

/// The levels of a side say what rests there: one level for each price at which something
/// rests, better prices first, each with the sum of what rests at it.
pub proof fn law_levels_say_what_rests(m: BookModel, side: Side)
    requires
        m.wf(),
        m.len() <= u32::MAX,
    ensures
        forall|i: int, j: int|
            0 <= i < j < m.levels(side).len() ==> if side == Side::Bid {
                (#[trigger] m.levels(side)[i]).price > (#[trigger] m.levels(side)[j]).price
            } else {
                m.levels(side)[i].price < m.levels(side)[j].price
            },
        forall|p: i64|
            (#[trigger] m.queue(side, p)).len() > 0 <==> exists|i: int|
                0 <= i < m.levels(side).len() && (#[trigger] m.levels(side)[i]).price == p,
        forall|id: u64| #[trigger]
            m.has(id) && m.orders[id].side == side ==> exists|i: int|
                0 <= i < m.levels(side).len() && (#[trigger] m.levels(side)[i]).price
                    == m.orders[id].price && m.levels(side)[i].quantity >= m.orders[id].quantity,
{
    law_levels_exist(m, side);
    law_levels_are_exact(m, side);
    let levels = m.levels(side);
    assert forall|p: i64|
        (#[trigger] m.queue(side, p)).len() > 0 <==> exists|i: int|
        0 <= i < levels.len() && (#[trigger] levels[i]).price == p by {
        if exists|i: int| 0 <= i < levels.len() && (#[trigger] levels[i]).price == p {
            let i = choose|i: int| 0 <= i < levels.len() && (#[trigger] levels[i]).price == p;
            assert(m.queue(side, levels[i].price).len() > 0);
        }
    }
    assert forall|id: u64| #[trigger]
        m.has(id) && m.orders[id].side == side implies exists|i: int|
        0 <= i < levels.len() && (#[trigger] levels[i]).price == m.orders[id].price
            && levels[i].quantity >= m.orders[id].quantity by {
        let p = m.orders[id].price;
        let q = m.queue(side, p);
        assert(q.contains(id));
        let k = choose|k: int| 0 <= k < q.len() && q[k] == id;
        let i = choose|i: int| 0 <= i < levels.len() && (#[trigger] levels[i]).price == p;
        lemma_part_of_sum(m.orders, q, k);
        assert(levels[i].quantity == m.quantity_at(side, p));
    }
}

/// What one order of a queue holds is part of what the queue holds.
proof fn lemma_part_of_sum(orders: Map<u64, RestingOrder>, q: Seq<u64>, k: int)
    requires
        0 <= k < q.len(),
    ensures
        queue_quantity(orders, q) >= orders[q[k]].quantity,
    decreases q.len(),
{
    lemma_quantity_bound(orders, q.drop_last());
    if k < q.len() - 1 {
        lemma_part_of_sum(orders, q.drop_last(), k);
    }
}

/// One more order at a price makes the level there as much larger, and by one in count.
pub proof fn law_level_grows_by_the_order(m: BookModel, order: RestingOrder)
    requires
        m.wf(),
        !m.has(order.order_id),
        order.quantity > 0,
    ensures
        m.added(order).quantity_at(order.side, order.price) == m.quantity_at(
            order.side,
            order.price,
        ) + order.quantity,
        forall|s: Side, p: i64|
            !(s == order.side && p == order.price) ==> #[trigger] m.added(order).quantity_at(s, p)
                == m.quantity_at(s, p),
{
    law_added_wf(m, order);
    let n = m.added(order);
    let q = m.queue(order.side, order.price);
    assert(n.queue(order.side, order.price).drop_last() =~= q);
    assert forall|s: Side, p: i64, i: int| 0 <= i < m.queue(s, p).len() implies #[trigger] m.queue(
        s,
        p,
    )[i] != order.order_id by {
        assert(m.has(m.queue(s, p)[i]));
    }
    lemma_same_quantities(m.orders, n.orders, q);
    assert forall|s: Side, p: i64|
        !(s == order.side && p == order.price) implies #[trigger] n.quantity_at(s, p)
        == m.quantity_at(s, p) by {
        assert(n.queue(s, p) == m.queue(s, p));
        assert forall|i: int| 0 <= i < m.queue(s, p).len() implies n.orders[#[trigger] m.queue(
            s,
            p,
        )[i]].quantity == m.orders[m.queue(s, p)[i]].quantity by {}
        lemma_same_quantities(m.orders, n.orders, m.queue(s, p));
    }
}

proof fn lemma_same_quantities(
    a: Map<u64, RestingOrder>,
    b: Map<u64, RestingOrder>,
    q: Seq<u64>,
)
    requires
        forall|i: int| 0 <= i < q.len() ==> b[#[trigger] q[i]].quantity == a[q[i]].quantity,
    ensures
        queue_quantity(a, q) == queue_quantity(b, q),
    decreases q.len(),
{
    if q.len() > 0 {
        assert(q.last() == q[q.len() - 1]);
        assert forall|i: int| 0 <= i < q.drop_last().len() implies b[#[trigger] q.drop_last()[i]].quantity
            == a[q.drop_last()[i]].quantity by {
            assert(q.drop_last()[i] == q[i]);
        }
        lemma_same_quantities(a, b, q.drop_last());
    }
}

/// `a` trades before `b`: at a better price, or at the same one and ahead in its queue.
pub open spec fn trades_before(m: BookModel, side: Side, a: RestingOrder, b: RestingOrder) -> bool {
    ||| (side == Side::Bid && a.price > b.price)
    ||| (side == Side::Ask && a.price < b.price)
    ||| a.price == b.price && exists|i: int, j: int|
        0 <= i < j < m.queue(side, a.price).len() && #[trigger] m.queue(side, a.price)[i]
            == a.order_id && #[trigger] m.queue(side, a.price)[j] == b.order_id
}

proof fn lemma_priority_over(m: BookModel, side: Side, levels: Seq<Level>, k: int)
    requires
        m.wf(),
        m.lists_levels(side, levels),
        0 <= k <= levels.len(),
    ensures
        ({
            let os = m.orders_over(side, levels.take(k));
            &&& forall|i: int|
                0 <= i < os.len() ==> m.has((#[trigger] os[i]).order_id)
                    && m.orders[os[i].order_id] == os[i] && os[i].side == side && exists|l: int|
                    0 <= l < k && (#[trigger] levels[l]).price == os[i].price
            &&& forall|i: int, j: int|
                0 <= i < j < os.len() ==> trades_before(
                    m,
                    side,
                    #[trigger] os[i],
                    #[trigger] os[j],
                )
            &&& forall|id: u64| #[trigger]
                m.has(id) && m.orders[id].side == side && (exists|l: int|
                    0 <= l < k && (#[trigger] levels[l]).price == m.orders[id].price)
                    ==> os.contains(m.orders[id])
        }),
    decreases k,
{
    if k > 0 {
        lemma_priority_over(m, side, levels, k - 1);
        let a = levels.take(k - 1);
        let p = levels[k - 1].price;
        let q = m.queue(side, p);
        let head = m.orders_over(side, a);
        let tail = m.orders_at(side, p);
        let os = m.orders_over(side, levels.take(k));
        assert(levels.take(k).drop_last() =~= a);
        assert(os =~= head + tail);
        assert forall|i: int| 0 <= i < tail.len() implies (#[trigger] tail[i]).order_id == q[i]
            && tail[i].price == p && tail[i].side == side && m.has(q[i]) && m.orders[q[i]]
            == tail[i] by {
            assert(m.has(m.queue(side, p)[i]));
        }
        assert forall|i: int| 0 <= i < os.len() implies m.has((#[trigger] os[i]).order_id)
            && m.orders[os[i].order_id] == os[i] && os[i].side == side && exists|l: int|
            0 <= l < k && (#[trigger] levels[l]).price == os[i].price by {
            if i < head.len() {
                assert(os[i] == head[i]);
                let l = choose|l: int|
                    0 <= l < k - 1 && (#[trigger] levels[l]).price == head[i].price;
                assert(levels[l].price == os[i].price);
            } else {
                assert(os[i] == tail[i - head.len()]);
                assert(levels[k - 1].price == os[i].price);
            }
        }
        assert forall|i: int, j: int| 0 <= i < j < os.len() implies trades_before(
            m,
            side,
            #[trigger] os[i],
            #[trigger] os[j],
        ) by {
            if j < head.len() {
                assert(os[i] == head[i] && os[j] == head[j]);
            } else if i < head.len() {
                assert(os[i] == head[i] && os[j] == tail[j - head.len()]);
                let l = choose|l: int|
                    0 <= l < k - 1 && (#[trigger] levels[l]).price == head[i].price;
                assert(ahead(side, levels[l].price as int, levels[k - 1].price as int));
            } else {
                let x = i - head.len();
                let y = j - head.len();
                assert(os[i] == tail[x] && os[j] == tail[y]);
                assert(m.queue(side, os[i].price)[x] == os[i].order_id);
                assert(m.queue(side, os[i].price)[y] == os[j].order_id);
            }
        }
        assert forall|id: u64| #[trigger]
            m.has(id) && m.orders[id].side == side && (exists|l: int|
                0 <= l < k && (#[trigger] levels[l]).price
                    == m.orders[id].price) implies os.contains(m.orders[id]) by {
            let l = choose|l: int|
                0 <= l < k && (#[trigger] levels[l]).price == m.orders[id].price;
            if l < k - 1 {
                assert(levels[l].price == m.orders[id].price);
                assert(head.contains(m.orders[id]));
                let x = choose|x: int| 0 <= x < head.len() && head[x] == m.orders[id];
                assert(os[x] == m.orders[id]);
            } else {
                assert(q.contains(id));
                let x = choose|x: int| 0 <= x < q.len() && q[x] == id;
                assert(tail[x] == m.orders[id]);
                assert(os[head.len() + x] == m.orders[id]);
            }
        }
    }
}

/// The orders of a side in priority are all its orders, each as it rests, and each comes
/// before those that trade after it: better prices first, and at one price those that came
/// first.
pub proof fn law_priority_is_price_then_time(m: BookModel, side: Side)
    requires
        m.wf(),
    ensures
        forall|i: int|
            0 <= i < m.in_priority(side).len() ==> m.has(
                (#[trigger] m.in_priority(side)[i]).order_id,
            ) && m.orders[m.in_priority(side)[i].order_id] == m.in_priority(side)[i]
                && m.in_priority(side)[i].side == side,
        forall|i: int, j: int|
            0 <= i < j < m.in_priority(side).len() ==> trades_before(
                m,
                side,
                #[trigger] m.in_priority(side)[i],
                #[trigger] m.in_priority(side)[j],
            ),
        forall|id: u64| #[trigger]
            m.has(id) && m.orders[id].side == side ==> m.in_priority(side).contains(m.orders[id]),
{
    let levels = m.levels(side);
    law_levels_exist(m, side);
    lemma_priority_over(m, side, levels, levels.len() as int);
    assert(levels.take(levels.len() as int) =~= levels);
    let os = m.in_priority(side);
    assert forall|id: u64| #[trigger] m.has(id) && m.orders[id].side == side implies os.contains(
        m.orders[id],
    ) by {
        assert(m.queue(side, m.orders[id].price).contains(id));
        assert(m.queue(side, m.orders[id].price).len() > 0);
        let l = choose|l: int|
            0 <= l < levels.len() && (#[trigger] levels[l]).price == m.orders[id].price;
        assert(levels[l].price == m.orders[id].price);
    }
}

/// The best level of a side is that of the best price at which something rests, and there is
/// none where nothing rests.
pub proof fn law_best_is_the_best_price(m: BookModel, side: Side)
    requires
        m.wf(),
        m.len() <= u32::MAX,
    ensures
        m.best(side) is None <==> forall|id: u64| #[trigger] m.has(id) ==> m.orders[id].side != side,
        m.best(side) matches Some(l) ==> {
            &&& m.queue(side, l.price).len() > 0
            &&& l.quantity == m.quantity_at(side, l.price)
            &&& l.order_count == m.queue(side, l.price).len()
            &&& forall|id: u64| #[trigger]
                m.has(id) && m.orders[id].side == side ==> (if side == Side::Bid {
                    m.orders[id].price <= l.price
                } else {
                    m.orders[id].price >= l.price
                })
        },
{
    let levels = m.levels(side);
    law_levels_exist(m, side);
    law_levels_are_exact(m, side);
    assert forall|id: u64| #[trigger] m.has(id) && m.orders[id].side == side implies levels.len()
        > 0 && (if side == Side::Bid {
        m.orders[id].price <= levels[0].price
    } else {
        m.orders[id].price >= levels[0].price
    }) by {
        assert(m.queue(side, m.orders[id].price).contains(id));
        assert(m.queue(side, m.orders[id].price).len() > 0);
        let l = choose|l: int|
            0 <= l < levels.len() && (#[trigger] levels[l]).price == m.orders[id].price;
        if l > 0 {
            assert(ahead(side, levels[0].price as int, levels[l].price as int));
        }
    }
    if levels.len() > 0 {
        assert(m.queue(side, levels[0].price).len() > 0);
        let id = m.queue(side, levels[0].price)[0];
        assert(m.has(id) && m.orders[id].side == side);
    }
}

} // verus!
