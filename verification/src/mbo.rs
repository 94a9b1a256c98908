//! The fast book.
//!
//! Orders live in a slab, are found by id through an open-addressed table, and
//! queue at their price in lists that run through the slab. Prices index a dense
//! array directly, and the array's window slides when the market leaves it. None
//! of it allocates once the book is made.

use crate::ladder::{
    belongs, best_ok, cell_ok, chained, empty_cell, link, linked_at, occupied_slots, relinked,
    same_data, total, Ladder, Node,
};
use crate::message::Side;
use crate::model::{
    add_outcome, ahead, delete_outcome, lemma_index_of, lemma_levels_are, queue_quantity,
    reduce_outcome, replace_outcome, take_depth, without, BookError, BookModel, Level, RestingOrder,
};
use crate::order_map::{can_hold, table_fits, OrderMap, NIL};
use crate::space::{is_extent, lemma_extent_is, occupied_price, placed_window, Space};
use crate::tick::{
    keep_view, law_price_at_of_slot, law_rebase_holds, law_rebase_keeps_prices,
    law_slot_of_price_at, Slot, TickIndex, TickWindow,
};
use vstd::prelude::*;

mod audit;

verus! {

/// How big a book is made.
#[derive(Debug, Clone, Copy, PartialEq, Eq, Structural)]
pub struct MboCapacity {
    /// Price levels per side.
    pub levels: usize,
    /// Orders that can rest at once.
    pub orders: usize,
    /// The price the window starts out centred on.
    pub reference_price: i64,
    /// The price increment.
    pub tick: i64,
}

impl MboCapacity {
    pub fn new(reference_price: i64, tick: i64) -> (r: Self)
        ensures
            r == (MboCapacity { levels: 4096, orders: 65536, reference_price, tick }),
    {
        MboCapacity { levels: 4096, orders: 65536, reference_price, tick }
    }

    /// The levels a book is really given.
    pub open spec fn level_slots(self) -> int {
        if self.levels < 4 {
            4
        } else {
            self.levels as int
        }
    }

    /// The orders a book really has room for.
    pub open spec fn order_slots(self) -> int {
        if self.orders < 4 {
            4
        } else {
            self.orders as int
        }
    }

    pub open spec fn window(self) -> TickWindow {
        TickWindow::centred(self.reference_price as int, self.tick as int, self.level_slots())
    }

    /// A book of this size can be made: its prices are representable, and slots and
    /// nodes can be numbered in 32 bits.
    pub open spec fn valid(self) -> bool {
        &&& self.window().valid()
        &&& self.level_slots() <= u32::MAX
        &&& table_fits(self.order_slots())
    }

    /// Whether a book of this size can be made.
    pub fn is_valid(&self) -> (r: bool)
        ensures
            r == self.valid(),
    {
        let levels: usize = if self.levels < 4 {
            4
        } else {
            self.levels
        };
        let orders: usize = if self.orders < 4 {
            4
        } else {
            self.orders
        };
        TickIndex::can_centre(self.reference_price, self.tick, levels) && levels
            <= u32::MAX as usize && can_hold(orders)
    }
}

/// What a book has been through.
#[derive(Debug, Clone, Copy, PartialEq, Eq, Structural)]
pub struct MboStats {
    /// Times the price window slid.
    pub rebases: u64,
    /// Slots probed past the home slot, over all lookups.
    pub extra_probes: u64,
    pub lookups: u64,
    pub peak_orders: usize,
}

impl Default for MboStats {
    fn default() -> (r: Self)
        ensures
            r == (MboStats { rebases: 0, extra_probes: 0, lookups: 0, peak_orders: 0 }),
    {
        MboStats { rebases: 0, extra_probes: 0, lookups: 0, peak_orders: 0 }
    }
}

impl MboStats {
    /// One lookup later, which went `probes` slots past home. The counters wrap.
    pub open spec fn looked_up(self, probes: int) -> MboStats {
        MboStats {
            lookups: vstd::wrapping::u64_specs::wrapping_add(self.lookups, 1),
            extra_probes: vstd::wrapping::u64_specs::wrapping_add(
                self.extra_probes,
                probes as u64,
            ),
            ..self
        }
    }

    pub open spec fn rebased(self, moved: bool) -> MboStats {
        if moved {
            MboStats {
                rebases: vstd::wrapping::u64_specs::wrapping_add(self.rebases, 1),
                ..self
            }
        } else {
            self
        }
    }

    pub open spec fn peaked(self, orders: int) -> MboStats {
        if orders > self.peak_orders {
            MboStats { peak_orders: orders as usize, ..self }
        } else {
            self
        }
    }
}

/// The order that a node stands for.
pub open spec fn order_of(n: Node) -> RestingOrder {
    RestingOrder { order_id: n.order_id, price: n.price, quantity: n.quantity, side: n.side }
}

/// The ids of the nodes of a queue.
pub open spec fn ids(nodes: Seq<Node>, q: Seq<u32>) -> Seq<u64> {
    Seq::new(q.len(), |i: int| nodes[q[i] as int].order_id)
}

/// The node at `i` of the free list is free and leads to the next.
spec fn free_at(nodes: Seq<Node>, free: Seq<u32>, i: int) -> bool {
    &&& free[i] < nodes.len()
    &&& nodes[free[i] as int].slot == NIL
    &&& nodes[free[i] as int].next == link(free, i + 1)
}

spec fn free_ok(nodes: Seq<Node>, free: Seq<u32>, head: u32) -> bool {
    &&& free.no_duplicates()
    &&& forall|i: int| 0 <= i < free.len() ==> #[trigger] free_at(nodes, free, i)
    &&& head == link(free, 0)
}

pub struct MboBook {
    index: TickIndex,
    bids: Ladder,
    asks: Ladder,
    nodes: Vec<Node>,
    free_head: u32,
    free: Ghost<Seq<u32>>,
    map: OrderMap,
    live: usize,
    stats: MboStats,
}

/// The node that `order_id` maps to is linked into the level it names.
spec fn live_at(
    nodes: Seq<Node>,
    bids: Ladder,
    asks: Ladder,
    map: Map<u64, u32>,
    order_id: u64,
    cap: int,
) -> bool {
    let n = nodes[map[order_id] as int];
    &&& map[order_id] < nodes.len()
    &&& n.order_id == order_id
    &&& n.slot < cap
    &&& match n.side {
        Side::Bid => bids.queues@[n.slot as int].contains(map[order_id]),
        Side::Ask => asks.queues@[n.slot as int].contains(map[order_id]),
    }
}

impl View for MboBook {
    type V = BookModel;

    closed spec fn view(&self) -> BookModel {
        BookModel {
            orders: Map::new(
                |id: u64| self.map@.dom().contains(id),
                |id: u64| order_of(self.nodes@[self.map@[id] as int]),
            ),
            queues: |side: Side, price: i64| self.queue_at(side, price),
        }
    }
}

impl MboBook {
    spec fn ladder(&self, side: Side) -> Ladder {
        match side {
            Side::Bid => self.bids,
            Side::Ask => self.asks,
        }
    }

    spec fn queue_at(&self, side: Side, price: i64) -> Seq<u64> {
        match self.index@.slot(price as int) {
            Slot::At(i) => ids(self.nodes@, self.ladder(side).queues@[i as int]),
            _ => Seq::empty(),
        }
    }

    pub closed spec fn wf(self) -> bool {
        &&& self.index@.valid()
        &&& self.index@.capacity <= u32::MAX
        &&& 0 < self.nodes@.len() <= u32::MAX
        &&& self.bids.inv(self.nodes@, Side::Bid, self.index@)
        &&& self.asks.inv(self.nodes@, Side::Ask, self.index@)
        &&& free_ok(self.nodes@, self.free@, self.free_head)
        &&& self.map.wf()
        &&& self.map.slots() >= 4 * self.nodes@.len()
        &&& self.map@.dom().finite()
        &&& forall|id: u64| #[trigger]
            self.map@.dom().contains(id) ==> live_at(
                self.nodes@,
                self.bids,
                self.asks,
                self.map@,
                id,
                self.index@.capacity,
            )
        &&& forall|x: int|
            0 <= x < self.nodes@.len() && (#[trigger] self.nodes@[x]).slot != NIL
                ==> self.map@.contains_pair(self.nodes@[x].order_id, x as u32)
        &&& self.live == self.map@.len()
        &&& self.free@.len() + self.live == self.nodes@.len()
    }

    /// The prices the book can hold without sliding.
    pub closed spec fn window(self) -> TickWindow {
        self.index@
    }

    /// How many orders can rest at once.
    pub closed spec fn order_capacity(self) -> nat {
        self.nodes@.len()
    }

    pub closed spec fn counters(self) -> MboStats {
        self.stats
    }

    /// How many slots past its home a lookup of `order_id` goes.
    pub closed spec fn probes(self, order_id: u64) -> int {
        self.map.probes(order_id)
    }

    /// The table slot at which a lookup of `order_id` starts.
    pub closed spec fn home(self, order_id: u64) -> int {
        self.map.home(order_id)
    }

    /// The window that holds `price` and everything that rests, if there is one.
    pub open spec fn placement(self, price: i64) -> Option<TickWindow> {
        placed_window(self.window(), self@, price)
    }

    /// The room the book has.
    pub open spec fn space(self) -> Space {
        Space::Bounded { window: self.window(), orders: self.order_capacity() }
    }

    /// What the book's size refuses a move to `price` for.
    pub open spec fn price_refusal(self, order_id: u64, price: i64) -> Option<BookError> {
        self.space().price_refusal(self@, order_id, price)
    }

    /// What the book's size refuses a new order for.
    pub open spec fn add_refusal(self, order_id: u64, price: i64) -> Option<BookError> {
        self.space().add_refusal(self@, order_id, price)
    }

    /// The node of a level is no other than the map says.
    proof fn lemma_member(&self, side: Side, s: int, i: int)
        requires
            self.wf(),
            0 <= s < self.index@.capacity,
            0 <= i < self.ladder(side).queues@[s].len(),
        ensures
            ({
                let x = self.ladder(side).queues@[s][i];
                &&& x < self.nodes@.len()
                &&& belongs(self.nodes@[x as int], side, s, self.index@.price_at(s))
                &&& self.map@.contains_pair(self.nodes@[x as int].order_id, x)
            }),
    {
        let q = self.ladder(side).queues@[s];
        assert(cell_ok(
            self.nodes@,
            self.ladder(side).cells@[s],
            self.ladder(side).queues@[s],
            side,
            s,
            self.index@.price_at(s),
        ));
        assert(q[i] < self.nodes@.len());
        assert(belongs(self.nodes@[q[i] as int], side, s, self.index@.price_at(s)));
        assert(self.nodes@[q[i] as int].slot != NIL);
    }

    proof fn lemma_level_nodup(&self, side: Side, s: int)
        requires
            self.wf(),
            0 <= s < self.index@.capacity,
        ensures
            self.ladder(side).queues@[s].no_duplicates(),
    {
        assert(cell_ok(
            self.nodes@,
            self.ladder(side).cells@[s],
            self.ladder(side).queues@[s],
            side,
            s,
            self.index@.price_at(s),
        ));
    }

    /// A slot at which something rests stands for a price.
    proof fn lemma_priced(&self, side: Side, s: int)
        requires
            self.wf(),
            0 <= s < self.index@.capacity,
            self.ladder(side).queues@[s].len() > 0,
        ensures
            i64::MIN <= self.index@.price_at(s) <= i64::MAX,
    {
        self.lemma_member(side, s, 0);
    }

    /// A price in the window and the slot it falls in name each other.
    proof fn lemma_slots(&self)
        requires
            self.wf(),
        ensures
            forall|s: int|
                0 <= s < self.index@.capacity ==> {
                    &&& i64::MIN <= #[trigger] self.index@.price_at(s)
                    &&& self.index@.slot(self.index@.price_at(s)) == Slot::At(s as usize)
                },
            forall|p: i64|
                self.index@.holds(p as int) ==> {
                    &&& (#[trigger] self.index@.slot(p as int))->At_0 < self.index@.capacity
                    &&& self.index@.price_at(self.index@.slot(p as int)->At_0 as int) == p
                },
    {
        assert(self.index@.capacity <= usize::MAX);
        assert forall|s: int| 0 <= s < self.index@.capacity implies {
            &&& i64::MIN <= #[trigger] self.index@.price_at(s)
            &&& self.index@.slot(self.index@.price_at(s)) == Slot::At(s as usize)
        } by {
            law_slot_of_price_at(self.index@, s);
        }
        assert forall|p: i64| self.index@.holds(p as int) implies {
            &&& (#[trigger] self.index@.slot(p as int))->At_0 < self.index@.capacity
            &&& self.index@.price_at(self.index@.slot(p as int)->At_0 as int) == p
        } by {
            law_price_at_of_slot(self.index@, p as int);
        }
    }

    /// A book's model is well-formed.
    pub proof fn lemma_model_wf(&self)
        requires
            self.wf(),
        ensures
            self@.wf(),
            self@.len() <= self.order_capacity(),
            self.window().valid(),
    {
        let m = self@;
        self.lemma_slots();
        assert(m.orders.dom() =~= self.map@.dom());
        assert forall|id: u64| #[trigger] m.has(id) implies {
            &&& m.orders[id].order_id == id
            &&& m.orders[id].quantity > 0
            &&& m.queue(m.orders[id].side, m.orders[id].price).contains(id)
        } by {
            assert(self.map@.dom().contains(id));
            let x = self.map@[id];
            let n = self.nodes@[x as int];
            let q = self.ladder(n.side).queues@[n.slot as int];
            let i = choose|i: int| 0 <= i < q.len() && q[i] == x;
            self.lemma_member(n.side, n.slot as int, i);
            assert(self.index@.price_at(n.slot as int) == n.price);
            assert(self.index@.slot(n.price as int) == Slot::At(n.slot as usize));
            assert(m.queue(n.side, n.price) == ids(self.nodes@, q));
            assert(ids(self.nodes@, q)[i] == id);
        }
        assert forall|side: Side, price: i64, i: int|
            0 <= i < m.queue(side, price).len() implies {
            let id = #[trigger] m.queue(side, price)[i];
            &&& m.has(id)
            &&& m.orders[id].side == side
            &&& m.orders[id].price == price
        } by {
            let s = self.index@.slot(price as int)->At_0 as int;
            assert(m.queue(side, price) == self.queue_at(side, price));
            self.lemma_member(side, s, i);
        }
        assert forall|side: Side, price: i64| (#[trigger] m.queue(side, price)).no_duplicates() by {
            assert(m.queue(side, price) == self.queue_at(side, price));
            if self.index@.holds(price as int) {
                let s = self.index@.slot(price as int)->At_0 as int;
                let q = self.ladder(side).queues@[s];
                assert(cell_ok(
                    self.nodes@,
                    self.ladder(side).cells@[s],
                    self.ladder(side).queues@[s],
                    side,
                    s,
                    self.index@.price_at(s),
                ));
                assert forall|i: int, j: int|
                    0 <= i < q.len() && 0 <= j < q.len() && i != j implies ids(self.nodes@, q)[i]
                    != ids(self.nodes@, q)[j] by {
                    self.lemma_member(side, s, i);
                    self.lemma_member(side, s, j);
                }
            }
        }
    }
}

/// The node of a slab that nothing uses, leading to `next`.
fn free_node(next: u32) -> (r: Node)
    ensures
        r.slot == NIL,
        r.next == next,
{
    Node { order_id: 0, price: 0, quantity: 0, side: Side::Bid, slot: NIL, next, prev: NIL }
}

/// The free list of a slab in which every node is free.
spec fn all_free(n: int) -> Seq<u32> {
    Seq::new(n as nat, |i: int| i as u32)
}

proof fn lemma_all_free(nodes: Seq<Node>)
    requires
        0 < nodes.len() <= u32::MAX,
        forall|x: int|
            0 <= x < nodes.len() ==> (#[trigger] nodes[x]).slot == NIL && nodes[x].next == (if x + 1
                < nodes.len() {
                (x + 1) as u32
            } else {
                NIL
            }),
    ensures
        free_ok(nodes, all_free(nodes.len() as int), 0),
{
    let free = all_free(nodes.len() as int);
    assert forall|i: int| 0 <= i < free.len() implies #[trigger] free_at(nodes, free, i) by {
        assert(nodes[i].slot == NIL);
    }
}

impl MboBook {
    /// An empty book. All the memory it will ever use is taken here.
    pub fn new(cap: MboCapacity) -> (r: Self)
        requires
            cap.valid(),
        ensures
            r.wf(),
            r@ == BookModel::empty(),
            r.window() == cap.window(),
            r.order_capacity() == cap.order_slots(),
            r.counters() == (MboStats { rebases: 0, extra_probes: 0, lookups: 0, peak_orders: 0 }),
    {
        let levels: usize = if cap.levels < 4 {
            4
        } else {
            cap.levels
        };
        let orders: usize = if cap.orders < 4 {
            4
        } else {
            cap.orders
        };
        let mut nodes: Vec<Node> = Vec::with_capacity(orders);
        let mut i: usize = 0;
        while i < orders
            invariant
                i <= orders <= u32::MAX,
                nodes@.len() == i,
                forall|x: int|
                    0 <= x < i ==> (#[trigger] nodes@[x]).slot == NIL && nodes@[x].next == (if x + 1
                        < orders {
                        (x + 1) as u32
                    } else {
                        NIL
                    }),
            decreases orders - i,
        {
            let next: u32 = if i + 1 < orders {
                (i + 1) as u32
            } else {
                NIL
            };
            nodes.push(free_node(next));
            i = i + 1;
        }
        let r = MboBook {
            index: TickIndex::centred_on(cap.reference_price, cap.tick, levels),
            bids: Ladder::new(levels),
            asks: Ladder::new(levels),
            nodes,
            free_head: 0,
            free: Ghost(all_free(orders as int)),
            map: OrderMap::new(orders),
            live: 0,
            stats: MboStats::default(),
        };
        proof {
            r.lemma_empty();
        }
        r
    }

    /// A book of empty ladders, a slab of free nodes and an empty table is an empty
    /// book.
    proof fn lemma_empty(&self)
        requires
            self.index@.valid(),
            self.index@.capacity <= u32::MAX,
            0 < self.nodes@.len() <= u32::MAX,
            forall|x: int|
                0 <= x < self.nodes@.len() ==> (#[trigger] self.nodes@[x]).slot == NIL
                    && self.nodes@[x].next == (if x + 1 < self.nodes@.len() {
                    (x + 1) as u32
                } else {
                    NIL
                }),
            self.free@ == all_free(self.nodes@.len() as int),
            self.free_head == 0,
            self.map.wf(),
            self.map@ == Map::<u64, u32>::empty(),
            self.map.slots() >= 4 * self.nodes@.len(),
            self.live == 0,
            forall|side: Side|
                {
                    let l = #[trigger] self.ladder(side);
                    &&& l.cells@.len() == self.index@.capacity
                    &&& l.queues@.len() == self.index@.capacity
                    &&& l.best is None
                    &&& l.occupied == 0
                    &&& forall|s: int|
                        0 <= s < self.index@.capacity ==> (#[trigger] l.cells@[s]) == empty_cell()
                    &&& forall|s: int|
                        0 <= s < self.index@.capacity ==> (#[trigger] l.queues@[s]) == Seq::<
                            u32,
                        >::empty()
                },
        ensures
            self.wf(),
            self@ == BookModel::empty(),
    {
        lemma_all_free(self.nodes@);
        assert(self.ladder(Side::Bid) == self.bids);
        assert(self.ladder(Side::Ask) == self.asks);
        self.bids.lemma_empty_inv(self.nodes@, Side::Bid, self.index@);
        self.asks.lemma_empty_inv(self.nodes@, Side::Ask, self.index@);
        assert(self.wf());
        self.lemma_slots();
        assert(self@.orders =~= Map::<u64, RestingOrder>::empty());
        assert forall|side: Side, price: i64| #[trigger]
            self.queue_at(side, price) == Seq::<u64>::empty() by {
            assert(self.queue_at(side, price) =~= Seq::<u64>::empty());
        }
        assert(self@.queues =~= BookModel::empty().queues);
    }

    /// Empties the book, keeping its memory and its window.
    pub fn clear(&mut self)
        requires
            old(self).wf(),
        ensures
            final(self).wf(),
            final(self)@ == BookModel::empty(),
            final(self).window() == old(self).window(),
            final(self).order_capacity() == old(self).order_capacity(),
            final(self).counters() == old(self).counters(),
            forall|id: u64| final(self).home(id) == old(self).home(id),
    {
        self.bids.clear();
        self.asks.clear();
        let n: usize = self.nodes.len();
        let mut i: usize = 0;
        while i < n
            invariant
                i <= n,
                n == self.nodes@.len(),
                n <= u32::MAX,
                n == old(self).nodes@.len(),
                self.index == old(self).index,
                self.map == old(self).map,
                self.stats == old(self).stats,
                self.bids.cells@.len() == self.index@.capacity,
                self.bids.queues@.len() == self.index@.capacity,
                self.bids.best is None,
                self.bids.occupied == 0,
                self.asks.cells@.len() == self.index@.capacity,
                self.asks.queues@.len() == self.index@.capacity,
                self.asks.best is None,
                self.asks.occupied == 0,
                forall|s: int|
                    0 <= s < self.index@.capacity ==> (#[trigger] self.bids.cells@[s])
                        == empty_cell(),
                forall|s: int|
                    0 <= s < self.index@.capacity ==> (#[trigger] self.bids.queues@[s]) == Seq::<
                        u32,
                    >::empty(),
                forall|s: int|
                    0 <= s < self.index@.capacity ==> (#[trigger] self.asks.cells@[s])
                        == empty_cell(),
                forall|s: int|
                    0 <= s < self.index@.capacity ==> (#[trigger] self.asks.queues@[s]) == Seq::<
                        u32,
                    >::empty(),
                forall|x: int|
                    0 <= x < i ==> (#[trigger] self.nodes@[x]).slot == NIL && self.nodes@[x].next
                        == (if x + 1 < n {
                        (x + 1) as u32
                    } else {
                        NIL
                    }),
            decreases n - i,
        {
            let next: u32 = if i + 1 < n {
                (i + 1) as u32
            } else {
                NIL
            };
            self.nodes.set(i, free_node(next));
            i = i + 1;
        }
        self.map.clear();
        self.free_head = 0;
        self.free = Ghost(all_free(n as int));
        self.live = 0;
        proof {
            self.lemma_empty();
        }
    }

    /// The lowest and the highest slot at which something rests, on either side.
    fn occupied_extent(&self) -> (r: (Option<usize>, Option<usize>))
        requires
            self.wf(),
        ensures
            r.0 is Some <==> r.1 is Some,
            r.0 is None ==> forall|s: int|
                0 <= s < self.index@.capacity ==> !#[trigger] self.occupied_at(s),
            r.0 matches Some(lo) ==> lo < self.index@.capacity && self.occupied_at(lo as int),
            r.1 matches Some(hi) ==> hi < self.index@.capacity && self.occupied_at(hi as int),
            r.0 is Some ==> forall|s: int|
                0 <= s < self.index@.capacity && #[trigger] self.occupied_at(s) ==> r.0->0 <= s
                    <= r.1->0,
    {
        let cap: usize = self.index.capacity();
        let mut lo: Option<usize> = None;
        let mut hi: Option<usize> = None;
        let mut i: usize = 0;
        while i < cap
            invariant
                self.wf(),
                cap == self.index@.capacity,
                i <= cap,
                lo is Some <==> hi is Some,
                lo is None ==> forall|s: int| 0 <= s < i ==> !#[trigger] self.occupied_at(s),
                lo matches Some(l) ==> l < i && self.occupied_at(l as int),
                hi matches Some(h) ==> h < i && self.occupied_at(h as int),
                lo is Some ==> forall|s: int|
                    0 <= s < i && #[trigger] self.occupied_at(s) ==> lo->0 <= s <= hi->0,
            decreases cap - i,
        {
            assert(cell_ok(
                self.nodes@,
                self.bids.cells@[i as int],
                self.bids.queues@[i as int],
                Side::Bid,
                i as int,
                self.index@.price_at(i as int),
            ));
            assert(cell_ok(
                self.nodes@,
                self.asks.cells@[i as int],
                self.asks.queues@[i as int],
                Side::Ask,
                i as int,
                self.index@.price_at(i as int),
            ));
            if self.bids.cells[i].orders != 0 || self.asks.cells[i].orders != 0 {
                assert(self.occupied_at(i as int));
                if lo.is_none() {
                    lo = Some(i);
                }
                hi = Some(i);
            }
            i = i + 1;
        }
        (lo, hi)
    }

    spec fn occupied_at(&self, s: int) -> bool {
        self.bids.queues@[s].len() > 0 || self.asks.queues@[s].len() > 0
    }

    /// A price at which something rests is that of an occupied slot.
    proof fn lemma_occupied_price(&self, p: i64)
        requires
            self.wf(),
        ensures
            occupied_price(self@, p) <==> (self.index@.holds(p as int) && self.occupied_at(
                self.index@.slot(p as int)->At_0 as int,
            )),
    {
        assert(self@.queue(Side::Bid, p) == self.queue_at(Side::Bid, p));
        assert(self@.queue(Side::Ask, p) == self.queue_at(Side::Ask, p));
    }

    /// Slides the window onto `price`, if everything that rests can come along.
    fn rebase(&mut self, order_id: u64, price: i64) -> (r: Result<(), BookError>)
        requires
            old(self).wf(),
            old(self).index@.slot(price as int) == Slot::Outside,
        ensures
            final(self).wf(),
            final(self)@ == old(self)@,
            final(self).map == old(self).map,
            final(self).nodes@.len() == old(self).nodes@.len(),
            forall|x: int|
                0 <= x < old(self).nodes@.len() ==> order_of(#[trigger] final(self).nodes@[x])
                    == order_of(old(self).nodes@[x]),
            r == (if old(self).placement(price) is Some {
                Ok::<(), BookError>(())
            } else {
                Err(BookError::PriceOutOfRange { order_id, price })
            }),
            r is Ok ==> final(self).index@ == old(self).placement(price)->0
                && final(self).index@.holds(price as int),
            r is Err ==> final(self).index == old(self).index,
            final(self).stats == old(self).stats.rebased(r is Ok),
    {
        let (lo, hi) = self.occupied_extent();
        proof {
            self.lemma_slots();
        }
        let keep: Option<(i64, i64)> = match (lo, hi) {
            (Some(l), Some(h)) => Some((self.index.price_at(l), self.index.price_at(h))),
            _ => None,
        };
        let ghost w = self.index@;
        proof {
            assert(is_extent(self@, keep)) by {
                assert forall|p: i64| #[trigger] occupied_price(self@, p) implies keep is Some && (
                keep->0).0 <= p <= (keep->0).1 by {
                    self.lemma_occupied_price(p);
                    let s = w.slot(p as int)->At_0 as int;
                    assert(self.occupied_at(s));
                    assert(w.price_at(s) == p);
                    lemma_price_order(w, lo->0 as int, s);
                    lemma_price_order(w, s, hi->0 as int);
                }
                if keep is Some {
                    self.lemma_occupied_price((keep->0).0);
                    self.lemma_occupied_price((keep->0).1);
                }
            }
            lemma_extent_is(self@, keep);
        }
        let (moved, shift) = match self.index.rebase_for(price, keep) {
            None => return Err(BookError::PriceOutOfRange { order_id, price }),
            Some(x) => x,
        };
        proof {
            let kv = keep_view(keep);
            if keep is Some {
                law_price_at_of_slot(w, (keep->0).0 as int);
                assert(w.holds((keep->0).0 as int));
            }
            assert forall|s: int| 0 <= s < w.capacity && #[trigger] self.occupied_at(s) implies 0
                <= s - shift < w.capacity by {
                let p = w.price_at(s);
                lemma_price_order(w, lo->0 as int, s);
                lemma_price_order(w, s, hi->0 as int);
                assert(w.holds(p));
                law_rebase_holds(w, price as int, kv, p);
                law_rebase_keeps_prices(w, price as int, kv, s);
                let j = moved@.slot(p)->At_0 as int;
                law_price_at_of_slot(moved@, p);
                assert(moved@.price_at(s - shift) == moved@.price_at(j));
                lemma_price_order(moved@, s - shift, j);
                lemma_price_order(moved@, j, s - shift);
            }
            assert forall|s: int|
                0 <= s < w.capacity && (
                #[trigger] self.bids.queues@[s]).len() > 0 implies 0 <= s - shift < w.capacity by {
                assert(self.occupied_at(s));
            }
            assert forall|s: int|
                0 <= s < w.capacity && (
                #[trigger] self.asks.queues@[s]).len() > 0 implies 0 <= s - shift < w.capacity by {
                assert(self.occupied_at(s));
            }
        }
        self.bids.shift(shift, Ghost(Side::Bid));
        self.asks.shift(shift, Ghost(Side::Ask));
        let n: usize = self.nodes.len();
        let mut i: usize = 0;
        let ghost nodes0 = self.nodes@;
        while i < n
            invariant
                i <= n,
                n == self.nodes@.len(),
                n == nodes0.len(),
                nodes0 == old(self).nodes@,
                old(self).wf(),
                self.map == old(self).map,
                self.index == old(self).index,
                w == self.index@,
                self.free == old(self).free,
                self.free_head == old(self).free_head,
                self.live == old(self).live,
                self.stats == old(self).stats,
                forall|s: int|
                    0 <= s < w.capacity && #[trigger] old(self).occupied_at(s) ==> 0 <= s - shift
                        < w.capacity,
                forall|x: int|
                    0 <= x < n ==> (#[trigger] self.nodes@[x]) == (if x < i && nodes0[x].slot != NIL {
                        Node { slot: (nodes0[x].slot - shift) as u32, ..nodes0[x] }
                    } else {
                        nodes0[x]
                    }),
                forall|x: int|
                    0 <= x < i && (#[trigger] nodes0[x]).slot != NIL ==> 0 <= nodes0[x].slot - shift
                        < w.capacity,
                self.bids.cells@.len() == w.capacity,
                self.asks.cells@.len() == w.capacity,
                shifted(old(self).bids, self.bids, shift as int, Side::Bid),
                shifted(old(self).asks, self.asks, shift as int, Side::Ask),
            decreases n - i,
        {
            let mut node = self.nodes[i];
            if node.slot != NIL {
                proof {
                    assert(nodes0[i as int].slot != NIL);
                    old(self).lemma_node_is_live(i as int);
                }
                let slot: i128 = node.slot as i128 - shift as i128;
                node.slot = slot as u32;
                self.nodes.set(i, node);
            }
            i = i + 1;
        }
        self.index = moved;
        self.stats.rebases = self.stats.rebases.wrapping_add(1);
        proof {
            lemma_rebased(*old(self), *self, price as int, keep_view(keep), shift as int);
            law_rebase_holds(w, price as int, keep_view(keep), price as int);
        }
        Ok(())
    }

    /// The free list leads to nodes without a level.
    spec fn free_node_at(&self, i: int) -> bool {
        free_at(self.nodes@, self.free@, i)
    }

    /// An id leads to a node that is linked in under it.
    proof fn lemma_mapped(&self, id: u64)
        requires
            self.wf(),
            self.map@.dom().contains(id),
        ensures
            self.map@[id] < self.nodes@.len(),
            self.nodes@[self.map@[id] as int].order_id == id,
            self.nodes@[self.map@[id] as int].slot < self.index@.capacity,
            self.nodes@[self.map@[id] as int].slot != NIL,
    {
        assert(live_at(
            self.nodes@,
            self.bids,
            self.asks,
            self.map@,
            id,
            self.index@.capacity,
        ));
    }

    /// A link leads to a node or nowhere.
    proof fn lemma_next_in_range(&self, x: int)
        requires
            self.wf(),
            0 <= x < self.nodes@.len(),
            forall|y: int| 0 <= y < self.nodes@.len() && (#[trigger] self.nodes@[y]).slot == NIL ==> self.free@.contains(y as u32),
        ensures
            self.nodes@[x].next == NIL || self.nodes@[x].next < self.nodes@.len(),
    {
        let n = self.nodes@[x];
        if n.slot != NIL {
            self.lemma_node_is_live(x);
            let q = self.ladder(n.side).queues@[n.slot as int];
            let i = choose|i: int| 0 <= i < q.len() && q[i] == x as u32;
            assert(cell_ok(
                self.nodes@,
                self.ladder(n.side).cells@[n.slot as int],
                self.ladder(n.side).queues@[n.slot as int],
                n.side,
                n.slot as int,
                self.index@.price_at(n.slot as int),
            ));
            assert(linked_at(self.nodes@, q, i));
            if i + 1 < q.len() {
                assert(q[i + 1] < self.nodes@.len());
            }
        } else {
            let i = choose|i: int| 0 <= i < self.free@.len() && self.free@[i] == x as u32;
            assert(free_at(self.nodes@, self.free@, i));
            if i + 1 < self.free@.len() {
                assert(free_at(self.nodes@, self.free@, i + 1));
            }
        }
    }

    /// A node with a slot is linked into that level.
    proof fn lemma_node_is_live(&self, x: int)
        requires
            self.wf(),
            0 <= x < self.nodes@.len(),
            self.nodes@[x].slot != NIL,
        ensures
            self.nodes@[x].slot < self.index@.capacity,
            self.occupied_at(self.nodes@[x].slot as int),
            self.ladder(self.nodes@[x].side).queues@[self.nodes@[x].slot as int].contains(x as u32),
            self.map@.contains_pair(self.nodes@[x].order_id, x as u32),
    {
        let n = self.nodes@[x];
        assert(self.map@.contains_pair(n.order_id, x as u32));
        assert(self.map@.dom().contains(n.order_id));
        let q = self.ladder(n.side).queues@[n.slot as int];
        assert(q.contains(x as u32));
        let i = choose|i: int| 0 <= i < q.len() && q[i] == x as u32;
    }
}

/// Of two slots, the one further up has the higher price.
proof fn lemma_price_order(w: TickWindow, a: int, b: int)
    requires
        w.tick >= 1,
    ensures
        a <= b <==> w.price_at(a) <= w.price_at(b),
{
    assert(a <= b <==> a * w.tick <= b * w.tick) by (nonlinear_arith)
        requires
            w.tick >= 1,
    ;
}

/// `b` is `a` with every level moved down by `shift`.
spec fn shifted(a: Ladder, b: Ladder, shift: int, side: Side) -> bool {
    &&& b.cells@.len() == a.cells@.len()
    &&& b.queues@.len() == a.queues@.len()
    &&& b.occupied == occupied_slots(b.queues@).len()
    &&& best_ok(b.queues@, side, b.best)
    &&& forall|s: int|
        0 <= s < a.cells@.len() ==> (#[trigger] b.cells@[s]) == (if 0 <= s + shift
            < a.cells@.len() {
            a.cells@[s + shift]
        } else {
            empty_cell()
        })
    &&& forall|s: int|
        0 <= s < a.cells@.len() ==> (#[trigger] b.queues@[s]) == (if 0 <= s + shift
            < a.cells@.len() {
            a.queues@[s + shift]
        } else {
            Seq::<u32>::empty()
        })
}

/// The levels of a moved ladder are right in the moved window.
proof fn lemma_shifted_inv(
    a: Ladder,
    b: Ladder,
    n0: Seq<Node>,
    n1: Seq<Node>,
    side: Side,
    w: TickWindow,
    to: TickWindow,
    shift: int,
)
    requires
        a.inv(n0, side, w),
        shifted(a, b, shift, side),
        to.capacity == w.capacity,
        n0.len() == n1.len(),
        forall|s: int| to.price_at(s) == #[trigger] w.price_at(s + shift),
        forall|x: int|
            0 <= x < n0.len() ==> (#[trigger] n1[x]) == (if n0[x].slot != NIL {
                Node { slot: (n0[x].slot - shift) as u32, ..n0[x] }
            } else {
                n0[x]
            }),
    ensures
        b.inv(n1, side, to),
{
    assert forall|s: int| 0 <= s < to.capacity implies cell_ok(
        n1,
        b.cells@[s],
        #[trigger] b.queues@[s],
        side,
        s,
        to.price_at(s),
    ) by {
        if 0 <= s + shift < a.cells@.len() {
            let q = a.queues@[s + shift];
            assert(b.queues@[s] == q);
            assert(cell_ok(n0, a.cells@[s + shift], q, side, s + shift, w.price_at(s + shift)));
            assert forall|i: int| 0 <= i < q.len() implies #[trigger] linked_at(n1, q, i) by {
                assert(linked_at(n0, q, i));
                assert(q[i] < n0.len());
            }
            assert forall|i: int| 0 <= i < q.len() implies (#[trigger] q[i]) < n1.len() && belongs(
                n1[q[i] as int],
                side,
                s,
                to.price_at(s),
            ) by {
                assert(belongs(n0[q[i] as int], side, s + shift, w.price_at(s + shift)));
            }
            crate::ladder::lemma_total_same(n0, n1, q);
        } else {
            assert(b.queues@[s] == Seq::<u32>::empty());
        }
    }
}

/// Sliding the window relabels the slots and changes nothing else.
proof fn lemma_rebased(
    pre: MboBook,
    post: MboBook,
    price: int,
    keep: Option<(int, int)>,
    shift: int,
)
    requires
        pre.wf(),
        pre.index@.can_rebase(price, keep),
        keep matches Some((lo, hi)) ==> pre.index@.on_grid(lo),
        post.index@ == pre.index@.placed(price, keep),
        post.index@.valid(),
        shift == pre.index@.shift_to(post.index@),
        shifted(pre.bids, post.bids, shift, Side::Bid),
        shifted(pre.asks, post.asks, shift, Side::Ask),
        post.map == pre.map,
        post.free == pre.free,
        post.free_head == pre.free_head,
        post.live == pre.live,
        post.nodes@.len() == pre.nodes@.len(),
        forall|x: int|
            0 <= x < pre.nodes@.len() ==> (#[trigger] post.nodes@[x]) == (if pre.nodes@[x].slot
                != NIL {
                Node { slot: (pre.nodes@[x].slot - shift) as u32, ..pre.nodes@[x] }
            } else {
                pre.nodes@[x]
            }),
        forall|x: int|
            0 <= x < pre.nodes@.len() && (#[trigger] pre.nodes@[x]).slot != NIL ==> 0
                <= pre.nodes@[x].slot - shift < pre.index@.capacity,
    ensures
        post.wf(),
        post@ == pre@,
{
    let w = pre.index@;
    let to = post.index@;
    assert forall|s: int| to.price_at(s) == #[trigger] w.price_at(s + shift) by {
        law_rebase_keeps_prices(w, price, keep, s + shift);
    }
    lemma_shifted_inv(pre.bids, post.bids, pre.nodes@, post.nodes@, Side::Bid, w, to, shift);
    lemma_shifted_inv(pre.asks, post.asks, pre.nodes@, post.nodes@, Side::Ask, w, to, shift);
    assert forall|i: int| 0 <= i < post.free@.len() implies #[trigger] free_at(
        post.nodes@,
        post.free@,
        i,
    ) by {
        assert(free_at(pre.nodes@, pre.free@, i));
    }
    assert forall|id: u64| #[trigger] post.map@.dom().contains(id) implies live_at(
        post.nodes@,
        post.bids,
        post.asks,
        post.map@,
        id,
        to.capacity,
    ) by {
        assert(live_at(pre.nodes@, pre.bids, pre.asks, pre.map@, id, w.capacity));
        let x = pre.map@[id];
        let n = pre.nodes@[x as int];
        let s = n.slot - shift;
        assert(n.slot != NIL);
        assert(post.nodes@[x as int].slot == s);
        assert(post.ladder(n.side).queues@[s] == pre.ladder(n.side).queues@[s + shift]);
    }
    assert forall|x: int|
        0 <= x < post.nodes@.len() && (
        #[trigger] post.nodes@[x]).slot != NIL implies post.map@.contains_pair(
        post.nodes@[x].order_id,
        x as u32,
    ) by {
        assert(pre.nodes@[x].slot != NIL);
    }
    assert(post.wf());
    pre.lemma_slots();
    post.lemma_slots();
    assert forall|side: Side, p: i64| #[trigger]
        post.queue_at(side, p) == pre.queue_at(side, p) by {
        if w.holds(p as int) {
            let i = w.slot(p as int)->At_0 as int;
            let q = pre.ladder(side).queues@[i];
            assert(w.price_at(i) == p);
            if q.len() > 0 {
                pre.lemma_member(side, i, 0);
                assert(0 <= i - shift < w.capacity);
                assert(to.price_at(i - shift) == w.price_at(i - shift + shift));
                assert(to.slot(p as int) == Slot::At((i - shift) as usize));
                assert(post.ladder(side).queues@[i - shift] == q);
                assert forall|k: int| 0 <= k < q.len() implies post.nodes@[(
                #[trigger] q[k]) as int].order_id == pre.nodes@[q[k] as int].order_id by {
                    pre.lemma_member(side, i, k);
                }
                assert(ids(post.nodes@, q) =~= ids(pre.nodes@, q));
            } else if to.holds(p as int) {
                let j = to.slot(p as int)->At_0 as int;
                assert(to.price_at(j) == p);
                assert(to.price_at(j) == w.price_at(j + shift));
                if 0 <= j + shift < w.capacity {
                    assert(w.slot(w.price_at(j + shift)) == Slot::At((j + shift) as usize));
                }
                assert(post.ladder(side).queues@[j].len() == 0);
            }
        } else if to.holds(p as int) {
            let j = to.slot(p as int)->At_0 as int;
            assert(to.price_at(j) == w.price_at(j + shift));
            if 0 <= j + shift < w.capacity {
                assert(w.slot(w.price_at(j + shift)) == Slot::At((j + shift) as usize));
            }
            assert(post.ladder(side).queues@[j].len() == 0);
        }
        assert(post.queue_at(side, p) =~= pre.queue_at(side, p));
    }
    assert(post@.queues =~= pre@.queues);
    assert(post@.orders =~= pre@.orders) by {
        assert forall|id: u64| post.map@.dom().contains(id) implies order_of(
            post.nodes@[post.map@[id] as int],
        ) == order_of(pre.nodes@[pre.map@[id] as int]) by {
            assert(live_at(pre.nodes@, pre.bids, pre.asks, pre.map@, id, w.capacity));
        }
    }
}

impl MboBook {
    /// The slot of `price`, sliding the window for it if need be.
    fn slot_for(&mut self, order_id: u64, price: i64) -> (r: Result<usize, BookError>)
        requires
            old(self).wf(),
        ensures
            final(self).wf(),
            final(self)@ == old(self)@,
            final(self).map == old(self).map,
            final(self).nodes@.len() == old(self).nodes@.len(),
            forall|x: int|
                0 <= x < old(self).nodes@.len() ==> order_of(#[trigger] final(self).nodes@[x])
                    == order_of(old(self).nodes@[x]),
            r is Err <==> old(self).price_refusal(order_id, price) is Some,
            r matches Err(e) ==> Some(e) == old(self).price_refusal(order_id, price)
                && final(self).index == old(self).index,
            r matches Ok(i) ==> {
                &&& Some(final(self).index@) == old(self).placement(price)
                &&& final(self).index@.slot(price as int) == Slot::At(i)
                &&& i < final(self).index@.capacity
                &&& final(self).index@.price_at(i as int) == price
            },
            final(self).stats == old(self).stats.rebased(
                r is Ok && !old(self).index@.holds(price as int),
            ),
    {
        match self.index.slot(price) {
            Slot::At(i) => {
                proof {
                    self.lemma_slots();
                    assert(self.index@.holds(price as int));
                }
                Ok(i)
            },
            Slot::OffGrid => Err(BookError::PriceOffGrid { order_id, price }),
            Slot::Outside => {
                match self.rebase(order_id, price) {
                    Err(e) => Err(e),
                    Ok(()) => {
                        proof {
                            self.lemma_slots();
                        }
                        match self.index.slot(price) {
                            Slot::At(i) => Ok(i),
                            _ => Err(BookError::PriceOutOfRange { order_id, price }),
                        }
                    },
                }
            },
        }
    }

    /// Looks an id up, and counts the lookup.
    fn map_find(&mut self, order_id: u64) -> (r: Option<usize>)
        requires
            old(self).wf(),
        ensures
            final(self).wf(),
            final(self)@ == old(self)@,
            *final(self) == (MboBook {
                stats: old(self).stats.looked_up(old(self).probes(order_id)),
                ..*old(self)
            }),
            r is Some <==> old(self)@.has(order_id),
            r matches Some(i) ==> old(self).map.slot_of_id(order_id, i as int),
    {
        let (found, probes) = self.map.find(order_id);
        self.stats.lookups = self.stats.lookups.wrapping_add(1);
        self.stats.extra_probes = self.stats.extra_probes.wrapping_add(probes as u64);
        proof {
            assert(self@.orders =~= old(self)@.orders);
            assert forall|side: Side, p: i64| #[trigger]
                self.queue_at(side, p) == old(self).queue_at(side, p) by {}
            assert(self@.queues =~= old(self)@.queues);
        }
        found
    }

    /// Rests an order behind everything at its price.
    pub fn add(&mut self, order_id: u64, side: Side, price: i64, quantity: u32) -> (r: Result<
        (),
        BookError,
    >)
        requires
            old(self).wf(),
        ensures
            final(self).wf(),
            r == add_outcome(old(self)@, old(self).add_refusal(order_id, price), order_id, quantity),
            final(self)@ == (if r is Ok {
                old(self)@.added(RestingOrder { order_id, price, quantity, side })
            } else {
                old(self)@
            }),
            final(self).order_capacity() == old(self).order_capacity(),
            final(self).window() == (if quantity > 0 && !old(self)@.has(order_id) && old(
                self,
            ).placement(price) is Some {
                old(self).placement(price)->0
            } else {
                old(self).window()
            }),
            final(self).counters() == (if quantity == 0 {
                old(self).counters()
            } else if old(self)@.has(order_id) {
                old(self).counters().looked_up(old(self).probes(order_id))
            } else {
                old(self).counters().looked_up(old(self).probes(order_id)).rebased(
                    old(self).placement(price) is Some && !old(self).window().holds(price as int),
                ).peaked(
                    if r is Ok {
                        old(self)@.len() as int + 1
                    } else {
                        0
                    },
                )
            }),
            forall|id: u64| final(self).home(id) == old(self).home(id),
    {
        if quantity == 0 {
            return Err(BookError::ZeroQuantity(order_id));
        }
        proof {
            self.lemma_model_wf();
            assert(self@.orders.dom() =~= self.map@.dom());
        }
        if self.map_find(order_id).is_some() {
            return Err(BookError::DuplicateOrderId(order_id));
        }
        let ghost s1 = *self;
        assert(s1.placement(price) == old(self).placement(price));
        let slot: usize = match self.slot_for(order_id, price) {
            Err(e) => return Err(e),
            Ok(slot) => slot,
        };
        if self.free_head == NIL {
            assert(self.free@.len() == 0) by {
                if self.free@.len() > 0 {
                    assert(free_at(self.nodes@, self.free@, 0));
                }
            }
            assert(self@.orders.dom() =~= self.map@.dom());
            return Err(BookError::SlabFull { order_id, capacity: self.nodes.len() });
        }
        let ghost pre = *self;
        let node: u32 = self.free_head;
        proof {
            assert(pre@.orders.dom() =~= pre.map@.dom());
            assert(pre.free@.len() > 0);
            assert(free_at(pre.nodes@, pre.free@, 0));
        }
        self.free_head = self.nodes[node as usize].next;
        self.free = Ghost(self.free@.drop_first());
        self.nodes.set(
            node as usize,
            Node { order_id, price, quantity, side, slot: slot as u32, next: NIL, prev: NIL },
        );
        let ghost mid = self.nodes@;
        proof {
            pre.lemma_fresh_frames(mid, node);
        }
        match side {
            Side::Bid => self.bids.attach(
                &mut self.nodes,
                Side::Bid,
                slot,
                node,
                Ghost(self.index@),
            ),
            Side::Ask => self.asks.attach(
                &mut self.nodes,
                Side::Ask,
                slot,
                node,
                Ghost(self.index@),
            ),
        }
        self.map.insert(order_id, node);
        self.live = self.live + 1;
        if self.live > self.stats.peak_orders {
            self.stats.peak_orders = self.live;
        }
        proof {
            lemma_added(
                pre,
                mid,
                *self,
                RestingOrder { order_id, price, quantity, side },
                slot as int,
                node,
            );
        }
        Ok(())
    }

    /// A free node is in no level, so writing to it touches none.
    proof fn lemma_fresh_frames(&self, mid: Seq<Node>, node: u32)
        requires
            self.wf(),
            self.free@.len() > 0,
            node == self.free@[0],
            mid.len() == self.nodes@.len(),
            forall|x: int| 0 <= x < mid.len() && x != node ==> mid[x] == self.nodes@[x],
        ensures
            self.bids.inv(mid, Side::Bid, self.index@),
            self.asks.inv(mid, Side::Ask, self.index@),
            forall|side: Side, s: int|
                0 <= s < self.index@.capacity ==> !(#[trigger] self.ladder(
                    side,
                ).queues@[s]).contains(node),
    {
        assert(free_at(self.nodes@, self.free@, 0));
        assert forall|side: Side, s: int|
            0 <= s < self.index@.capacity implies !(#[trigger] self.ladder(
            side,
        ).queues@[s]).contains(node) by {
            let q = self.ladder(side).queues@[s];
            if q.contains(node) {
                let i = choose|i: int| 0 <= i < q.len() && q[i] == node;
                self.lemma_member(side, s, i);
            }
        }
        assert forall|s: int, i: int|
            0 <= s < self.index@.capacity && 0 <= i < self.bids.queues@[s].len() implies mid[(
        #[trigger] self.bids.queues@[s][i]) as int] == self.nodes@[self.bids.queues@[s][i] as int] by {
            self.lemma_member(Side::Bid, s, i);
        }
        self.bids.lemma_frame(self.nodes@, mid, Side::Bid, self.index@);
        assert forall|s: int, i: int|
            0 <= s < self.index@.capacity && 0 <= i < self.asks.queues@[s].len() implies mid[(
        #[trigger] self.asks.queues@[s][i]) as int] == self.nodes@[self.asks.queues@[s][i] as int] by {
            self.lemma_member(Side::Ask, s, i);
        }
        self.asks.lemma_frame(self.nodes@, mid, Side::Ask, self.index@);
        assert(self.ladder(Side::Bid) == self.bids);
        assert(self.ladder(Side::Ask) == self.asks);
    }
}

/// The other side of the book stays right when only nodes of this side change.
proof fn lemma_other_ladder(l: Ladder, n0: Seq<Node>, n1: Seq<Node>, side: Side, w: TickWindow)
    requires
        l.inv(n0, side, w),
        n0.len() == n1.len(),
        forall|x: int| 0 <= x < n0.len() && n0[x].side == side && n0[x].slot != NIL ==> n0[x] == #[trigger] n1[x],
    ensures
        l.inv(n1, side, w),
{
    assert forall|s: int, i: int|
        0 <= s < w.capacity && 0 <= i < l.queues@[s].len() implies n1[(
    #[trigger] l.queues@[s][i]) as int] == n0[l.queues@[s][i] as int] by {
        let x = l.queues@[s][i];
        assert(cell_ok(n0, l.cells@[s], l.queues@[s], side, s, w.price_at(s)));
        assert(belongs(n0[x as int], side, s, w.price_at(s)));
    }
    l.lemma_frame(n0, n1, side, w);
}

/// Two slabs that agree on data give a queue the same ids.
proof fn lemma_ids_same(a: Seq<Node>, b: Seq<Node>, q: Seq<u32>)
    requires
        forall|i: int|
            0 <= i < q.len() ==> a[(#[trigger] q[i]) as int].order_id == b[q[i] as int].order_id,
    ensures
        ids(a, q) == ids(b, q),
{
    assert(ids(a, q) =~= ids(b, q));
}

/// Linking a fresh node in and mapping its id adds the order.
proof fn lemma_added(
    pre: MboBook,
    mid: Seq<Node>,
    post: MboBook,
    order: RestingOrder,
    slot: int,
    node: u32,
)
    requires
        pre.wf(),
        !pre.map@.dom().contains(order.order_id),
        pre.free@.len() > 0,
        node == pre.free@[0],
        0 <= slot < pre.index@.capacity,
        pre.index@.slot(order.price as int) == Slot::At(slot as usize),
        pre.index@.price_at(slot) == order.price,
        order.quantity > 0,
        mid == pre.nodes@.update(
            node as int,
            (Node {
                order_id: order.order_id,
                price: order.price,
                quantity: order.quantity,
                side: order.side,
                slot: slot as u32,
                next: NIL,
                prev: NIL,
            }),
        ),
        pre.ladder(order.side.other()).inv(mid, order.side.other(), pre.index@),
        relinked(mid, post.nodes@, order.side, slot),
        post.ladder(order.side).inv(post.nodes@, order.side, pre.index@),
        post.ladder(order.side).queues@ == pre.ladder(order.side).queues@.update(
            slot,
            pre.ladder(order.side).queues@[slot].push(node),
        ),
        post.ladder(order.side.other()) == pre.ladder(order.side.other()),
        post.index == pre.index,
        post.free@ == pre.free@.drop_first(),
        post.free_head == pre.nodes@[node as int].next,
        post.map.wf(),
        post.map.slots() == pre.map.slots(),
        post.map@ == pre.map@.insert(order.order_id, node),
        post.live == pre.live + 1,
    ensures
        post.wf(),
        post@ == pre@.added(order),
{
    let side = order.side;
    let w = pre.index@;
    let q = pre.ladder(side).queues@[slot];
    let touched = q.push(node);
    assert(free_at(pre.nodes@, pre.free@, 0));
    lemma_other_ladder(pre.ladder(side.other()), mid, post.nodes@, side.other(), w);
    assert(post.bids.inv(post.nodes@, Side::Bid, w));
    assert(post.asks.inv(post.nodes@, Side::Ask, w));
    let free = post.free@;
    assert forall|i: int| 0 <= i < free.len() implies #[trigger] free_at(post.nodes@, free, i) by {
        assert(free_at(pre.nodes@, pre.free@, i + 1));
        assert(free[i] == pre.free@[i + 1]);
        assert(pre.free@[i + 1] != pre.free@[0]);
        assert(mid[free[i] as int] == pre.nodes@[free[i] as int]);
    }
    assert(post.free_head == link(free, 0));
    assert forall|x: int| 0 <= x < mid.len() implies same_data(mid[x], #[trigger] post.nodes@[x]) by {}
    assert forall|id: u64| #[trigger] post.map@.dom().contains(id) implies live_at(
        post.nodes@,
        post.bids,
        post.asks,
        post.map@,
        id,
        w.capacity,
    ) by {
        if id == order.order_id {
            assert(touched[q.len() as int] == node);
            assert(post.ladder(side).queues@[slot].contains(node));
        } else {
            assert(pre.map@.dom().contains(id));
            assert(live_at(pre.nodes@, pre.bids, pre.asks, pre.map@, id, w.capacity));
            let x = pre.map@[id];
            let n = pre.nodes@[x as int];
            assert(x != node);
            assert(same_data(mid[x as int], post.nodes@[x as int]));
            let r = pre.ladder(n.side).queues@[n.slot as int];
            let i = choose|i: int| 0 <= i < r.len() && r[i] == x;
            if n.side == side && n.slot == slot {
                assert(touched[i] == x);
            }
            assert(post.ladder(n.side).queues@[n.slot as int].contains(x));
        }
    }
    assert forall|x: int|
        0 <= x < post.nodes@.len() && (
        #[trigger] post.nodes@[x]).slot != NIL implies post.map@.contains_pair(
        post.nodes@[x].order_id,
        x as u32,
    ) by {
        assert(same_data(mid[x], post.nodes@[x]));
        if x != node {
            assert(pre.nodes@[x].slot != NIL);
            assert(pre.map@.contains_pair(pre.nodes@[x].order_id, x as u32));
        }
    }
    assert(post.wf());
    pre.lemma_slots();
    let m = pre@.added(order);
    assert(post@.orders =~= m.orders) by {
        assert forall|id: u64| post.map@.dom().contains(id) implies order_of(
            post.nodes@[post.map@[id] as int],
        ) == m.orders[id] by {
            if id != order.order_id {
                assert(pre.map@.dom().contains(id));
                assert(live_at(pre.nodes@, pre.bids, pre.asks, pre.map@, id, w.capacity));
                let x = pre.map@[id];
                assert(x != node);
                assert(same_data(mid[x as int], post.nodes@[x as int]));
            } else {
                assert(same_data(mid[node as int], post.nodes@[node as int]));
            }
        }
    }
    assert forall|s: Side, p: i64| #[trigger] post.queue_at(s, p) == m.queue(s, p) by {
        assert(pre@.queue(s, p) == pre.queue_at(s, p));
        if w.holds(p as int) {
            let i = w.slot(p as int)->At_0 as int;
            assert(w.price_at(i) == p);
            let r = pre.ladder(s).queues@[i];
            assert forall|k: int| 0 <= k < r.len() implies pre.nodes@[(
            #[trigger] r[k]) as int].order_id == post.nodes@[r[k] as int].order_id by {
                pre.lemma_member(s, i, k);
                assert(r[k] != node);
                assert(same_data(mid[r[k] as int], post.nodes@[r[k] as int]));
            }
            lemma_ids_same(pre.nodes@, post.nodes@, r);
            if s == side && i == slot {
                assert(p == order.price);
                assert(same_data(mid[node as int], post.nodes@[node as int]));
                assert(ids(post.nodes@, touched) =~= ids(post.nodes@, r).push(order.order_id));
            } else {
                assert(!(s == side && p == order.price));
                assert(post.ladder(s).queues@[i] == r);
            }
        }
    }
    assert(post@.queues =~= m.queues) by {
        assert forall|s: Side, p: i64| #[trigger] post.queue_at(s, p) == (m.queues)(s, p) by {
            assert(m.queue(s, p) == (m.queues)(s, p));
        }
    }
}

/// `post` is `pre` with the node taken out of its level, freed, and unmapped.
spec fn released(pre: MboBook, post: MboBook, order_id: u64, node: u32) -> bool {
    let n = pre.nodes@[node as int];
    let from = n.slot as int;
    let q = pre.ladder(n.side).queues@[from];
    let n1 = post.nodes@;
    &&& post.ladder(n.side).inv(n1, n.side, pre.index@)
    &&& post.ladder(n.side).queues@ == pre.ladder(n.side).queues@.update(
        from,
        q.remove(q.index_of(node)),
    )
    &&& post.ladder(n.side.other()) == pre.ladder(n.side.other())
    &&& n1.len() == pre.nodes@.len()
    &&& n1[node as int].slot == NIL
    &&& n1[node as int].next == pre.free_head
    &&& forall|x: int|
        0 <= x < n1.len() && x != node ==> same_data(pre.nodes@[x], #[trigger] n1[x])
    &&& forall|x: int|
        0 <= x < n1.len() && x != node && !(pre.nodes@[x].side == n.side && pre.nodes@[x].slot
            == from) ==> pre.nodes@[x] == #[trigger] n1[x]
    &&& post.index == pre.index
    &&& post.free@ == seq![node] + pre.free@
    &&& post.free_head == node
    &&& post.map.wf()
    &&& post.map.slots() == pre.map.slots()
    &&& post.map@ == pre.map@.remove(order_id)
    &&& post.live == pre.live - 1
}

/// A freed node at the head of the free list keeps it right.
proof fn lemma_free_pushed(n0: Seq<Node>, n1: Seq<Node>, free: Seq<u32>, head: u32, node: u32)
    requires
        free_ok(n0, free, head),
        n1.len() == n0.len(),
        node < n0.len(),
        n0[node as int].slot != NIL,
        n1[node as int].slot == NIL,
        n1[node as int].next == head,
        forall|x: int|
            0 <= x < n0.len() && x != node && n0[x].slot == NIL ==> n0[x] == #[trigger] n1[x],
    ensures
        free_ok(n1, seq![node] + free, node),
{
    let f = seq![node] + free;
    assert forall|i: int| 0 <= i < free.len() implies (#[trigger] free[i]) != node by {
        assert(free_at(n0, free, i));
    }
    assert(f.no_duplicates()) by {
        assert forall|i: int, j: int|
            0 <= i < f.len() && 0 <= j < f.len() && i != j implies f[i] != f[j] by {
            if i > 0 {
                assert(f[i] == free[i - 1]);
            }
            if j > 0 {
                assert(f[j] == free[j - 1]);
            }
        }
    }
    assert forall|i: int| 0 <= i < f.len() implies #[trigger] free_at(n1, f, i) by {
        if i > 0 {
            assert(free_at(n0, free, i - 1));
            assert(f[i] == free[i - 1]);
            assert(n1[f[i] as int] == n0[f[i] as int]);
            if i + 1 < f.len() {
                assert(f[i + 1] == free[i]);
            }
        } else if f.len() > 1 {
            assert(f[1] == free[0]);
        }
    }
}

/// Releasing a node keeps the book right.
proof fn lemma_released_wf(pre: MboBook, post: MboBook, order_id: u64, node: u32)
    requires
        pre.wf(),
        pre.map@.contains_pair(order_id, node),
        released(pre, post, order_id, node),
    ensures
        post.wf(),
{
    let w = pre.index@;
    let n = pre.nodes@[node as int];
    let side = n.side;
    let o = side.other();
    let from = n.slot as int;
    assert(pre.map@.dom().contains(order_id));
    assert(live_at(pre.nodes@, pre.bids, pre.asks, pre.map@, order_id, w.capacity));
    let q = pre.ladder(side).queues@[from];
    let at = q.index_of(node);
    assert(q.contains(node) && q[at] == node);
    lemma_other_ladder(pre.ladder(o), pre.nodes@, post.nodes@, o, w);
    assert(post.bids.inv(post.nodes@, Side::Bid, w));
    assert(post.asks.inv(post.nodes@, Side::Ask, w));
    lemma_free_pushed(pre.nodes@, post.nodes@, pre.free@, pre.free_head, node);
    assert forall|id: u64| #[trigger] post.map@.dom().contains(id) implies live_at(
        post.nodes@,
        post.bids,
        post.asks,
        post.map@,
        id,
        w.capacity,
    ) by {
        assert(pre.map@.dom().contains(id));
        assert(live_at(pre.nodes@, pre.bids, pre.asks, pre.map@, id, w.capacity));
        let x = pre.map@[id];
        let nx = pre.nodes@[x as int];
        assert(x != node);
        assert(same_data(nx, post.nodes@[x as int]));
        let r = pre.ladder(nx.side).queues@[nx.slot as int];
        let i = choose|i: int| 0 <= i < r.len() && r[i] == x;
        if nx.side == side && nx.slot == from {
            let k = if i < at { i } else { i - 1 };
            assert(q.remove(at)[k] == x);
        }
        assert(post.ladder(nx.side).queues@[nx.slot as int].contains(x));
    }
    assert forall|x: int|
        0 <= x < post.nodes@.len() && (
        #[trigger] post.nodes@[x]).slot != NIL implies post.map@.contains_pair(
        post.nodes@[x].order_id,
        x as u32,
    ) by {
        assert(x != node);
        assert(same_data(pre.nodes@[x], post.nodes@[x]));
        assert(pre.nodes@[x].slot != NIL);
        assert(pre.map@.contains_pair(pre.nodes@[x].order_id, x as u32));
    }
}

/// Releasing a node removes the order.
proof fn lemma_released_view(pre: MboBook, post: MboBook, order_id: u64, node: u32)
    requires
        pre.wf(),
        pre.map@.contains_pair(order_id, node),
        released(pre, post, order_id, node),
    ensures
        post@ == pre@.removed(order_id),
        pre@.has(order_id),
        pre@.orders[order_id] == order_of(pre.nodes@[node as int]),
{
    let w = pre.index@;
    let n = pre.nodes@[node as int];
    let side = n.side;
    let from = n.slot as int;
    assert(pre.map@.dom().contains(order_id));
    assert(live_at(pre.nodes@, pre.bids, pre.asks, pre.map@, order_id, w.capacity));
    let q = pre.ladder(side).queues@[from];
    let at = q.index_of(node);
    let q1 = q.remove(at);
    assert(q.contains(node) && q[at] == node);
    pre.lemma_member(side, from, at);
    pre.lemma_level_nodup(side, from);
    pre.lemma_slots();
    pre.lemma_model_wf();
    let m = pre@.removed(order_id);
    assert(pre@.orders[order_id] == order_of(n));
    assert(post@.orders =~= m.orders) by {
        assert forall|id: u64| post.map@.dom().contains(id) implies order_of(
            post.nodes@[post.map@[id] as int],
        ) == m.orders[id] by {
            assert(pre.map@.dom().contains(id));
            assert(live_at(pre.nodes@, pre.bids, pre.asks, pre.map@, id, w.capacity));
            let x = pre.map@[id];
            assert(x != node);
            assert(same_data(pre.nodes@[x as int], post.nodes@[x as int]));
        }
    }
    assert(w.slot(n.price as int) == Slot::At(from as usize));
    assert forall|s: Side, p: i64| #[trigger] post.queue_at(s, p) == m.queue(s, p) by {
        assert(pre@.queue(s, p) == pre.queue_at(s, p));
        if w.holds(p as int) {
            let i = w.slot(p as int)->At_0 as int;
            assert(w.price_at(i) == p);
            let here = s == side && i == from;
            let r = if here { q1 } else { pre.ladder(s).queues@[i] };
            assert forall|k: int| 0 <= k < r.len() implies pre.nodes@[(
            #[trigger] r[k]) as int].order_id == post.nodes@[r[k] as int].order_id by {
                if here {
                    let j = if k < at { k } else { k + 1 };
                    assert(r[k] == q[j]);
                    assert(q[j] != q[at]);
                    pre.lemma_member(side, from, j);
                } else {
                    pre.lemma_member(s, i, k);
                }
                assert(r[k] != node);
                assert(same_data(pre.nodes@[r[k] as int], post.nodes@[r[k] as int]));
            }
            lemma_ids_same(pre.nodes@, post.nodes@, r);
            assert(post.ladder(s).queues@[i] == r);
            if here {
                assert(p == n.price);
                let iq = ids(pre.nodes@, q);
                assert(iq[at] == order_id);
                assert(pre@.queue(s, p).no_duplicates());
                lemma_index_of(iq, at);
                assert(ids(pre.nodes@, q1) =~= iq.remove(at));
            } else {
                assert(!(s == side && p == n.price));
            }
        }
    }
    assert(post@.queues =~= m.queues) by {
        assert forall|s: Side, p: i64| #[trigger] post.queue_at(s, p) == (m.queues)(s, p) by {
            assert(m.queue(s, p) == (m.queues)(s, p));
        }
    }
}

/// Changing a node's quantity reduces the order.
proof fn lemma_reduced(pre: MboBook, post: MboBook, order_id: u64, node: u32, quantity: u32)
    requires
        pre.wf(),
        pre.map@.contains_pair(order_id, node),
        0 < quantity,
        post.nodes@ == pre.nodes@.update(
            node as int,
            (Node { quantity, ..pre.nodes@[node as int] }),
        ),
        ({
            let n = pre.nodes@[node as int];
            &&& post.ladder(n.side).inv(post.nodes@, n.side, pre.index@)
            &&& post.ladder(n.side).queues@ == pre.ladder(n.side).queues@
            &&& post.ladder(n.side.other()) == pre.ladder(n.side.other())
        }),
        post.index == pre.index,
        post.free == pre.free,
        post.free_head == pre.free_head,
        post.map == pre.map,
        post.live == pre.live,
    ensures
        post.wf(),
        post@ == pre@.reduced(order_id, quantity),
{
    let w = pre.index@;
    let n = pre.nodes@[node as int];
    assert(pre.map@.dom().contains(order_id));
    assert(live_at(pre.nodes@, pre.bids, pre.asks, pre.map@, order_id, w.capacity));
    let o = n.side.other();
    assert forall|t: int, i: int|
        0 <= t < w.capacity && 0 <= i < pre.ladder(o).queues@[t].len() implies post.nodes@[(
    #[trigger] pre.ladder(o).queues@[t][i]) as int]
        == pre.nodes@[pre.ladder(o).queues@[t][i] as int] by {
        pre.lemma_member(o, t, i);
    }
    pre.ladder(o).lemma_frame(pre.nodes@, post.nodes@, o, w);
    assert forall|i: int| 0 <= i < post.free@.len() implies #[trigger] free_at(
        post.nodes@,
        post.free@,
        i,
    ) by {
        assert(free_at(pre.nodes@, pre.free@, i));
    }
    assert forall|id: u64| #[trigger] post.map@.dom().contains(id) implies live_at(
        post.nodes@,
        post.bids,
        post.asks,
        post.map@,
        id,
        w.capacity,
    ) by {
        assert(live_at(pre.nodes@, pre.bids, pre.asks, pre.map@, id, w.capacity));
        let x = pre.map@[id];
        assert(post.ladder(pre.nodes@[x as int].side).queues@
            == pre.ladder(pre.nodes@[x as int].side).queues@);
    }
    assert forall|x: int|
        0 <= x < post.nodes@.len() && (
        #[trigger] post.nodes@[x]).slot != NIL implies post.map@.contains_pair(
        post.nodes@[x].order_id,
        x as u32,
    ) by {
        assert(pre.nodes@[x].slot != NIL);
    }
    assert(post.wf());
    pre.lemma_slots();
    let m = pre@.reduced(order_id, quantity);
    assert(post@.orders =~= m.orders) by {
        assert forall|id: u64| post.map@.dom().contains(id) implies order_of(
            post.nodes@[post.map@[id] as int],
        ) == m.orders[id] by {
            assert(live_at(pre.nodes@, pre.bids, pre.asks, pre.map@, id, w.capacity));
        }
    }
    assert forall|s: Side, p: i64| #[trigger] post.queue_at(s, p) == pre.queue_at(s, p) by {
        if w.holds(p as int) {
            let i = w.slot(p as int)->At_0 as int;
            let r = pre.ladder(s).queues@[i];
            assert forall|k: int| 0 <= k < r.len() implies post.nodes@[(
            #[trigger] r[k]) as int].order_id == pre.nodes@[r[k] as int].order_id by {
                pre.lemma_member(s, i, k);
            }
            lemma_ids_same(post.nodes@, pre.nodes@, r);
        }
    }
    assert(post@.queues =~= m.queues);
}

impl MboBook {
    /// Takes an order off the book.
    pub fn delete(&mut self, order_id: u64) -> (r: Result<RestingOrder, BookError>)
        requires
            old(self).wf(),
        ensures
            final(self).wf(),
            r == delete_outcome(old(self)@, order_id),
            final(self)@ == (if r is Ok {
                old(self)@.removed(order_id)
            } else {
                old(self)@
            }),
            final(self).order_capacity() == old(self).order_capacity(),
            final(self).window() == old(self).window(),
            final(self).counters() == old(self).counters().looked_up(old(self).probes(order_id)),
            forall|id: u64| final(self).home(id) == old(self).home(id),
    {
        let map_i: usize = match self.map_find(order_id) {
            None => return Err(BookError::UnknownOrderId(order_id)),
            Some(i) => i,
        };
        let ghost pre = *self;
        let node: u32 = self.map.node_at(map_i, order_id);
        proof {
            assert(pre.map@.dom().contains(order_id));
            assert(live_at(
                pre.nodes@,
                pre.bids,
                pre.asks,
                pre.map@,
                order_id,
                pre.index@.capacity,
            ));
        }
        let n = self.nodes[node as usize];
        match n.side {
            Side::Bid => self.bids.release(
                &mut self.nodes,
                Side::Bid,
                node,
                self.free_head,
                Ghost(self.index@),
            ),
            Side::Ask => self.asks.release(
                &mut self.nodes,
                Side::Ask,
                node,
                self.free_head,
                Ghost(self.index@),
            ),
        }
        self.map.remove_at(map_i, order_id);
        self.free_head = node;
        self.free = Ghost(seq![node] + self.free@);
        self.live = self.live - 1;
        proof {
            lemma_released_wf(pre, *self, order_id, node);
            lemma_released_view(pre, *self, order_id, node);
        }
        Ok(
            RestingOrder {
                order_id: n.order_id,
                price: n.price,
                quantity: n.quantity,
                side: n.side,
            },
        )
    }

    /// Makes an order smaller where it stands.
    pub fn reduce(&mut self, order_id: u64, new_quantity: u32) -> (r: Result<(), BookError>)
        requires
            old(self).wf(),
        ensures
            final(self).wf(),
            r == reduce_outcome(old(self)@, order_id, new_quantity),
            final(self)@ == (if r is Ok {
                old(self)@.reduced(order_id, new_quantity)
            } else {
                old(self)@
            }),
            final(self).order_capacity() == old(self).order_capacity(),
            final(self).window() == old(self).window(),
            final(self).counters() == old(self).counters().looked_up(old(self).probes(order_id)),
            forall|id: u64| final(self).home(id) == old(self).home(id),
    {
        let map_i: usize = match self.map_find(order_id) {
            None => return Err(BookError::UnknownOrderId(order_id)),
            Some(i) => i,
        };
        if new_quantity == 0 {
            return Err(BookError::ZeroQuantity(order_id));
        }
        let ghost pre = *self;
        let node: u32 = self.map.node_at(map_i, order_id);
        proof {
            assert(pre.map@.dom().contains(order_id));
            assert(live_at(
                pre.nodes@,
                pre.bids,
                pre.asks,
                pre.map@,
                order_id,
                pre.index@.capacity,
            ));
        }
        let n = self.nodes[node as usize];
        if new_quantity > n.quantity {
            return Err(
                BookError::ReduceWouldIncrease { order_id, from: n.quantity, to: new_quantity },
            );
        }
        let slot: usize = n.slot as usize;
        match n.side {
            Side::Bid => self.bids.shrink(
                &mut self.nodes,
                Side::Bid,
                slot,
                node,
                new_quantity,
                Ghost(self.index@),
            ),
            Side::Ask => self.asks.shrink(
                &mut self.nodes,
                Side::Ask,
                slot,
                node,
                new_quantity,
                Ghost(self.index@),
            ),
        }
        proof {
            lemma_reduced(pre, *self, order_id, node, new_quantity);
        }
        Ok(())
    }
}

/// `post` is `pre` with the node moved to the end of the level `slot`, under a new
/// price and quantity.
spec fn relocated(
    pre: MboBook,
    post: MboBook,
    node: u32,
    price: i64,
    quantity: u32,
    slot: int,
) -> bool {
    let n = pre.nodes@[node as int];
    let from = n.slot as int;
    let q = pre.ladder(n.side).queues@[from];
    let mid = pre.ladder(n.side).queues@.update(from, q.remove(q.index_of(node)));
    let n1 = post.nodes@;
    &&& post.ladder(n.side).inv(n1, n.side, pre.index@)
    &&& post.ladder(n.side).queues@ == mid.update(slot, mid[slot].push(node))
    &&& post.ladder(n.side.other()) == pre.ladder(n.side.other())
    &&& n1.len() == pre.nodes@.len()
    &&& n1[node as int].order_id == n.order_id
    &&& belongs(n1[node as int], n.side, slot, price as int)
    &&& n1[node as int].quantity == quantity
    &&& forall|x: int|
        0 <= x < n1.len() && x != node ==> same_data(pre.nodes@[x], #[trigger] n1[x])
    &&& forall|x: int|
        0 <= x < n1.len() && x != node && !(pre.nodes@[x].side == n.side && (pre.nodes@[x].slot
            == from || pre.nodes@[x].slot == slot)) ==> pre.nodes@[x] == #[trigger] n1[x]
    &&& post.index == pre.index
    &&& post.free == pre.free
    &&& post.free_head == pre.free_head
    &&& post.map == pre.map
    &&& post.live == pre.live
}

/// Moving a node to another level keeps the book right.
proof fn lemma_relocated_wf(
    pre: MboBook,
    post: MboBook,
    order_id: u64,
    node: u32,
    price: i64,
    quantity: u32,
    slot: int,
)
    requires
        pre.wf(),
        pre.map@.contains_pair(order_id, node),
        0 <= slot < pre.index@.capacity,
        relocated(pre, post, node, price, quantity, slot),
    ensures
        post.wf(),
{
    let w = pre.index@;
    let n = pre.nodes@[node as int];
    let side = n.side;
    let from = n.slot as int;
    let o = side.other();
    assert(pre.map@.dom().contains(order_id));
    assert(live_at(pre.nodes@, pre.bids, pre.asks, pre.map@, order_id, w.capacity));
    let q = pre.ladder(side).queues@[from];
    let at = q.index_of(node);
    assert(q.contains(node) && q[at] == node);
    let mid = pre.ladder(side).queues@.update(from, q.remove(at));
    lemma_other_ladder(pre.ladder(o), pre.nodes@, post.nodes@, o, w);
    assert(post.bids.inv(post.nodes@, Side::Bid, w));
    assert(post.asks.inv(post.nodes@, Side::Ask, w));
    let free = post.free@;
    assert forall|i: int| 0 <= i < free.len() implies #[trigger] free_at(post.nodes@, free, i) by {
        assert(free_at(pre.nodes@, free, i));
        assert(free[i] != node);
        assert(post.nodes@[free[i] as int] == pre.nodes@[free[i] as int]);
    }
    assert forall|id: u64| #[trigger] post.map@.dom().contains(id) implies live_at(
        post.nodes@,
        post.bids,
        post.asks,
        post.map@,
        id,
        w.capacity,
    ) by {
        assert(live_at(pre.nodes@, pre.bids, pre.asks, pre.map@, id, w.capacity));
        let x = pre.map@[id];
        if id == order_id {
            assert(mid[slot].push(node)[mid[slot].len() as int] == node);
            assert(post.ladder(side).queues@[slot].contains(node));
        } else {
            let nx = pre.nodes@[x as int];
            assert(x != node);
            assert(same_data(nx, post.nodes@[x as int]));
            let r = pre.ladder(nx.side).queues@[nx.slot as int];
            let i = choose|i: int| 0 <= i < r.len() && r[i] == x;
            if nx.side == side {
                let k = if nx.slot == from && i > at { i - 1 } else { i };
                assert(mid[nx.slot as int][k] == x);
                assert(post.ladder(nx.side).queues@[nx.slot as int][k] == x);
            }
            assert(post.ladder(nx.side).queues@[nx.slot as int].contains(x));
        }
    }
    assert forall|x: int|
        0 <= x < post.nodes@.len() && (
        #[trigger] post.nodes@[x]).slot != NIL implies post.map@.contains_pair(
        post.nodes@[x].order_id,
        x as u32,
    ) by {
        if x != node {
            assert(same_data(pre.nodes@[x], post.nodes@[x]));
            assert(pre.nodes@[x].slot != NIL);
        }
    }
}

/// Moving a node to another level replaces the order.
proof fn lemma_relocated_view(
    pre: MboBook,
    post: MboBook,
    order_id: u64,
    node: u32,
    price: i64,
    quantity: u32,
    slot: int,
)
    requires
        pre.wf(),
        pre.map@.contains_pair(order_id, node),
        0 <= slot < pre.index@.capacity,
        pre.index@.slot(price as int) == Slot::At(slot as usize),
        pre.index@.price_at(slot) == price,
        relocated(pre, post, node, price, quantity, slot),
    ensures
        post@ == pre@.replaced(order_id, price, quantity),
{
    let w = pre.index@;
    let n = pre.nodes@[node as int];
    let side = n.side;
    let from = n.slot as int;
    assert(pre.map@.dom().contains(order_id));
    assert(live_at(pre.nodes@, pre.bids, pre.asks, pre.map@, order_id, w.capacity));
    let q = pre.ladder(side).queues@[from];
    let at = q.index_of(node);
    assert(q.contains(node) && q[at] == node);
    pre.lemma_member(side, from, at);
    pre.lemma_level_nodup(side, from);
    let mid = pre.ladder(side).queues@.update(from, q.remove(at));
    pre.lemma_slots();
    pre.lemma_model_wf();
    let m0 = pre@.removed(order_id);
    let m = pre@.replaced(order_id, price, quantity);
    assert(pre@.orders[order_id] == order_of(n));
    assert(post@.orders =~= m.orders) by {
        assert forall|id: u64| post.map@.dom().contains(id) implies order_of(
            post.nodes@[post.map@[id] as int],
        ) == m.orders[id] by {
            assert(live_at(pre.nodes@, pre.bids, pre.asks, pre.map@, id, w.capacity));
            let x = pre.map@[id];
            if id != order_id {
                assert(x != node);
                assert(same_data(pre.nodes@[x as int], post.nodes@[x as int]));
            }
        }
    }
    assert(w.slot(n.price as int) == Slot::At(from as usize));
    assert forall|s: Side, p: i64| #[trigger] post.queue_at(s, p) == m.queue(s, p) by {
        assert(pre@.queue(s, p) == pre.queue_at(s, p));
        if w.holds(p as int) {
            let i = w.slot(p as int)->At_0 as int;
            assert(w.price_at(i) == p);
            let r = if s == side { mid[i] } else { pre.ladder(s).queues@[i] };
            assert forall|k: int| 0 <= k < r.len() implies pre.nodes@[(
            #[trigger] r[k]) as int].order_id == post.nodes@[r[k] as int].order_id by {
                if s == side && i == from {
                    let j = if k < at { k } else { k + 1 };
                    assert(r[k] == q[j]);
                    assert(q[j] != q[at]);
                    pre.lemma_member(side, from, j);
                } else {
                    pre.lemma_member(s, i, k);
                }
                assert(r[k] != node);
                assert(same_data(pre.nodes@[r[k] as int], post.nodes@[r[k] as int]));
            }
            lemma_ids_same(pre.nodes@, post.nodes@, r);
            if s == side {
                assert(ids(pre.nodes@, r) == m0.queue(s, p)) by {
                    if i == from {
                        assert(p == n.price);
                        let iq = ids(pre.nodes@, q);
                        assert(iq[at] == order_id);
                        assert(pre@.queue(s, p).no_duplicates());
                        lemma_index_of(iq, at);
                        assert(ids(pre.nodes@, r) =~= iq.remove(at));
                    } else {
                        assert(!(p == n.price));
                    }
                }
                if i == slot {
                    assert(p == price);
                    assert(ids(post.nodes@, r.push(node)) =~= ids(post.nodes@, r).push(order_id));
                } else {
                    assert(p != price);
                    assert(post.ladder(s).queues@[i] == r);
                }
            }
        }
    }
    assert(post@.queues =~= m.queues) by {
        assert forall|s: Side, p: i64| #[trigger] post.queue_at(s, p) == (m.queues)(s, p) by {
            assert(m.queue(s, p) == (m.queues)(s, p));
        }
    }
}

impl MboBook {
    /// Moves an order to a new price and quantity, behind everything there.
    pub fn replace(&mut self, order_id: u64, new_price: i64, new_quantity: u32) -> (r: Result<
        (),
        BookError,
    >)
        requires
            old(self).wf(),
        ensures
            final(self).wf(),
            r == replace_outcome(
                old(self)@,
                old(self).price_refusal(order_id, new_price),
                order_id,
                new_quantity,
            ),
            final(self)@ == (if r is Ok {
                old(self)@.replaced(order_id, new_price, new_quantity)
            } else {
                old(self)@
            }),
            final(self).order_capacity() == old(self).order_capacity(),
            final(self).window() == (if r is Ok {
                old(self).placement(new_price)->0
            } else {
                old(self).window()
            }),
            final(self).counters() == (if new_quantity == 0 {
                old(self).counters()
            } else {
                old(self).counters().looked_up(old(self).probes(order_id)).rebased(
                    r is Ok && !old(self).window().holds(new_price as int),
                )
            }),
            forall|id: u64| final(self).home(id) == old(self).home(id),
    {
        if new_quantity == 0 {
            return Err(BookError::ZeroQuantity(order_id));
        }
        let map_i: usize = match self.map_find(order_id) {
            None => return Err(BookError::UnknownOrderId(order_id)),
            Some(i) => i,
        };
        let node: u32 = self.map.node_at(map_i, order_id);
        let ghost s1 = *self;
        assert(s1.placement(new_price) == old(self).placement(new_price));
        let new_slot: usize = match self.slot_for(order_id, new_price) {
            Err(e) => return Err(e),
            Ok(slot) => slot,
        };
        let ghost pre = *self;
        proof {
            assert(pre.map@.dom().contains(order_id));
            assert(live_at(
                pre.nodes@,
                pre.bids,
                pre.asks,
                pre.map@,
                order_id,
                pre.index@.capacity,
            ));
        }
        let side: Side = self.nodes[node as usize].side;
        match side {
            Side::Bid => self.bids.relocate(
                &mut self.nodes,
                Side::Bid,
                node,
                new_slot,
                new_price,
                new_quantity,
                Ghost(self.index@),
            ),
            Side::Ask => self.asks.relocate(
                &mut self.nodes,
                Side::Ask,
                node,
                new_slot,
                new_price,
                new_quantity,
                Ghost(self.index@),
            ),
        }
        proof {
            assert(relocated(pre, *self, node, new_price, new_quantity, new_slot as int));
            lemma_relocated_wf(
                pre,
                *self,
                order_id,
                node,
                new_price,
                new_quantity,
                new_slot as int,
            );
            lemma_relocated_view(
                pre,
                *self,
                order_id,
                node,
                new_price,
                new_quantity,
                new_slot as int,
            );
        }
        Ok(())
    }
}

/// The quantities of a queue add up to the total of its nodes.
proof fn lemma_quantities(orders: Map<u64, RestingOrder>, nodes: Seq<Node>, q: Seq<u32>)
    requires
        forall|i: int|
            0 <= i < q.len() ==> orders[nodes[(#[trigger] q[i]) as int].order_id].quantity
                == nodes[q[i] as int].quantity,
    ensures
        queue_quantity(orders, ids(nodes, q)) == total(nodes, q),
    decreases q.len(),
{
    if q.len() > 0 {
        let r = q.drop_last();
        assert(ids(nodes, q).drop_last() =~= ids(nodes, r));
        assert forall|i: int| 0 <= i < r.len() implies orders[nodes[(
        #[trigger] r[i]) as int].order_id].quantity == nodes[r[i] as int].quantity by {
            assert(r[i] == q[i]);
        }
        lemma_quantities(orders, nodes, r);
        assert(q[q.len() - 1] == q.last());
    }
}

impl MboBook {
    /// The slot that a walk of `side`, best price first, comes to after `k` others.
    spec fn nth_slot(&self, side: Side, k: int) -> int {
        match side {
            Side::Bid => self.index@.capacity - 1 - k,
            Side::Ask => k,
        }
    }

    spec fn level_of(&self, side: Side, s: int) -> Level {
        Level {
            price: self.index@.price_at(s) as i64,
            quantity: self.ladder(side).cells@[s].quantity,
            order_count: self.ladder(side).cells@[s].orders,
        }
    }

    /// Something rests at the `j`th slot of a walk.
    spec fn found(&self, side: Side, j: int) -> bool {
        self.ladder(side).queues@[self.nth_slot(side, j)].len() > 0
    }

    /// The positions among the first `k` of a walk at which something rests.
    spec fn hits(&self, side: Side, k: int) -> Seq<int>
        decreases k,
    {
        if k <= 0 {
            Seq::empty()
        } else if self.found(side, k - 1) {
            self.hits(side, k - 1).push(k - 1)
        } else {
            self.hits(side, k - 1)
        }
    }

    /// The levels among the first `k` slots of a walk.
    spec fn scan(&self, side: Side, k: int) -> Seq<Level> {
        Seq::new(
            self.hits(side, k).len(),
            |i: int| self.level_of(side, self.nth_slot(side, self.hits(side, k)[i])),
        )
    }

    /// One step of a walk.
    proof fn lemma_scan_step(&self, side: Side, k: int)
        requires
            0 <= k,
        ensures
            self.scan(side, k + 1) == (if self.found(side, k) {
                self.scan(side, k).push(self.level_of(side, self.nth_slot(side, k)))
            } else {
                self.scan(side, k)
            }),
    {
        if self.found(side, k) {
            assert(self.scan(side, k + 1) =~= self.scan(side, k).push(
                self.level_of(side, self.nth_slot(side, k)),
            ));
        } else {
            assert(self.scan(side, k + 1) =~= self.scan(side, k));
        }
    }

    /// A cell reads as the level of its price.
    proof fn lemma_level(&self, side: Side, s: int)
        requires
            self.wf(),
            0 <= s < self.index@.capacity,
            self.ladder(side).queues@[s].len() > 0,
        ensures
            self.index@.price_at(s) == self.level_of(side, s).price,
            self@.level_at(side, self.index@.price_at(s) as i64) == self.level_of(side, s),
            self@.queue(side, self.index@.price_at(s) as i64) == ids(
                self.nodes@,
                self.ladder(side).queues@[s],
            ),
            self@.queue(side, self.index@.price_at(s) as i64).len()
                == self.ladder(side).queues@[s].len(),
    {
        self.lemma_slots();
        self.lemma_priced(side, s);
        let p = self.index@.price_at(s) as i64;
        let q = self.ladder(side).queues@[s];
        assert(self.index@.price_at(s) == p);
        assert(self@.queue(side, p) == self.queue_at(side, p));
        assert(self.queue_at(side, p) == ids(self.nodes@, q));
        assert(cell_ok(
            self.nodes@,
            self.ladder(side).cells@[s],
            self.ladder(side).queues@[s],
            side,
            s,
            self.index@.price_at(s),
        ));
        assert forall|i: int| 0 <= i < q.len() implies self@.orders[self.nodes@[(
        #[trigger] q[i]) as int].order_id].quantity == self.nodes@[q[i] as int].quantity by {
            self.lemma_member(side, s, i);
        }
        lemma_quantities(self@.orders, self.nodes@, q);
    }

    proof fn lemma_hits(&self, side: Side, k: int)
        requires
            self.wf(),
            0 <= k <= self.index@.capacity,
        ensures
            forall|i: int|
                0 <= i < self.hits(side, k).len() ==> 0 <= (#[trigger] self.hits(side, k)[i]) < k
                    && self.found(side, self.hits(side, k)[i]),
            forall|i: int, j: int|
                0 <= i < j < self.hits(side, k).len() ==> (#[trigger] self.hits(side, k)[i]) < (
                #[trigger] self.hits(side, k)[j]),
            forall|j: int|
                0 <= j < k && #[trigger] self.found(side, j) ==> self.hits(side, k).contains(j),
        decreases k,
    {
        if k > 0 {
            self.lemma_hits(side, k - 1);
            let a = self.hits(side, k - 1);
            let b = self.hits(side, k);
            assert forall|j: int| 0 <= j < k && #[trigger] self.found(side, j) implies b.contains(
                j,
            ) by {
                if j == k - 1 {
                    assert(b[a.len() as int] == j);
                } else {
                    let i = choose|i: int| 0 <= i < a.len() && a[i] == j;
                    assert(b[i] == j);
                }
            }
        }
    }

    /// A walk of all slots lists the levels of the side.
    proof fn lemma_scan_is_levels(&self, side: Side)
        requires
            self.wf(),
        ensures
            self@.levels(side) == self.scan(side, self.index@.capacity),
            self@.levels(side).len() == self.ladder(side).occupied,
    {
        let cap = self.index@.capacity;
        self.lemma_hits(side, cap);
        self.lemma_slots();
        let h = self.hits(side, cap);
        let s = self.scan(side, cap);
        assert forall|i: int| 0 <= i < s.len() implies self@.queue(side, (
        #[trigger] s[i]).price).len() > 0 && s[i] == self@.level_at(side, s[i].price) by {
            assert(self.found(side, h[i]));
            self.lemma_level(side, self.nth_slot(side, h[i]));
        }
        assert forall|i: int, j: int| 0 <= i < j < s.len() implies ahead(
            side,
            (#[trigger] s[i]).price as int,
            (#[trigger] s[j]).price as int,
        ) by {
            assert(h[i] < h[j]);
            let si = self.nth_slot(side, h[i]);
            let sj = self.nth_slot(side, h[j]);
            self.lemma_level(side, si);
            self.lemma_level(side, sj);
            lemma_price_order(self.index@, si, sj);
            lemma_price_order(self.index@, sj, si);
        }
        assert forall|p: i64|
            (#[trigger] self@.queue(side, p)).len() > 0 implies exists|i: int|
            0 <= i < s.len() && (#[trigger] s[i]).price == p by {
            assert(self@.queue(side, p) == self.queue_at(side, p));
            let t = self.index@.slot(p as int)->At_0 as int;
            let j = self.nth_slot(side, t);
            assert(self.nth_slot(side, j) == t);
            assert(self.found(side, j));
            let i = choose|i: int| 0 <= i < h.len() && h[i] == j;
            self.lemma_level(side, t);
            assert(s[i].price == p);
        }
        assert(self@.lists_levels(side, s));
        lemma_levels_are(self@, side, s);
        let occ = occupied_slots(self.ladder(side).queues@);
        let r = h.map_values(|j: int| self.nth_slot(side, j));
        assert(r.no_duplicates()) by {
            assert forall|i: int, j: int|
                0 <= i < r.len() && 0 <= j < r.len() && i != j implies r[i] != r[j] by {
                if i < j {
                    assert(h[i] < h[j]);
                } else {
                    assert(h[j] < h[i]);
                }
            }
        }
        r.unique_seq_to_set();
        assert(r.to_set() =~= occ) by {
            assert forall|t: int| r.to_set().contains(t) implies occ.contains(t) by {
                let i = choose|i: int| 0 <= i < r.len() && r[i] == t;
                assert(self.found(side, h[i]));
            }
            assert forall|t: int| occ.contains(t) implies r.to_set().contains(t) by {
                let j = self.nth_slot(side, t);
                assert(self.nth_slot(side, j) == t);
                assert(self.found(side, j));
                let i = choose|i: int| 0 <= i < h.len() && h[i] == j;
                assert(r[i] == t);
            }
        }
    }

    /// A longer walk only finds more.
    proof fn lemma_scan_prefix(&self, side: Side, j: int, k: int)
        requires
            0 <= j <= k,
        ensures
            self.scan(side, j).len() <= self.scan(side, k).len(),
            self.scan(side, k).take(self.scan(side, j).len() as int) == self.scan(side, j),
        decreases k - j,
    {
        if j < k {
            self.lemma_scan_prefix(side, j, k - 1);
            self.lemma_scan_step(side, k - 1);
            let a = self.scan(side, j);
            let b = self.scan(side, k - 1);
            let c = self.scan(side, k);
            assert(c.take(a.len() as int) =~= b.take(a.len() as int));
        } else {
            assert(self.scan(side, k).take(self.scan(side, j).len() as int) =~= self.scan(side, j));
        }
    }

    /// Nothing is found before the best level.
    proof fn lemma_scan_nothing(&self, side: Side, k: int)
        requires
            self.wf(),
            0 <= k <= self.index@.capacity,
            forall|j: int|
                0 <= j < k ==> !#[trigger] self.found(side, j),
        ensures
            self.scan(side, k) == Seq::<Level>::empty(),
        decreases k,
    {
        if k > 0 {
            self.lemma_scan_nothing(side, k - 1);
            self.lemma_scan_step(side, k - 1);
            assert(!self.found(side, k - 1));
        } else {
            assert(self.scan(side, k) =~= Seq::<Level>::empty());
        }
    }

    /// Where a walk of `side` first finds something, or past the end.
    fn first_found(&self, side: Side) -> (r: usize)
        requires
            self.wf(),
        ensures
            r <= self.index@.capacity,
            self.scan(side, r as int) == Seq::<Level>::empty(),
            r < self.index@.capacity <==> self.ladder(side).best is Some,
            r < self.index@.capacity ==> self.found(side, r as int),
    {
        let cap: usize = self.index.capacity();
        let best: Option<usize> = match side {
            Side::Bid => self.bids.best,
            Side::Ask => self.asks.best,
        };
        match best {
            None => {
                proof {
                    assert forall|j: int| 0 <= j < cap implies !#[trigger] self.found(
                        side,
                        j,
                    ) by {}
                    self.lemma_scan_nothing(side, cap as int);
                }
                cap
            },
            Some(b) => {
                let k: usize = match side {
                    Side::Bid => cap - 1 - b,
                    Side::Ask => b,
                };
                proof {
                    assert forall|j: int| 0 <= j < k implies !#[trigger] self.found(side, j) by {
                        let s = self.nth_slot(side, j);
                        if self.ladder(side).queues@[s].len() > 0 {
                            assert(!ahead(side, s, b as int));
                        }
                    }
                    self.lemma_scan_nothing(side, k as int);
                }
                k
            },
        }
    }

    /// The levels of `side`, best price first, at most `depth` of them where `depth`
    /// is not zero.
    pub fn for_each_level(&self, side: Side, depth: usize) -> (out: Vec<Level>)
        requires
            self.wf(),
        ensures
            out@ == take_depth(self@.levels(side), depth as int),
    {
        let cap: usize = self.index.capacity();
        let mut out: Vec<Level> = Vec::new();
        let mut k: usize = self.first_found(side);
        proof {
            self.lemma_scan_is_levels(side);
            self.lemma_slots();
        }
        while k < cap
            invariant
                self.wf(),
                cap == self.index@.capacity,
                k <= cap,
                out@ == self.scan(side, k as int),
                depth != 0 ==> out@.len() <= depth,
                self@.levels(side) == self.scan(side, cap as int),
                forall|s: int|
                    0 <= s < self.index@.capacity ==> {
                        &&& i64::MIN <= #[trigger] self.index@.price_at(s)
                        &&& self.index@.slot(self.index@.price_at(s)) == Slot::At(s as usize)
                    },
            decreases cap - k,
        {
            let i: usize = match side {
                Side::Bid => cap - 1 - k,
                Side::Ask => k,
            };
            let cell = match side {
                Side::Bid => self.bids.cells[i],
                Side::Ask => self.asks.cells[i],
            };
            proof {
                assert(self.nth_slot(side, k as int) == i);
                self.lemma_scan_step(side, k as int);
                assert(cell_ok(
                    self.nodes@,
                    self.ladder(side).cells@[i as int],
                    self.ladder(side).queues@[i as int],
                    side,
                    i as int,
                    self.index@.price_at(i as int),
                ));
            }
            if cell.orders != 0 {
                if depth != 0 && out.len() == depth {
                    proof {
                        self.lemma_scan_prefix(side, k as int, cap as int);
                        self.lemma_scan_prefix(side, k as int + 1, cap as int);
                    }
                    return out;
                }
                proof {
                    self.lemma_priced(side, i as int);
                }
                out.push(
                    Level {
                        price: self.index.price_at(i),
                        quantity: cell.quantity,
                        order_count: cell.orders,
                    },
                );
            }
            k = k + 1;
        }
        out
    }

    /// The best bid level.
    pub fn best_bid(&self) -> (r: Option<Level>)
        requires
            self.wf(),
        ensures
            r == self@.best(Side::Bid),
    {
        let out = self.for_each_level(Side::Bid, 1);
        if out.len() == 0 {
            None
        } else {
            Some(out[0])
        }
    }

    /// The best ask level.
    pub fn best_ask(&self) -> (r: Option<Level>)
        requires
            self.wf(),
        ensures
            r == self@.best(Side::Ask),
    {
        let out = self.for_each_level(Side::Ask, 1);
        if out.len() == 0 {
            None
        } else {
            Some(out[0])
        }
    }

    /// How many levels `side` has, counting no further than `depth` unless it is
    /// zero.
    pub fn level_count(&self, side: Side, depth: usize) -> (r: usize)
        requires
            self.wf(),
        ensures
            r == take_depth(self@.levels(side), depth as int).len(),
    {
        proof {
            self.lemma_scan_is_levels(side);
        }
        let n: usize = match side {
            Side::Bid => self.bids.occupied as usize,
            Side::Ask => self.asks.occupied as usize,
        };
        if depth == 0 || n <= depth {
            n
        } else {
            depth
        }
    }

    /// The best price of `side` and the id of the order that trades first there.
    pub fn front(&self, side: Side) -> (r: Option<(i64, u64)>)
        requires
            self.wf(),
        ensures
            r == self@.front(side),
    {
        let cap: usize = self.index.capacity();
        let k: usize = self.first_found(side);
        proof {
            self.lemma_scan_is_levels(side);
            self.lemma_slots();
        }
        if k == cap {
            return None;
        }
        let slot: usize = match side {
            Side::Bid => cap - 1 - k,
            Side::Ask => k,
        };
        let cell = match side {
            Side::Bid => self.bids.cells[slot],
            Side::Ask => self.asks.cells[slot],
        };
        proof {
            assert(self.nth_slot(side, k as int) == slot);
            self.lemma_scan_step(side, k as int);
            self.lemma_scan_prefix(side, k as int + 1, cap as int);
            assert(self.scan(side, k as int + 1)[0] == self.level_of(side, slot as int));
            assert(self.scan(side, cap as int)[0] == self.scan(side, cap as int).take(
                self.scan(side, k as int + 1).len() as int,
            )[0]);
            self.lemma_level(side, slot as int);
            self.lemma_member(side, slot as int, 0);
            assert(cell_ok(
                self.nodes@,
                self.ladder(side).cells@[slot as int],
                self.ladder(side).queues@[slot as int],
                side,
                slot as int,
                self.index@.price_at(slot as int),
            ));
        }
        Some((self.index.price_at(slot), self.nodes[cell.head as usize].order_id))
    }

    /// The orders of `side`, best price first and first to arrive first.
    pub fn for_each_order(&self, side: Side) -> (out: Vec<RestingOrder>)
        requires
            self.wf(),
        ensures
            out@ == self@.in_priority(side),
    {
        let cap: usize = self.index.capacity();
        let mut out: Vec<RestingOrder> = Vec::new();
        let mut k: usize = self.first_found(side);
        proof {
            self.lemma_scan_is_levels(side);
        }
        while k < cap
            invariant
                self.wf(),
                cap == self.index@.capacity,
                k <= cap,
                out@ == self@.orders_over(side, self.scan(side, k as int)),
                self@.levels(side) == self.scan(side, cap as int),
            decreases cap - k,
        {
            let i: usize = match side {
                Side::Bid => cap - 1 - k,
                Side::Ask => k,
            };
            let cell = match side {
                Side::Bid => self.bids.cells[i],
                Side::Ask => self.asks.cells[i],
            };
            let ghost q = self.ladder(side).queues@[i as int];
            let ghost before = out@;
            let ghost here = if q.len() > 0 {
                self@.orders_at(side, self.index@.price_at(i as int) as i64)
            } else {
                Seq::empty()
            };
            proof {
                assert(self.nth_slot(side, k as int) == i);
                self.lemma_scan_step(side, k as int);
                if q.len() > 0 {
                    self.lemma_level(side, i as int);
                }
                assert(cell_ok(
                    self.nodes@,
                    self.ladder(side).cells@[i as int],
                    self.ladder(side).queues@[i as int],
                    side,
                    i as int,
                    self.index@.price_at(i as int),
                ));
                assert(here.len() == q.len());
                assert forall|j: int| 0 <= j < q.len() implies #[trigger] here[j] == order_of(
                    self.nodes@[q[j] as int],
                ) by {
                    self.lemma_member(side, i as int, j);
                }
                assert(before + here.take(0) =~= before);
            }
            let mut node: u32 = cell.head;
            let ghost mut j: int = 0;
            while node != NIL
                invariant
                    self.wf(),
                    0 <= i < self.index@.capacity,
                    q == self.ladder(side).queues@[i as int],
                    0 <= j <= q.len(),
                    node == link(q, j),
                    chained(self.nodes@, q),
                    forall|t: int| 0 <= t < q.len() ==> (#[trigger] q[t]) < self.nodes@.len(),
                    here.len() == q.len(),
                    forall|t: int|
                        0 <= t < q.len() ==> #[trigger] here[t] == order_of(
                            self.nodes@[q[t] as int],
                        ),
                    out@ == before + here.take(j),
                decreases q.len() - j,
            {
                assert(linked_at(self.nodes@, q, j));
                let n = self.nodes[node as usize];
                out.push(
                    RestingOrder {
                        order_id: n.order_id,
                        price: n.price,
                        quantity: n.quantity,
                        side: n.side,
                    },
                );
                proof {
                    assert(here.take(j + 1) =~= here.take(j).push(here[j]));
                    j = j + 1;
                    assert(out@ =~= before + here.take(j));
                }
                node = n.next;
            }
            proof {
                assert(j == q.len()) by {
                    if j < q.len() {
                        assert(q[j] < self.nodes@.len());
                    }
                }
                assert(here.take(j) =~= here);
                let a = self.scan(side, k as int);
                if q.len() > 0 {
                    let b = a.push(self.level_of(side, i as int));
                    assert(b.drop_last() =~= a);
                    assert(self.scan(side, k as int + 1) == b);
                } else {
                    assert(out@ =~= before);
                }
            }
            k = k + 1;
        }
        out
    }

    /// The order of this id, if it rests.
    pub fn get(&self, order_id: u64) -> (r: Option<RestingOrder>)
        requires
            self.wf(),
        ensures
            r == (if self@.has(order_id) {
                Some(self@.orders[order_id])
            } else {
                None
            }),
    {
        match self.map.get(order_id) {
            None => None,
            Some(node) => {
                assert(live_at(
                    self.nodes@,
                    self.bids,
                    self.asks,
                    self.map@,
                    order_id,
                    self.index@.capacity,
                ));
                let n = self.nodes[node as usize];
                Some(
                    RestingOrder {
                        order_id: n.order_id,
                        price: n.price,
                        quantity: n.quantity,
                        side: n.side,
                    },
                )
            },
        }
    }

    pub fn stats(&self) -> (r: MboStats)
        ensures
            r == self.counters(),
    {
        self.stats
    }

    /// How many orders rest.
    pub fn len(&self) -> (r: usize)
        requires
            self.wf(),
        ensures
            r == self@.len(),
    {
        assert(self@.orders.dom() =~= self.map@.dom());
        self.live
    }

    pub fn is_empty(&self) -> (r: bool)
        requires
            self.wf(),
        ensures
            r == (self@.len() == 0),
    {
        assert(self@.orders.dom() =~= self.map@.dom());
        self.live == 0
    }

    /// How many orders can rest at once.
    pub fn capacity(&self) -> (r: usize)
        ensures
            r == self.order_capacity(),
    {
        self.nodes.len()
    }

    /// The slot of `price` in the window as it stands.
    pub fn slot_of(&self, price: i64) -> (r: Option<usize>)
        requires
            self.wf(),
        ensures
            r == (match self.window().slot(price as int) {
                Slot::At(i) => Some(i),
                _ => None,
            }),
    {
        match self.index.slot(price) {
            Slot::At(i) => Some(i),
            _ => None,
        }
    }

    /// The table slot at which a lookup of `order_id` starts.
    pub fn hash(&self, order_id: u64) -> (r: usize)
        requires
            self.wf(),
        ensures
            r == self.home(order_id),
    {
        self.map.hash(order_id)
    }
}

/// What a book counts of itself: a lookup with the slots it probed, a slide of its window,
/// and the most orders it ever held; each of these and nothing else.
pub proof fn law_what_a_book_counts(s: MboStats, probes: u64, moved: bool, orders: usize)
    ensures
        s.looked_up(probes as int).lookups == vstd::wrapping::u64_specs::wrapping_add(
            s.lookups,
            1,
        ),
        s.looked_up(probes as int).extra_probes == vstd::wrapping::u64_specs::wrapping_add(
            s.extra_probes,
            probes,
        ),
        s.looked_up(probes as int).rebases == s.rebases,
        s.looked_up(probes as int).peak_orders == s.peak_orders,
        s.rebased(moved).rebases == (if moved {
            vstd::wrapping::u64_specs::wrapping_add(s.rebases, 1)
        } else {
            s.rebases
        }),
        s.rebased(moved).lookups == s.lookups,
        s.rebased(moved).peak_orders == s.peak_orders,
        s.peaked(orders as int).peak_orders >= s.peak_orders,
        s.peaked(orders as int).peak_orders >= orders,
        s.peaked(orders as int).peak_orders == s.peak_orders || s.peaked(
            orders as int,
        ).peak_orders == orders,
        s.peaked(orders as int).lookups == s.lookups,
        s.peaked(orders as int).rebases == s.rebases,
{
}

} // verus!
