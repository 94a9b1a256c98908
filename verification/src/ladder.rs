//! One side of a dense book: an array of price levels, each the head and tail of
//! a list that runs through a slab of nodes.

use crate::message::Side;
use crate::model::ahead;
use crate::order_map::NIL;
use crate::tick::TickWindow;
use vstd::prelude::*;
use vstd::set_lib::{lemma_int_range, lemma_len_subset, set_int_range};

verus! {

#[derive(Debug, Clone, Copy)]
pub struct Node {
    pub order_id: u64,
    pub price: i64,
    pub quantity: u32,
    pub side: Side,
    /// The level the node is linked into, or [`NIL`] while it is free.
    pub slot: u32,
    pub next: u32,
    pub prev: u32,
}

#[derive(Debug, Clone, Copy)]
pub struct LevelCell {
    pub quantity: u64,
    pub orders: u32,
    pub head: u32,
    pub tail: u32,
}

/// A level at which nothing rests.
pub open spec fn empty_cell() -> LevelCell {
    LevelCell { quantity: 0, orders: 0, head: NIL, tail: NIL }
}

/// The element of a queue at `i`, or the end mark.
pub open spec fn link(q: Seq<u32>, i: int) -> u32 {
    if 0 <= i < q.len() {
        q[i]
    } else {
        NIL
    }
}

/// The node at `i` of the queue is linked to its neighbours there.
pub open spec fn linked_at(nodes: Seq<Node>, q: Seq<u32>, i: int) -> bool {
    &&& nodes[q[i] as int].prev == link(q, i - 1)
    &&& nodes[q[i] as int].next == link(q, i + 1)
}

/// The nodes are linked in the order of the queue.
pub open spec fn chained(nodes: Seq<Node>, q: Seq<u32>) -> bool {
    forall|i: int| 0 <= i < q.len() ==> #[trigger] linked_at(nodes, q, i)
}

/// A node that belongs to the level `slot` of `side`, whose price is `price`.
pub open spec fn belongs(n: Node, side: Side, slot: int, price: int) -> bool {
    &&& n.side == side
    &&& n.slot == slot
    &&& n.price == price
    &&& n.quantity > 0
}

pub open spec fn members(
    nodes: Seq<Node>,
    q: Seq<u32>,
    side: Side,
    slot: int,
    price: int,
) -> bool {
    forall|i: int|
        0 <= i < q.len() ==> (#[trigger] q[i]) < nodes.len() && belongs(
            nodes[q[i] as int],
            side,
            slot,
            price,
        )
}

/// How much the nodes of a queue hold together.
pub open spec fn total(nodes: Seq<Node>, q: Seq<u32>) -> int
    decreases q.len(),
{
    if q.len() == 0 {
        0
    } else {
        total(nodes, q.drop_last()) + nodes[q.last() as int].quantity
    }
}

/// A level's cell says of its queue what is true.
pub open spec fn cell_ok(
    nodes: Seq<Node>,
    cell: LevelCell,
    q: Seq<u32>,
    side: Side,
    slot: int,
    price: int,
) -> bool {
    &&& q.no_duplicates()
    &&& chained(nodes, q)
    &&& members(nodes, q, side, slot, price)
    &&& cell.orders == q.len()
    &&& cell.quantity == total(nodes, q)
    &&& cell.head == link(q, 0)
    &&& cell.tail == link(q, q.len() - 1)
}

/// Two nodes that differ in their links at most.
pub open spec fn same_data(a: Node, b: Node) -> bool {
    &&& a.order_id == b.order_id
    &&& a.price == b.price
    &&& a.quantity == b.quantity
    &&& a.side == b.side
    &&& a.slot == b.slot
}

/// From `a` to `b` only links have changed, and only of the nodes of one level.
pub open spec fn relinked(a: Seq<Node>, b: Seq<Node>, side: Side, slot: int) -> bool {
    &&& a.len() == b.len()
    &&& forall|x: int| 0 <= x < a.len() ==> same_data(a[x], #[trigger] b[x])
    &&& forall|x: int|
        0 <= x < a.len() && !(a[x].side == side && a[x].slot == slot) ==> a[x] == #[trigger] b[x]
}

/// The slots at which something rests.
pub open spec fn occupied_slots(queues: Seq<Seq<u32>>) -> Set<int> {
    Set::new(|s: int| 0 <= s < queues.len() && queues[s].len() > 0)
}

/// `best` is the slot of the best price at which something rests.
pub open spec fn best_ok(queues: Seq<Seq<u32>>, side: Side, best: Option<usize>) -> bool {
    match best {
        None => forall|s: int| 0 <= s < queues.len() ==> (#[trigger] queues[s]).len() == 0,
        Some(b) => {
            &&& b < queues.len()
            &&& queues[b as int].len() > 0
            &&& forall|s: int|
                0 <= s < queues.len() && (#[trigger] queues[s]).len() > 0 ==> !ahead(
                    side,
                    s,
                    b as int,
                )
        },
    }
}

pub struct Ladder {
    pub cells: Vec<LevelCell>,
    pub best: Option<usize>,
    /// How many levels hold something.
    pub occupied: u32,
    /// The queue of each level, as node indices.
    pub queues: Ghost<Seq<Seq<u32>>>,
}

pub proof fn lemma_total_same(a: Seq<Node>, b: Seq<Node>, q: Seq<u32>)
    requires
        forall|i: int|
            0 <= i < q.len() ==> a[(#[trigger] q[i]) as int].quantity == b[q[i] as int].quantity,
    ensures
        total(a, q) == total(b, q),
    decreases q.len(),
{
    if q.len() > 0 {
        let r = q.drop_last();
        assert forall|i: int| 0 <= i < r.len() implies a[(#[trigger] r[i]) as int].quantity
            == b[r[i] as int].quantity by {
            assert(r[i] == q[i]);
        }
        lemma_total_same(a, b, r);
    }
}

/// A queue's total is within what its length allows, and at least each member.
pub proof fn lemma_total_bound(nodes: Seq<Node>, q: Seq<u32>)
    ensures
        0 <= total(nodes, q) <= q.len() * 0xffff_ffff,
        forall|i: int|
            0 <= i < q.len() ==> nodes[(#[trigger] q[i]) as int].quantity <= total(nodes, q),
    decreases q.len(),
{
    if q.len() > 0 {
        let r = q.drop_last();
        lemma_total_bound(nodes, r);
        assert forall|i: int| 0 <= i < q.len() implies nodes[(#[trigger] q[i]) as int].quantity
            <= total(nodes, q) by {
            if i < r.len() {
                assert(r[i] == q[i]);
            }
        }
    }
}

pub proof fn lemma_total_push(nodes: Seq<Node>, q: Seq<u32>, x: u32)
    ensures
        total(nodes, q.push(x)) == total(nodes, q) + nodes[x as int].quantity,
{
    assert(q.push(x).drop_last() =~= q);
}

pub proof fn lemma_total_remove(nodes: Seq<Node>, q: Seq<u32>, i: int)
    requires
        0 <= i < q.len(),
    ensures
        total(nodes, q.remove(i)) == total(nodes, q) - nodes[q[i] as int].quantity,
    decreases q.len(),
{
    if i == q.len() - 1 {
        assert(q.remove(i) =~= q.drop_last());
    } else {
        lemma_total_remove(nodes, q.drop_last(), i);
        assert(q.remove(i).drop_last() =~= q.drop_last().remove(i));
        assert(q.remove(i).last() == q.last());
    }
}

/// Changing one member's quantity changes the total by as much.
pub proof fn lemma_total_update(a: Seq<Node>, b: Seq<Node>, q: Seq<u32>, i: int)
    requires
        0 <= i < q.len(),
        q.no_duplicates(),
        forall|k: int|
            0 <= k < q.len() && k != i ==> a[(#[trigger] q[k]) as int].quantity
                == b[q[k] as int].quantity,
    ensures
        total(b, q) == total(a, q) - a[q[i] as int].quantity + b[q[i] as int].quantity,
{
    lemma_total_remove(a, q, i);
    lemma_total_remove(b, q, i);
    let r = q.remove(i);
    assert forall|k: int| 0 <= k < r.len() implies a[(#[trigger] r[k]) as int].quantity
        == b[r[k] as int].quantity by {
        let j = if k < i { k } else { k + 1 };
        assert(r[k] == q[j]);
    }
    lemma_total_same(a, b, r);
}

/// A queue without repeats is no longer than the slab.
pub proof fn lemma_queue_len(q: Seq<u32>, n: int)
    requires
        q.no_duplicates(),
        forall|i: int| 0 <= i < q.len() ==> (#[trigger] q[i]) < n,
        0 <= n,
    ensures
        q.len() <= n,
{
    let r = q.map_values(|x: u32| x as int);
    assert(r.no_duplicates()) by {
        assert forall|i: int, j: int| 0 <= i < r.len() && 0 <= j < r.len() && i != j implies r[i]
            != r[j] by {
            assert(q[i] != q[j]);
        }
    }
    r.unique_seq_to_set();
    lemma_int_range(0, n);
    assert(r.to_set().subset_of(set_int_range(0, n))) by {
        assert forall|x: int| r.to_set().contains(x) implies set_int_range(0, n).contains(x) by {
            let i = choose|i: int| 0 <= i < r.len() && r[i] == x;
            assert(q[i] < n);
        }
    }
    lemma_len_subset(r.to_set(), set_int_range(0, n));
}

/// A cell stays right while the nodes of its queue are left alone.
pub proof fn lemma_cell_frame(
    a: Seq<Node>,
    b: Seq<Node>,
    cell: LevelCell,
    q: Seq<u32>,
    side: Side,
    slot: int,
    price: int,
)
    requires
        cell_ok(a, cell, q, side, slot, price),
        a.len() == b.len(),
        forall|i: int| 0 <= i < q.len() ==> b[(#[trigger] q[i]) as int] == a[q[i] as int],
    ensures
        cell_ok(b, cell, q, side, slot, price),
{
    lemma_total_same(a, b, q);
    assert forall|i: int| 0 <= i < q.len() implies #[trigger] linked_at(b, q, i) by {
        assert(linked_at(a, q, i));
        assert(b[q[i] as int] == a[q[i] as int]);
    }
}

pub proof fn lemma_occupied_finite(queues: Seq<Seq<u32>>)
    ensures
        occupied_slots(queues).finite(),
        occupied_slots(queues).len() <= queues.len(),
{
    lemma_int_range(0, queues.len() as int);
    assert(occupied_slots(queues).subset_of(set_int_range(0, queues.len() as int)));
    lemma_len_subset(occupied_slots(queues), set_int_range(0, queues.len() as int));
}

impl Ladder {
    pub open spec fn inv(self, nodes: Seq<Node>, side: Side, w: TickWindow) -> bool {
        &&& self.cells@.len() == w.capacity
        &&& self.queues@.len() == w.capacity
        &&& w.capacity <= u32::MAX
        &&& nodes.len() <= u32::MAX
        &&& forall|s: int|
            0 <= s < w.capacity ==> cell_ok(
                nodes,
                self.cells@[s],
                #[trigger] self.queues@[s],
                side,
                s,
                w.price_at(s),
            )
        &&& self.occupied == occupied_slots(self.queues@).len()
        &&& best_ok(self.queues@, side, self.best)
    }

    /// A ladder stays right while no node of it changes.
    pub proof fn lemma_frame(
        self,
        a: Seq<Node>,
        b: Seq<Node>,
        side: Side,
        w: TickWindow,
    )
        requires
            self.inv(a, side, w),
            a.len() == b.len(),
            forall|s: int, i: int|
                0 <= s < w.capacity && 0 <= i < self.queues@[s].len() ==> b[(
                #[trigger] self.queues@[s][i]) as int] == a[self.queues@[s][i] as int],
        ensures
            self.inv(b, side, w),
    {
        assert forall|s: int| 0 <= s < w.capacity implies cell_ok(
            b,
            self.cells@[s],
            #[trigger] self.queues@[s],
            side,
            s,
            w.price_at(s),
        ) by {
            lemma_cell_frame(a, b, self.cells@[s], self.queues@[s], side, s, w.price_at(s));
        }
    }

    pub fn new(levels: usize) -> (r: Self)
        ensures
            r.cells@.len() == levels,
            r.queues@.len() == levels,
            r.best is None,
            r.occupied == 0,
            forall|s: int| 0 <= s < levels ==> (#[trigger] r.cells@[s]) == empty_cell(),
            forall|s: int| 0 <= s < levels ==> (#[trigger] r.queues@[s]) == Seq::<u32>::empty(),
    {
        let mut cells: Vec<LevelCell> = Vec::with_capacity(levels);
        let mut i: usize = 0;
        while i < levels
            invariant
                i <= levels,
                cells@.len() == i,
                forall|s: int| 0 <= s < i ==> (#[trigger] cells@[s]) == empty_cell(),
            decreases levels - i,
        {
            cells.push(LevelCell { quantity: 0, orders: 0, head: NIL, tail: NIL });
            i = i + 1;
        }
        Ladder {
            cells,
            best: None,
            occupied: 0,
            queues: Ghost(Seq::new(levels as nat, |s: int| Seq::empty())),
        }
    }

    /// A ladder of empty levels is right, whatever the nodes and the window.
    pub proof fn lemma_empty_inv(self, nodes: Seq<Node>, side: Side, w: TickWindow)
        requires
            self.cells@.len() == w.capacity,
            self.queues@.len() == w.capacity,
            w.capacity <= u32::MAX,
            nodes.len() <= u32::MAX,
            self.best is None,
            self.occupied == 0,
            forall|s: int| 0 <= s < w.capacity ==> (#[trigger] self.cells@[s]) == empty_cell(),
            forall|s: int|
                0 <= s < w.capacity ==> (#[trigger] self.queues@[s]) == Seq::<u32>::empty(),
        ensures
            self.inv(nodes, side, w),
    {
        assert(occupied_slots(self.queues@) =~= Set::empty());
    }

    /// Empties every level, keeping the array.
    pub fn clear(&mut self)
        requires
            old(self).cells@.len() == old(self).queues@.len(),
        ensures
            final(self).cells@.len() == old(self).cells@.len(),
            final(self).queues@.len() == old(self).queues@.len(),
            final(self).best is None,
            final(self).occupied == 0,
            forall|s: int|
                0 <= s < old(self).cells@.len() ==> (#[trigger] final(self).cells@[s])
                    == empty_cell(),
            forall|s: int|
                0 <= s < old(self).cells@.len() ==> (#[trigger] final(self).queues@[s]) == Seq::<
                    u32,
                >::empty(),
    {
        let mut i: usize = 0;
        while i < self.cells.len()
            invariant
                i <= self.cells@.len(),
                self.cells@.len() == old(self).cells@.len(),
                forall|s: int| 0 <= s < i ==> (#[trigger] self.cells@[s]) == empty_cell(),
            decreases self.cells@.len() - i,
        {
            self.cells.set(i, LevelCell { quantity: 0, orders: 0, head: NIL, tail: NIL });
            i = i + 1;
        }
        self.best = None;
        self.occupied = 0;
        self.queues = Ghost(Seq::new(self.cells@.len(), |s: int| Seq::empty()));
    }

    /// Links `node` in as the last of the level `slot`.
    pub fn attach(
        &mut self,
        nodes: &mut Vec<Node>,
        side: Side,
        slot: usize,
        node: u32,
        Ghost(w): Ghost<TickWindow>,
    )
        requires
            old(self).inv(old(nodes)@, side, w),
            slot < w.capacity,
            node < old(nodes)@.len(),
            belongs(old(nodes)@[node as int], side, slot as int, w.price_at(slot as int)),
            !old(self).queues@[slot as int].contains(node),
        ensures
            final(self).inv(final(nodes)@, side, w),
            final(self).queues@ == old(self).queues@.update(
                slot as int,
                old(self).queues@[slot as int].push(node),
            ),
            relinked(old(nodes)@, final(nodes)@, side, slot as int),
    {
        let ghost n0 = nodes@;
        let ghost qs = self.queues@;
        let ghost q = qs[slot as int];
        let ghost q1 = q.push(node);
        let ghost price = w.price_at(slot as int);
        proof {
            assert(cell_ok(n0, self.cells@[slot as int], qs[slot as int], side, slot as int, price));
            assert(q1.no_duplicates());
            assert forall|i: int| 0 <= i < q1.len() implies (#[trigger] q1[i]) < n0.len() by {
                if i < q.len() {
                    assert(q1[i] == q[i]);
                }
            }
            lemma_queue_len(q1, n0.len() as int);
            lemma_total_bound(n0, q);
            assert(q.len() * 0xffff_ffff + 0xffff_ffff <= u64::MAX) by (nonlinear_arith)
                requires
                    q.len() + 1 <= 0xffff_ffff,
            ;
        }
        let mut cell = self.cells[slot];
        let was_empty: bool = cell.orders == 0;
        let tail: u32 = cell.tail;
        if tail == NIL {
            cell.head = node;
        } else {
            assert(q[q.len() - 1] == tail);
            let mut last = nodes[tail as usize];
            last.next = node;
            nodes.set(tail as usize, last);
        }
        let mut n = nodes[node as usize];
        n.prev = tail;
        n.next = NIL;
        nodes.set(node as usize, n);
        cell.tail = node;
        cell.quantity = cell.quantity + n.quantity as u64;
        cell.orders = cell.orders + 1;
        self.cells.set(slot, cell);
        self.queues = Ghost(qs.update(slot as int, q1));
        let ghost n1 = nodes@;
        proof {
            assert(relinked(n0, n1, side, slot as int)) by {
                if q.len() > 0 {
                    assert(belongs(n0[q[q.len() - 1] as int], side, slot as int, price));
                }
            }
            assert(cell_ok(n1, cell, q1, side, slot as int, price)) by {
                lemma_total_same(n0, n1, q1);
                lemma_total_push(n0, q, node);
                assert forall|i: int| 0 <= i < q1.len() implies #[trigger] linked_at(
                    n1,
                    q1,
                    i,
                ) by {
                    if i < q.len() {
                        assert(linked_at(n0, q, i));
                        assert(q1[i] == q[i]);
                        assert(q[i] != node);
                        if i < q.len() - 1 {
                            assert(q[i] != q[q.len() - 1]);
                            assert(n1[q[i] as int] == n0[q[i] as int]);
                        }
                    }
                }
                assert forall|i: int| 0 <= i < q1.len() implies (#[trigger] q1[i]) < n1.len()
                    && belongs(n1[q1[i] as int], side, slot as int, price) by {
                    if i < q.len() {
                        assert(q1[i] == q[i]);
                    }
                    assert(same_data(n0[q1[i] as int], n1[q1[i] as int]));
                }
            }
            self.lemma_other_cells(n0, n1, qs, side, slot as int, w);
            let occ0 = occupied_slots(qs);
            let occ1 = occupied_slots(self.queues@);
            lemma_occupied_finite(qs);
            lemma_occupied_finite(self.queues@);
            assert(occ1 =~= occ0.insert(slot as int));
        }
        if was_empty {
            assert(!occupied_slots(qs).contains(slot as int));
            self.occupied = self.occupied + 1;
        } else {
            assert(occupied_slots(qs).contains(slot as int));
        }
        let better: bool = match self.best {
            None => true,
            Some(b) => match side {
                Side::Bid => slot > b,
                Side::Ask => slot < b,
            },
        };
        if better {
            self.best = Some(slot);
        }
        proof {
            assert(best_ok(self.queues@, side, self.best)) by {
                let b = self.best->0;
                assert forall|s: int|
                    0 <= s < self.queues@.len() && (
                    #[trigger] self.queues@[s]).len() > 0 implies !ahead(side, s, b as int) by {
                    if s != slot {
                        assert(qs[s].len() > 0);
                    }
                }
            }
            assert forall|s: int| 0 <= s < w.capacity implies cell_ok(
                n1,
                self.cells@[s],
                #[trigger] self.queues@[s],
                side,
                s,
                w.price_at(s),
            ) by {}
        }
    }

    /// What happens in one level does not reach the others.
    proof fn lemma_other_cells(
        self,
        n0: Seq<Node>,
        n1: Seq<Node>,
        qs: Seq<Seq<u32>>,
        side: Side,
        slot: int,
        w: TickWindow,
    )
        requires
            qs.len() == w.capacity,
            self.cells@.len() == w.capacity,
            0 <= slot < w.capacity,
            relinked(n0, n1, side, slot),
            forall|s: int|
                0 <= s < w.capacity && s != slot ==> cell_ok(
                    n0,
                    self.cells@[s],
                    #[trigger] qs[s],
                    side,
                    s,
                    w.price_at(s),
                ),
        ensures
            forall|s: int|
                0 <= s < w.capacity && s != slot ==> cell_ok(
                    n1,
                    self.cells@[s],
                    #[trigger] qs[s],
                    side,
                    s,
                    w.price_at(s),
                ),
    {
        assert forall|s: int| 0 <= s < w.capacity && s != slot implies cell_ok(
            n1,
            self.cells@[s],
            #[trigger] qs[s],
            side,
            s,
            w.price_at(s),
        ) by {
            let q = qs[s];
            assert forall|i: int| 0 <= i < q.len() implies n1[(#[trigger] q[i]) as int]
                == n0[q[i] as int] by {
                assert(belongs(n0[q[i] as int], side, s, w.price_at(s)));
            }
            lemma_cell_frame(n0, n1, self.cells@[s], q, side, s, w.price_at(s));
        }
    }

    /// Finds the best occupied slot again, from a slot that nothing is ahead of.
    fn rescan(&mut self, side: Side, start: usize)
        requires
            old(self).cells@.len() == old(self).queues@.len(),
            start < old(self).cells@.len(),
            forall|s: int|
                0 <= s < old(self).queues@.len() ==> old(self).cells@[s].orders == (
                #[trigger] old(self).queues@[s]).len(),
            forall|s: int|
                0 <= s < old(self).queues@.len() && (
                #[trigger] old(self).queues@[s]).len() > 0 ==> !ahead(side, s, start as int),
        ensures
            best_ok(final(self).queues@, side, final(self).best),
            final(self).cells@ == old(self).cells@,
            final(self).queues == old(self).queues,
            final(self).occupied == old(self).occupied,
    {
        let cap: usize = self.cells.len();
        let mut i: usize = start;
        loop
            invariant
                self.cells@ == old(self).cells@,
                self.queues == old(self).queues,
                self.occupied == old(self).occupied,
                cap == self.cells@.len(),
                cap == self.queues@.len(),
                i < cap,
                forall|s: int|
                    0 <= s < cap ==> self.cells@[s].orders == (#[trigger] self.queues@[s]).len(),
                forall|s: int|
                    0 <= s < cap && (#[trigger] self.queues@[s]).len() > 0 ==> !ahead(
                        side,
                        s,
                        i as int,
                    ),
            decreases (if side == Side::Bid { i as int } else { cap - i }),
        {
            if self.cells[i].orders != 0 {
                assert(self.queues@[i as int].len() > 0);
                self.best = Some(i);
                return;
            }
            assert(self.queues@[i as int].len() == 0);
            match side {
                Side::Bid => {
                    if i == 0 {
                        self.best = None;
                        return;
                    }
                    i = i - 1;
                },
                Side::Ask => {
                    if i + 1 >= cap {
                        self.best = None;
                        return;
                    }
                    i = i + 1;
                },
            }
        }
    }

    /// Unlinks `node` from the level `slot`.
    pub fn detach(
        &mut self,
        nodes: &mut Vec<Node>,
        side: Side,
        slot: usize,
        node: u32,
        Ghost(w): Ghost<TickWindow>,
    )
        requires
            old(self).inv(old(nodes)@, side, w),
            slot < w.capacity,
            old(self).queues@[slot as int].contains(node),
        ensures
            final(self).inv(final(nodes)@, side, w),
            final(self).queues@ == old(self).queues@.update(
                slot as int,
                old(self).queues@[slot as int].remove(
                    old(self).queues@[slot as int].index_of(node),
                ),
            ),
            relinked(old(nodes)@, final(nodes)@, side, slot as int),
    {
        let ghost n0 = nodes@;
        let ghost qs = self.queues@;
        let ghost q = qs[slot as int];
        let ghost at = q.index_of(node);
        let ghost q1 = q.remove(at);
        let ghost price = w.price_at(slot as int);
        proof {
            assert(cell_ok(n0, self.cells@[slot as int], qs[slot as int], side, slot as int, price));
            assert(q[at] == node);
            lemma_total_bound(n0, q);
            assert(n0[q[at] as int].quantity <= total(n0, q));
        }
        let mut cell = self.cells[slot];
        let ghost cell0 = cell;
        let mut n = nodes[node as usize];
        let prev: u32 = n.prev;
        let next: u32 = n.next;
        assert(linked_at(n0, q, at));
        if prev != NIL {
            assert(q[at - 1] == prev);
            let mut p = nodes[prev as usize];
            p.next = next;
            nodes.set(prev as usize, p);
        }
        if next != NIL {
            assert(q[at + 1] == next);
            let mut x = nodes[next as usize];
            x.prev = prev;
            nodes.set(next as usize, x);
        }
        if cell.head == node {
            cell.head = next;
        }
        if cell.tail == node {
            cell.tail = prev;
        }
        n.prev = NIL;
        n.next = NIL;
        nodes.set(node as usize, n);
        cell.quantity = cell.quantity - n.quantity as u64;
        cell.orders = cell.orders - 1;
        self.cells.set(slot, cell);
        self.queues = Ghost(qs.update(slot as int, q1));
        let ghost n1 = nodes@;
        proof {
            lemma_unlinked(n0, n1, cell0, cell, q, at, side, slot as int, price);
            self.lemma_other_cells(n0, n1, qs, side, slot as int, w);
            let occ0 = occupied_slots(qs);
            let occ1 = occupied_slots(self.queues@);
            lemma_occupied_finite(qs);
            lemma_occupied_finite(self.queues@);
            assert(occ0.contains(slot as int));
            if q1.len() == 0 {
                assert(occ1 =~= occ0.remove(slot as int));
            } else {
                assert(occ1 =~= occ0);
            }
            assert forall|s: int| 0 <= s < w.capacity implies cell_ok(
                n1,
                self.cells@[s],
                #[trigger] self.queues@[s],
                side,
                s,
                w.price_at(s),
            ) by {}
            assert forall|s: int|
                0 <= s < self.queues@.len() && (#[trigger] self.queues@[s]).len() > 0 implies qs[s].len()
                > 0 by {}
        }
        if cell.orders == 0 {
            self.occupied = self.occupied - 1;
            match self.best {
                Some(b) => {
                    if b == slot {
                        self.rescan(side, slot);
                    }
                },
                None => {},
            }
        }
    }

    /// Takes a node out of its level and frees it, leading to `next`.
    pub fn release(
        &mut self,
        nodes: &mut Vec<Node>,
        side: Side,
        node: u32,
        next: u32,
        Ghost(w): Ghost<TickWindow>,
    )
        requires
            old(self).inv(old(nodes)@, side, w),
            node < old(nodes)@.len(),
            old(nodes)@[node as int].slot < w.capacity,
            old(self).queues@[old(nodes)@[node as int].slot as int].contains(node),
        ensures
            final(self).inv(final(nodes)@, side, w),
            ({
                let n0 = old(nodes)@;
                let n1 = final(nodes)@;
                let from = n0[node as int].slot as int;
                let q = old(self).queues@[from];
                &&& final(self).queues@ == old(self).queues@.update(
                    from,
                    q.remove(q.index_of(node)),
                )
                &&& n1.len() == n0.len()
                &&& n1[node as int].slot == NIL
                &&& n1[node as int].next == next
                &&& forall|x: int|
                    0 <= x < n0.len() && x != node ==> same_data(n0[x], #[trigger] n1[x])
                &&& forall|x: int|
                    0 <= x < n0.len() && x != node && !(n0[x].side == side && n0[x].slot == from)
                        ==> n0[x] == #[trigger] n1[x]
            }),
    {
        let ghost n0 = nodes@;
        let ghost qs = self.queues@;
        let from: usize = nodes[node as usize].slot as usize;
        proof {
            assert(cell_ok(n0, self.cells@[from as int], qs[from as int], side, from as int, w.price_at(from as int)));
        }
        self.detach(nodes, side, from, node, Ghost(w));
        let ghost n1 = nodes@;
        nodes.set(
            node as usize,
            Node { order_id: 0, price: 0, quantity: 0, side: Side::Bid, slot: NIL, next, prev: NIL },
        );
        proof {
            lemma_left_behind(n0, qs, self.queues@, side, w, from as int, node);
            assert forall|t: int, i: int|
                0 <= t < w.capacity && 0 <= i < self.queues@[t].len() implies nodes@[(
            #[trigger] self.queues@[t][i]) as int] == n1[self.queues@[t][i] as int] by {}
            self.lemma_frame(n1, nodes@, side, w);
        }
    }

    /// Moves a node to the end of another level, with a new quantity.
    pub fn relocate(
        &mut self,
        nodes: &mut Vec<Node>,
        side: Side,
        node: u32,
        slot: usize,
        price: i64,
        quantity: u32,
        Ghost(w): Ghost<TickWindow>,
    )
        requires
            old(self).inv(old(nodes)@, side, w),
            node < old(nodes)@.len(),
            old(nodes)@[node as int].slot < w.capacity,
            old(self).queues@[old(nodes)@[node as int].slot as int].contains(node),
            slot < w.capacity,
            w.price_at(slot as int) == price,
            quantity > 0,
        ensures
            final(self).inv(final(nodes)@, side, w),
            ({
                let n0 = old(nodes)@;
                let n1 = final(nodes)@;
                let from = n0[node as int].slot as int;
                let q = old(self).queues@[from];
                let mid = old(self).queues@.update(from, q.remove(q.index_of(node)));
                &&& final(self).queues@ == mid.update(slot as int, mid[slot as int].push(node))
                &&& n1.len() == n0.len()
                &&& n1[node as int].order_id == n0[node as int].order_id
                &&& belongs(n1[node as int], side, slot as int, price as int)
                &&& n1[node as int].quantity == quantity
                &&& forall|x: int|
                    0 <= x < n0.len() && x != node ==> same_data(n0[x], #[trigger] n1[x])
                &&& forall|x: int|
                    0 <= x < n0.len() && x != node && !(n0[x].side == side && (n0[x].slot == from
                        || n0[x].slot == slot)) ==> n0[x] == #[trigger] n1[x]
            }),
    {
        let ghost n0 = nodes@;
        let ghost qs = self.queues@;
        let from: usize = nodes[node as usize].slot as usize;
        let ghost q = qs[from as int];
        let ghost at = q.index_of(node);
        proof {
            assert(q[at] == node);
            assert(cell_ok(n0, self.cells@[from as int], qs[from as int], side, from as int, w.price_at(from as int)));
        }
        self.detach(nodes, side, from, node, Ghost(w));
        let ghost n1 = nodes@;
        let ghost mid = self.queues@;
        let mut n = nodes[node as usize];
        n.price = price;
        n.quantity = quantity;
        n.slot = slot as u32;
        nodes.set(node as usize, n);
        let ghost n2 = nodes@;
        proof {
            assert(same_data(n0[node as int], n1[node as int]));
            assert(belongs(n0[node as int], side, from as int, w.price_at(from as int)));
            lemma_left_behind(n0, qs, mid, side, w, from as int, node);
            assert forall|t: int, i: int|
                0 <= t < w.capacity && 0 <= i < self.queues@[t].len() implies n2[(
            #[trigger] self.queues@[t][i]) as int] == n1[self.queues@[t][i] as int] by {
                assert(mid[t][i] != node);
            }
            self.lemma_frame(n1, n2, side, w);
            if mid[slot as int].contains(node) {
                let i = choose|i: int| 0 <= i < mid[slot as int].len() && mid[slot as int][i] == node;
                assert(mid[slot as int][i] != node);
            }
        }
        self.attach(nodes, side, slot, node, Ghost(w));
        proof {
            let n3 = nodes@;
            assert(same_data(n2[node as int], n3[node as int]));
            assert forall|x: int| 0 <= x < n0.len() && x != node implies same_data(
                n0[x],
                #[trigger] n3[x],
            ) by {
                assert(same_data(n0[x], n1[x]));
                assert(same_data(n2[x], n3[x]));
            }
            assert forall|x: int|
                0 <= x < n0.len() && x != node && !(n0[x].side == side && (n0[x].slot == from
                    || n0[x].slot == slot)) implies n0[x] == #[trigger] n3[x] by {
                assert(n0[x] == n1[x]);
                assert(n2[x] == n1[x]);
            }
        }
    }

    /// Makes the node of a level smaller where it stands.
    pub fn shrink(
        &mut self,
        nodes: &mut Vec<Node>,
        side: Side,
        slot: usize,
        node: u32,
        new_quantity: u32,
        Ghost(w): Ghost<TickWindow>,
    )
        requires
            old(self).inv(old(nodes)@, side, w),
            slot < w.capacity,
            old(self).queues@[slot as int].contains(node),
            0 < new_quantity <= old(nodes)@[node as int].quantity,
        ensures
            final(self).inv(final(nodes)@, side, w),
            final(self).queues@ == old(self).queues@,
            node < old(nodes)@.len(),
            final(nodes)@ == old(nodes)@.update(
                node as int,
                (Node { quantity: new_quantity, ..old(nodes)@[node as int] }),
            ),
    {
        let ghost n0 = nodes@;
        let ghost q = self.queues@[slot as int];
        let ghost at = q.index_of(node);
        let ghost price = w.price_at(slot as int);
        proof {
            assert(cell_ok(n0, self.cells@[slot as int], self.queues@[slot as int], side, slot as int, price));
            assert(q[at] == node);
            lemma_total_bound(n0, q);
            assert(n0[q[at] as int].quantity <= total(n0, q));
        }
        let mut n = nodes[node as usize];
        let old_quantity: u32 = n.quantity;
        n.quantity = new_quantity;
        nodes.set(node as usize, n);
        let mut cell = self.cells[slot];
        cell.quantity = cell.quantity - (old_quantity - new_quantity) as u64;
        self.cells.set(slot, cell);
        let ghost n1 = nodes@;
        proof {
            lemma_total_update(n0, n1, q, at);
            assert forall|i: int| 0 <= i < q.len() implies #[trigger] linked_at(n1, q, i) by {
                assert(linked_at(n0, q, i));
                assert(q[i] < n0.len());
            }
            assert forall|i: int| 0 <= i < q.len() implies (#[trigger] q[i]) < n1.len() && belongs(
                n1[q[i] as int],
                side,
                slot as int,
                price,
            ) by {
                assert(belongs(n0[q[i] as int], side, slot as int, price));
            }
            assert(cell_ok(n1, cell, q, side, slot as int, price));
            assert forall|s: int| 0 <= s < w.capacity implies cell_ok(
                n1,
                self.cells@[s],
                #[trigger] self.queues@[s],
                side,
                s,
                w.price_at(s),
            ) by {
                if s != slot {
                    let r = self.queues@[s];
                    assert forall|i: int| 0 <= i < r.len() implies n1[(#[trigger] r[i]) as int]
                        == n0[r[i] as int] by {
                        assert(belongs(n0[r[i] as int], side, s, w.price_at(s)));
                        assert(belongs(n0[node as int], side, slot as int, price));
                    }
                    lemma_cell_frame(n0, n1, self.cells@[s], r, side, s, w.price_at(s));
                }
            }
        }
    }

    /// Moves every level down by `shift` slots.
    pub fn shift(&mut self, shift: i64, Ghost(side): Ghost<Side>)
        requires
            old(self).cells@.len() == old(self).queues@.len(),
            old(self).cells@.len() <= u32::MAX,
            best_ok(old(self).queues@, side, old(self).best),
            old(self).occupied == occupied_slots(old(self).queues@).len(),
            forall|s: int|
                0 <= s < old(self).queues@.len() && (
                #[trigger] old(self).queues@[s]).len() > 0 ==> 0 <= s - shift
                    < old(self).queues@.len(),
        ensures
            final(self).cells@.len() == old(self).cells@.len(),
            final(self).queues@.len() == old(self).queues@.len(),
            final(self).occupied == occupied_slots(final(self).queues@).len(),
            best_ok(final(self).queues@, side, final(self).best),
            forall|s: int|
                0 <= s < old(self).cells@.len() ==> (#[trigger] final(self).cells@[s]) == (if 0 <= s
                    + shift < old(self).cells@.len() {
                    old(self).cells@[s + shift]
                } else {
                    empty_cell()
                }),
            forall|s: int|
                0 <= s < old(self).cells@.len() ==> (#[trigger] final(self).queues@[s]) == (if 0
                    <= s + shift < old(self).cells@.len() {
                    old(self).queues@[s + shift]
                } else {
                    Seq::<u32>::empty()
                }),
    {
        let cap: usize = self.cells.len();
        let ghost c0 = self.cells@;
        let ghost qs = self.queues@;
        if shift > 0 {
            let mut i: usize = 0;
            while i < cap
                invariant
                    i <= cap,
                    cap == self.cells@.len(),
                    cap == c0.len(),
                    cap <= u32::MAX,
                    shift > 0,
                    self.queues@ == qs,
                    self.best == old(self).best,
                    self.occupied == old(self).occupied,
                    forall|s: int|
                        0 <= s < i ==> (#[trigger] self.cells@[s]) == (if 0 <= s + shift < cap {
                            c0[s + shift]
                        } else {
                            empty_cell()
                        }),
                    forall|s: int| i <= s < cap ==> (#[trigger] self.cells@[s]) == c0[s],
                decreases cap - i,
            {
                let from: i128 = i as i128 + shift as i128;
                let cell = if from < cap as i128 {
                    self.cells[from as usize]
                } else {
                    LevelCell { quantity: 0, orders: 0, head: NIL, tail: NIL }
                };
                self.cells.set(i, cell);
                i = i + 1;
            }
        } else if shift < 0 {
            let mut i: usize = cap;
            while i > 0
                invariant
                    i <= cap,
                    cap == self.cells@.len(),
                    cap == c0.len(),
                    cap <= u32::MAX,
                    shift < 0,
                    self.queues@ == qs,
                    self.best == old(self).best,
                    self.occupied == old(self).occupied,
                    forall|s: int|
                        i <= s < cap ==> (#[trigger] self.cells@[s]) == (if 0 <= s + shift < cap {
                            c0[s + shift]
                        } else {
                            empty_cell()
                        }),
                    forall|s: int| 0 <= s < i ==> (#[trigger] self.cells@[s]) == c0[s],
                decreases i,
            {
                i = i - 1;
                let from: i128 = i as i128 + shift as i128;
                let cell = if from >= 0 {
                    self.cells[from as usize]
                } else {
                    LevelCell { quantity: 0, orders: 0, head: NIL, tail: NIL }
                };
                self.cells.set(i, cell);
            }
        }
        let ghost q1 = Seq::new(
            cap as nat,
            |s: int|
                if 0 <= s + shift < cap {
                    qs[s + shift]
                } else {
                    Seq::<u32>::empty()
                },
        );
        self.queues = Ghost(q1);
        proof {
            let occ0 = occupied_slots(qs);
            let occ1 = occupied_slots(q1);
            lemma_occupied_finite(qs);
            let f = |s: int| s - shift;
            assert(occ1 =~= occ0.map(f)) by {
                assert forall|t: int| occ1.contains(t) implies occ0.map(f).contains(t) by {
                    assert(occ0.contains(t + shift));
                    assert(f(t + shift) == t);
                }
                assert forall|t: int| occ0.map(f).contains(t) implies occ1.contains(t) by {
                    let s = choose|s: int| occ0.contains(s) && f(s) == t;
                    assert(qs[s].len() > 0);
                }
            }
            lemma_shift_count(occ0, shift as int);
        }
        match self.best {
            None => {
                assert forall|s: int| 0 <= s < q1.len() implies (#[trigger] q1[s]).len() == 0 by {
                    if 0 <= s + shift < cap {
                        assert(qs[s + shift].len() == 0);
                    }
                }
            },
            Some(b) => {
                assert(qs[b as int].len() > 0);
                let moved: i128 = b as i128 - shift as i128;
                self.best = Some(moved as usize);
                assert forall|s: int|
                    0 <= s < q1.len() && (#[trigger] q1[s]).len() > 0 implies !ahead(
                    side,
                    s,
                    moved as int,
                ) by {
                    assert(qs[s + shift].len() > 0);
                }
            },
        }
    }
}

proof fn lemma_shift_count(occ: Set<int>, shift: int)
    requires
        occ.finite(),
    ensures
        occ.map(|s: int| s - shift).finite(),
        occ.map(|s: int| s - shift).len() == occ.len(),
    decreases occ.len(),
{
    let f = |s: int| s - shift;
    if occ.len() == 0 {
        assert(occ =~= Set::empty());
        assert(occ.map(f) =~= Set::empty());
    } else {
        let x = occ.choose();
        let r = occ.remove(x);
        lemma_shift_count(r, shift);
        assert(occ.map(f) =~= r.map(f).insert(f(x))) by {
            assert forall|t: int| occ.map(f).contains(t) implies r.map(f).insert(f(x)).contains(
                t,
            ) by {
                let s = choose|s: int| occ.contains(s) && f(s) == t;
                if s != x {
                    assert(r.contains(s));
                }
            }
            assert forall|t: int| r.map(f).insert(f(x)).contains(t) implies occ.map(f).contains(
                t,
            ) by {
                if t == f(x) {
                    assert(occ.contains(x));
                } else {
                    let s = choose|s: int| r.contains(s) && f(s) == t;
                    assert(occ.contains(s));
                }
            }
        }
        assert(!r.map(f).contains(f(x))) by {
            if r.map(f).contains(f(x)) {
                let s = choose|s: int| r.contains(s) && f(s) == f(x);
                assert(s == x);
            }
        }
    }
}

/// Taking the node at `at` out of its list, link by link, is taking it out of
/// its queue.
proof fn lemma_unlinked(
    n0: Seq<Node>,
    n1: Seq<Node>,
    cell0: LevelCell,
    cell1: LevelCell,
    q: Seq<u32>,
    at: int,
    side: Side,
    slot: int,
    price: int,
)
    requires
        cell_ok(n0, cell0, q, side, slot, price),
        n0.len() <= u32::MAX,
        0 <= at < q.len(),
        n1.len() == n0.len(),
        forall|x: int|
            0 <= x < n0.len() && x != q[at] && x != link(q, at - 1) && x != link(q, at + 1)
                ==> #[trigger] n1[x] == n0[x],
        forall|x: int| 0 <= x < n0.len() ==> same_data(n0[x], #[trigger] n1[x]),
        at > 0 ==> n1[q[at - 1] as int] == (Node {
            next: link(q, at + 1),
            ..n0[q[at - 1] as int]
        }),
        at + 1 < q.len() ==> n1[q[at + 1] as int] == (Node {
            prev: link(q, at - 1),
            ..n0[q[at + 1] as int]
        }),
        cell1.head == (if cell0.head == q[at] {
            link(q, at + 1)
        } else {
            cell0.head
        }),
        cell1.tail == (if cell0.tail == q[at] {
            link(q, at - 1)
        } else {
            cell0.tail
        }),
        cell1.orders == cell0.orders - 1,
        cell1.quantity == cell0.quantity - n0[q[at] as int].quantity,
    ensures
        relinked(n0, n1, side, slot),
        cell_ok(n1, cell1, q.remove(at), side, slot, price),
{
    let q1 = q.remove(at);
    let node = q[at];
    assert(belongs(n0[q[at] as int], side, slot, price));
    if at > 0 {
        assert(belongs(n0[q[at - 1] as int], side, slot, price));
    }
    if at + 1 < q.len() {
        assert(belongs(n0[q[at + 1] as int], side, slot, price));
    }
    assert forall|i: int| 0 <= i < q1.len() implies n0[(#[trigger] q1[i]) as int].quantity
        == n1[q1[i] as int].quantity by {
        let k = if i < at { i } else { i + 1 };
        assert(q1[i] == q[k]);
        assert(same_data(n0[q[k] as int], n1[q[k] as int]));
    }
    lemma_total_same(n0, n1, q1);
    lemma_total_remove(n0, q, at);
    assert forall|i: int| 0 <= i < q1.len() implies #[trigger] linked_at(n1, q1, i) by {
        let k = if i < at { i } else { i + 1 };
        assert(linked_at(n0, q, k));
        assert(q1[i] == q[k]);
        assert(q[k] != node);
        assert(q[k] < n0.len());
        if at > 0 && k != at - 1 {
            assert(q[at - 1] != q[k]);
        }
        if at + 1 < q.len() && k != at + 1 {
            assert(q[at + 1] != q[k]);
        }
        if k == at - 1 || k == at + 1 {
        } else {
            assert(n1[q[k] as int] == n0[q[k] as int]);
        }
    }
    assert forall|i: int| 0 <= i < q1.len() implies (#[trigger] q1[i]) < n1.len() && belongs(
        n1[q1[i] as int],
        side,
        slot,
        price,
    ) by {
        let k = if i < at { i } else { i + 1 };
        assert(q1[i] == q[k]);
        assert(same_data(n0[q[k] as int], n1[q[k] as int]));
    }
    if at > 0 {
        assert(q[0] != node);
    }
    if at < q.len() - 1 {
        assert(q[q.len() - 1] != node);
    }
}

/// What stays in a ladder after a node was taken out is not that node.
proof fn lemma_left_behind(
    nodes: Seq<Node>,
    qs: Seq<Seq<u32>>,
    left: Seq<Seq<u32>>,
    side: Side,
    w: TickWindow,
    from: int,
    node: u32,
)
    requires
        qs.len() == w.capacity,
        0 <= from < w.capacity,
        qs[from].contains(node),
        left == qs.update(from, qs[from].remove(qs[from].index_of(node))),
        forall|s: int|
            0 <= s < w.capacity ==> members(nodes, #[trigger] qs[s], side, s, w.price_at(s))
                && qs[s].no_duplicates(),
    ensures
        forall|t: int, i: int|
            0 <= t < w.capacity && 0 <= i < left[t].len() ==> (#[trigger] left[t][i]) != node
                && left[t][i] < nodes.len(),
{
    let q = qs[from];
    let at = q.index_of(node);
    assert(q[at] == node);
    assert forall|t: int, i: int| 0 <= t < w.capacity && 0 <= i < left[t].len() implies (
    #[trigger] left[t][i]) != node && left[t][i] < nodes.len() by {
        let r = qs[t];
        assert(members(nodes, r, side, t, w.price_at(t)));
        assert(members(nodes, q, side, from, w.price_at(from)));
        if t == from {
            let k = if i < at { i } else { i + 1 };
            assert(left[t][i] == q[k]);
            assert(q[k] != q[at]);
        } else {
            assert(belongs(nodes[r[i] as int], side, t, w.price_at(t)));
            assert(belongs(nodes[q[at] as int], side, from, w.price_at(from)));
        }
    }
}

} // verus!
