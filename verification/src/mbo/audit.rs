//! Checking a book's redundant structures against each other.

use super::MboBook;
use crate::ladder::{cell_ok, link, linked_at, occupied_slots, total, Ladder, LevelCell, Node};
use crate::message::Side;
use crate::model::{ahead, Fault};
use crate::order_map::{OrderMap, NIL};
use vstd::prelude::*;

verus! {

/// Following `next` from `head` gives `q`.
spec fn forward(nodes: Seq<Node>, head: u32, q: Seq<u32>) -> bool {
    &&& head == link(q, 0)
    &&& forall|i: int| 0 <= i < q.len() ==> #[trigger] leads_on(nodes, q, i)
}

spec fn leads_on(nodes: Seq<Node>, q: Seq<u32>, i: int) -> bool {
    &&& q[i] != NIL
    &&& nodes[q[i] as int].next == link(q, i + 1)
}

/// What an audit wants of the node at `i` of a level's list.
spec fn node_sound(
    nodes: Seq<Node>,
    map: Map<u64, u32>,
    q: Seq<u32>,
    side: Side,
    slot: int,
    i: int,
) -> bool {
    let n = nodes[q[i] as int];
    &&& n.slot == slot
    &&& n.side == side
    &&& n.prev == link(q, i - 1)
    &&& n.quantity > 0
    &&& map.dom().contains(n.order_id)
}

/// `q` is the list of the level, and the level's cell and nodes agree with it.
spec fn list_sound(
    nodes: Seq<Node>,
    map: Map<u64, u32>,
    cell: LevelCell,
    q: Seq<u32>,
    side: Side,
    slot: int,
) -> bool {
    &&& q.len() <= nodes.len()
    &&& forward(nodes, cell.head, q)
    &&& forall|i: int| 0 <= i < q.len() ==> #[trigger] node_sound(nodes, map, q, side, slot, i)
    &&& cell.tail == link(q, q.len() - 1)
    &&& cell.orders == q.len()
    &&& cell.quantity == total(nodes, q)
}

spec fn level_sound(
    nodes: Seq<Node>,
    map: Map<u64, u32>,
    cell: LevelCell,
    side: Side,
    slot: int,
) -> bool {
    exists|q: Seq<u32>| list_sound(nodes, map, cell, q, side, slot)
}

/// How many of the first `k` cells hold something.
spec fn cells_used(cells: Seq<LevelCell>, k: int) -> int
    decreases k,
{
    if k <= 0 {
        0
    } else if cells[k - 1].orders != 0 {
        cells_used(cells, k - 1) + 1
    } else {
        cells_used(cells, k - 1)
    }
}

/// How many orders the first `k` cells count together.
spec fn cells_orders(cells: Seq<LevelCell>, k: int) -> int
    decreases k,
{
    if k <= 0 {
        0
    } else {
        cells_orders(cells, k - 1) + cells[k - 1].orders
    }
}

spec fn best_sound(cells: Seq<LevelCell>, side: Side, best: Option<usize>) -> bool {
    match best {
        None => forall|s: int| 0 <= s < cells.len() ==> (#[trigger] cells[s]).orders == 0,
        Some(b) => {
            &&& b < cells.len()
            &&& cells[b as int].orders != 0
            &&& forall|s: int|
                0 <= s < cells.len() && (#[trigger] cells[s]).orders != 0 ==> !ahead(
                    side,
                    s,
                    b as int,
                )
        },
    }
}

spec fn ladder_sound(l: Ladder, nodes: Seq<Node>, map: Map<u64, u32>, side: Side) -> bool {
    &&& forall|s: int|
        0 <= s < l.cells@.len() ==> level_sound(nodes, map, #[trigger] l.cells@[s], side, s)
    &&& l.occupied == cells_used(l.cells@, l.cells@.len() as int)
}

spec fn links_in_range(nodes: Seq<Node>, l: Ladder) -> bool {
    &&& forall|x: int|
        0 <= x < nodes.len() ==> (#[trigger] nodes[x]).next == NIL || nodes[x].next < nodes.len()
    &&& forall|s: int|
        0 <= s < l.cells@.len() ==> (#[trigger] l.cells@[s]).head == NIL || l.cells@[s].head
            < nodes.len()
}

/// Two lists that start alike go on alike.
proof fn lemma_forward_next(nodes: Seq<Node>, head: u32, seen: Seq<u32>, node: u32, p: Seq<u32>)
    requires
        forward(nodes, head, p),
        p.len() >= seen.len(),
        p.take(seen.len() as int) == seen,
        link(p, seen.len() as int) == node,
        node != NIL,
    ensures
        p.len() >= seen.len() + 1,
        p.take(seen.len() as int + 1) == seen.push(node),
        link(p, seen.len() as int + 1) == nodes[node as int].next,
{
    assert(leads_on(nodes, p, seen.len() as int));
    assert(p.take(seen.len() as int + 1) =~= p.take(seen.len() as int).push(p[seen.len() as int]));
}

/// A visited prefix of the list of a level.
spec fn visited(nodes: Seq<Node>, head: u32, seen: Seq<u32>, node: u32) -> bool {
    forall|p: Seq<u32>| #[trigger]
        forward(nodes, head, p) ==> p.len() >= seen.len() && p.take(seen.len() as int) == seen
            && link(p, seen.len() as int) == node
}

/// What an audit of a level finds first, from a node of its list on: `prev` is where
/// it came from, and `in_level` nodes of `quantity` together lie behind.
spec fn walk_fault(
    nodes: Seq<Node>,
    map: Map<u64, u32>,
    cell: LevelCell,
    side: Side,
    level: usize,
    node: u32,
    prev: u32,
    in_level: int,
    quantity: int,
) -> Option<Fault>
    decreases nodes.len() + 1 - in_level,
{
    if node == NIL {
        if cell.tail != prev {
            Some(Fault::WrongTail { level, tail: cell.tail, ended_at: prev })
        } else if in_level != cell.orders {
            Some(Fault::WrongOrderCount { level, says: cell.orders, holds: in_level as u32 })
        } else if quantity != cell.quantity {
            Some(
                Fault::WrongQuantity {
                    level,
                    cell_quantity: cell.quantity,
                    list_quantity: quantity as u64,
                },
            )
        } else {
            None
        }
    } else {
        let n = nodes[node as int];
        if n.slot != level {
            Some(Fault::RecordsOtherSlot { order_id: n.order_id, level, slot: n.slot })
        } else if n.side != side {
            Some(Fault::WrongSide { order_id: n.order_id })
        } else if n.prev != prev {
            Some(Fault::WrongPrev { order_id: n.order_id, prev: n.prev, came_from: prev })
        } else if n.quantity == 0 {
            Some(Fault::RestsEmpty { order_id: n.order_id })
        } else if !map.dom().contains(n.order_id) {
            Some(Fault::NotInMap { order_id: n.order_id })
        } else if in_level + 1 > nodes.len() {
            Some(Fault::Cyclic { level })
        } else {
            walk_fault(
                nodes,
                map,
                cell,
                side,
                level,
                n.next,
                node,
                in_level + 1,
                quantity + n.quantity,
            )
        }
    }
}

/// What an audit of a level finds first.
spec fn level_fault(
    nodes: Seq<Node>,
    map: Map<u64, u32>,
    cell: LevelCell,
    side: Side,
    level: usize,
) -> Option<Fault> {
    walk_fault(nodes, map, cell, side, level, cell.head, NIL, 0, 0)
}

/// What an audit of the levels from `k` on finds first.
spec fn levels_fault(
    nodes: Seq<Node>,
    map: Map<u64, u32>,
    cells: Seq<LevelCell>,
    side: Side,
    k: int,
) -> Option<Fault>
    decreases cells.len() - k,
{
    if k >= cells.len() {
        None
    } else if level_fault(nodes, map, cells[k], side, k as usize) is Some {
        level_fault(nodes, map, cells[k], side, k as usize)
    } else {
        levels_fault(nodes, map, cells, side, k + 1)
    }
}

/// What an audit of a side finds first: in a level, or in how many are occupied.
spec fn ladder_fault(l: Ladder, nodes: Seq<Node>, map: Map<u64, u32>, side: Side) -> Option<Fault> {
    let used = cells_used(l.cells@, l.cells@.len() as int);
    if levels_fault(nodes, map, l.cells@, side, 0) is Some {
        levels_fault(nodes, map, l.cells@, side, 0)
    } else if used != l.occupied {
        Some(Fault::WrongLevelCount { side, says: l.occupied, holds: used as u32 })
    } else {
        None
    }
}

/// An audit of a sound list finds nothing, from any of its nodes on.
proof fn lemma_walk_passes(
    nodes: Seq<Node>,
    map: Map<u64, u32>,
    cell: LevelCell,
    q: Seq<u32>,
    side: Side,
    level: usize,
    i: int,
)
    requires
        list_sound(nodes, map, cell, q, side, level as int),
        0 <= i <= q.len(),
    ensures
        walk_fault(
            nodes,
            map,
            cell,
            side,
            level,
            link(q, i),
            link(q, i - 1),
            i,
            total(nodes, q.take(i)),
        ) is None,
    decreases q.len() - i,
{
    if i < q.len() {
        assert(leads_on(nodes, q, i));
        assert(node_sound(nodes, map, q, side, level as int, i));
        assert(q.take(i + 1).drop_last() =~= q.take(i));
        lemma_walk_passes(nodes, map, cell, q, side, level, i + 1);
    } else {
        assert(q.take(i) =~= q);
    }
}

/// An audit finds nothing on sound levels.
proof fn lemma_levels_pass(
    nodes: Seq<Node>,
    map: Map<u64, u32>,
    cells: Seq<LevelCell>,
    side: Side,
    k: int,
)
    requires
        forall|s: int|
            0 <= s < cells.len() ==> level_sound(nodes, map, #[trigger] cells[s], side, s),
        0 <= k <= cells.len() <= usize::MAX,
    ensures
        levels_fault(nodes, map, cells, side, k) is None,
    decreases cells.len() - k,
{
    if k < cells.len() {
        assert(level_sound(nodes, map, cells[k], side, k));
        let q = choose|q: Seq<u32>| list_sound(nodes, map, cells[k], q, side, k);
        lemma_walk_passes(nodes, map, cells[k], q, side, k as usize, 0);
        assert(q.take(0) =~= Seq::<u32>::empty());
        lemma_levels_pass(nodes, map, cells, side, k + 1);
    }
}

proof fn lemma_ladder_passes(l: Ladder, nodes: Seq<Node>, map: Map<u64, u32>, side: Side)
    requires
        ladder_sound(l, nodes, map, side),
    ensures
        ladder_fault(l, nodes, map, side) is None,
{
    assert(l.cells.len() == l.cells@.len());
    lemma_levels_pass(nodes, map, l.cells@, side, 0);
}

/// The best occupied slot, as a search of all of them finds it.
spec fn best_of(cells: Seq<LevelCell>, side: Side) -> Option<usize> {
    choose|b: Option<usize>| best_sound(cells, side, b)
}

/// Audits one level.
fn audit_level(
    nodes: &Vec<Node>,
    map: &OrderMap,
    cell: LevelCell,
    side: Side,
    level: usize,
) -> (r: Result<(), Fault>)
    requires
        nodes@.len() <= u32::MAX,
        map.wf(),
        map@.len() < map.slots(),
        cell.head == NIL || cell.head < nodes@.len(),
        forall|x: int|
            0 <= x < nodes@.len() ==> (#[trigger] nodes@[x]).next == NIL || nodes@[x].next
                < nodes@.len(),
    ensures
        r is Ok <==> level_sound(nodes@, map@, cell, side, level as int),
        r is Ok <==> level_fault(nodes@, map@, cell, side, level) is None,
        r matches Err(f) ==> level_fault(nodes@, map@, cell, side, level) == Some(f),
{
    let mut node: u32 = cell.head;
    let mut in_level: u32 = 0;
    let mut quantity: u64 = 0;
    let mut prev: u32 = NIL;
    let ghost mut seen: Seq<u32> = Seq::empty();
    proof {
        assert forall|p: Seq<u32>| #[trigger] forward(nodes@, cell.head, p) implies p.len()
            >= seen.len() && p.take(seen.len() as int) == seen && link(p, seen.len() as int)
            == node by {
            assert(p.take(0) =~= seen);
        }
    }
    while node != NIL
        invariant
            nodes@.len() <= u32::MAX,
            map.wf(),
            map@.len() < map.slots(),
            node == NIL || node < nodes@.len(),
            forall|x: int|
                0 <= x < nodes@.len() ==> (#[trigger] nodes@[x]).next == NIL || nodes@[x].next
                    < nodes@.len(),
            in_level == seen.len(),
            in_level <= nodes@.len(),
            level_fault(nodes@, map@, cell, side, level) == walk_fault(
                nodes@,
                map@,
                cell,
                side,
                level,
                node,
                prev,
                in_level as int,
                quantity as int,
            ),
            visited(nodes@, cell.head, seen, node),
            prev == link(seen, seen.len() - 1),
            quantity == total(nodes@, seen),
            quantity <= in_level * 0xffff_ffff,
            seen.len() == 0 ==> node == cell.head,
            seen.len() > 0 ==> seen[0] == cell.head && nodes@[prev as int].next == node,
            forall|i: int|
                0 <= i < seen.len() - 1 ==> nodes@[(#[trigger] seen[i]) as int].next == seen[i + 1],
            forall|i: int| 0 <= i < seen.len() ==> (#[trigger] seen[i]) < nodes@.len(),
            forall|i: int|
                0 <= i < seen.len() ==> {
                    let n = nodes@[(#[trigger] seen[i]) as int];
                    &&& n.slot == level
                    &&& n.side == side
                    &&& n.prev == link(seen, i - 1)
                    &&& n.quantity > 0
                    &&& map@.dom().contains(n.order_id)
                },
        decreases nodes@.len() - in_level,
    {
        let n = nodes[node as usize];
        let ghost at = seen.len() as int;
        proof {
            // Whatever list the level has, this node is the next one on it.
            assert forall|q: Seq<u32>| #[trigger]
                list_sound(nodes@, map@, cell, q, side, level as int) implies 0 <= at < q.len()
                && q[at] == node && node_sound(nodes@, map@, q, side, level as int, at) && link(
                q,
                at - 1,
            ) == prev by {
                assert(forward(nodes@, cell.head, q));
                assert(q.take(at) == seen);
                if at > 0 {
                    assert(q.take(at)[at - 1] == q[at - 1]);
                }
            }
        }
        if n.slot as usize != level {
            proof {
                lemma_refuted(nodes@, map@, cell, side, level as int, at, node, prev);
            }
            return Err(Fault::RecordsOtherSlot { order_id: n.order_id, level, slot: n.slot });
        }
        if n.side != side {
            proof {
                lemma_refuted(nodes@, map@, cell, side, level as int, at, node, prev);
            }
            return Err(Fault::WrongSide { order_id: n.order_id });
        }
        if n.prev != prev {
            proof {
                lemma_refuted(nodes@, map@, cell, side, level as int, at, node, prev);
            }
            return Err(
                Fault::WrongPrev { order_id: n.order_id, prev: n.prev, came_from: prev },
            );
        }
        if n.quantity == 0 {
            proof {
                lemma_refuted(nodes@, map@, cell, side, level as int, at, node, prev);
            }
            return Err(Fault::RestsEmpty { order_id: n.order_id });
        }
        if map.get(n.order_id).is_none() {
            proof {
                lemma_refuted(nodes@, map@, cell, side, level as int, at, node, prev);
            }
            return Err(Fault::NotInMap { order_id: n.order_id });
        }
        proof {
            let next_seen = seen.push(node);
            assert forall|p: Seq<u32>| #[trigger] forward(nodes@, cell.head, p) implies p.len()
                >= next_seen.len() && p.take(next_seen.len() as int) == next_seen && link(
                p,
                next_seen.len() as int,
            ) == n.next by {
                lemma_forward_next(nodes@, cell.head, seen, node, p);
            }
            assert(next_seen.drop_last() =~= seen);
            seen = next_seen;
        }
        if in_level as usize >= nodes.len() {
            proof {
                if level_sound(nodes@, map@, cell, side, level as int) {
                    let q = choose|q: Seq<u32>|
                        list_sound(nodes@, map@, cell, q, side, level as int);
                    assert(forward(nodes@, cell.head, q));
                }
            }
            return Err(Fault::Cyclic { level });
        }
        in_level = in_level + 1;
        quantity = quantity + n.quantity as u64;
        prev = node;
        node = n.next;
    }
    proof {
        assert forall|q: Seq<u32>| list_sound(
            nodes@,
            map@,
            cell,
            q,
            side,
            level as int,
        ) implies q == seen by {
            assert(forward(nodes@, cell.head, q));
            assert(q.take(seen.len() as int) == seen);
            if q.len() > seen.len() {
                assert(leads_on(nodes@, q, seen.len() as int));
            }
            assert(q =~= seen);
        }
        assert(forward(nodes@, cell.head, seen)) by {
            assert forall|i: int| 0 <= i < seen.len() implies #[trigger] leads_on(
                nodes@,
                seen,
                i,
            ) by {
                if i < seen.len() - 1 {
                    assert(nodes@[seen[i] as int].next == seen[i + 1]);
                } else {
                    assert(seen[i] == prev);
                }
            }
        }
        assert forall|i: int| 0 <= i < seen.len() implies #[trigger] node_sound(
            nodes@,
            map@,
            seen,
            side,
            level as int,
            i,
        ) by {
            assert(seen[i] < nodes@.len());
        }
    }
    if cell.tail != prev {
        return Err(Fault::WrongTail { level, tail: cell.tail, ended_at: prev });
    }
    if in_level != cell.orders {
        return Err(Fault::WrongOrderCount { level, says: cell.orders, holds: in_level });
    }
    if quantity != cell.quantity {
        return Err(Fault::WrongQuantity { level, cell_quantity: cell.quantity, list_quantity: quantity });
    }
    proof {
        assert(list_sound(nodes@, map@, cell, seen, side, level as int));
    }
    Ok(())
}

/// A node that is not as it should be leaves its level without a sound list.
proof fn lemma_refuted(
    nodes: Seq<Node>,
    map: Map<u64, u32>,
    cell: LevelCell,
    side: Side,
    level: int,
    at: int,
    node: u32,
    prev: u32,
)
    requires
        forall|q: Seq<u32>| #[trigger]
            list_sound(nodes, map, cell, q, side, level) ==> 0 <= at < q.len() && q[at] == node
                && node_sound(nodes, map, q, side, level, at) && link(q, at - 1) == prev,
        ({
            let n = nodes[node as int];
            ||| n.slot != level
            ||| n.side != side
            ||| n.prev != prev
            ||| n.quantity == 0
            ||| !map.dom().contains(n.order_id)
        }),
    ensures
        !level_sound(nodes, map, cell, side, level),
{
    if level_sound(nodes, map, cell, side, level) {
        let q = choose|q: Seq<u32>| list_sound(nodes, map, cell, q, side, level);
    }
}

/// Audits the levels of one side, and says how many orders they count.
fn audit_ladder(nodes: &Vec<Node>, map: &OrderMap, ladder: &Ladder, side: Side) -> (r: Result<
    u64,
    Fault,
>)
    requires
        nodes@.len() <= u32::MAX,
        map.wf(),
        map@.len() < map.slots(),
        ladder.cells@.len() <= u32::MAX,
        links_in_range(nodes@, *ladder),
    ensures
        r is Ok <==> ladder_sound(*ladder, nodes@, map@, side),
        r matches Ok(n) ==> n == cells_orders(ladder.cells@, ladder.cells@.len() as int) && n
            <= ladder.cells@.len() * 0xffff_ffff,
        r is Ok <==> ladder_fault(*ladder, nodes@, map@, side) is None,
        r matches Err(f) ==> ladder_fault(*ladder, nodes@, map@, side) == Some(f),
{
    let mut i: usize = 0;
    let mut used: u32 = 0;
    let mut counted: u64 = 0;
    while i < ladder.cells.len()
        invariant
            nodes@.len() <= u32::MAX,
            map.wf(),
            map@.len() < map.slots(),
            ladder.cells@.len() <= u32::MAX,
            links_in_range(nodes@, *ladder),
            i <= ladder.cells@.len(),
            used == cells_used(ladder.cells@, i as int),
            used <= i,
            counted == cells_orders(ladder.cells@, i as int),
            counted <= i * 0xffff_ffff,
            levels_fault(nodes@, map@, ladder.cells@, side, i as int) == levels_fault(
                nodes@,
                map@,
                ladder.cells@,
                side,
                0,
            ),
            forall|s: int|
                0 <= s < i ==> level_sound(nodes@, map@, #[trigger] ladder.cells@[s], side, s),
        decreases ladder.cells@.len() - i,
    {
        let cell = ladder.cells[i];
        match audit_level(nodes, map, cell, side, i) {
            Err(e) => return Err(e),
            Ok(()) => {},
        }
        assert(i * 0xffff_ffff + 0xffff_ffff <= u64::MAX) by (nonlinear_arith)
            requires
                i < 0xffff_ffff,
        ;
        counted = counted + cell.orders as u64;
        if cell.orders != 0 {
            used = used + 1;
        }
        i = i + 1;
    }
    if used != ladder.occupied {
        return Err(Fault::WrongLevelCount { side, says: ladder.occupied, holds: used });
    }
    Ok(counted)
}

/// The best occupied slot, by looking at all of them.
fn find_best(cells: &Vec<LevelCell>, side: Side) -> (r: Option<usize>)
    ensures
        best_sound(cells@, side, r),
{
    let cap: usize = cells.len();
    let mut k: usize = 0;
    while k < cap
        invariant
            cap == cells@.len(),
            k <= cap,
            side == Side::Ask ==> forall|s: int|
                0 <= s < k ==> (#[trigger] cells@[s]).orders == 0,
            side == Side::Bid ==> forall|s: int|
                cap - k <= s < cap ==> (#[trigger] cells@[s]).orders == 0,
        decreases cap - k,
    {
        let i: usize = match side {
            Side::Bid => cap - 1 - k,
            Side::Ask => k,
        };
        if cells[i].orders != 0 {
            return Some(i);
        }
        k = k + 1;
    }
    None
}

/// There is one best slot.
proof fn lemma_best_unique(
    cells: Seq<LevelCell>,
    side: Side,
    a: Option<usize>,
    b: Option<usize>,
)
    requires
        best_sound(cells, side, a),
    ensures
        best_sound(cells, side, b) <==> a == b,
{
    if best_sound(cells, side, b) {
        if a is Some {
            assert(cells[a->0 as int].orders != 0);
        }
        if b is Some {
            assert(cells[b->0 as int].orders != 0);
        }
    }
}

impl MboBook {
    /// The structures are at least such that they can be walked: every link leads
    /// to a node or nowhere.
    pub closed spec fn auditable(&self) -> bool {
        &&& self.nodes@.len() <= u32::MAX
        &&& self.bids.cells@.len() <= u32::MAX
        &&& self.asks.cells@.len() <= u32::MAX
        &&& links_in_range(self.nodes@, self.bids)
        &&& links_in_range(self.nodes@, self.asks)
        &&& self.map.wf()
        &&& self.map@.dom().finite()
        &&& self.map@.len() < self.map.slots()
    }

    /// Levels, lists, counts, best prices and the table agree.
    pub closed spec fn sound(&self) -> bool {
        let cap_b = self.bids.cells@.len() as int;
        let cap_a = self.asks.cells@.len() as int;
        &&& ladder_sound(self.bids, self.nodes@, self.map@, Side::Bid)
        &&& ladder_sound(self.asks, self.nodes@, self.map@, Side::Ask)
        &&& cells_orders(self.bids.cells@, cap_b) + cells_orders(self.asks.cells@, cap_a)
            == self.live
        &&& best_sound(self.bids.cells@, Side::Bid, self.bids.best)
        &&& best_sound(self.asks.cells@, Side::Ask, self.asks.best)
        &&& self.map@.len() == self.live
    }

    /// The first thing that an audit finds: on the bids, on the asks, in the count of
    /// orders, in a best price, or in the table.
    pub closed spec fn first_fault(&self) -> Option<Fault> {
        let on_levels = cells_orders(self.bids.cells@, self.bids.cells@.len() as int)
            + cells_orders(self.asks.cells@, self.asks.cells@.len() as int);
        let best_bid = best_of(self.bids.cells@, Side::Bid);
        let best_ask = best_of(self.asks.cells@, Side::Ask);
        if ladder_fault(self.bids, self.nodes@, self.map@, Side::Bid) is Some {
            ladder_fault(self.bids, self.nodes@, self.map@, Side::Bid)
        } else if ladder_fault(self.asks, self.nodes@, self.map@, Side::Ask) is Some {
            ladder_fault(self.asks, self.nodes@, self.map@, Side::Ask)
        } else if on_levels != self.live {
            Some(Fault::WrongLive { live: self.live, on_levels: on_levels as u128 })
        } else if self.bids.best != best_bid {
            Some(Fault::WrongBest { side: Side::Bid, cached: self.bids.best, actual: best_bid })
        } else if self.asks.best != best_ask {
            Some(Fault::WrongBest { side: Side::Ask, cached: self.asks.best, actual: best_ask })
        } else if self.map@.len() != self.live {
            Some(Fault::WrongMapEntries { live: self.live, entries: self.map@.len() as usize })
        } else {
            None
        }
    }

    /// Audits the book. It passes if and only if everything agrees, which is so of
    /// every book that the other operations made, and names the first thing that does
    /// not.
    pub fn check_invariants(&self) -> (r: Result<(), Fault>)
        requires
            self.auditable(),
        ensures
            r is Ok <==> self.sound(),
            r == (match self.first_fault() {
                None => Ok(()),
                Some(fault) => Err(fault),
            }),
    {
        let bids: u64 = match audit_ladder(&self.nodes, &self.map, &self.bids, Side::Bid) {
            Err(e) => return Err(e),
            Ok(n) => n,
        };
        let asks: u64 = match audit_ladder(&self.nodes, &self.map, &self.asks, Side::Ask) {
            Err(e) => return Err(e),
            Ok(n) => n,
        };
        let counted: u128 = bids as u128 + asks as u128;
        if counted != self.live as u128 {
            return Err(Fault::WrongLive { live: self.live, on_levels: counted });
        }
        let real_bid: Option<usize> = find_best(&self.bids.cells, Side::Bid);
        proof {
            lemma_best_unique(self.bids.cells@, Side::Bid, real_bid, self.bids.best);
            lemma_best_unique(
                self.bids.cells@,
                Side::Bid,
                real_bid,
                best_of(self.bids.cells@, Side::Bid),
            );
        }
        if !same_slot(self.bids.best, real_bid) {
            return Err(Fault::WrongBest { side: Side::Bid, cached: self.bids.best, actual: real_bid });
        }
        let real_ask: Option<usize> = find_best(&self.asks.cells, Side::Ask);
        proof {
            lemma_best_unique(self.asks.cells@, Side::Ask, real_ask, self.asks.best);
            lemma_best_unique(
                self.asks.cells@,
                Side::Ask,
                real_ask,
                best_of(self.asks.cells@, Side::Ask),
            );
        }
        if !same_slot(self.asks.best, real_ask) {
            return Err(Fault::WrongBest { side: Side::Ask, cached: self.asks.best, actual: real_ask });
        }
        let entries: usize = self.map.used();
        if entries != self.live {
            return Err(Fault::WrongMapEntries { live: self.live, entries });
        }
        Ok(())
    }

    /// Nodes of the first `k` levels of a side.
    spec fn nodes_below(&self, side: Side, k: int) -> Set<int> {
        Set::new(
            |x: int|
                0 <= x < self.nodes@.len() && self.nodes@[x].slot != NIL && self.nodes@[x].side
                    == side && self.nodes@[x].slot < k,
        )
    }

    /// What the first `k` levels of a side count is how many nodes they have.
    proof fn lemma_orders_counted(&self, side: Side, k: int)
        requires
            self.wf(),
            0 <= k <= self.index@.capacity,
        ensures
            self.nodes_below(side, k).finite(),
            self.nodes_below(side, k).len() == cells_orders(self.ladder(side).cells@, k),
        decreases k,
    {
        if k <= 0 {
            assert(self.nodes_below(side, k) =~= Set::empty());
        } else {
            self.lemma_orders_counted(side, k - 1);
            let q = self.ladder(side).queues@[k - 1];
            self.lemma_level_nodup(side, k - 1);
            assert(cell_ok(
                self.nodes@,
                self.ladder(side).cells@[k - 1],
                self.ladder(side).queues@[k - 1],
                side,
                k - 1,
                self.index@.price_at(k - 1),
            ));
            let r = q.map_values(|x: u32| x as int);
            assert(r.no_duplicates()) by {
                assert forall|i: int, j: int|
                    0 <= i < r.len() && 0 <= j < r.len() && i != j implies r[i] != r[j] by {
                    assert(q[i] != q[j]);
                }
            }
            r.unique_seq_to_set();
            let a = self.nodes_below(side, k - 1);
            let b = r.to_set();
            assert(self.nodes_below(side, k) =~= a.union(b)) by {
                assert forall|x: int| self.nodes_below(side, k).contains(x) implies a.union(
                    b,
                ).contains(x) by {
                    if self.nodes@[x].slot == k - 1 {
                        self.lemma_node_is_live(x);
                        let i = choose|i: int| 0 <= i < q.len() && q[i] == x as u32;
                        assert(r[i] == x);
                    }
                }
                assert forall|x: int| a.union(b).contains(x) implies self.nodes_below(
                    side,
                    k,
                ).contains(x) by {
                    if b.contains(x) {
                        let i = choose|i: int| 0 <= i < r.len() && r[i] == x;
                        self.lemma_member(side, k - 1, i);
                    }
                }
            }
            assert(a.disjoint(b)) by {
                assert forall|x: int| !(a.contains(x) && b.contains(x)) by {
                    if b.contains(x) {
                        let i = choose|i: int| 0 <= i < r.len() && r[i] == x;
                        self.lemma_member(side, k - 1, i);
                    }
                }
            }
            vstd::set_lib::lemma_set_disjoint_lens(a, b);
        }
    }

    /// How many levels hold something is how many slots are occupied.
    proof fn lemma_used_counted(&self, side: Side, k: int)
        requires
            self.wf(),
            0 <= k <= self.index@.capacity,
        ensures
            occupied_slots(self.ladder(side).queues@).filter(|s: int| s < k).finite(),
            occupied_slots(self.ladder(side).queues@).filter(|s: int| s < k).len() == cells_used(
                self.ladder(side).cells@,
                k,
            ),
        decreases k,
    {
        let occ = occupied_slots(self.ladder(side).queues@);
        if k <= 0 {
            assert(occ.filter(|s: int| s < k) =~= Set::empty());
        } else {
            self.lemma_used_counted(side, k - 1);
            assert(cell_ok(
                self.nodes@,
                self.ladder(side).cells@[k - 1],
                self.ladder(side).queues@[k - 1],
                side,
                k - 1,
                self.index@.price_at(k - 1),
            ));
            if self.ladder(side).cells@[k - 1].orders != 0 {
                assert(occ.filter(|s: int| s < k) =~= occ.filter(|s: int| s < k - 1).insert(k - 1));
            } else {
                assert(occ.filter(|s: int| s < k) =~= occ.filter(|s: int| s < k - 1));
            }
        }
    }

    proof fn lemma_ladder_sound(&self, side: Side)
        requires
            self.wf(),
        ensures
            ladder_sound(self.ladder(side), self.nodes@, self.map@, side),
            best_sound(self.ladder(side).cells@, side, self.ladder(side).best),
            forall|s: int|
                0 <= s < self.index@.capacity ==> (#[trigger] self.ladder(side).cells@[s]).head
                    == NIL || self.ladder(side).cells@[s].head < self.nodes@.len(),
    {
        let l = self.ladder(side);
        let w = self.index@;
        assert forall|s: int| 0 <= s < w.capacity implies level_sound(
            self.nodes@,
            self.map@,
            #[trigger] l.cells@[s],
            side,
            s,
        ) && (l.cells@[s].head == NIL || l.cells@[s].head < self.nodes@.len()) by {
            let q = l.queues@[s];
            assert(cell_ok(self.nodes@, l.cells@[s], l.queues@[s], side, s, w.price_at(s)));
            crate::ladder::lemma_queue_len(q, self.nodes@.len() as int);
            assert forall|i: int| 0 <= i < q.len() implies #[trigger] leads_on(
                self.nodes@,
                q,
                i,
            ) by {
                assert(linked_at(self.nodes@, q, i));
                assert(q[i] < self.nodes@.len());
            }
            assert forall|i: int| 0 <= i < q.len() implies #[trigger] node_sound(
                self.nodes@,
                self.map@,
                q,
                side,
                s,
                i,
            ) by {
                assert(linked_at(self.nodes@, q, i));
                self.lemma_member(side, s, i);
            }
            assert(list_sound(self.nodes@, self.map@, l.cells@[s], q, side, s));
            if q.len() > 0 {
                assert(q[0] < self.nodes@.len());
            }
        }
        self.lemma_used_counted(side, w.capacity);
        let occ = occupied_slots(l.queues@);
        assert(occ.filter(|s: int| s < w.capacity) =~= occ);
        assert forall|s: int| 0 <= s < w.capacity implies (#[trigger] l.cells@[s]).orders
            == l.queues@[s].len() by {
            assert(cell_ok(self.nodes@, l.cells@[s], l.queues@[s], side, s, w.price_at(s)));
        }
    }

    /// A node without a level is on the free list.
    proof fn lemma_rest_is_free(&self, linked: Set<int>)
        requires
            self.wf(),
            linked.finite(),
            linked.len() == self.live,
            forall|x: int| #[trigger]
                linked.contains(x) <==> 0 <= x < self.nodes@.len() && self.nodes@[x].slot != NIL,
        ensures
            forall|y: int|
                0 <= y < self.nodes@.len() && (#[trigger] self.nodes@[y]).slot == NIL
                    ==> self.free@.contains(y as u32),
    {
        let n = self.nodes@.len() as int;
        let free = self.free@;
        let r = free.map_values(|x: u32| x as int);
        assert(r.no_duplicates()) by {
            assert forall|i: int, j: int|
                0 <= i < r.len() && 0 <= j < r.len() && i != j implies r[i] != r[j] by {
                assert(free[i] != free[j]);
            }
        }
        r.unique_seq_to_set();
        let f = r.to_set();
        assert forall|x: int| #[trigger] f.contains(x) implies 0 <= x < n && self.nodes@[x].slot
            == NIL && free.contains(x as u32) by {
            let i = choose|i: int| 0 <= i < r.len() && r[i] == x;
            assert(self.free_node_at(i));
            assert(free[i] == x);
        }
        assert(f.disjoint(linked));
        vstd::set_lib::lemma_set_disjoint_lens(f, linked);
        let all = vstd::set_lib::set_int_range(0, n);
        vstd::set_lib::lemma_int_range(0, n);
        assert(f.union(linked).subset_of(all));
        vstd::set_lib::lemma_subset_equality(f.union(linked), all);
        assert forall|y: int|
            0 <= y < n && (#[trigger] self.nodes@[y]).slot == NIL implies free.contains(y as u32) by {
            assert(all.contains(y));
            assert(f.union(linked).contains(y));
        }
    }

    /// A book that the operations made passes its audit.
    pub proof fn law_wf_is_sound(&self)
        requires
            self.wf(),
        ensures
            self.auditable(),
            self.sound(),
            self.first_fault() is None,
    {
        self.lemma_wf_is_sound();
        lemma_ladder_passes(self.bids, self.nodes@, self.map@, Side::Bid);
        lemma_ladder_passes(self.asks, self.nodes@, self.map@, Side::Ask);
        lemma_best_unique(
            self.bids.cells@,
            Side::Bid,
            self.bids.best,
            best_of(self.bids.cells@, Side::Bid),
        );
        lemma_best_unique(
            self.asks.cells@,
            Side::Ask,
            self.asks.best,
            best_of(self.asks.cells@, Side::Ask),
        );
    }

    proof fn lemma_wf_is_sound(&self)
        requires
            self.wf(),
        ensures
            self.auditable(),
            self.sound(),
    {
        assert(self.ladder(Side::Bid) == self.bids);
        assert(self.ladder(Side::Ask) == self.asks);
        self.lemma_ladder_sound(Side::Bid);
        self.lemma_ladder_sound(Side::Ask);
        let cap = self.index@.capacity;
        self.lemma_orders_counted(Side::Bid, cap);
        self.lemma_orders_counted(Side::Ask, cap);
        let b = self.nodes_below(Side::Bid, cap);
        let a = self.nodes_below(Side::Ask, cap);
        assert(b.disjoint(a));
        vstd::set_lib::lemma_set_disjoint_lens(b, a);
        let f = |id: u64| self.map@[id] as int;
        let d = self.map@.dom();
        assert(b.union(a) =~= d.map(f)) by {
            assert forall|x: int| b.union(a).contains(x) implies d.map(f).contains(x) by {
                self.lemma_node_is_live(x);
                let id = self.nodes@[x].order_id;
                assert(d.contains(id));
                assert(f(id) == x);
            }
            assert forall|x: int| d.map(f).contains(x) implies b.union(a).contains(x) by {
                let id = choose|id: u64| d.contains(id) && f(id) == x;
                self.lemma_mapped(id);
            }
        }
        assert forall|p: u64, q: u64|
            d.contains(p) && d.contains(q) && #[trigger] f(p) == #[trigger] f(q) implies p == q by {
            self.lemma_mapped(p);
            self.lemma_mapped(q);
        }
        vstd::set_lib::lemma_map_size(d, d.map(f), f);
        self.lemma_rest_is_free(b.union(a));
        assert forall|x: int| 0 <= x < self.nodes@.len() implies (
        #[trigger] self.nodes@[x]).next == NIL || self.nodes@[x].next < self.nodes@.len() by {
            self.lemma_next_in_range(x);
        }
    }
}

fn same_slot(a: Option<usize>, b: Option<usize>) -> (r: bool)
    ensures
        r == (a == b),
{
    match (a, b) {
        (None, None) => true,
        (Some(x), Some(y)) => x == y,
        _ => false,
    }
}

} // verus!
