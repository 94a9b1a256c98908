//! An open-addressed table from order ids to slab nodes.
//!
//! Linear probing over a power-of-two table that is never more than a quarter
//! full. A removal shifts later entries back instead of leaving a marker, so the
//! table does not degrade however long it churns.

use vstd::prelude::*;

verus! {

/// The node index that stands for "none".
pub const NIL: u32 = 0xffff_ffff;

#[derive(Debug, Clone, Copy)]
pub struct MapEntry {
    pub order_id: u64,
    pub node: u32,
}

impl MapEntry {
    pub open spec fn used(self) -> bool {
        self.node != NIL
    }
}

/// The slot after `i` in a table of `n`.
pub open spec fn next_index(i: int, n: int) -> int {
    if i + 1 == n {
        0
    } else {
        i + 1
    }
}

/// How many steps lead from `a` forward to `b` in a table of `n`.
pub open spec fn steps(a: int, b: int, n: int) -> int {
    if b >= a {
        b - a
    } else {
        b - a + n
    }
}

/// The mixing of an id's bits that picks its home slot.
pub open spec fn mix(order_id: u64) -> u64 {
    let a = vstd::wrapping::u64_specs::wrapping_mul(
        order_id ^ (order_id >> 30),
        0xBF58_476D_1CE4_E5B9u64,
    );
    let b = vstd::wrapping::u64_specs::wrapping_mul(a ^ (a >> 27), 0x94D0_49BB_1331_11EBu64);
    b ^ (b >> 31)
}

pub open spec fn home_of(order_id: u64, mask: usize) -> int {
    ((mix(order_id) as usize) & mask) as int
}

/// Where probing for an id starts.
fn home_slot(order_id: u64, mask: usize) -> (r: usize)
    ensures
        r == home_of(order_id, mask),
        r <= mask,
{
    let mut z: u64 = order_id;
    z = (z ^ (z >> 30)).wrapping_mul(0xBF58_476D_1CE4_E5B9);
    z = (z ^ (z >> 27)).wrapping_mul(0x94D0_49BB_1331_11EB);
    proof {
        lemma_mask_bound(mix(order_id) as usize, mask);
    }
    ((z ^ (z >> 31)) as usize) & mask
}

/// Among the first `k` entries, the ids of those in use.
pub open spec fn used_ids(entries: Seq<MapEntry>, k: int) -> Set<u64>
    decreases k,
{
    if k <= 0 {
        Set::empty()
    } else if entries[k - 1].used() {
        used_ids(entries, k - 1).insert(entries[k - 1].order_id)
    } else {
        used_ids(entries, k - 1)
    }
}

/// Among the first `k` entries, how many are in use.
pub open spec fn used_count(entries: Seq<MapEntry>, k: int) -> int
    decreases k,
{
    if k <= 0 {
        0
    } else if entries[k - 1].used() {
        used_count(entries, k - 1) + 1
    } else {
        used_count(entries, k - 1)
    }
}

/// No two entries in use have one id.
pub open spec fn ids_distinct(entries: Seq<MapEntry>) -> bool {
    forall|i: int, j: int|
        0 <= i < entries.len() && 0 <= j < entries.len() && i != j && entries[i].used()
            && entries[j].used() ==> (#[trigger] entries[i]).order_id != (
        #[trigger] entries[j]).order_id
}

/// The entries in use are exactly the pairs of `m`.
pub open spec fn holds_map(entries: Seq<MapEntry>, m: Map<u64, u32>) -> bool {
    &&& forall|i: int|
        0 <= i < entries.len() && (#[trigger] entries[i]).used() ==> m.contains_pair(
            entries[i].order_id,
            entries[i].node,
        )
    &&& forall|k: u64| #[trigger]
        m.dom().contains(k) ==> exists|i: int|
            0 <= i < entries.len() && (#[trigger] entries[i]).used() && entries[i].order_id == k
}

/// Slot `c` lies on the way from the home of the entry at `p` to `p` itself.
pub open spec fn on_path(entries: Seq<MapEntry>, mask: usize, p: int, c: int) -> bool {
    let n = entries.len() as int;
    let h = home_of(entries[p].order_id, mask);
    steps(h, c, n) < steps(h, p, n)
}

/// Every entry in use can be reached from its home over slots in use, where the
/// slot `hole` may be passed by entries further than `far` from it.
pub open spec fn reachable_but(entries: Seq<MapEntry>, mask: usize, hole: int, far: int) -> bool {
    forall|p: int, c: int|
        0 <= p < entries.len() && 0 <= c < entries.len() && (#[trigger] entries[p]).used()
            && #[trigger] on_path(entries, mask, p, c) ==> entries[c].used() || (c == hole && steps(
            hole,
            p,
            entries.len() as int,
        ) > far)
}

/// Every entry in use can be reached from its home over slots in use.
pub open spec fn reachable(entries: Seq<MapEntry>, mask: usize) -> bool {
    forall|p: int, c: int|
        0 <= p < entries.len() && 0 <= c < entries.len() && (#[trigger] entries[p]).used()
            && #[trigger] on_path(entries, mask, p, c) ==> entries[c].used()
}

/// Probing for `order_id` stops `d` slots past its home: at its entry, or at the
/// first free slot.
pub open spec fn stops_after(entries: Seq<MapEntry>, mask: usize, order_id: u64, d: int) -> bool {
    let n = entries.len() as int;
    let h = home_of(order_id, mask);
    exists|i: int|
        {
            &&& 0 <= i < n
            &&& steps(h, i, n) == d
            &&& (#[trigger] entries[i]).used() ==> entries[i].order_id == order_id
            &&& forall|c: int|
                0 <= c < n && steps(h, c, n) < d ==> (#[trigger] entries[c]).used()
                    && entries[c].order_id != order_id
        }
}

proof fn lemma_stops_once(entries: Seq<MapEntry>, mask: usize, order_id: u64, a: int, b: int)
    requires
        mask == entries.len() - 1,
        stops_after(entries, mask, order_id, a),
        stops_after(entries, mask, order_id, b),
    ensures
        a == b,
{
    let n = entries.len() as int;
    let h = home_of(order_id, mask);
    lemma_mask_bound(mix(order_id) as usize, mask);
    let i = choose|i: int|
        {
            &&& 0 <= i < n
            &&& steps(h, i, n) == a
            &&& (#[trigger] entries[i]).used() ==> entries[i].order_id == order_id
            &&& forall|c: int|
                0 <= c < n && steps(h, c, n) < a ==> (#[trigger] entries[c]).used()
                    && entries[c].order_id != order_id
        };
    let j = choose|i: int|
        {
            &&& 0 <= i < n
            &&& steps(h, i, n) == b
            &&& (#[trigger] entries[i]).used() ==> entries[i].order_id == order_id
            &&& forall|c: int|
                0 <= c < n && steps(h, c, n) < b ==> (#[trigger] entries[c]).used()
                    && entries[c].order_id != order_id
        };
    assert(entries[i].used() ==> entries[i].order_id == order_id);
    assert(entries[j].used() ==> entries[j].order_id == order_id);
}

pub struct OrderMap {
    entries: Vec<MapEntry>,
    mask: usize,
    pairs: Ghost<Map<u64, u32>>,
}

impl View for OrderMap {
    type V = Map<u64, u32>;

    closed spec fn view(&self) -> Map<u64, u32> {
        self.pairs@
    }
}

/// The least power of two that is not below `x`.
pub open spec fn power_above(x: int) -> int
    decreases x,
{
    if x <= 1 {
        1
    } else {
        2 * power_above((x + 1) / 2)
    }
}

/// A table for so many orders can be made: its slots, four to an order rounded up to a
/// power of two, can be counted, and the nodes of the orders can be numbered.
pub open spec fn table_fits(orders: int) -> bool {
    &&& 0 < orders <= u32::MAX
    &&& power_above(4 * orders) <= usize::MAX
}

pub proof fn lemma_power_above(x: int)
    ensures
        1 <= power_above(x),
        x <= power_above(x),
        1 <= x ==> power_above(x) < 2 * x,
    decreases x,
{
    if x > 1 {
        lemma_power_above((x + 1) / 2);
    }
}

/// One doubling on the way to the power: where `r` still is below `x`, and `y` times it
/// is not.
proof fn lemma_doubled(x: int, r: int, y: int)
    requires
        0 < r < x,
        1 <= y,
        (y - 1) * r < x <= y * r,
        power_above(x) == r * power_above(y),
    ensures
        1 <= (y + 1) / 2 < y,
        ((y + 1) / 2 - 1) * (2 * r) < x <= (y + 1) / 2 * (2 * r),
        power_above(x) == (2 * r) * power_above((y + 1) / 2),
        2 * r <= power_above(x),
{
    let half = (y + 1) / 2;
    let p = power_above(half);
    lemma_power_above(half);
    if y == 1 {
        assert(y * r == r) by (nonlinear_arith)
            requires
                y == 1,
        ;
    }
    assert(r * (2 * p) == (2 * r) * p) by (nonlinear_arith);
    assert(2 * r <= (2 * r) * p) by (nonlinear_arith)
        requires
            1 <= p,
            0 < r,
    ;
    assert(y * r <= half * (2 * r)) by (nonlinear_arith)
        requires
            y <= 2 * half,
            0 < r,
    ;
    assert((half - 1) * (2 * r) <= (y - 1) * r) by (nonlinear_arith)
        requires
            2 * (half - 1) <= y - 1,
            0 < r,
    ;
}

/// Whether a table for so many orders can be made.
pub fn can_hold(orders: usize) -> (r: bool)
    ensures
        r == table_fits(orders as int),
{
    if orders == 0 || orders as u64 > u32::MAX as u64 {
        return false;
    }
    let want: u64 = orders as u64 * 4;
    let mut r: u64 = 1;
    let ghost mut y: int = want as int;
    while r < want
        invariant
            0 < r,
            0 < want <= 4 * 0xffff_ffff,
            1 <= y,
            (y - 1) * r < want <= y * r,
            power_above(want as int) == r * power_above(y),
        decreases y,
    {
        proof {
            lemma_doubled(want as int, r as int, y);
            y = (y + 1) / 2;
        }
        r = 2 * r;
    }
    proof {
        if y > 1 {
            assert((y - 1) * r >= r) by (nonlinear_arith)
                requires
                    y > 1,
                    r > 0,
            ;
        }
    }
    r <= usize::MAX as u64
}

fn next_power_of_two(x: usize) -> (r: usize)
    requires
        0 < x,
        power_above(x as int) <= usize::MAX,
    ensures
        r == power_above(x as int),
        r & ((r - 1) as usize) == 0,
{
    let mut r: usize = 1;
    let ghost mut y: int = x as int;
    assert(1usize & ((1usize - 1usize) as usize) == 0usize) by (bit_vector);
    while r < x
        invariant
            0 < r,
            0 < x,
            r & ((r - 1) as usize) == 0,
            1 <= y,
            (y - 1) * r < x <= y * r,
            power_above(x as int) == r * power_above(y),
            power_above(x as int) <= usize::MAX,
        decreases y,
    {
        proof {
            lemma_doubled(x as int, r as int, y);
            assert(r & ((r - 1) as usize) == 0 && r > 0 ==> ((2 * r) as usize) & (((
            2 * r) as usize - 1) as usize) == 0) by (bit_vector);
            y = (y + 1) / 2;
        }
        r = 2 * r;
    }
    proof {
        if y > 1 {
            assert((y - 1) * r >= r) by (nonlinear_arith)
                requires
                    y > 1,
                    r > 0,
            ;
        }
    }
    r
}

/// Stepping with the mask of a power-of-two table is stepping round it.
proof fn lemma_mask_step(i: usize, mask: usize, n: usize)
    requires
        n > 0,
        n & ((n - 1) as usize) == 0,
        mask == n - 1,
        i < n,
    ensures
        ((i + 1) as usize) & mask == next_index(i as int, n as int),
{
    assert(n > 0 && n & ((n - 1) as usize) == 0 && i < n ==> {
        &&& (i + 1 == n ==> ((i + 1) as usize) & ((n - 1) as usize) == 0)
        &&& (i + 1 != n ==> ((i + 1) as usize) & ((n - 1) as usize) == i + 1)
    }) by (bit_vector);
}

proof fn lemma_mask_bound(x: usize, mask: usize)
    ensures
        x & mask <= mask,
{
    assert(x & mask <= mask) by (bit_vector);
}

proof fn lemma_used_ids(entries: Seq<MapEntry>, k: int)
    requires
        0 <= k <= entries.len(),
        ids_distinct(entries),
    ensures
        used_ids(entries, k).finite(),
        used_ids(entries, k).len() == used_count(entries, k),
        forall|id: u64| #[trigger]
            used_ids(entries, k).contains(id) <==> exists|i: int|
                0 <= i < k && (#[trigger] entries[i]).used() && entries[i].order_id == id,
        0 <= used_count(entries, k) <= k,
    decreases k,
{
    if k > 0 {
        lemma_used_ids(entries, k - 1);
        assert forall|id: u64| #[trigger]
            used_ids(entries, k).contains(id) <==> exists|i: int|
                0 <= i < k && (#[trigger] entries[i]).used() && entries[i].order_id == id by {
            if used_ids(entries, k).contains(id) {
                if entries[k - 1].used() && entries[k - 1].order_id == id {
                } else {
                    assert(used_ids(entries, k - 1).contains(id));
                }
            }
            if exists|i: int|
                0 <= i < k && (#[trigger] entries[i]).used() && entries[i].order_id == id {
                let i = choose|i: int|
                    0 <= i < k && (#[trigger] entries[i]).used() && entries[i].order_id == id;
                if i < k - 1 {
                    assert(used_ids(entries, k - 1).contains(id));
                }
            }
        }
    }
}

/// A table in which every entry is in use counts all of them.
proof fn lemma_all_used(entries: Seq<MapEntry>, k: int)
    requires
        0 <= k <= entries.len(),
        forall|i: int| 0 <= i < k ==> (#[trigger] entries[i]).used(),
    ensures
        used_count(entries, k) == k,
    decreases k,
{
    if k > 0 {
        lemma_all_used(entries, k - 1);
    }
}

/// The entries in use are as many as the pairs.
proof fn lemma_count_is_len(entries: Seq<MapEntry>, m: Map<u64, u32>)
    requires
        ids_distinct(entries),
        holds_map(entries, m),
    ensures
        m.dom().finite(),
        used_count(entries, entries.len() as int) == m.len(),
{
    lemma_used_ids(entries, entries.len() as int);
    assert(used_ids(entries, entries.len() as int) =~= m.dom());
}

impl OrderMap {
    pub closed spec fn wf(self) -> bool {
        let n = self.entries@.len();
        &&& 0 < n <= usize::MAX
        &&& self.mask == n - 1
        &&& (n as usize) & ((n - 1) as usize) == 0
        &&& ids_distinct(self.entries@)
        &&& holds_map(self.entries@, self.pairs@)
        &&& reachable(self.entries@, self.mask)
    }

    /// How many slots the table has. It holds fewer pairs than this.
    pub closed spec fn slots(self) -> nat {
        self.entries@.len()
    }

    /// The slot at which probing for `order_id` starts.
    pub closed spec fn home(self, order_id: u64) -> int {
        home_of(order_id, self.mask)
    }

    /// How many slots past its home probing for `order_id` goes.
    pub closed spec fn probes(self, order_id: u64) -> int {
        choose|d: int| stops_after(self.entries@, self.mask, order_id, d)
    }

    /// The slot at which the pair of `order_id` lies.
    pub closed spec fn slot_of_id(self, order_id: u64, i: int) -> bool {
        &&& 0 <= i < self.entries@.len()
        &&& self.entries@[i].used()
        &&& self.entries@[i].order_id == order_id
    }

    /// An empty table of at least `4 * orders` slots, the next power of two.
    pub fn new(orders: usize) -> (r: Self)
        requires
            table_fits(orders as int),
        ensures
            r.wf(),
            r@ == Map::<u64, u32>::empty(),
            r.slots() == power_above(4 * orders),
            4 * orders <= r.slots() < 8 * orders,
    {
        proof {
            lemma_power_above(4 * orders);
        }
        let len: usize = next_power_of_two(orders * 4);
        let mut entries: Vec<MapEntry> = Vec::with_capacity(len);
        let mut i: usize = 0;
        while i < len
            invariant
                i <= len,
                entries@.len() == i,
                forall|k: int| 0 <= k < i ==> !(#[trigger] entries@[k]).used(),
            decreases len - i,
        {
            entries.push(MapEntry { order_id: 0, node: NIL });
            i = i + 1;
        }
        OrderMap { entries, mask: len - 1, pairs: Ghost(Map::empty()) }
    }

    pub fn len(&self) -> (r: usize)
        requires
            self.wf(),
        ensures
            r == self.slots(),
    {
        self.entries.len()
    }

    /// How many slots are in use.
    pub fn used(&self) -> (r: usize)
        requires
            self.wf(),
        ensures
            r == self@.len(),
            self@.dom().finite(),
    {
        let mut i: usize = 0;
        let mut count: usize = 0;
        while i < self.entries.len()
            invariant
                i <= self.entries@.len(),
                count == used_count(self.entries@, i as int),
                count <= i,
            decreases self.entries@.len() - i,
        {
            if self.entries[i].node != NIL {
                count = count + 1;
            }
            i = i + 1;
        }
        proof {
            lemma_count_is_len(self.entries@, self.pairs@);
        }
        count
    }

    /// The home slot of an id.
    pub fn hash(&self, order_id: u64) -> (r: usize)
        requires
            self.wf(),
        ensures
            r == self.home(order_id),
            r < self.slots(),
    {
        home_slot(order_id, self.mask)
    }

    /// While the table has more slots than pairs, some slot is free.
    proof fn lemma_free_slot(&self) -> (e: int)
        requires
            self.wf(),
            self@.len() < self.slots(),
        ensures
            0 <= e < self.entries@.len(),
            !self.entries@[e].used(),
    {
        lemma_count_is_len(self.entries@, self.pairs@);
        if forall|i: int| 0 <= i < self.entries@.len() ==> (#[trigger] self.entries@[i]).used() {
            lemma_all_used(self.entries@, self.entries@.len() as int);
        }
        choose|i: int| 0 <= i < self.entries@.len() && !(#[trigger] self.entries@[i]).used()
    }

    /// The slot of `order_id`, with how many slots were probed past its home.
    pub fn find(&self, order_id: u64) -> (r: (Option<usize>, usize))
        requires
            self.wf(),
            self@.len() < self.slots(),
        ensures
            r.0 is Some <==> self@.dom().contains(order_id),
            r.0 matches Some(i) ==> self.slot_of_id(order_id, i as int),
            r.1 == self.probes(order_id),
            r.1 < self.slots(),
    {
        let ghost n = self.entries@.len() as int;
        let ghost e = self.lemma_free_slot();
        let start: usize = self.hash(order_id);
        let mut i: usize = start;
        let mut probes: usize = 0;
        let ghost h = self.home(order_id);
        loop
            invariant
                self.wf(),
                n == self.entries@.len(),
                h == self.home(order_id),
                h == home_of(order_id, self.mask),
                0 <= h < n,
                0 <= e < n,
                !self.entries@[e].used(),
                i < n,
                probes == steps(h, i as int, n),
                steps(h, i as int, n) <= steps(h, e, n),
                forall|c: int|
                    0 <= c < n && steps(h, c, n) < steps(h, i as int, n) ==> (
                    #[trigger] self.entries@[c]).used() && self.entries@[c].order_id != order_id,
            decreases steps(h, e, n) - steps(h, i as int, n),
        {
            let entry = self.entries[i];
            if entry.node == NIL {
                proof {
                    if self@.dom().contains(order_id) {
                        let p = choose|p: int|
                            0 <= p < n && (#[trigger] self.entries@[p]).used()
                                && self.entries@[p].order_id == order_id;
                        if steps(h, i as int, n) < steps(h, p, n) {
                            assert(on_path(self.entries@, self.mask, p, i as int));
                        }
                        assert(false);
                    }
                }
                proof {
                    assert(stops_after(self.entries@, self.mask, order_id, probes as int)) by {
                        assert(!self.entries@[i as int].used());
                    }
                    lemma_stops_once(
                        self.entries@,
                        self.mask,
                        order_id,
                        probes as int,
                        self.probes(order_id),
                    );
                }
                return (None, probes);
            }
            if entry.order_id == order_id {
                assert(self.pairs@.contains_pair(self.entries@[i as int].order_id, self.entries@[i as int].node));
                proof {
                    assert(stops_after(self.entries@, self.mask, order_id, probes as int)) by {
                        assert(self.entries@[i as int].order_id == order_id);
                    }
                    lemma_stops_once(
                        self.entries@,
                        self.mask,
                        order_id,
                        probes as int,
                        self.probes(order_id),
                    );
                }
                return (Some(i), probes);
            }
            proof {
                lemma_mask_step(i, self.mask, n as usize);
            }
            i = (i + 1) & self.mask;
            probes = probes + 1;
        }
    }

    /// What `order_id` maps to.
    pub fn get(&self, order_id: u64) -> (r: Option<u32>)
        requires
            self.wf(),
            self@.len() < self.slots(),
        ensures
            r == (if self@.dom().contains(order_id) {
                Some(self@[order_id])
            } else {
                None
            }),
            r matches Some(node) ==> node != NIL,
    {
        let (found, _) = self.find(order_id);
        match found {
            Some(i) => {
                assert(self.pairs@.contains_pair(self.entries@[i as int].order_id, self.entries@[i as int].node));
                Some(self.entries[i].node)
            },
            None => None,
        }
    }

    /// The node in the slot that `find` returned.
    pub fn node_at(&self, i: usize, order_id: u64) -> (r: u32)
        requires
            self.wf(),
            self.slot_of_id(order_id, i as int),
        ensures
            self@.contains_pair(order_id, r),
            r != NIL,
    {
        assert(self.pairs@.contains_pair(self.entries@[i as int].order_id, self.entries@[i as int].node));
        self.entries[i].node
    }

    /// Adds a pair whose id is not there yet.
    pub fn insert(&mut self, order_id: u64, node: u32)
        requires
            old(self).wf(),
            old(self)@.len() < old(self).slots(),
            !old(self)@.dom().contains(order_id),
            node != NIL,
        ensures
            final(self).wf(),
            final(self)@ == old(self)@.insert(order_id, node),
            final(self).slots() == old(self).slots(),
            forall|id: u64| final(self).home(id) == old(self).home(id),
    {
        let ghost n = self.entries@.len() as int;
        let ghost e = self.lemma_free_slot();
        let ghost before = self.entries@;
        let mut i: usize = self.hash(order_id);
        let ghost h = self.home(order_id);
        while self.entries[i].node != NIL
            invariant
                self.wf(),
                *self == *old(self),
                self.entries@ == before,
                n == self.entries@.len(),
                h == home_of(order_id, self.mask),
                0 <= h < n,
                0 <= e < n,
                !self.entries@[e].used(),
                i < n,
                steps(h, i as int, n) <= steps(h, e, n),
                forall|c: int|
                    0 <= c < n && steps(h, c, n) < steps(h, i as int, n) ==> (
                    #[trigger] self.entries@[c]).used(),
            decreases steps(h, e, n) - steps(h, i as int, n),
        {
            proof {
                lemma_mask_step(i, self.mask, n as usize);
            }
            i = (i + 1) & self.mask;
        }
        self.entries.set(i, MapEntry { order_id, node });
        let ghost after = self.entries@;
        proof {
            let m = self.pairs@;
            self.pairs@ = m.insert(order_id, node);
            assert forall|a: int, b: int|
                0 <= a < after.len() && 0 <= b < after.len() && a != b && after[a].used()
                    && after[b].used() implies (#[trigger] after[a]).order_id != (
            #[trigger] after[b]).order_id by {
                if a != i {
                    assert(before[a].used());
                    assert(m.contains_pair(before[a].order_id, before[a].node));
                }
                if b != i {
                    assert(before[b].used());
                    assert(m.contains_pair(before[b].order_id, before[b].node));
                }
            }
            assert forall|a: int| 0 <= a < after.len() && (#[trigger] after[a]).used() implies
                self.pairs@.contains_pair(after[a].order_id, after[a].node) by {
                if a != i {
                    assert(before[a].used());
                    assert(m.contains_pair(before[a].order_id, before[a].node));
                }
            }
            assert forall|k: u64| #[trigger] self.pairs@.dom().contains(k) implies exists|a: int|
                0 <= a < after.len() && (#[trigger] after[a]).used() && after[a].order_id == k by {
                if k == order_id {
                    assert(after[i as int].used());
                } else {
                    assert(m.dom().contains(k));
                    let a = choose|a: int|
                        0 <= a < before.len() && (#[trigger] before[a]).used() && before[a].order_id
                            == k;
                    assert(after[a].used() && after[a].order_id == k);
                }
            }
            assert forall|p: int, c: int|
                0 <= p < after.len() && 0 <= c < after.len() && (#[trigger] after[p]).used()
                    && #[trigger] on_path(after, self.mask, p, c) implies after[c].used() by {
                if p != i {
                    assert(before[p].used());
                    assert(on_path(before, self.mask, p, c));
                }
            }
        }
    }

    /// Removes the pair at slot `i`, closing the gap it leaves.
    pub fn remove_at(&mut self, i: usize, order_id: u64)
        requires
            old(self).wf(),
            old(self)@.len() < old(self).slots(),
            old(self).slot_of_id(order_id, i as int),
        ensures
            final(self).wf(),
            final(self)@ == old(self)@.remove(order_id),
            final(self).slots() == old(self).slots(),
            forall|id: u64| final(self).home(id) == old(self).home(id),
    {
        let ghost n = self.entries@.len() as int;
        let ghost e = self.lemma_free_slot();
        let ghost m = self.pairs@.remove(order_id);
        let ghost before = self.entries@;
        let mut hole: usize = i;
        self.entries.set(hole, MapEntry { order_id: 0, node: NIL });
        let mut j: usize = hole;
        proof {
            let after = self.entries@;
            assert(forall|a: int| 0 <= a < n && a != i ==> after[a] == before[a]);
            assert(holds_map(after, m)) by {
                assert forall|a: int| 0 <= a < after.len() && (#[trigger] after[a]).used() implies
                    m.contains_pair(after[a].order_id, after[a].node) by {
                    assert(before[a].used());
                    assert(before[i as int].used());
                    assert(self.pairs@.contains_pair(before[a].order_id, before[a].node));
                }
                assert forall|k: u64| #[trigger] m.dom().contains(k) implies exists|a: int|
                    0 <= a < after.len() && (#[trigger] after[a]).used() && after[a].order_id
                        == k by {
                    assert(self.pairs@.dom().contains(k));
                    let a = choose|a: int|
                        0 <= a < before.len() && (#[trigger] before[a]).used() && before[a].order_id
                            == k;
                    assert(after[a].used() && after[a].order_id == k);
                }
            }
            assert(ids_distinct(after)) by {
                assert forall|a: int, b: int|
                    0 <= a < after.len() && 0 <= b < after.len() && a != b && after[a].used()
                        && after[b].used() implies (#[trigger] after[a]).order_id != (
                #[trigger] after[b]).order_id by {
                    assert(before[a].used() && before[b].used());
                }
            }
            assert(reachable_but(after, self.mask, hole as int, 0)) by {
                assert forall|p: int, c: int|
                    0 <= p < after.len() && 0 <= c < after.len() && (#[trigger] after[p]).used()
                        && #[trigger] on_path(after, self.mask, p, c) implies after[c].used() || (c
                    == hole && steps(hole as int, p, n) > 0) by {
                    assert(before[p].used());
                    assert(on_path(before, self.mask, p, c));
                }
            }
        }
        loop
            invariant_except_break
                hole < n,
                j < n,
                e != hole,
                j != e,
                !self.entries@[hole as int].used(),
                steps(hole as int, j as int, n) < steps(hole as int, e, n),
                reachable_but(
                    self.entries@,
                    self.mask,
                    hole as int,
                    steps(hole as int, j as int, n),
                ),
            invariant
                n == self.entries@.len(),
                0 < n <= usize::MAX,
                self.mask == n - 1,
                (n as usize) & ((n - 1) as usize) == 0,
                self.mask == old(self).mask,
                0 <= e < n,
                !self.entries@[e].used(),
                ids_distinct(self.entries@),
                holds_map(self.entries@, m),
            ensures
                reachable(self.entries@, self.mask),
            decreases steps(j as int, e, n),
        {
            proof {
                lemma_mask_step(j, self.mask, n as usize);
            }
            let ghost j0 = j as int;
            j = (j + 1) & self.mask;
            let entry = self.entries[j];
            let ghost cur = self.entries@;
            if entry.node == NIL {
                proof {
                    lemma_stop(cur, self.mask, hole as int, j0);
                }
                break;
            }
            let home: usize = home_slot(entry.order_id, self.mask);
            let stays: bool = if hole <= j {
                home > hole && home <= j
            } else {
                home > hole || home <= j
            };
            if !stays {
                let ghost old_hole = hole as int;
                self.entries.set(hole, entry);
                self.entries.set(j, MapEntry { order_id: 0, node: NIL });
                hole = j;
                proof {
                    let now = self.entries@;
                    lemma_moved(cur, now, m, old_hole, j as int);
                    lemma_shift(cur, now, self.mask, old_hole, j0);
                }
            } else {
                proof {
                    lemma_stay(cur, self.mask, hole as int, j0);
                }
            }
        }
        proof {
            self.pairs@ = m;
        }
    }

    /// Empties the table, keeping its slots.
    pub fn clear(&mut self)
        requires
            old(self).wf(),
        ensures
            final(self).wf(),
            final(self)@ == Map::<u64, u32>::empty(),
            final(self).slots() == old(self).slots(),
            forall|id: u64| final(self).home(id) == old(self).home(id),
    {
        let mut i: usize = 0;
        while i < self.entries.len()
            invariant
                i <= self.entries@.len(),
                self.entries@.len() == old(self).entries@.len(),
                self.mask == old(self).mask,
                forall|k: int| 0 <= k < i ==> !(#[trigger] self.entries@[k]).used(),
            decreases self.entries@.len() - i,
        {
            self.entries.set(i, MapEntry { order_id: 0, node: NIL });
            i = i + 1;
        }
        proof {
            self.pairs@ = Map::empty();
        }
    }
}

/// Moving one entry into a free slot changes neither the pairs nor their
/// distinctness.
proof fn lemma_moved(
    cur: Seq<MapEntry>,
    now: Seq<MapEntry>,
    m: Map<u64, u32>,
    to: int,
    from: int,
)
    requires
        cur.len() == now.len(),
        0 <= to < cur.len(),
        0 <= from < cur.len(),
        to != from,
        !cur[to].used(),
        now[to] == cur[from],
        !now[from].used(),
        forall|a: int| 0 <= a < cur.len() && a != to && a != from ==> now[a] == cur[a],
        ids_distinct(cur),
        holds_map(cur, m),
    ensures
        ids_distinct(now),
        holds_map(now, m),
{
    assert forall|a: int, b: int|
        0 <= a < now.len() && 0 <= b < now.len() && a != b && now[a].used()
            && now[b].used() implies (#[trigger] now[a]).order_id != (
    #[trigger] now[b]).order_id by {
        let a0 = if a == to { from } else { a };
        let b0 = if b == to { from } else { b };
        assert(cur[a0].used() && cur[b0].used());
    }
    assert forall|a: int| 0 <= a < now.len() && (#[trigger] now[a]).used() implies m.contains_pair(
        now[a].order_id,
        now[a].node,
    ) by {
        let a0 = if a == to { from } else { a };
        assert(cur[a0].used());
    }
    assert forall|k: u64| #[trigger] m.dom().contains(k) implies exists|a: int|
        0 <= a < now.len() && (#[trigger] now[a]).used() && now[a].order_id == k by {
        let a = choose|a: int|
            0 <= a < cur.len() && (#[trigger] cur[a]).used() && cur[a].order_id == k;
        if a == from {
            assert(now[to].used() && now[to].order_id == k);
        } else {
            assert(now[a].used() && now[a].order_id == k);
        }
    }
}

/// Once the scan meets a free slot, nothing passes the hole any more.
proof fn lemma_stop(cur: Seq<MapEntry>, mask: usize, hole: int, j0: int)
    requires
        0 < cur.len() <= usize::MAX,
        mask == cur.len() - 1,
        0 <= hole < cur.len(),
        0 <= j0 < cur.len(),
        !cur[hole].used(),
        !cur[next_index(j0, cur.len() as int)].used(),
        reachable_but(cur, mask, hole, steps(hole, j0, cur.len() as int)),
    ensures
        reachable(cur, mask),
{
    let n = cur.len() as int;
    let j = next_index(j0, n);
    assert forall|p: int, c: int|
        0 <= p < cur.len() && 0 <= c < cur.len() && (#[trigger] cur[p]).used()
            && #[trigger] on_path(cur, mask, p, c) implies cur[c].used() by {
        if c == hole && steps(hole, p, n) > steps(hole, j0, n) {
            lemma_mask_bound(mix(cur[p].order_id) as usize, mask);
            assert(p != j);
            if j != hole {
                assert(on_path(cur, mask, p, j));
            }
            assert(false);
        }
    }
}

/// Moving the entry after `j0` into the hole leaves its old slot as the only one
/// that may be passed.
proof fn lemma_shift(
    cur: Seq<MapEntry>,
    now: Seq<MapEntry>,
    mask: usize,
    hole: int,
    j0: int,
)
    requires
        0 < cur.len() <= usize::MAX,
        mask == cur.len() - 1,
        0 <= hole < cur.len(),
        0 <= j0 < cur.len(),
        !cur[hole].used(),
        cur[next_index(j0, cur.len() as int)].used(),
        now == cur.update(hole, cur[next_index(j0, cur.len() as int)]).update(
            next_index(j0, cur.len() as int),
            (MapEntry { order_id: 0, node: NIL }),
        ),
        reachable_but(cur, mask, hole, steps(hole, j0, cur.len() as int)),
        ({
            let n = cur.len() as int;
            let j = next_index(j0, n);
            let h = home_of(cur[j].order_id, mask);
            !(0 < steps(hole, h, n) <= steps(hole, j, n))
        }),
    ensures
        reachable_but(now, mask, next_index(j0, cur.len() as int), 0),
{
    let n = cur.len() as int;
    let j = next_index(j0, n);
    assert forall|p: int, c: int|
        0 <= p < now.len() && 0 <= c < now.len() && (#[trigger] now[p]).used() && #[trigger] on_path(
            now,
            mask,
            p,
            c,
        ) implies now[c].used() || (c == j && steps(j, p, n) > 0) by {
        if p == hole {
            lemma_mask_bound(mix(cur[j].order_id) as usize, mask);
            assert(on_path(cur, mask, j, c));
            assert(c != hole && c != j);
        } else {
            assert(p != j);
            assert(cur[p].used());
            assert(on_path(cur, mask, p, c));
        }
    }
}

/// An entry whose home lies behind the hole does not pass it.
proof fn lemma_stay(cur: Seq<MapEntry>, mask: usize, hole: int, j0: int)
    requires
        0 < cur.len() <= usize::MAX,
        mask == cur.len() - 1,
        0 <= hole < cur.len(),
        0 <= j0 < cur.len(),
        !cur[hole].used(),
        cur[next_index(j0, cur.len() as int)].used(),
        reachable_but(cur, mask, hole, steps(hole, j0, cur.len() as int)),
        ({
            let n = cur.len() as int;
            let j = next_index(j0, n);
            let h = home_of(cur[j].order_id, mask);
            0 < steps(hole, h, n) <= steps(hole, j, n)
        }),
    ensures
        reachable_but(
            cur,
            mask,
            hole,
            steps(hole, next_index(j0, cur.len() as int), cur.len() as int),
        ),
{
    let n = cur.len() as int;
    let j = next_index(j0, n);
    assert forall|p: int, c: int|
        0 <= p < cur.len() && 0 <= c < cur.len() && (#[trigger] cur[p]).used() && #[trigger] on_path(
            cur,
            mask,
            p,
            c,
        ) implies cur[c].used() || (c == hole && steps(hole, p, n) > steps(hole, j, n)) by {
        if c == hole && p == j {
            lemma_mask_bound(mix(cur[j].order_id) as usize, mask);
            assert(!on_path(cur, mask, p, c));
        }
    }
}

} // verus!
