//! A bounded queue of messages between one producer and one consumer.
//!
//! Slots are reused in turn. The two indices only ever count up, so a full ring
//! and an empty one are told apart without a spare slot. Each end keeps a copy of
//! the other's index and looks again only when the copy says that it cannot go on.

use vstd::arithmetic::div_mod::{lemma_mod_equivalence, lemma_small_mod};
use vstd::prelude::*;

verus! {

pub const RING_VERSION: u32 = 1;

pub const RING_MAGIC: u64 = 0x474e_524b_5453_444d;

/// Slots are whole cache lines.
pub const SLOT_ALIGN: usize = 64;

/// Why a ring could not be made or opened.
#[derive(Debug, Clone, Copy, PartialEq, Eq, Structural)]
pub enum RingError {
    CapacityNotPowerOfTwo(u32),
    CapacityZero,
    BadSlotSize(u32),
    BadMagic(u64),
    BadVersion(u32),
    Truncated { need: usize, got: usize },
}

/// Why a message was not pushed.
#[derive(Debug, Clone, Copy, PartialEq, Eq, Structural)]
pub enum PushError {
    Full,
    TooLarge { len: usize, capacity: usize },
    /// The fill wrote nothing.
    Abandoned,
}

/// How many bytes the header of a ring, and that of a slot, take.
#[derive(Debug, Clone, Copy, PartialEq, Eq, Structural)]
pub struct RingLayout {
    pub header_len: usize,
    pub slot_header_len: usize,
}

pub open spec fn is_power_of_two(n: int) -> bool
    decreases n,
{
    if n <= 0 {
        false
    } else if n == 1 {
        true
    } else {
        n % 2 == 0 && is_power_of_two(n / 2)
    }
}

fn power_of_two(n: u32) -> (r: bool)
    ensures
        r == is_power_of_two(n as int),
{
    if n == 0 {
        return false;
    }
    let mut k: u32 = n;
    while k > 1 && k % 2 == 0
        invariant
            k >= 1,
            is_power_of_two(k as int) == is_power_of_two(n as int),
        decreases k,
    {
        k = k / 2;
    }
    k == 1
}

/// Whether a ring of this shape can be.
pub open spec fn geometry(capacity: u32, slot_size: u32, layout: RingLayout) -> Result<
    (),
    RingError,
> {
    if capacity == 0 {
        Err(RingError::CapacityZero)
    } else if !is_power_of_two(capacity as int) {
        Err(RingError::CapacityNotPowerOfTwo(capacity))
    } else if slot_size % 64 != 0 || slot_size <= layout.slot_header_len {
        Err(RingError::BadSlotSize(slot_size))
    } else {
        Ok(())
    }
}

pub fn check_geometry(capacity: u32, slot_size: u32, layout: RingLayout) -> (r: Result<
    (),
    RingError,
>)
    ensures
        r == geometry(capacity, slot_size, layout),
{
    if capacity == 0 {
        return Err(RingError::CapacityZero);
    }
    if !power_of_two(capacity) {
        return Err(RingError::CapacityNotPowerOfTwo(capacity));
    }
    if slot_size % 64 != 0 || slot_size as usize <= layout.slot_header_len {
        return Err(RingError::BadSlotSize(slot_size));
    }
    Ok(())
}

/// What the header of a ring says, and how long the file is that holds it.
#[derive(Debug, Clone, Copy, PartialEq, Eq, Structural)]
pub struct RingHeader {
    pub magic: u64,
    pub version: u32,
    pub capacity: u32,
    pub slot_size: u32,
    pub file_len: usize,
}

/// What opening a ring with this header comes to.
pub open spec fn header_outcome(h: RingHeader, layout: RingLayout) -> Result<(), RingError> {
    let need = layout.header_len + h.capacity * h.slot_size;
    if h.magic != RING_MAGIC {
        Err(RingError::BadMagic(h.magic))
    } else if h.version != RING_VERSION {
        Err(RingError::BadVersion(h.version))
    } else if geometry(h.capacity, h.slot_size, layout) is Err {
        geometry(h.capacity, h.slot_size, layout)
    } else if h.file_len < need {
        Err(RingError::Truncated { need: need as usize, got: h.file_len })
    } else {
        Ok(())
    }
}

/// What a ring holds, oldest first, and how many messages ever went in.
#[verifier::ext_equal]
pub struct RingModel {
    pub queue: Seq<Seq<u8>>,
    pub capacity: nat,
    pub slot_size: nat,
    /// The longest message a slot takes.
    pub max_len: nat,
    pub pushed: nat,
}

#[derive(Debug)]
pub struct Ring {
    slots: Vec<Vec<u8>>,
    capacity: u64,
    slot_size: usize,
    usable: usize,
    write: u64,
    read: u64,
}

impl View for Ring {
    type V = RingModel;

    closed spec fn view(&self) -> RingModel {
        RingModel {
            queue: Seq::new(
                (self.write - self.read) as nat,
                |i: int| self.slots@[(self.read + i) % (self.capacity as int)]@,
            ),
            capacity: self.capacity as nat,
            slot_size: self.slot_size as nat,
            max_len: self.usable as nat,
            pushed: self.write as nat,
        }
    }
}

/// Slots that are less than a turn apart are different ones.
proof fn lemma_slots_differ(a: int, b: int, n: int)
    requires
        0 < n,
        a < b < a + n,
    ensures
        a % n != b % n,
        0 <= a % n < n,
{
    if a % n == b % n {
        lemma_mod_equivalence(b, a, n);
        lemma_small_mod((b - a) as nat, n as nat);
    }
}

/// The slot that an index falls on.
pub fn slot_of(index: u64, capacity: u64) -> (r: u64)
    requires
        capacity > 0,
    ensures
        r == index % capacity,
        r < capacity,
{
    index % capacity
}

/// Whether a slot is free, with these many messages pushed and popped.
pub fn has_room(write: u64, read: u64, capacity: u64) -> (r: bool)
    requires
        read <= write,
    ensures
        r == (write - read < capacity),
{
    write - read < capacity
}

impl Ring {
    pub closed spec fn wf(self) -> bool {
        &&& 1 <= self.capacity <= u32::MAX
        &&& self.slots@.len() == self.capacity
        &&& self.read <= self.write
        &&& self.write - self.read <= self.capacity
        &&& forall|i: int|
            0 <= i < self@.queue.len() ==> (#[trigger] self@.queue[i]).len() <= self.usable
        &&& self.usable <= self.slot_size
    }

    /// A ring never holds more than it has slots, so it is full exactly where it holds as
    /// many.
    pub proof fn law_never_above_capacity(&self)
        requires
            self.wf(),
        ensures
            1 <= self@.capacity,
            self@.queue.len() <= self@.capacity,
            forall|i: int|
                0 <= i < self@.queue.len() ==> (#[trigger] self@.queue[i]).len() <= self@.max_len,
    {
    }

    /// How many bytes a ring of this shape takes.
    pub fn file_size(capacity: u32, slot_size: u32, layout: RingLayout) -> (r: usize)
        requires
            layout.header_len + capacity * slot_size <= usize::MAX,
        ensures
            r == layout.header_len + capacity * slot_size,
    {
        proof {
            assert(0 <= capacity * slot_size) by (nonlinear_arith)
                requires
                    0 <= capacity,
                    0 <= slot_size,
            ;
        }
        let body: usize = (capacity as usize) * (slot_size as usize);
        layout.header_len + body
    }

    /// Makes an empty ring.
    pub fn create(capacity: u32, slot_size: u32, layout: RingLayout) -> (r: Result<
        Self,
        RingError,
    >)
        ensures
            r is Ok <==> geometry(capacity, slot_size, layout) is Ok,
            r matches Err(e) ==> geometry(capacity, slot_size, layout) == Err::<(), RingError>(e),
            r matches Ok(ring) ==> {
                &&& ring.wf()
                &&& ring@ == (RingModel {
                    queue: Seq::empty(),
                    capacity: capacity as nat,
                    slot_size: slot_size as nat,
                    max_len: (slot_size - layout.slot_header_len) as nat,
                    pushed: 0,
                })
            },
    {
        match check_geometry(capacity, slot_size, layout) {
            Err(e) => return Err(e),
            Ok(()) => {},
        }
        let mut slots: Vec<Vec<u8>> = Vec::new();
        let mut i: u32 = 0;
        while i < capacity
            invariant
                i <= capacity,
                slots@.len() == i,
            decreases capacity - i,
        {
            slots.push(Vec::new());
            i = i + 1;
        }
        let ring = Ring {
            slots,
            capacity: capacity as u64,
            slot_size: slot_size as usize,
            usable: slot_size as usize - layout.slot_header_len,
            write: 0,
            read: 0,
        };
        assert(ring@.queue =~= Seq::<Seq<u8>>::empty());
        Ok(ring)
    }

    /// Whether a ring with this header can be opened.
    pub fn open(h: RingHeader, layout: RingLayout) -> (r: Result<(), RingError>)
        requires
            layout.header_len + h.capacity * h.slot_size <= usize::MAX,
        ensures
            r == header_outcome(h, layout),
    {
        if h.magic != RING_MAGIC {
            return Err(RingError::BadMagic(h.magic));
        }
        if h.version != RING_VERSION {
            return Err(RingError::BadVersion(h.version));
        }
        match check_geometry(h.capacity, h.slot_size, layout) {
            Err(e) => return Err(e),
            Ok(()) => {},
        }
        let need: usize = Self::file_size(h.capacity, h.slot_size, layout);
        if h.file_len < need {
            return Err(RingError::Truncated { need, got: h.file_len });
        }
        Ok(())
    }

    pub fn capacity(&self) -> (r: u64)
        ensures
            r == self@.capacity,
    {
        self.capacity
    }

    pub fn slot_size(&self) -> (r: usize)
        ensures
            r == self@.slot_size,
    {
        self.slot_size
    }

    /// The longest message a slot takes.
    pub fn max_message_len(&self) -> (r: usize)
        ensures
            r == self@.max_len,
    {
        self.usable
    }

    pub fn into_producer(&self) -> (r: Producer)
        requires
            self.wf(),
        ensures
            r.of(*self),
    {
        Producer { cached_read: self.read }
    }

    pub fn into_consumer(&self) -> (r: Consumer)
        requires
            self.wf(),
        ensures
            r.of(*self),
    {
        Consumer { cached_write: self.write }
    }
}

/// The end that pushes.
#[derive(Debug)]
pub struct Producer {
    cached_read: u64,
}

/// The end that pops.
#[derive(Debug)]
pub struct Consumer {
    cached_write: u64,
}

/// Ends of a ring as it was are ends of it as it is.
pub open spec fn still_of(before: Ring, after: Ring) -> bool {
    &&& forall|p: Producer| #[trigger] p.of(before) ==> p.of(after)
    &&& forall|c: Consumer| #[trigger] c.of(before) ==> c.of(after)
}

impl Producer {
    /// What this end remembers of the other's index has been true of this ring.
    pub closed spec fn of(self, ring: Ring) -> bool {
        self.cached_read <= ring.read
    }

    /// How many messages wait.
    pub fn depth(&self, ring: &Ring) -> (r: u64)
        requires
            ring.wf(),
        ensures
            r == ring@.queue.len(),
    {
        ring.write - ring.read
    }

    /// Pushes what a fill left in a slot: `written` is how much of `body` it wrote,
    /// or `None` where it gave up. Nothing is pushed unless all is well.
    pub fn push_with(&mut self, ring: &mut Ring, body: &[u8], written: Option<usize>) -> (r: Result<
        usize,
        PushError,
    >)
        requires
            old(ring).wf(),
            old(self).of(*old(ring)),
            old(ring)@.pushed < u64::MAX,
            written matches Some(n) ==> n <= old(ring)@.max_len ==> n <= body@.len(),
        ensures
            final(ring).wf(),
            final(self).of(*final(ring)),
            still_of(*old(ring), *final(ring)),
            r == (if old(ring)@.queue.len() >= old(ring)@.capacity {
                Err::<usize, PushError>(PushError::Full)
            } else {
                match written {
                    None => Err(PushError::Abandoned),
                    Some(n) => if n > old(ring)@.max_len {
                        Err(
                            PushError::TooLarge {
                                len: n,
                                capacity: old(ring)@.max_len as usize,
                            },
                        )
                    } else {
                        Ok(n)
                    },
                }
            }),
            final(ring)@ == (match r {
                Ok(n) => old(ring)@.after_push(body@.take(n as int)),
                Err(_) => old(ring)@,
            }),
    {
        let w: u64 = ring.write;
        if !has_room(w, self.cached_read, ring.capacity) {
            self.cached_read = ring.read;
            if !has_room(w, self.cached_read, ring.capacity) {
                return Err(PushError::Full);
            }
        }
        let n: usize = match written {
            None => return Err(PushError::Abandoned),
            Some(n) => n,
        };
        if n > ring.usable {
            return Err(PushError::TooLarge { len: n, capacity: ring.usable });
        }
        let mut message: Vec<u8> = Vec::with_capacity(n);
        let mut i: usize = 0;
        while i < n
            invariant
                i <= n <= body@.len(),
                message@ == body@.take(i as int),
            decreases n - i,
        {
            message.push(body[i]);
            assert(body@.take(i as int + 1) =~= body@.take(i as int).push(body@[i as int]));
            i = i + 1;
        }
        let ghost q = ring@.queue;
        let ghost c = ring.capacity as int;
        let slot: usize = slot_of(w, ring.capacity) as usize;
        ring.slots.set(slot, message);
        ring.write = w + 1;
        proof {
            assert forall|k: int| 0 <= k < q.len() implies #[trigger] ring@.queue[k] == q[k] by {
                lemma_slots_differ(ring.read + k, w as int, c);
            }
            assert(ring@.queue =~= q.push(body@.take(n as int)));
        }
        Ok(n)
    }

    /// Pushes a message.
    pub fn push(&mut self, ring: &mut Ring, bytes: &[u8]) -> (r: Result<(), PushError>)
        requires
            old(ring).wf(),
            old(self).of(*old(ring)),
            old(ring)@.pushed < u64::MAX,
        ensures
            final(ring).wf(),
            final(self).of(*final(ring)),
            still_of(*old(ring), *final(ring)),
            r == (if bytes@.len() > old(ring)@.max_len {
                Err::<(), PushError>(
                    PushError::TooLarge {
                        len: bytes@.len() as usize,
                        capacity: old(ring)@.max_len as usize,
                    },
                )
            } else if old(ring)@.queue.len() >= old(ring)@.capacity {
                Err(PushError::Full)
            } else {
                Ok(())
            }),
            final(ring)@ == (if r is Ok {
                old(ring)@.after_push(bytes@)
            } else {
                old(ring)@
            }),
    {
        let usable: usize = ring.max_message_len();
        if bytes.len() > usable {
            return Err(PushError::TooLarge { len: bytes.len(), capacity: usable });
        }
        assert(bytes@.take(bytes@.len() as int) =~= bytes@);
        match self.push_with(ring, bytes, Some(bytes.len())) {
            Ok(_) => Ok(()),
            Err(e) => Err(e),
        }
    }
}

impl Consumer {
    /// What this end remembers of the other's index has been true of this ring.
    pub closed spec fn of(self, ring: Ring) -> bool {
        self.cached_write <= ring.write
    }

    /// How many messages wait.
    pub fn depth(&self, ring: &Ring) -> (r: u64)
        requires
            ring.wf(),
        ensures
            r == ring@.queue.len(),
    {
        ring.write - ring.read
    }

    /// Pops the oldest message.
    pub fn pop_with(&mut self, ring: &mut Ring) -> (r: Option<Vec<u8>>)
        requires
            old(ring).wf(),
            old(self).of(*old(ring)),
        ensures
            final(ring).wf(),
            final(self).of(*final(ring)),
            still_of(*old(ring), *final(ring)),
            r is Some <==> old(ring)@.queue.len() > 0,
            r matches Some(m) ==> m@ == old(ring)@.queue[0],
            final(ring)@ == (if old(ring)@.queue.len() > 0 {
                old(ring)@.after_pop()
            } else {
                old(ring)@
            }),
    {
        let at: u64 = ring.read;
        if at >= self.cached_write {
            self.cached_write = ring.write;
            if at >= self.cached_write {
                return None;
            }
        }
        let ghost q = ring@.queue;
        let slot: usize = slot_of(at, ring.capacity) as usize;
        let n: usize = ring.slots[slot].len();
        let mut out: Vec<u8> = Vec::with_capacity(n);
        let mut i: usize = 0;
        while i < n
            invariant
                *ring == *old(ring),
                slot < ring.slots@.len(),
                n == ring.slots@[slot as int]@.len(),
                i <= n,
                out@ == ring.slots@[slot as int]@.take(i as int),
            decreases n - i,
        {
            out.push(ring.slots[slot][i]);
            assert(ring.slots@[slot as int]@.take(i as int + 1) =~= ring.slots@[slot as int]@.take(
                i as int,
            ).push(ring.slots@[slot as int]@[i as int]));
            i = i + 1;
        }
        assert(out@ =~= ring.slots@[slot as int]@);
        ring.read = at + 1;
        proof {
            assert forall|k: int| 0 <= k < q.len() - 1 implies #[trigger] ring@.queue[k] == q[k
                + 1] by {
                assert(ring.read + k == at + (k + 1));
            }
            assert(ring@.queue =~= q.drop_first());
        }
        Some(out)
    }

    /// Pops up to `limit` messages, oldest first.
    pub fn drain(&mut self, ring: &mut Ring, limit: usize) -> (out: Vec<Vec<u8>>)
        requires
            old(ring).wf(),
            old(self).of(*old(ring)),
        ensures
            final(ring).wf(),
            final(self).of(*final(ring)),
            still_of(*old(ring), *final(ring)),
            ({
                let q = old(ring)@.queue;
                let n = if q.len() < limit {
                    q.len() as int
                } else {
                    limit as int
                };
                &&& out@.len() == n
                &&& forall|i: int| 0 <= i < n ==> (#[trigger] out@[i])@ == q[i]
                &&& final(ring)@ == (RingModel { queue: q.skip(n), ..old(ring)@ })
            }),
    {
        let mut out: Vec<Vec<u8>> = Vec::new();
        let ghost q = ring@.queue;
        assert(q.skip(0) =~= q);
        while out.len() < limit
            invariant_except_break
                out@.len() <= limit,
            invariant
                ring.wf(),
                self.of(*ring),
                still_of(*old(ring), *ring),
                q == old(ring)@.queue,
                out@.len() <= q.len(),
                out@.len() <= limit,
                forall|i: int| 0 <= i < out@.len() ==> (#[trigger] out@[i])@ == q[i],
                ring@ == (RingModel { queue: q.skip(out@.len() as int), ..old(ring)@ }),
            ensures
                out@.len() == limit || out@.len() == q.len(),
            decreases limit - out@.len(),
        {
            match self.pop_with(ring) {
                None => break,
                Some(m) => {
                    let ghost k = out@.len() as int;
                    assert(q.skip(k).drop_first() =~= q.skip(k + 1));
                    out.push(m);
                },
            }
        }
        out
    }
}

impl RingModel {
    /// The ring with one message more.
    pub open spec fn after_push(self, bytes: Seq<u8>) -> RingModel {
        RingModel { queue: self.queue.push(bytes), pushed: self.pushed + 1, ..self }
    }

    /// The ring with messages pushed in turn.
    pub open spec fn after_pushes(self, ms: Seq<Seq<u8>>) -> RingModel
        decreases ms.len(),
    {
        if ms.len() == 0 {
            self
        } else {
            self.after_pushes(ms.drop_last()).after_push(ms.last())
        }
    }

    /// The ring with its oldest message taken out.
    pub open spec fn after_pop(self) -> RingModel {
        RingModel { queue: self.queue.drop_first(), ..self }
    }

    pub open spec fn after_pops(self, n: nat) -> RingModel
        decreases n,
    {
        if n == 0 {
            self
        } else {
            self.after_pops((n - 1) as nat).after_pop()
        }
    }
}

proof fn lemma_pushes(m: RingModel, ms: Seq<Seq<u8>>)
    ensures
        m.after_pushes(ms).queue == m.queue + ms,
    decreases ms.len(),
{
    if ms.len() == 0 {
        assert(m.queue + ms =~= m.queue);
    } else {
        lemma_pushes(m, ms.drop_last());
        assert((m.queue + ms.drop_last()).push(ms.last()) =~= m.queue + ms);
    }
}

proof fn lemma_pops(m: RingModel, n: nat)
    requires
        n <= m.queue.len(),
    ensures
        m.after_pops(n).queue == m.queue.skip(n as int),
    decreases n,
{
    if n == 0 {
        assert(m.queue.skip(0) =~= m.queue);
    } else {
        lemma_pops(m, (n - 1) as nat);
        assert(m.queue.skip(n - 1).drop_first() =~= m.queue.skip(n as int));
    }
}

/// Messages come out in the order they went in: of a ring that held some and was
/// given more, the pop after `n` others gives the message that went in `n` places
/// after the oldest.
pub proof fn law_first_in_first_out(m: RingModel, ms: Seq<Seq<u8>>, n: nat)
    requires
        n < m.queue.len() + ms.len(),
    ensures
        m.after_pushes(ms).after_pops(n).queue[0] == (m.queue + ms)[n as int],
{
    lemma_pushes(m, ms);
    lemma_pops(m.after_pushes(ms), n);
}

/// A power of two is one times two, so many times.
pub proof fn law_power_of_two_is_one(n: int)
    ensures
        is_power_of_two(n) <==> exists|k: nat| n == #[trigger] vstd::arithmetic::power2::pow2(k),
    decreases n,
{
    vstd::arithmetic::power2::lemma2_to64();
    if n == 1 {
        assert(n == vstd::arithmetic::power2::pow2(0));
    } else if n > 1 {
        law_power_of_two_is_one(n / 2);
        if is_power_of_two(n) {
            let k = choose|k: nat| n / 2 == #[trigger] vstd::arithmetic::power2::pow2(k);
            vstd::arithmetic::power2::lemma_pow2_unfold(k + 1);
            assert(n == vstd::arithmetic::power2::pow2(k + 1));
        }
        if exists|k: nat| n == #[trigger] vstd::arithmetic::power2::pow2(k) {
            let k = choose|k: nat| n == #[trigger] vstd::arithmetic::power2::pow2(k);
            assert(k > 0);
            vstd::arithmetic::power2::lemma_pow2_unfold(k);
            assert(n / 2 == vstd::arithmetic::power2::pow2((k - 1) as nat));
        }
    } else {
        assert forall|k: nat| n != #[trigger] vstd::arithmetic::power2::pow2(k) by {
            vstd::arithmetic::power2::lemma_pow2_pos(k);
        }
    }
}

/// A ring opens exactly if its header is one of this version, its slots are a power of two
/// in number and whole cache lines with room for a message, and the file holds them all.
pub proof fn law_what_a_ring_needs(h: RingHeader, layout: RingLayout)
    ensures
        header_outcome(h, layout) is Ok <==> {
            &&& h.magic == 0x474e_524b_5453_444d
            &&& h.version == 1
            &&& h.capacity >= 1
            &&& is_power_of_two(h.capacity as int)
            &&& h.slot_size % 64 == 0
            &&& h.slot_size > layout.slot_header_len
            &&& h.file_len >= layout.header_len + h.capacity * h.slot_size
        },
        h.magic != 0x474e_524b_5453_444d ==> header_outcome(h, layout) == Err::<(), RingError>(
            RingError::BadMagic(h.magic),
        ),
{
}

/// A message that is pushed goes behind all that wait, and a pop takes the one that has
/// waited longest and leaves the others; neither changes what a slot takes.
pub proof fn law_push_and_pop_move_one_message(m: RingModel, bytes: Seq<u8>)
    ensures
        m.after_push(bytes).queue.len() == m.queue.len() + 1,
        m.after_push(bytes).queue.last() == bytes,
        m.after_push(bytes).queue.drop_last() == m.queue,
        m.after_push(bytes).pushed == m.pushed + 1,
        m.after_push(bytes).capacity == m.capacity,
        m.after_push(bytes).max_len == m.max_len,
        m.queue.len() > 0 ==> seq![m.queue[0]] + m.after_pop().queue == m.queue,
        m.after_pop().pushed == m.pushed,
        m.after_pop().capacity == m.capacity,
        m.after_pop().max_len == m.max_len,
{
    assert(m.after_push(bytes).queue.drop_last() =~= m.queue);
    if m.queue.len() > 0 {
        assert(seq![m.queue[0]] + m.after_pop().queue =~= m.queue);
    }
}

} // verus!
