//! A bounded, contiguous history of published datagrams.
//!
//! The store is a ring: old datagrams make room for new ones. It refuses to hold a
//! hole. When a datagram does not follow on from what is held, everything before
//! it is let go, so whether a range can be served is a comparison of two numbers,
//! and what is served never has a gap in it.

use crate::message::PacketHeader;
use crate::protocol::{RangeRequest, ResponseHeader, Status};
use crate::text::{decimal, push_decimal};
use vstd::prelude::*;
use vstd::string::StringExecFns;
use vstd::wrapping::u64_specs::wrapping_add;

verus! {

/// What has gone through the store. The counters wrap.
#[derive(Debug, Clone, Copy, PartialEq, Eq, Structural)]
pub struct StoreStats {
    pub datagrams_stored: u64,
    pub messages_stored: u64,
    pub datagrams_evicted: u64,
    /// Times the stream did not follow on and the history was let go.
    pub discontinuities: u64,
    /// Datagrams that are not newer than what is held.
    pub duplicates: u64,
}

impl Default for StoreStats {
    fn default() -> (r: Self)
        ensures
            r == StoreStats::zero(),
    {
        StoreStats {
            datagrams_stored: 0,
            messages_stored: 0,
            datagrams_evicted: 0,
            discontinuities: 0,
            duplicates: 0,
        }
    }
}

impl StoreStats {
    pub open spec fn zero() -> StoreStats {
        StoreStats {
            datagrams_stored: 0,
            messages_stored: 0,
            datagrams_evicted: 0,
            discontinuities: 0,
            duplicates: 0,
        }
    }
}

/// What a range lookup found: the datagrams from `start` up to, but not including,
/// `end`, counted from the oldest.
#[derive(Debug, Clone, Copy, PartialEq, Eq, Structural)]
pub struct Located {
    pub status: Status,
    pub start: usize,
    pub end: usize,
}

/// A datagram in the history.
pub struct Stored {
    pub first_sequence: u64,
    pub count: u16,
    pub bytes: Seq<u8>,
}

impl Stored {
    pub open spec fn end(self) -> int {
        self.first_sequence + self.count
    }
}

/// The datagram after `i` begins where the one at `i` ends.
pub open spec fn follows(entries: Seq<Stored>, i: int) -> bool {
    entries[i].end() == entries[i + 1].first_sequence
}

/// What a store holds, oldest first.
#[verifier::ext_equal]
pub struct StoreModel {
    pub entries: Seq<Stored>,
    pub capacity: nat,
    pub max_bytes: nat,
    pub first_sequence: u64,
    pub next_sequence: u64,
    pub stats: StoreStats,
}

impl StoreModel {
    /// Each datagram begins where the one before it ended, and the two sequence
    /// numbers are where all of it begins and ends.
    pub open spec fn wf(self) -> bool {
        &&& 1 <= self.capacity
        &&& self.entries.len() <= self.capacity
        &&& forall|i: int|
            0 <= i < self.entries.len() ==> (#[trigger] self.entries[i]).count > 0
                && self.entries[i].end() <= u64::MAX
        &&& forall|i: int| 0 <= i < self.entries.len() - 1 ==> #[trigger] follows(self.entries, i)
        &&& self.entries.len() > 0 ==> self.first_sequence == self.entries[0].first_sequence
            && self.next_sequence == self.entries.last().end()
    }

    /// The history let go, and begun anew at `first`.
    pub open spec fn restarted(self, first: u64) -> StoreModel {
        StoreModel {
            entries: Seq::empty(),
            first_sequence: first,
            next_sequence: first,
            ..self
        }
    }

    /// The history ready for a datagram that starts at `first`: begun anew where it
    /// does not follow on.
    pub open spec fn continued(self, first: u64) -> StoreModel {
        if self.entries.len() == 0 {
            self.restarted(first)
        } else if first > self.next_sequence {
            StoreModel {
                stats: StoreStats {
                    discontinuities: wrapping_add(self.stats.discontinuities, 1),
                    datagrams_evicted: wrapping_add(
                        self.stats.datagrams_evicted,
                        self.entries.len() as u64,
                    ),
                    ..self.stats
                },
                ..self.restarted(first)
            }
        } else {
            self
        }
    }

    /// The history with room for one more: where it is full, the oldest goes.
    pub open spec fn with_room(self) -> StoreModel {
        if self.entries.len() == self.capacity {
            StoreModel {
                entries: self.entries.drop_first(),
                first_sequence: self.entries[0].end() as u64,
                stats: StoreStats {
                    datagrams_evicted: wrapping_add(self.stats.datagrams_evicted, 1),
                    ..self.stats
                },
                ..self
            }
        } else {
            self
        }
    }

    pub open spec fn appended(self, h: PacketHeader, bytes: Seq<u8>) -> StoreModel {
        StoreModel {
            entries: self.entries.push(
                Stored { first_sequence: h.first_sequence, count: h.message_count, bytes },
            ),
            next_sequence: h.end() as u64,
            stats: StoreStats {
                datagrams_stored: wrapping_add(self.stats.datagrams_stored, 1),
                messages_stored: wrapping_add(
                    self.stats.messages_stored,
                    h.message_count as u64,
                ),
                ..self.stats
            },
            ..self
        }
    }

    /// The history after a datagram that belongs into it.
    pub open spec fn pushed(self, h: PacketHeader, bytes: Seq<u8>) -> StoreModel {
        if h.message_count == 0 {
            self
        } else if self.entries.len() > 0 && h.first_sequence < self.next_sequence {
            StoreModel {
                stats: StoreStats {
                    duplicates: wrapping_add(self.stats.duplicates, 1),
                    ..self.stats
                },
                ..self
            }
        } else {
            let ready = self.continued(h.first_sequence).with_room();
            if bytes.len() > self.max_bytes {
                ready
            } else {
                ready.appended(h, bytes)
            }
        }
    }

    /// A datagram is too big to be kept.
    pub open spec fn refuses(self, h: PacketHeader, bytes: Seq<u8>) -> bool {
        &&& h.message_count > 0
        &&& !(self.entries.len() > 0 && h.first_sequence < self.next_sequence)
        &&& bytes.len() > self.max_bytes
    }

    /// `i` is the first datagram that reaches beyond `sequence`.
    pub open spec fn reaches(self, sequence: u64, i: int) -> bool {
        &&& 0 <= i < self.entries.len()
        &&& sequence < self.entries[i].end()
        &&& forall|j: int| 0 <= j < i ==> (#[trigger] self.entries[j]).end() <= sequence
    }

    /// What looking up a range comes to.
    pub open spec fn lookup(self, from: u64, through: u64) -> Status {
        if from > through {
            Status::BadRequest
        } else if self.entries.len() == 0 || from < self.first_sequence {
            Status::TooOld
        } else if through >= self.next_sequence {
            Status::NotYet
        } else {
            Status::Served
        }
    }
}

#[derive(Debug)]
struct RingSlot {
    first_sequence: u64,
    message_count: u16,
    bytes: Vec<u8>,
}

spec fn stored_view(s: RingSlot) -> Stored {
    Stored { first_sequence: s.first_sequence, count: s.message_count, bytes: s.bytes@ }
}

/// The ring index of the `i`th datagram.
spec fn ring_index(head: int, i: int, cap: int) -> int {
    if head + i < cap {
        head + i
    } else {
        head + i - cap
    }
}

#[derive(Debug)]
pub struct DatagramStore {
    slots: Vec<RingSlot>,
    max_bytes: usize,
    /// Ring index of the oldest datagram.
    head: usize,
    len: usize,
    first_sequence: u64,
    next_sequence: u64,
    stats: StoreStats,
}

impl View for DatagramStore {
    type V = StoreModel;

    closed spec fn view(&self) -> StoreModel {
        StoreModel {
            entries: Seq::new(
                self.len as nat,
                |i: int|
                    stored_view(
                        self.slots@[ring_index(self.head as int, i, self.slots@.len() as int)],
                    ),
            ),
            capacity: self.slots@.len(),
            max_bytes: self.max_bytes as nat,
            first_sequence: self.first_sequence,
            next_sequence: self.next_sequence,
            stats: self.stats,
        }
    }
}

impl DatagramStore {
    pub closed spec fn wf(self) -> bool {
        &&& self@.wf()
        &&& self.len <= self.slots@.len()
        &&& self.head < self.slots@.len()
        &&& 2 * self.slots@.len() <= usize::MAX
    }

    /// A store for so many datagrams, at least one.
    pub fn new(capacity: usize, max_datagram_bytes: usize) -> (r: Self)
        requires
            2 * capacity < usize::MAX,
        ensures
            r.wf(),
            r@.wf(),
            r@ == (StoreModel {
                entries: Seq::empty(),
                capacity: if capacity < 1 {
                    1
                } else {
                    capacity as nat
                },
                max_bytes: max_datagram_bytes as nat,
                first_sequence: 0,
                next_sequence: 0,
                stats: StoreStats::zero(),
            }),
    {
        let capacity: usize = if capacity < 1 {
            1
        } else {
            capacity
        };
        let mut slots: Vec<RingSlot> = Vec::with_capacity(capacity);
        let mut i: usize = 0;
        while i < capacity
            invariant
                i <= capacity,
                slots@.len() == i,
            decreases capacity - i,
        {
            slots.push(
                RingSlot {
                    first_sequence: 0,
                    message_count: 0,
                    bytes: Vec::with_capacity(max_datagram_bytes),
                },
            );
            i = i + 1;
        }
        let r = DatagramStore {
            slots,
            max_bytes: max_datagram_bytes,
            head: 0,
            len: 0,
            first_sequence: 0,
            next_sequence: 0,
            stats: StoreStats::default(),
        };
        assert(r@.entries =~= Seq::<Stored>::empty());
        r
    }

    pub fn stats(&self) -> (r: StoreStats)
        ensures
            r == self@.stats,
    {
        self.stats
    }

    pub fn len(&self) -> (r: usize)
        ensures
            r == self@.entries.len(),
    {
        self.len
    }

    pub fn is_empty(&self) -> (r: bool)
        ensures
            r == (self@.entries.len() == 0),
    {
        self.len == 0
    }

    pub fn capacity(&self) -> (r: usize)
        ensures
            r == self@.capacity,
    {
        self.slots.len()
    }

    /// The oldest sequence still held.
    pub fn first_sequence(&self) -> (r: u64)
        ensures
            r == self@.first_sequence,
    {
        self.first_sequence
    }

    /// One past the newest sequence held.
    pub fn next_sequence(&self) -> (r: u64)
        ensures
            r == self@.next_sequence,
    {
        self.next_sequence
    }

    fn index(&self, i: usize) -> (r: usize)
        requires
            self.head < self.slots@.len(),
            i <= self.slots@.len(),
            2 * self.slots@.len() <= usize::MAX,
        ensures
            r == ring_index(self.head as int, i as int, self.slots@.len() as int),
            r < self.slots@.len(),
    {
        let k: usize = self.head + i;
        if k < self.slots.len() {
            k
        } else {
            k - self.slots.len()
        }
    }

    /// Files one published datagram. `header` is what its packet header decoded to.
    ///
    /// Snapshots live in a sequence space of their own and are refused.
    pub fn push(&mut self, header: Option<PacketHeader>, datagram: &[u8]) -> (r: Result<
        (),
        &'static str,
    >)
        requires
            old(self).wf(),
            header matches Some(h) ==> h.end() <= u64::MAX,
        ensures
            final(self).wf(),
            final(self)@.wf(),
            match header {
                None => {
                    &&& r is Err
                    &&& r->Err_0@ == "datagram does not decode"@
                    &&& final(self)@ == old(self)@
                },
                Some(h) => if h.snapshot {
                    &&& r is Err
                    &&& r->Err_0@ == "snapshot datagrams have their own sequence space"@
                    &&& final(self)@ == old(self)@
                } else {
                    &&& r is Err <==> old(self)@.refuses(h, datagram@)
                    &&& r is Err ==> r->Err_0@ == "datagram larger than the store's datagram size"@
                    &&& final(self)@ == old(self)@.pushed(h, datagram@)
                },
            },
    {
        let h: PacketHeader = match header {
            None => return Err("datagram does not decode"),
            Some(h) => h,
        };
        if h.snapshot {
            return Err("snapshot datagrams have their own sequence space");
        }
        let first: u64 = h.first_sequence;
        let count: u16 = h.message_count;
        if count == 0 {
            return Ok(());
        }
        let end: u64 = first + count as u64;
        let ghost m0 = self@;
        if self.len == 0 {
            self.first_sequence = first;
            self.next_sequence = first;
        } else if first < self.next_sequence {
            self.stats.duplicates = self.stats.duplicates.wrapping_add(1);
            assert(self@.entries =~= m0.entries);
            return Ok(());
        } else if first > self.next_sequence {
            self.stats.discontinuities = self.stats.discontinuities.wrapping_add(1);
            self.stats.datagrams_evicted = self.stats.datagrams_evicted.wrapping_add(
                self.len as u64,
            );
            self.head = 0;
            self.len = 0;
            self.first_sequence = first;
            self.next_sequence = first;
        }
        let ghost m1 = m0.continued(first);
        proof {
            assert(self@.entries =~= m1.entries);
            assert(self@ =~= m1);
        }
        if self.len == self.slots.len() {
            let head: usize = self.head;
            proof {
                assert(m1.entries[0] == stored_view(self.slots@[head as int]));
                assert(m1.entries[0].end() <= u64::MAX);
            }
            self.first_sequence = self.slots[head].first_sequence + self.slots[head].message_count as u64;
            self.head = if head + 1 == self.slots.len() {
                0
            } else {
                head + 1
            };
            self.len = self.len - 1;
            self.stats.datagrams_evicted = self.stats.datagrams_evicted.wrapping_add(1);
        }
        let ghost m2 = m1.with_room();
        proof {
            assert(self@.entries =~= m2.entries) by {
                assert forall|i: int| 0 <= i < self@.entries.len() implies #[trigger] self@.entries[i]
                    == m2.entries[i] by {
                    if m1.entries.len() == m1.capacity {
                        assert(m2.entries[i] == m1.entries[i + 1]);
                    }
                }
            }
            assert(self@ =~= m2);
            lemma_room_wf(m0, first);
        }
        if datagram.len() > self.max_bytes {
            return Err("datagram larger than the store's datagram size");
        }
        let index: usize = self.index(self.len);
        let mut bytes: Vec<u8> = Vec::with_capacity(datagram.len());
        let mut i: usize = 0;
        while i < datagram.len()
            invariant
                i <= datagram@.len(),
                bytes@ == datagram@.take(i as int),
            decreases datagram@.len() - i,
        {
            bytes.push(datagram[i]);
            assert(datagram@.take(i as int + 1) =~= datagram@.take(i as int).push(datagram@[i as int]));
            i = i + 1;
        }
        assert(datagram@.take(i as int) =~= datagram@);
        self.slots.set(index, RingSlot { first_sequence: first, message_count: count, bytes });
        self.len = self.len + 1;
        self.next_sequence = end;
        self.stats.datagrams_stored = self.stats.datagrams_stored.wrapping_add(1);
        self.stats.messages_stored = self.stats.messages_stored.wrapping_add(count as u64);
        proof {
            let m3 = m2.appended(h, datagram@);
            assert(self@.entries =~= m3.entries);
            assert(self@ =~= m3);
            lemma_appended_wf(m2, h, datagram@);
        }
        Ok(())
    }

    /// Finds the datagrams that cover `from` through `through`.
    pub fn locate(&self, from: u64, through: u64) -> (r: Located)
        requires
            self.wf(),
        ensures
            r.status == self@.lookup(from, through),
            r.status != Status::Served ==> r.start == 0 && r.end == 0,
            r.status == Status::Served ==> {
                &&& r.start < r.end <= self@.entries.len()
                &&& self@.reaches(from, r.start as int)
                &&& self@.reaches(through, r.end - 1)
            },
    {
        if from > through {
            return Located { status: Status::BadRequest, start: 0, end: 0 };
        }
        if self.len == 0 {
            return Located { status: Status::TooOld, start: 0, end: 0 };
        }
        if from < self.first_sequence {
            return Located { status: Status::TooOld, start: 0, end: 0 };
        }
        if through >= self.next_sequence {
            return Located { status: Status::NotYet, start: 0, end: 0 };
        }
        let ghost m = self@;
        let mut start: Option<usize> = None;
        let mut i: usize = 0;
        while i < self.len
            invariant
                self.wf(),
                m == self@,
                i <= self.len,
                m.lookup(from, through) == Status::Served,
                start is None ==> forall|j: int|
                    0 <= j < i ==> (#[trigger] m.entries[j]).end() <= from,
                start matches Some(s) ==> s < i && m.reaches(from, s as int),
                forall|j: int| 0 <= j < i ==> (#[trigger] m.entries[j]).end() <= through,
            decreases self.len - i,
        {
            let k: usize = self.index(i);
            assert(m.entries[i as int] == stored_view(self.slots@[k as int]));
            let slot_end: u64 = self.slots[k].first_sequence + self.slots[k].message_count as u64;
            if slot_end > from {
                if start.is_none() {
                    start = Some(i);
                }
                if slot_end > through {
                    match start {
                        Some(s) => {
                            return Located { status: Status::Served, start: s, end: i + 1 };
                        },
                        None => {},
                    }
                }
            }
            i = i + 1;
        }
        proof {
            assert(m.entries[m.entries.len() - 1].end() <= through);
            assert(false);
        }
        Located { status: Status::Incomplete, start: 0, end: 0 }
    }

    /// The `i`th datagram held, oldest first.
    pub fn datagram_at(&self, i: usize) -> (r: Option<&[u8]>)
        requires
            self.wf(),
        ensures
            r is Some <==> i < self@.entries.len(),
            r matches Some(b) ==> b@ == self@.entries[i as int].bytes,
    {
        if i >= self.len {
            return None;
        }
        let k: usize = self.index(i);
        assert(self@.entries[i as int] == stored_view(self.slots@[k as int]));
        Some(self.slots[k].bytes.as_slice())
    }

    /// Answers a range request: the head of the response, and the datagrams that go
    /// with it.
    pub fn answer(&self, req: RangeRequest) -> (r: (ResponseHeader, Vec<Vec<u8>>))
        requires
            self.wf(),
            self@.entries.len() <= u32::MAX,
        ensures
            r.0.status == self@.lookup(req.from, req.through),
            r.0.first_available == self@.first_sequence,
            r.0.last_available == self@.next_sequence,
            r.0.datagrams == r.1@.len(),
            r.0.status != Status::Served ==> r.1@.len() == 0,
            r.0.status == Status::Served ==> exists|start: int|
                {
                    &&& #[trigger] self@.reaches(req.from, start)
                    &&& self@.reaches(req.through, start + r.1@.len() - 1)
                    &&& r.1@.len() > 0
                    &&& forall|i: int|
                        0 <= i < r.1@.len() ==> (#[trigger] r.1@[i])@ == self@.entries[start
                            + i].bytes
                },
    {
        let found = self.locate(req.from, req.through);
        let mut payload: Vec<Vec<u8>> = Vec::new();
        if found.status == Status::Served {
            let mut i: usize = found.start;
            while i < found.end
                invariant
                    self.wf(),
                    found.start <= i <= found.end <= self@.entries.len(),
                    payload@.len() == i - found.start,
                    forall|k: int|
                        0 <= k < payload@.len() ==> (#[trigger] payload@[k])@
                            == self@.entries[found.start + k].bytes,
                decreases found.end - i,
            {
                match self.datagram_at(i) {
                    Some(d) => {
                        let mut copy: Vec<u8> = Vec::new();
                        let mut j: usize = 0;
                        while j < d.len()
                            invariant
                                j <= d@.len(),
                                copy@ == d@.take(j as int),
                            decreases d@.len() - j,
                        {
                            copy.push(d[j]);
                            assert(d@.take(j as int + 1) =~= d@.take(j as int).push(d@[j as int]));
                            j = j + 1;
                        }
                        assert(d@.take(j as int) =~= d@);
                        payload.push(copy);
                    },
                    None => {},
                }
                i = i + 1;
            }
            assert(self@.reaches(req.from, found.start as int));
        }
        let header = ResponseHeader {
            status: found.status,
            datagrams: payload.len() as u32,
            first_available: self.first_sequence,
            last_available: self.next_sequence,
        };
        (header, payload)
    }

    /// What is held, in words.
    pub fn describe(&self) -> (r: String)
        ensures
            r@ == (if self@.entries.len() == 0 {
                "empty, capacity "@ + decimal(self@.capacity as int) + " datagrams"@
            } else {
                "sequences "@ + decimal(self@.first_sequence as int) + ".."@ + decimal(
                    self@.next_sequence as int,
                ) + " in "@ + decimal(self@.entries.len() as int) + " of "@ + decimal(
                    self@.capacity as int,
                ) + " datagrams"@
            }),
    {
        if self.len == 0 {
            let mut s = String::from_str("empty, capacity ");
            push_decimal(&mut s, self.slots.len() as u64);
            s.append(" datagrams");
            return s;
        }
        let mut s = String::from_str("sequences ");
        push_decimal(&mut s, self.first_sequence);
        s.append("..");
        push_decimal(&mut s, self.next_sequence);
        s.append(" in ");
        push_decimal(&mut s, self.len as u64);
        s.append(" of ");
        push_decimal(&mut s, self.slots.len() as u64);
        s.append(" datagrams");
        s
    }
}

/// Making room for a datagram that follows on, or begins anew, keeps the history
/// contiguous and ends it where the datagram starts.
proof fn lemma_room_wf(m: StoreModel, first: u64)
    requires
        m.wf(),
        m.entries.len() == 0 || first >= m.next_sequence,
    ensures
        m.continued(first).with_room().wf(),
        m.continued(first).with_room().next_sequence == first,
        m.continued(first).with_room().entries.len() < m.capacity,
{
    let a = m.continued(first);
    let b = a.with_room();
    if a.entries.len() == a.capacity {
        let e = a.entries.drop_first();
        assert forall|i: int| 0 <= i < e.len() implies (#[trigger] e[i]).count > 0 && e[i].end()
            <= u64::MAX by {
            assert(e[i] == a.entries[i + 1]);
        }
        assert forall|i: int| 0 <= i < e.len() - 1 implies #[trigger] follows(e, i) by {
            assert(follows(a.entries, i + 1));
        }
        if e.len() > 0 {
            assert(follows(a.entries, 0));
            assert(e[0] == a.entries[1]);
            assert(e.last() == a.entries.last());
        }
    }
}

proof fn lemma_appended_wf(m: StoreModel, h: PacketHeader, bytes: Seq<u8>)
    requires
        m.wf(),
        m.entries.len() < m.capacity,
        h.message_count > 0,
        h.end() <= u64::MAX,
        m.next_sequence == h.first_sequence,
        m.entries.len() == 0 ==> m.first_sequence == h.first_sequence,
    ensures
        m.appended(h, bytes).wf(),
{
    let e = m.appended(h, bytes).entries;
    assert forall|i: int| 0 <= i < e.len() - 1 implies #[trigger] follows(e, i) by {
        if i < m.entries.len() - 1 {
            assert(follows(m.entries, i));
        }
    }
}

/// What a lookup found covers every sequence of the range: nothing is missing in
/// the middle, and nothing at the edges.
pub proof fn law_located_range_is_complete(
    m: StoreModel,
    from: u64,
    through: u64,
    start: int,
    last: int,
    s: u64,
)
    requires
        m.wf(),
        m.lookup(from, through) == Status::Served,
        m.reaches(from, start),
        m.reaches(through, last),
        from <= s <= through,
    ensures
        exists|i: int|
            start <= i <= last && (#[trigger] m.entries[i]).first_sequence <= s && s
                < m.entries[i].end(),
{
    lemma_covered(m, s, last);
    let i = choose|i: int|
        0 <= i <= last && (#[trigger] m.entries[i]).first_sequence <= s && s < m.entries[i].end();
    if i < start {
        assert(m.entries[i].end() <= from);
    }
}

/// Every sequence from the first held up to the end of a datagram is in one.
proof fn lemma_covered(m: StoreModel, s: u64, last: int)
    requires
        m.wf(),
        0 <= last < m.entries.len(),
        m.first_sequence <= s,
        s < m.entries[last].end(),
    ensures
        exists|i: int|
            0 <= i <= last && (#[trigger] m.entries[i]).first_sequence <= s && s
                < m.entries[i].end(),
    decreases last,
{
    if m.entries[last].first_sequence <= s {
    } else {
        assert(last > 0);
        assert(follows(m.entries, last - 1));
        lemma_covered(m, s, last - 1);
    }
}

/// A datagram that does not follow on is kept alone: nothing from before the hole
/// can be served any more.
pub proof fn law_hole_discards_history(
    m: StoreModel,
    h: PacketHeader,
    bytes: Seq<u8>,
    from: u64,
    through: u64,
)
    requires
        m.wf(),
        m.entries.len() > 0,
        h.message_count > 0,
        h.first_sequence > m.next_sequence,
        bytes.len() <= m.max_bytes,
        h.end() <= u64::MAX,
        from < h.first_sequence,
        from <= through,
    ensures
        m.pushed(h, bytes).entries.len() == 1,
        m.pushed(h, bytes).lookup(from, through) == Status::TooOld,
{
}

/// A range is served exactly if every sequence of it is held, and refused for what is so of
/// it: it ends before it starts, or begins before what is held, or reaches beyond it.
pub proof fn law_served_exactly_if_held(m: StoreModel, from: u64, through: u64)
    requires
        m.wf(),
    ensures
        m.lookup(from, through) == Status::Served <==> from <= through && forall|s: u64|
            from <= s <= through ==> #[trigger] is_held(m, s),
        m.lookup(from, through) == Status::BadRequest <==> through < from,
        m.lookup(from, through) == Status::TooOld ==> from <= through && (m.entries.len() == 0
            || forall|i: int|
            0 <= i < m.entries.len() ==> from < (#[trigger] m.entries[i]).first_sequence),
        m.lookup(from, through) == Status::NotYet ==> from <= through && m.entries.len() > 0
            && forall|i: int|
            0 <= i < m.entries.len() ==> (#[trigger] m.entries[i]).end() <= through,
        m.lookup(from, through) == Status::NotYet ==> m.entries[0].first_sequence <= from,
        m.lookup(from, through) != Status::Incomplete,
{
    let n = m.entries.len() as int;
    if n > 0 {
        assert forall|i: int| 0 <= i < n implies m.first_sequence <= (
        #[trigger] m.entries[i]).first_sequence && m.entries[i].end() <= m.next_sequence by {
            lemma_between(m, i);
        }
        assert forall|s: u64| m.first_sequence <= s < m.next_sequence implies #[trigger] is_held(
            m,
            s,
        ) by {
            lemma_held_between(m, s, n - 1);
        }
    }
    if from <= through {
        if m.lookup(from, through) == Status::TooOld {
            assert(!is_held(m, from)) by {
                if is_held(m, from) {
                    let i = choose|i: int|
                        0 <= i < n && (#[trigger] m.entries[i]).first_sequence <= from && from
                            < m.entries[i].end();
                }
            }
        }
        if m.lookup(from, through) == Status::NotYet {
            assert(!is_held(m, through)) by {
                if is_held(m, through) {
                    let i = choose|i: int|
                        0 <= i < n && (#[trigger] m.entries[i]).first_sequence <= through && through
                            < m.entries[i].end();
                }
            }
        }
    }
}

/// A datagram that is held carries the sequence.
pub open spec fn is_held(m: StoreModel, s: u64) -> bool {
    exists|i: int|
        0 <= i < m.entries.len() && (#[trigger] m.entries[i]).first_sequence <= s && s
            < m.entries[i].end()
}

/// Each datagram lies between where the history begins and where it ends.
proof fn lemma_between(m: StoreModel, i: int)
    requires
        m.wf(),
        0 <= i < m.entries.len(),
    ensures
        m.first_sequence <= m.entries[i].first_sequence,
        m.entries[i].end() <= m.next_sequence,
{
    lemma_after_start(m, i);
    lemma_before_end(m, i);
}

proof fn lemma_after_start(m: StoreModel, i: int)
    requires
        m.wf(),
        0 <= i < m.entries.len(),
    ensures
        m.first_sequence <= m.entries[i].first_sequence,
    decreases i,
{
    if i > 0 {
        lemma_after_start(m, i - 1);
        assert(follows(m.entries, i - 1));
        assert(m.entries[i - 1].count > 0);
    }
}

proof fn lemma_before_end(m: StoreModel, i: int)
    requires
        m.wf(),
        0 <= i < m.entries.len(),
    ensures
        m.entries[i].end() <= m.next_sequence,
    decreases m.entries.len() - i,
{
    if i < m.entries.len() - 1 {
        lemma_before_end(m, i + 1);
        assert(follows(m.entries, i));
    }
}

proof fn lemma_held_between(m: StoreModel, s: u64, i: int)
    requires
        m.wf(),
        0 <= i < m.entries.len(),
        m.first_sequence <= s,
        s < m.entries[i].end(),
    ensures
        is_held(m, s),
    decreases i,
{
    if m.entries[i].first_sequence > s {
        assert(i > 0);
        assert(follows(m.entries, i - 1));
        lemma_held_between(m, s, i - 1);
    }
}

/// A datagram that follows on is held as it came, with everything that was held before it,
/// but for the oldest datagram where there was no more room.
pub proof fn law_next_datagram_is_held(m: StoreModel, h: PacketHeader, bytes: Seq<u8>)
    requires
        m.wf(),
        h.message_count > 0,
        h.end() <= u64::MAX,
        bytes.len() <= m.max_bytes,
        m.entries.len() > 0,
        h.first_sequence == m.next_sequence,
    ensures
        ({
            let n = m.pushed(h, bytes);
            let gone = if m.entries.len() == m.capacity {
                1int
            } else {
                0
            };
            &&& n.entries.len() == m.entries.len() - gone + 1
            &&& n.entries.drop_last() == m.entries.skip(gone)
            &&& n.entries.last().first_sequence == h.first_sequence
            &&& n.entries.last().count == h.message_count
            &&& n.entries.last().bytes == bytes
            &&& n.next_sequence == h.first_sequence + h.message_count
            &&& n.first_sequence == (if n.entries.len() > 1 {
                n.entries[0].first_sequence
            } else {
                h.first_sequence
            })
            &&& n.stats.datagrams_stored == wrapping_add(m.stats.datagrams_stored, 1)
            &&& n.stats.messages_stored == wrapping_add(
                m.stats.messages_stored,
                h.message_count as u64,
            )
            &&& n.stats.datagrams_evicted == (if gone > 0 {
                wrapping_add(m.stats.datagrams_evicted, 1)
            } else {
                m.stats.datagrams_evicted
            })
            &&& n.stats.duplicates == m.stats.duplicates
            &&& n.stats.discontinuities == m.stats.discontinuities
        }),
{
    let n = m.pushed(h, bytes);
    let gone = if m.entries.len() == m.capacity {
        1int
    } else {
        0
    };
    assert(n.entries.drop_last() =~= m.entries.skip(gone));
    if gone == 1 && m.entries.len() > 1 {
        assert(follows(m.entries, 0));
        assert(n.entries[0] == m.entries[1]);
    } else if gone == 0 {
        assert(n.entries[0] == m.entries[0]);
    }
}

/// A datagram that came before changes nothing but the count of those.
pub proof fn law_old_datagram_is_only_counted(m: StoreModel, h: PacketHeader, bytes: Seq<u8>)
    requires
        m.entries.len() > 0,
        h.message_count > 0,
        h.first_sequence < m.next_sequence,
    ensures
        m.pushed(h, bytes).entries == m.entries,
        m.pushed(h, bytes).first_sequence == m.first_sequence,
        m.pushed(h, bytes).next_sequence == m.next_sequence,
        m.pushed(h, bytes).stats.duplicates == wrapping_add(m.stats.duplicates, 1),
        m.pushed(h, bytes).stats.datagrams_stored == m.stats.datagrams_stored,
        m.pushed(h, bytes).stats.datagrams_evicted == m.stats.datagrams_evicted,
        !m.refuses(h, bytes),
{
}

} // verus!
