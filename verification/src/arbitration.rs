//! Two redundant arms of one feed, made into a single stream.
//!
//! Every datagram is published on both arms. The first copy to arrive is
//! delivered, the other is a duplicate. A datagram that arrives ahead of its turn
//! waits in a bounded window for the hole before it to be filled by the other arm:
//! late is not lost. Only when the window is full, or the feed has gone quiet, is
//! a hole declared a gap, and then the range that is missing is named.

use crate::message::PacketHeader;
use vstd::prelude::*;
use vstd::wrapping::u64_specs::wrapping_add;

verus! {

#[derive(Debug, Clone, Copy, PartialEq, Eq, Structural)]
pub enum FeedState {
    /// Nothing has arrived yet.
    Syncing,
    Live,
    /// A range was lost on both arms.
    Gapped,
}

impl FeedState {
    pub fn as_str(self) -> (r: &'static str)
        ensures
            r@ == (match self {
                FeedState::Syncing => "SYNCING"@,
                FeedState::Live => "LIVE"@,
                FeedState::Gapped => "GAPPED"@,
            }),
    {
        match self {
            FeedState::Syncing => "SYNCING",
            FeedState::Live => "LIVE",
            FeedState::Gapped => "GAPPED",
        }
    }
}

/// What one arm has contributed. The counters wrap.
#[derive(Debug, Clone, Copy, PartialEq, Eq, Structural)]
pub struct ArmCounters {
    pub datagrams: u64,
    pub datagrams_first: u64,
    pub datagrams_duplicate: u64,
    pub datagrams_buffered: u64,
    pub messages_first: u64,
    pub malformed: u64,
    pub dropped_window_full: u64,
    pub bytes: u64,
}

impl Default for ArmCounters {
    fn default() -> (r: Self)
        ensures
            r == ArmCounters::zero(),
    {
        ArmCounters {
            datagrams: 0,
            datagrams_first: 0,
            datagrams_duplicate: 0,
            datagrams_buffered: 0,
            messages_first: 0,
            malformed: 0,
            dropped_window_full: 0,
            bytes: 0,
        }
    }
}

impl ArmCounters {
    pub open spec fn zero() -> ArmCounters {
        ArmCounters {
            datagrams: 0,
            datagrams_first: 0,
            datagrams_duplicate: 0,
            datagrams_buffered: 0,
            messages_first: 0,
            malformed: 0,
            dropped_window_full: 0,
            bytes: 0,
        }
    }

    pub open spec fn offered(self, len: int) -> ArmCounters {
        ArmCounters {
            datagrams: wrapping_add(self.datagrams, 1),
            bytes: wrapping_add(self.bytes, len as u64),
            ..self
        }
    }

    pub open spec fn malformed(self) -> ArmCounters {
        ArmCounters { malformed: wrapping_add(self.malformed, 1), ..self }
    }

    pub open spec fn duplicate(self) -> ArmCounters {
        ArmCounters { datagrams_duplicate: wrapping_add(self.datagrams_duplicate, 1), ..self }
    }

    pub open spec fn buffered(self) -> ArmCounters {
        ArmCounters { datagrams_buffered: wrapping_add(self.datagrams_buffered, 1), ..self }
    }

    pub open spec fn dropped(self) -> ArmCounters {
        ArmCounters { dropped_window_full: wrapping_add(self.dropped_window_full, 1), ..self }
    }

    /// First with a datagram, `newly` messages of which are new.
    pub open spec fn first(self, newly: int) -> ArmCounters {
        ArmCounters {
            datagrams_first: wrapping_add(self.datagrams_first, 1),
            messages_first: wrapping_add(self.messages_first, newly as u64),
            ..self
        }
    }
}

/// A range of sequences that is missing, both ends included.
#[derive(Debug, Clone, Copy, PartialEq, Eq, Structural)]
pub struct Gap {
    pub from: u64,
    pub through: u64,
}

impl Gap {
    pub fn messages(&self) -> (r: u64)
        requires
            self.from <= self.through,
            self.through - self.from < u64::MAX,
        ensures
            r == self.through - self.from + 1,
    {
        self.through - self.from + 1
    }
}

/// What became of a datagram.
#[derive(Debug, Clone, Copy, PartialEq, Eq, Structural)]
pub enum Accepted {
    /// It is next: apply it now, and then drain what it released.
    Ready { first_sequence: u64, count: u16 },
    /// It is ahead of its turn and waits.
    Buffered,
    /// There is nothing new in it.
    Duplicate,
    /// The window was full, so the hole before it was given up.
    ForcedGap(Gap),
    /// The window was full and there was no hole to give up: what comes next is held
    /// and has not been drained. It was dropped.
    Dropped,
    /// Its header did not decode.
    Malformed,
}

/// A datagram that waits.
pub struct Waiting {
    pub first_sequence: u64,
    pub count: u16,
    pub arm: u8,
    pub bytes: Seq<u8>,
}

impl Waiting {
    pub open spec fn end(self) -> int {
        self.first_sequence + self.count
    }
}

/// A datagram handed out in its turn.
#[derive(Debug)]
pub struct Delivery {
    pub first_sequence: u64,
    pub count: u16,
    pub bytes: Vec<u8>,
}

/// What an arbitrator knows.
#[verifier::ext_equal]
pub struct ArbModel {
    pub state: FeedState,
    pub next_expected: u64,
    pub window: Seq<Option<Waiting>>,
    pub capacity: nat,
    pub max_bytes: nat,
    pub arm_a: ArmCounters,
    pub arm_b: ArmCounters,
    pub first_sequence: u64,
    pub last_delivered: u64,
    pub messages_delivered: u64,
    pub gaps: Seq<Gap>,
    pub messages_missed: u64,
    pub highest_seen: u64,
    pub max_window_used: nat,
    pub started: bool,
    pub resyncs: u64,
}

/// How many of the first `k` slots are taken.
pub open spec fn taken(w: Seq<Option<Waiting>>, k: int) -> int
    decreases k,
{
    if k <= 0 {
        0
    } else if w[k - 1] is Some {
        taken(w, k - 1) + 1
    } else {
        taken(w, k - 1)
    }
}

/// The lowest slot for which `p` holds.
pub open spec fn lowest_slot(w: Seq<Option<Waiting>>, p: spec_fn(Option<Waiting>) -> bool, i: int) -> bool {
    &&& 0 <= i < w.len()
    &&& p(w[i])
    &&& forall|j: int| 0 <= j < i ==> !p(#[trigger] w[j])
}

pub open spec fn is_free() -> spec_fn(Option<Waiting>) -> bool {
    |s: Option<Waiting>| s is None
}

pub open spec fn starts_at(first: u64) -> spec_fn(Option<Waiting>) -> bool {
    |s: Option<Waiting>| s matches Some(h) && h.first_sequence == first
}

pub open spec fn covers(sequence: u64) -> spec_fn(Option<Waiting>) -> bool {
    |s: Option<Waiting>|
        s matches Some(h) && h.first_sequence <= sequence && sequence < h.end()
}

/// The lowest slot for which `p` holds, if there is one.
pub open spec fn find(w: Seq<Option<Waiting>>, p: spec_fn(Option<Waiting>) -> bool) -> Option<int> {
    if exists|i: int| lowest_slot(w, p, i) {
        Some(choose|i: int| lowest_slot(w, p, i))
    } else {
        None
    }
}

proof fn lemma_find(w: Seq<Option<Waiting>>, p: spec_fn(Option<Waiting>) -> bool, i: int)
    requires
        lowest_slot(w, p, i),
    ensures
        find(w, p) == Some(i),
{
    let j = choose|j: int| lowest_slot(w, p, j);
    assert(lowest_slot(w, p, j));
    if j < i {
        assert(!p(w[j]));
    }
    if i < j {
        assert(!p(w[i]));
    }
}

proof fn lemma_find_none(w: Seq<Option<Waiting>>, p: spec_fn(Option<Waiting>) -> bool)
    requires
        forall|j: int| 0 <= j < w.len() ==> !p(#[trigger] w[j]),
    ensures
        find(w, p) is None,
{
}

/// `t` is the lowest sequence at which something that waits starts.
pub open spec fn is_lowest(w: Seq<Option<Waiting>>, t: u64) -> bool {
    &&& exists|i: int| 0 <= i < w.len() && (#[trigger] w[i] matches Some(h) && h.first_sequence == t)
    &&& forall|i: int|
        0 <= i < w.len() ==> (#[trigger] w[i] matches Some(h) ==> t <= h.first_sequence)
}

pub open spec fn lowest(w: Seq<Option<Waiting>>) -> u64 {
    choose|t: u64| is_lowest(w, t)
}

/// How many messages the gaps cover together.
pub open spec fn missing(gaps: Seq<Gap>) -> int
    decreases gaps.len(),
{
    if gaps.len() == 0 {
        0
    } else {
        missing(gaps.drop_last()) + (gaps.last().through - gaps.last().from + 1)
    }
}

/// A count as a counter that wraps shows it.
pub open spec fn wrapped(n: int) -> u64 {
    (n % 0x1_0000_0000_0000_0000) as u64
}

/// A counter that wraps counts on where it stands.
pub proof fn lemma_wrapped_add(n: int, k: u64)
    requires
        0 <= n,
    ensures
        wrapping_add(wrapped(n), k) == wrapped(n + k),
{
}

proof fn lemma_missing_nonneg(gaps: Seq<Gap>)
    requires
        forall|i: int| 0 <= i < gaps.len() ==> (#[trigger] gaps[i]).from <= gaps[i].through,
    ensures
        0 <= missing(gaps),
    decreases gaps.len(),
{
    if gaps.len() > 0 {
        assert(gaps.last() == gaps[gaps.len() - 1]);
        assert forall|i: int| 0 <= i < gaps.drop_last().len() implies (
        #[trigger] gaps.drop_last()[i]).from <= gaps.drop_last()[i].through by {
            assert(gaps.drop_last()[i] == gaps[i]);
        }
        lemma_missing_nonneg(gaps.drop_last());
    }
}

/// The gaps are ranges of at least one message, one after the other and apart, between
/// two sequences.
pub open spec fn gaps_ascend(from: int, gaps: Seq<Gap>, to: int) -> bool {
    &&& from <= to
    &&& forall|i: int|
        0 <= i < gaps.len() ==> from <= (#[trigger] gaps[i]).from <= gaps[i].through < to
    &&& forall|i: int, j: int|
        0 <= i < j < gaps.len() ==> (#[trigger] gaps[i]).through < (#[trigger] gaps[j]).from
}

/// A window without what ends at or before a sequence.
pub open spec fn purged(w: Seq<Option<Waiting>>, end: int) -> Seq<Option<Waiting>> {
    Seq::new(
        w.len(),
        |i: int|
            if w[i] matches Some(h) && h.end() <= end {
                None
            } else {
                w[i]
            },
    )
}

impl ArbModel {
    pub open spec fn held(self) -> int {
        taken(self.window, self.window.len() as int)
    }

    /// The window has one slot more than its capacity, and what waits in it is a
    /// range of at least one message.
    pub open spec fn shaped(self) -> bool {
        &&& 1 <= self.capacity
        &&& self.window.len() == self.capacity + 1
        &&& forall|i: int|
            0 <= i < self.window.len() ==> (#[trigger] self.window[i] matches Some(h) ==> h.count > 0
                && h.end() <= u64::MAX && h.arm < 2)
    }

    /// Nothing waits that is wholly behind the frontier.
    pub open spec fn ahead(self) -> bool {
        forall|i: int|
            0 <= i < self.window.len() ==> (#[trigger] self.window[i] matches Some(h)
                ==> self.next_expected < h.end())
    }

    /// What holds of every arbitrator, whatever it has been through.
    pub open spec fn wf(self) -> bool {
        &&& self.shaped()
        &&& self.ahead()
        &&& !self.started ==> self.held() == 0 && self.resyncs == 0
        &&& wrapping_add(self.arm_a.messages_first, self.arm_b.messages_first)
            == self.messages_delivered
        &&& forall|i: int|
            0 <= i < self.gaps.len() ==> (#[trigger] self.gaps[i]).from <= self.gaps[i].through
                < u64::MAX
        &&& self.resyncs == 0 ==> self.accounted()
        &&& self.messages_missed == wrapped(missing(self.gaps))
        &&& self.state == FeedState::Syncing <==> !self.started
        &&& self.state == FeedState::Gapped ==> self.gaps.len() > 0
    }

    /// The account of a stream that no recovery has cut: every sequence from the first
    /// to the frontier was delivered once or lies in exactly one gap, and the state
    /// says whether there is a gap.
    pub open spec fn accounted(self) -> bool {
        if !self.started {
            &&& self.next_expected == 0
            &&& self.messages_delivered == 0
            &&& self.messages_missed == 0
            &&& self.gaps.len() == 0
            &&& self.state == FeedState::Syncing
        } else {
            &&& self.first_sequence + self.messages_delivered + self.messages_missed
                == self.next_expected
            &&& self.messages_missed == missing(self.gaps)
            &&& gaps_ascend(self.first_sequence as int, self.gaps, self.next_expected as int)
            &&& self.state == (if self.gaps.len() == 0 {
                FeedState::Live
            } else {
                FeedState::Gapped
            })
        }
    }

    /// There is a hole to give up: something waits, and all of it lies ahead.
    pub open spec fn has_hole(self) -> bool {
        self.held() > 0 && self.next_expected < lowest(self.window)
    }

    /// Nothing waits that starts at or before the next sequence.
    pub open spec fn settled(self) -> bool {
        forall|i: int|
            0 <= i < self.window.len() ==> (#[trigger] self.window[i] matches Some(h)
                ==> self.next_expected < h.first_sequence)
    }

    pub open spec fn arm(self, arm: u8) -> ArmCounters {
        if arm % 2 == 0 {
            self.arm_a
        } else {
            self.arm_b
        }
    }

    pub open spec fn with_arm(self, arm: u8, c: ArmCounters) -> ArbModel {
        if arm % 2 == 0 {
            ArbModel { arm_a: c, ..self }
        } else {
            ArbModel { arm_b: c, ..self }
        }
    }

    /// How many messages of a range lie at or beyond the frontier, where it begins at
    /// or before it.
    pub open spec fn newly(self, first: u64, count: u16) -> int {
        let end = first + count;
        if end > self.next_expected {
            end - self.next_expected
        } else {
            0
        }
    }

    /// After the messages up to `first + count` have been delivered. What waits and is
    /// now wholly behind the frontier is forgotten.
    pub open spec fn delivered(self, first: u64, count: u16) -> ArbModel {
        let end = first + count;
        ArbModel {
            window: purged(self.window, end),
            messages_delivered: wrapping_add(
                self.messages_delivered,
                self.newly(first, count) as u64,
            ),
            next_expected: end as u64,
            last_delivered: (end - 1) as u64,
            state: if self.state == FeedState::Gapped {
                FeedState::Gapped
            } else {
                FeedState::Live
            },
            ..self
        }
    }

    /// With the datagram waiting in the slot `i`.
    pub open spec fn stored(
        self,
        i: int,
        arm: u8,
        first: u64,
        count: u16,
        bytes: Seq<u8>,
    ) -> ArbModel {
        ArbModel {
            window: self.window.update(
                i,
                Some(
                    Waiting {
                        first_sequence: first,
                        count,
                        arm: arm % 2,
                        bytes: if bytes.len() <= self.max_bytes {
                            bytes
                        } else {
                            bytes.take(self.max_bytes as int)
                        },
                    },
                ),
            ),
            max_window_used: if self.held() + 1 > self.max_window_used {
                (self.held() + 1) as nat
            } else {
                self.max_window_used
            },
            ..self
        }
    }

    /// The hole before the lowest datagram that waits.
    pub open spec fn hole(self) -> Gap {
        Gap { from: self.next_expected, through: (lowest(self.window) - 1) as u64 }
    }

    /// After the hole has been given up.
    pub open spec fn gap_declared(self) -> ArbModel {
        let gap = self.hole();
        ArbModel {
            messages_missed: wrapping_add(
                self.messages_missed,
                (gap.through - gap.from + 1) as u64,
            ),
            gaps: self.gaps.push(gap),
            state: FeedState::Gapped,
            next_expected: (gap.through + 1) as u64,
            ..self
        }
    }

    /// After the hole has been given up, if there is one.
    pub open spec fn unstalled(self) -> ArbModel {
        if self.has_hole() {
            self.gap_declared()
        } else {
            self
        }
    }

    /// Going on from a sequence after a recovery, with nothing waiting. The count of
    /// recoveries stops at the largest number.
    pub open spec fn resynced(self, sequence: u64) -> ArbModel {
        ArbModel {
            window: Seq::new(self.window.len(), |i: int| None),
            next_expected: sequence,
            state: FeedState::Live,
            started: true,
            resyncs: if self.resyncs < u64::MAX {
                (self.resyncs + 1) as u64
            } else {
                self.resyncs
            },
            ..self
        }
    }

    /// Noticing that the datagram exists. The first one starts the stream.
    pub open spec fn noticed(self, h: PacketHeader) -> ArbModel {
        let seen = ArbModel {
            highest_seen: if h.end() > self.highest_seen {
                h.end() as u64
            } else {
                self.highest_seen
            },
            ..self
        };
        if self.started {
            seen
        } else {
            ArbModel {
                started: true,
                first_sequence: h.first_sequence,
                next_expected: h.first_sequence,
                state: FeedState::Live,
                ..seen
            }
        }
    }

    /// What a datagram with messages in it leads to.
    pub open spec fn outcome(self, h: PacketHeader) -> Accepted {
        if h.end() <= self.next_expected {
            Accepted::Duplicate
        } else if h.first_sequence <= self.next_expected {
            Accepted::Ready { first_sequence: h.first_sequence, count: h.message_count }
        } else if find(self.window, starts_at(h.first_sequence)) is Some {
            Accepted::Duplicate
        } else if self.held() < self.capacity {
            Accepted::Buffered
        } else if self.has_hole() {
            Accepted::ForcedGap(self.hole())
        } else {
            Accepted::Dropped
        }
    }

    /// The datagram that forced a gap, once the gap is out of the way: it waits its turn
    /// like any other, and is handed out with what is ready.
    pub open spec fn kept(self, arm: u8, h: PacketHeader, bytes: Seq<u8>) -> ArbModel {
        let c = self.arm(arm);
        if h.end() <= self.next_expected {
            self.with_arm(arm, c.duplicate())
        } else {
            match find(self.window, is_free()) {
                Some(i) => self.stored(i, arm, h.first_sequence, h.message_count, bytes).with_arm(
                    arm,
                    c.buffered(),
                ),
                None => self.with_arm(arm, c.dropped()),
            }
        }
    }

    /// What a datagram does: which outcome it has, and what is known after it.
    pub open spec fn accepted(self, arm: u8, header: Option<PacketHeader>, bytes: Seq<u8>) -> (
        ArbModel,
        Accepted,
    ) {
        let c = self.arm(arm).offered(bytes.len() as int);
        match header {
            None => (self.with_arm(arm, c.malformed()), Accepted::Malformed),
            Some(h) => if h.message_count == 0 {
                (self.with_arm(arm, c.duplicate()), Accepted::Duplicate)
            } else {
                let m = self.noticed(h);
                let r = m.outcome(h);
                (
                    match r {
                        Accepted::Ready { .. } => m.with_arm(
                            arm,
                            c.first(m.newly(h.first_sequence, h.message_count)),
                        ).delivered(h.first_sequence, h.message_count),
                        Accepted::Buffered => m.stored(
                            find(m.window, is_free())->0,
                            arm,
                            h.first_sequence,
                            h.message_count,
                            bytes,
                        ).with_arm(arm, c.buffered()),
                        Accepted::ForcedGap(_) => m.with_arm(arm, c).gap_declared().kept(
                            arm,
                            h,
                            bytes,
                        ),
                        Accepted::Dropped => m.with_arm(arm, c.dropped()),
                        _ => m.with_arm(arm, c.duplicate()),
                    },
                    r,
                )
            },
        }
    }

    /// After the datagram waiting in the slot `i` has been handed out.
    pub open spec fn released(self, i: int) -> ArbModel {
        let h = self.window[i]->0;
        let m = ArbModel { window: self.window.update(i, None), ..self };
        m.with_arm(
            h.arm,
            m.arm(h.arm).first(m.newly(h.first_sequence, h.count)),
        ).delivered(h.first_sequence, h.count)
    }

    /// After everything that has come to be next has been handed out, at most
    /// `fuel` datagrams of it.
    pub open spec fn drained(self, fuel: nat) -> ArbModel
        decreases fuel,
    {
        match find(self.window, covers(self.next_expected)) {
            Some(i) => if fuel == 0 {
                self
            } else {
                self.released(i).drained((fuel - 1) as nat)
            },
            None => self,
        }
    }

    /// What is handed out on the way, in order.
    pub open spec fn released_all(self, fuel: nat) -> Seq<Waiting>
        decreases fuel,
    {
        match find(self.window, covers(self.next_expected)) {
            Some(i) => if fuel == 0 {
                Seq::empty()
            } else {
                seq![self.window[i]->0] + self.released(i).released_all((fuel - 1) as nat)
            },
            None => Seq::empty(),
        }
    }
}

/// A delivery is the datagram that waited.
pub open spec fn is_delivery_of(d: Delivery, h: Waiting) -> bool {
    &&& d.first_sequence == h.first_sequence
    &&& d.count == h.count
    &&& d.bytes@ == h.bytes
}

#[derive(Debug)]
struct WindowSlot {
    first_sequence: u64,
    count: u16,
    occupied: bool,
    arm: u8,
    bytes: Vec<u8>,
}

spec fn slot_view(s: WindowSlot) -> Option<Waiting> {
    if s.occupied {
        Some(
            Waiting {
                first_sequence: s.first_sequence,
                count: s.count,
                arm: s.arm,
                bytes: s.bytes@,
            },
        )
    } else {
        None
    }
}

spec fn window_view(w: Seq<WindowSlot>) -> Seq<Option<Waiting>> {
    Seq::new(w.len(), |i: int| slot_view(w[i]))
}

#[derive(Debug)]
pub struct Arbitrator {
    state: FeedState,
    next_expected: u64,
    window: Vec<WindowSlot>,
    capacity: usize,
    max_bytes: usize,
    occupied: usize,
    arm_a: ArmCounters,
    arm_b: ArmCounters,
    first_sequence: u64,
    last_delivered: u64,
    messages_delivered: u64,
    gaps: Vec<Gap>,
    messages_missed: u64,
    highest_seen: u64,
    max_window_used: usize,
    started: bool,
    resyncs: u64,
}

impl View for Arbitrator {
    type V = ArbModel;

    closed spec fn view(&self) -> ArbModel {
        ArbModel {
            state: self.state,
            next_expected: self.next_expected,
            window: window_view(self.window@),
            capacity: self.capacity as nat,
            max_bytes: self.max_bytes as nat,
            arm_a: self.arm_a,
            arm_b: self.arm_b,
            first_sequence: self.first_sequence,
            last_delivered: self.last_delivered,
            messages_delivered: self.messages_delivered,
            gaps: self.gaps@,
            messages_missed: self.messages_missed,
            highest_seen: self.highest_seen,
            max_window_used: self.max_window_used as nat,
            started: self.started,
            resyncs: self.resyncs,
        }
    }
}

pub proof fn lemma_taken_bounds(w: Seq<Option<Waiting>>, k: int)
    requires
        0 <= k <= w.len(),
    ensures
        0 <= taken(w, k) <= k,
        taken(w, k) == 0 <==> forall|i: int| 0 <= i < k ==> (#[trigger] w[i]) is None,
        taken(w, k) < k ==> exists|i: int| 0 <= i < k && (#[trigger] w[i]) is None,
    decreases k,
{
    if k > 0 {
        lemma_taken_bounds(w, k - 1);
        if taken(w, k) < k {
            if w[k - 1] is None {
            } else {
                let i = choose|i: int| 0 <= i < k - 1 && (#[trigger] w[i]) is None;
                assert(w[i] is None);
            }
        }
    }
}

/// Changing one slot changes how many are taken by that one.
pub proof fn lemma_taken_update(w: Seq<Option<Waiting>>, i: int, s: Option<Waiting>, k: int)
    requires
        0 <= i < w.len(),
        0 <= k <= w.len(),
    ensures
        taken(w.update(i, s), k) == taken(w, k) + (if i < k {
            (if s is Some { 1int } else { 0int }) - (if w[i] is Some { 1int } else { 0int })
        } else {
            0
        }),
    decreases k,
{
    if k > 0 {
        lemma_taken_update(w, i, s, k - 1);
    }
}

proof fn lemma_lowest(w: Seq<Option<Waiting>>, t: u64)
    requires
        is_lowest(w, t),
    ensures
        lowest(w) == t,
{
    let l = lowest(w);
    assert(is_lowest(w, l));
    let i = choose|i: int|
        0 <= i < w.len() && (#[trigger] w[i] matches Some(h) && h.first_sequence == t);
    let j = choose|j: int|
        0 <= j < w.len() && (#[trigger] w[j] matches Some(h) && h.first_sequence == l);
    assert(w[i] is Some && w[j] is Some);
}

impl Arbitrator {
    pub closed spec fn wf(self) -> bool {
        &&& self.fits()
        &&& self@.wf()
    }

    /// The window has its shape, and what waits in it is counted right.
    closed spec fn fits(self) -> bool {
        &&& self@.shaped()
        &&& self.occupied == self@.held()
        &&& self.capacity < usize::MAX
    }

    /// An arbitrator with a window of so many datagrams, at least one.
    pub fn new(window_datagrams: usize, max_datagram_bytes: usize) -> (r: Self)
        requires
            window_datagrams < usize::MAX,
        ensures
            r.wf(),
            r@.wf(),
            r@.settled(),
            r@ == (ArbModel {
                state: FeedState::Syncing,
                next_expected: 0,
                window: Seq::new(
                    (r@.capacity + 1) as nat,
                    |i: int| None,
                ),
                capacity: if window_datagrams < 1 {
                    1
                } else {
                    window_datagrams as nat
                },
                max_bytes: max_datagram_bytes as nat,
                arm_a: ArmCounters::zero(),
                arm_b: ArmCounters::zero(),
                first_sequence: 0,
                last_delivered: 0,
                messages_delivered: 0,
                gaps: Seq::empty(),
                messages_missed: 0,
                highest_seen: 0,
                max_window_used: 0,
                started: false,
                resyncs: 0,
            }),
    {
        let capacity: usize = if window_datagrams < 1 {
            1
        } else {
            window_datagrams
        };
        let mut window: Vec<WindowSlot> = Vec::with_capacity(capacity + 1);
        let mut i: usize = 0;
        while i < capacity + 1
            invariant
                i <= capacity + 1,
                capacity < usize::MAX,
                window@.len() == i,
                forall|k: int| 0 <= k < i ==> !(#[trigger] window@[k]).occupied,
            decreases capacity + 1 - i,
        {
            window.push(
                WindowSlot {
                    first_sequence: 0,
                    count: 0,
                    occupied: false,
                    arm: 0,
                    bytes: Vec::with_capacity(max_datagram_bytes),
                },
            );
            i = i + 1;
        }
        let r = Arbitrator {
            state: FeedState::Syncing,
            next_expected: 0,
            window,
            capacity,
            max_bytes: max_datagram_bytes,
            occupied: 0,
            arm_a: ArmCounters::default(),
            arm_b: ArmCounters::default(),
            first_sequence: 0,
            last_delivered: 0,
            messages_delivered: 0,
            gaps: Vec::new(),
            messages_missed: 0,
            highest_seen: 0,
            max_window_used: 0,
            started: false,
            resyncs: 0,
        };
        proof {
            lemma_taken_bounds(r@.window, r@.window.len() as int);
            assert(r@.window =~= Seq::new((r@.capacity + 1) as nat, |i: int| None));
        }
        r
    }

    pub fn state(&self) -> (r: FeedState)
        ensures
            r == self@.state,
    {
        self.state
    }

    /// The sequence that is delivered next.
    pub fn next_expected(&self) -> (r: u64)
        ensures
            r == self@.next_expected,
    {
        self.next_expected
    }

    pub fn arm(&self, arm: u8) -> (r: ArmCounters)
        ensures
            r == self@.arm(arm),
    {
        if arm % 2 == 0 {
            self.arm_a
        } else {
            self.arm_b
        }
    }

    /// The gaps declared so far.
    pub fn gaps(&self) -> (r: &Vec<Gap>)
        ensures
            r@ == self@.gaps,
    {
        &self.gaps
    }

    /// How many gaps have been declared.
    pub fn gap_count(&self) -> (r: usize)
        ensures
            r == self@.gaps.len(),
    {
        self.gaps.len()
    }

    pub fn messages_delivered(&self) -> (r: u64)
        ensures
            r == self@.messages_delivered,
    {
        self.messages_delivered
    }

    pub fn messages_missed(&self) -> (r: u64)
        ensures
            r == self@.messages_missed,
    {
        self.messages_missed
    }

    /// The sequence the stream started at.
    pub fn first_sequence(&self) -> (r: u64)
        ensures
            r == self@.first_sequence,
    {
        self.first_sequence
    }

    pub fn last_delivered(&self) -> (r: u64)
        ensures
            r == self@.last_delivered,
    {
        self.last_delivered
    }

    pub fn max_window_used(&self) -> (r: usize)
        ensures
            r == self@.max_window_used,
    {
        self.max_window_used
    }

    pub fn window_capacity(&self) -> (r: usize)
        ensures
            r == self@.capacity,
    {
        self.capacity
    }

    pub fn resyncs(&self) -> (r: u64)
        ensures
            r == self@.resyncs,
    {
        self.resyncs
    }

    fn set_arm(&mut self, arm: u8, c: ArmCounters)
        requires
            old(self).fits(),
        ensures
            final(self).fits(),
            final(self)@ == old(self)@.with_arm(arm, c),
    {
        if arm % 2 == 0 {
            self.arm_a = c;
        } else {
            self.arm_b = c;
        }
    }

    fn count_offered(&mut self, arm: u8, len: usize)
        requires
            old(self).fits(),
        ensures
            final(self).fits(),
            final(self)@ == old(self)@.with_arm(arm, old(self)@.arm(arm).offered(len as int)),
    {
        let mut c = self.arm(arm);
        c.datagrams = c.datagrams.wrapping_add(1);
        c.bytes = c.bytes.wrapping_add(len as u64);
        self.set_arm(arm, c);
    }

    fn count_malformed(&mut self, arm: u8)
        requires
            old(self).fits(),
        ensures
            final(self).fits(),
            final(self)@ == old(self)@.with_arm(arm, old(self)@.arm(arm).malformed()),
    {
        let mut c = self.arm(arm);
        c.malformed = c.malformed.wrapping_add(1);
        self.set_arm(arm, c);
    }

    fn count_duplicate(&mut self, arm: u8)
        requires
            old(self).fits(),
        ensures
            final(self).fits(),
            final(self)@ == old(self)@.with_arm(arm, old(self)@.arm(arm).duplicate()),
    {
        let mut c = self.arm(arm);
        c.datagrams_duplicate = c.datagrams_duplicate.wrapping_add(1);
        self.set_arm(arm, c);
    }

    fn count_buffered(&mut self, arm: u8)
        requires
            old(self).fits(),
        ensures
            final(self).fits(),
            final(self)@ == old(self)@.with_arm(arm, old(self)@.arm(arm).buffered()),
    {
        let mut c = self.arm(arm);
        c.datagrams_buffered = c.datagrams_buffered.wrapping_add(1);
        self.set_arm(arm, c);
    }

    fn count_dropped(&mut self, arm: u8)
        requires
            old(self).fits(),
        ensures
            final(self).fits(),
            final(self)@ == old(self)@.with_arm(arm, old(self)@.arm(arm).dropped()),
    {
        let mut c = self.arm(arm);
        c.dropped_window_full = c.dropped_window_full.wrapping_add(1);
        self.set_arm(arm, c);
    }

    fn count_first(&mut self, arm: u8, first: u64, count: u16)
        requires
            old(self).fits(),
            first + count <= u64::MAX,
        ensures
            final(self).fits(),
            final(self)@ == old(self)@.with_arm(
                arm,
                old(self)@.arm(arm).first(old(self)@.newly(first, count)),
            ),
    {
        let newly: u64 = self.newly(first, count);
        let mut c = self.arm(arm);
        c.datagrams_first = c.datagrams_first.wrapping_add(1);
        c.messages_first = c.messages_first.wrapping_add(newly);
        self.set_arm(arm, c);
    }

    fn newly(&self, first: u64, count: u16) -> (r: u64)
        requires
            first + count <= u64::MAX,
        ensures
            r == self@.newly(first, count),
    {
        let end: u64 = first + count as u64;
        if end > self.next_expected {
            end - self.next_expected
        } else {
            0
        }
    }

    /// Forgets what waits and ends at or before a sequence.
    fn purge(&mut self, end: u64)
        requires
            old(self).fits(),
        ensures
            final(self).fits(),
            final(self)@ == (ArbModel {
                window: purged(old(self)@.window, end as int),
                ..old(self)@
            }),
    {
        let ghost w0 = self@.window;
        let n: usize = self.window.len();
        let mut i: usize = 0;
        while i < n
            invariant
                i <= n,
                n == self.window@.len(),
                n == w0.len(),
                w0 == old(self)@.window,
                old(self).fits(),
                self.fits(),
                *self == (Arbitrator {
                    window: self.window,
                    occupied: self.occupied,
                    ..*old(self)
                }),
                forall|k: int|
                    0 <= k < n ==> #[trigger] self@.window[k] == (if k < i {
                        purged(w0, end as int)[k]
                    } else {
                        w0[k]
                    }),
            decreases n - i,
        {
            let ghost before = self@.window;
            proof {
                assert(before[i as int] == w0[i as int]);
                lemma_taken_bounds(before, n as int);
                lemma_taken_update(before, i as int, None, n as int);
            }
            if self.window[i].occupied {
                assert(before[i as int] is Some);
                let stale: bool = self.window[i].first_sequence + self.window[i].count as u64
                    <= end;
                if stale {
                    self.window[i].occupied = false;
                    self.occupied = self.occupied - 1;
                    proof {
                        assert(self@.window =~= before.update(i as int, None));
                        assert forall|k: int| 0 <= k < n implies (
                        #[trigger] self@.window[k] matches Some(h) ==> h.count > 0 && h.end()
                            <= u64::MAX && h.arm < 2) by {
                            if k != i {
                                assert(self@.window[k] == before[k]);
                            }
                        }
                    }
                }
            }
            i = i + 1;
        }
        proof {
            assert(self@.window =~= purged(w0, end as int));
        }
    }

    fn deliver(&mut self, first: u64, count: u16)
        requires
            old(self).fits(),
            0 < first + count <= u64::MAX,
        ensures
            final(self).fits(),
            final(self)@ == old(self)@.delivered(first, count),
    {
        let end: u64 = first + count as u64;
        let newly: u64 = self.newly(first, count);
        self.purge(end);
        self.messages_delivered = self.messages_delivered.wrapping_add(newly);
        self.next_expected = end;
        self.last_delivered = end - 1;
        if self.state != FeedState::Gapped {
            self.state = FeedState::Live;
        }
    }

    fn store(&mut self, slot: usize, arm: u8, first: u64, count: u16, datagram: &[u8])
        requires
            old(self).fits(),
            slot < old(self)@.window.len(),
            old(self)@.window[slot as int] is None,
            count > 0,
            first + count <= u64::MAX,
        ensures
            final(self).fits(),
            final(self)@ == old(self)@.stored(slot as int, arm, first, count, datagram@),
    {
        let ghost w0 = self@.window;
        let len: usize = if datagram.len() < self.max_bytes {
            datagram.len()
        } else {
            self.max_bytes
        };
        let mut bytes: Vec<u8> = Vec::with_capacity(len);
        let mut i: usize = 0;
        while i < len
            invariant
                i <= len <= datagram@.len(),
                bytes@ == datagram@.take(i as int),
            decreases len - i,
        {
            bytes.push(datagram[i]);
            assert(datagram@.take(i as int + 1) =~= datagram@.take(i as int).push(datagram@[i as int]));
            i = i + 1;
        }
        proof {
            if datagram@.len() <= self.max_bytes {
                assert(datagram@.take(len as int) =~= datagram@);
            }
            lemma_taken_update(
                w0,
                slot as int,
                Some(
                    Waiting { first_sequence: first, count, arm: arm % 2, bytes: bytes@ },
                ),
                w0.len() as int,
            );
            lemma_taken_bounds(w0, w0.len() as int);
            lemma_taken_bounds(
                w0.update(
                    slot as int,
                    Some(Waiting { first_sequence: first, count, arm: arm % 2, bytes: bytes@ }),
                ),
                w0.len() as int,
            );
        }
        self.window.set(
            slot,
            WindowSlot { first_sequence: first, count, occupied: true, arm: arm % 2, bytes },
        );
        self.occupied = self.occupied + 1;
        if self.occupied > self.max_window_used {
            self.max_window_used = self.occupied;
        }
        proof {
            let m = old(self)@.stored(slot as int, arm, first, count, datagram@);
            assert(self@.window =~= m.window);
            assert(self@ =~= m);
        }
    }

    fn free_slot(&self) -> (r: Option<usize>)
        ensures
            r is Some <==> find(self@.window, is_free()) is Some,
            r matches Some(i) ==> find(self@.window, is_free()) == Some(i as int) && i
                < self@.window.len() && self@.window[i as int] is None,
    {
        let mut i: usize = 0;
        while i < self.window.len()
            invariant
                i <= self.window@.len(),
                forall|j: int| 0 <= j < i ==> !is_free()(#[trigger] self@.window[j]),
            decreases self.window@.len() - i,
        {
            if !self.window[i].occupied {
                proof {
                    assert(is_free()(self@.window[i as int]));
                    lemma_find(self@.window, is_free(), i as int);
                }
                return Some(i);
            }
            i = i + 1;
        }
        proof {
            lemma_find_none(self@.window, is_free());
        }
        None
    }

    fn find_slot(&self, first: u64) -> (r: Option<usize>)
        ensures
            r is Some <==> find(self@.window, starts_at(first)) is Some,
            r matches Some(i) ==> find(self@.window, starts_at(first)) == Some(i as int),
    {
        let mut i: usize = 0;
        while i < self.window.len()
            invariant
                i <= self.window@.len(),
                forall|j: int| 0 <= j < i ==> !starts_at(first)(#[trigger] self@.window[j]),
            decreases self.window@.len() - i,
        {
            if self.window[i].occupied && self.window[i].first_sequence == first {
                proof {
                    assert(starts_at(first)(self@.window[i as int]));
                    lemma_find(self@.window, starts_at(first), i as int);
                }
                return Some(i);
            }
            i = i + 1;
        }
        proof {
            lemma_find_none(self@.window, starts_at(first));
        }
        None
    }

    fn find_slot_covering(&self, sequence: u64) -> (r: Option<usize>)
        requires
            self.fits(),
        ensures
            r is Some <==> find(self@.window, covers(sequence)) is Some,
            r matches Some(i) ==> find(self@.window, covers(sequence)) == Some(i as int) && i
                < self@.window.len() && covers(sequence)(self@.window[i as int]),
    {
        let mut i: usize = 0;
        while i < self.window.len()
            invariant
                self.fits(),
                i <= self.window@.len(),
                forall|j: int| 0 <= j < i ==> !covers(sequence)(#[trigger] self@.window[j]),
            decreases self.window@.len() - i,
        {
            proof {
                let s = self@.window[i as int];
                assert(s matches Some(h) ==> h.end() <= u64::MAX);
            }
            if self.window[i].occupied && self.window[i].first_sequence <= sequence && sequence
                < self.window[i].first_sequence + self.window[i].count as u64 {
                proof {
                    assert(covers(sequence)(self@.window[i as int]));
                    lemma_find(self@.window, covers(sequence), i as int);
                }
                return Some(i);
            }
            i = i + 1;
        }
        proof {
            lemma_find_none(self@.window, covers(sequence));
        }
        None
    }

    /// The lowest sequence at which something that waits starts.
    fn lowest_waiting(&self) -> (r: Option<u64>)
        requires
            self.fits(),
        ensures
            r is None <==> self@.held() == 0,
            r matches Some(t) ==> is_lowest(self@.window, t) && lowest(self@.window) == t,
    {
        let ghost w = self@.window;
        let mut low: Option<u64> = None;
        let mut i: usize = 0;
        while i < self.window.len()
            invariant
                w == self@.window,
                i <= self.window@.len(),
                low is None ==> forall|j: int| 0 <= j < i ==> (#[trigger] w[j]) is None,
                low matches Some(t) ==> {
                    &&& exists|j: int|
                        0 <= j < i && (#[trigger] w[j] matches Some(h) && h.first_sequence == t)
                    &&& forall|j: int|
                        0 <= j < i ==> (#[trigger] w[j] matches Some(h) ==> t <= h.first_sequence)
                },
            decreases self.window@.len() - i,
        {
            if self.window[i].occupied {
                let first: u64 = self.window[i].first_sequence;
                assert(w[i as int] matches Some(h) && h.first_sequence == first);
                match low {
                    None => {
                        low = Some(first);
                    },
                    Some(t) => {
                        if first < t {
                            low = Some(first);
                        }
                    },
                }
            } else {
                assert(w[i as int] is None);
            }
            i = i + 1;
        }
        proof {
            lemma_taken_bounds(w, w.len() as int);
            if low is Some {
                let j = choose|j: int|
                    0 <= j < i && (#[trigger] w[j] matches Some(h) && h.first_sequence == low->0);
                assert(w[j] is Some);
                assert(is_lowest(w, low->0));
                lemma_lowest(w, low->0);
            }
        }
        low
    }

    /// Gives up on the hole before the lowest datagram that waits.
    fn declare_gap(&mut self, target: u64) -> (r: Gap)
        requires
            old(self).fits(),
            old(self)@.has_hole(),
            target == lowest(old(self)@.window),
        ensures
            final(self).fits(),
            final(self)@ == old(self)@.gap_declared(),
            r == old(self)@.hole(),
    {
        let gap = Gap { from: self.next_expected, through: target - 1 };
        self.messages_missed = self.messages_missed.wrapping_add(gap.messages());
        self.gaps.push(gap);
        self.state = FeedState::Gapped;
        self.next_expected = target;
        gap
    }

    fn keep_after_gap(&mut self, arm: u8, h: PacketHeader, datagram: &[u8])
        requires
            old(self).fits(),
            h.message_count > 0,
            h.end() <= u64::MAX,
        ensures
            final(self).fits(),
            final(self)@ == old(self)@.kept(arm, h, datagram@),
    {
        let first: u64 = h.first_sequence;
        let count: u16 = h.message_count;
        let end: u64 = first + count as u64;
        if end <= self.next_expected {
            self.count_duplicate(arm);
            return ;
        }
        match self.free_slot() {
            Some(slot) => {
                self.store(slot, arm, first, count, datagram);
                self.count_buffered(arm);
            },
            None => {
                self.count_dropped(arm);
            },
        }
    }

    /// Takes a datagram of one arm. `header` is what its packet header decoded to.
    pub fn accept(&mut self, arm: u8, header: Option<PacketHeader>, datagram: &[u8]) -> (r: Accepted)
        requires
            old(self).wf(),
            header matches Some(h) ==> h.end() <= u64::MAX,
        ensures
            final(self).wf(),
            final(self)@.wf(),
            (final(self)@, r) == old(self)@.accepted(arm, header, datagram@),
            old(self)@.next_expected <= final(self)@.next_expected,
    {
        proof {
            lemma_taken_bounds(self@.window, self@.window.len() as int);
        }
        proof {
            lemma_accepted_wf(old(self)@, arm, header, datagram@);
        }
        self.count_offered(arm, datagram.len());
        let h: PacketHeader = match header {
            None => {
                self.count_malformed(arm);
                return Accepted::Malformed;
            },
            Some(h) => h,
        };
        if h.message_count == 0 {
            self.count_duplicate(arm);
            return Accepted::Duplicate;
        }
        let first: u64 = h.first_sequence;
        let count: u16 = h.message_count;
        let end: u64 = first + count as u64;
        if end > self.highest_seen {
            self.highest_seen = end;
        }
        if !self.started {
            self.started = true;
            self.first_sequence = first;
            self.next_expected = first;
            self.state = FeedState::Live;
        }
        let ghost m = old(self)@.noticed(h);
        assert(self@ == m.with_arm(arm, old(self)@.arm(arm).offered(datagram@.len() as int)));
        if end <= self.next_expected {
            self.count_duplicate(arm);
            return Accepted::Duplicate;
        }
        if first <= self.next_expected {
            self.count_first(arm, first, count);
            self.deliver(first, count);
            return Accepted::Ready { first_sequence: first, count };
        }
        if self.find_slot(first).is_some() {
            self.count_duplicate(arm);
            return Accepted::Duplicate;
        }
        if self.occupied < self.capacity {
            match self.free_slot() {
                Some(slot) => {
                    self.store(slot, arm, first, count, datagram);
                    self.count_buffered(arm);
                },
                None => {
                    proof {
                        let w = self@.window;
                        let i = choose|i: int| 0 <= i < w.len() && (#[trigger] w[i]) is None;
                        lemma_first_free(w, i);
                    }
                },
            }
            return Accepted::Buffered;
        }
        match self.lowest_waiting() {
            Some(target) => if self.next_expected < target {
                let gap = self.declare_gap(target);
                self.keep_after_gap(arm, h, datagram);
                return Accepted::ForcedGap(gap);
            },
            None => {},
        }
        self.count_dropped(arm);
        Accepted::Dropped
    }

    /// Hands out, in order, everything that has come to be next.
    pub fn drain_ready(&mut self) -> (out: Vec<Delivery>)
        requires
            old(self).wf(),
        ensures
            final(self).wf(),
            final(self)@.wf(),
            final(self)@.settled(),
            old(self)@.next_expected <= final(self)@.next_expected,
            final(self)@ == old(self)@.drained(old(self)@.window.len()),
            ({
                let released = old(self)@.released_all(old(self)@.window.len());
                &&& out@.len() == released.len()
                &&& forall|i: int|
                    0 <= i < out@.len() ==> is_delivery_of(#[trigger] out@[i], released[i])
            }),
    {
        let mut out: Vec<Delivery> = Vec::new();
        let ghost m0 = self@;
        let ghost n = self@.window.len();
        let ghost mut fuel: nat = n;
        let ghost mut gone: Seq<Waiting> = Seq::empty();
        proof {
            lemma_taken_bounds(self@.window, n as int);
            assert(gone + self@.released_all(fuel) =~= m0.released_all(n));
        }
        loop
            invariant
                self.fits(),
                self@.window.len() == n,
                self@.held() <= fuel,
                self@.drained(fuel) == m0.drained(n),
                gone + self@.released_all(fuel) == m0.released_all(n),
                out@.len() == gone.len(),
                forall|i: int| 0 <= i < out@.len() ==> is_delivery_of(#[trigger] out@[i], gone[i]),
            ensures
                self.fits(),
                find(self@.window, covers(self@.next_expected)) is None,
                self@ == m0.drained(n),
                gone == m0.released_all(n),
                out@.len() == gone.len(),
                forall|i: int| 0 <= i < out@.len() ==> is_delivery_of(#[trigger] out@[i], gone[i]),
            decreases self@.held(),
        {
            let slot: usize = match self.find_slot_covering(self.next_expected) {
                None => {
                    assert(gone + Seq::<Waiting>::empty() =~= gone);
                    break;
                },
                Some(slot) => slot,
            };
            let ghost before = self@;
            let ghost h = self@.window[slot as int]->0;
            proof {
                assert(self@.window[slot as int] is Some);
                lemma_taken_bounds(before.window, n as int);
                lemma_taken_update(before.window, slot as int, None, n as int);
            }
            let first: u64 = self.window[slot].first_sequence;
            let count: u16 = self.window[slot].count;
            let arm: u8 = self.window[slot].arm;
            let mut bytes: Vec<u8> = Vec::new();
            let mut i: usize = 0;
            while i < self.window[slot].bytes.len()
                invariant
                    slot < self.window@.len(),
                    self@ == before,
                    self.fits(),
                    h.bytes == self.window@[slot as int].bytes@,
                    i <= h.bytes.len(),
                    bytes@ == h.bytes.take(i as int),
                decreases h.bytes.len() - i,
            {
                bytes.push(self.window[slot].bytes[i]);
                assert(h.bytes.take(i as int + 1) =~= h.bytes.take(i as int).push(h.bytes[i as int]));
                i = i + 1;
            }
            assert(h.bytes.take(i as int) =~= h.bytes);
            self.window.set(
                slot,
                WindowSlot {
                    first_sequence: first,
                    count,
                    occupied: false,
                    arm,
                    bytes: Vec::new(),
                },
            );
            self.occupied = self.occupied - 1;
            proof {
                assert(self@.window =~= before.window.update(slot as int, None));
            }
            self.count_first(arm, first, count);
            self.deliver(first, count);
            out.push(Delivery { first_sequence: first, count, bytes });
            proof {
                lemma_purged_taken(
                    before.window.update(slot as int, None),
                    (first + count) as int,
                    n as int,
                );
                assert(self@ =~= before.released(slot as int));
                let rest = self@.released_all((fuel - 1) as nat);
                assert(gone + (seq![h] + rest) =~= gone.push(h) + rest);
                gone = gone.push(h);
                fuel = (fuel - 1) as nat;
            }
        }
        proof {
            lemma_drained_wf(m0, n);
            assert forall|i: int| 0 <= i < self@.window.len() implies (
            #[trigger] self@.window[i] matches Some(h) ==> self@.next_expected
                < h.first_sequence) by {
                if covers(self@.next_expected)(self@.window[i]) {
                    lemma_some_covers(self@.window, self@.next_expected, i);
                }
            }
        }
        out
    }

    /// Forgets what waits and goes on from `sequence`, after a recovery.
    pub fn resync_to(&mut self, sequence: u64)
        requires
            old(self).wf(),
        ensures
            final(self).wf(),
            final(self)@.wf(),
            final(self)@.settled(),
            final(self)@.held() == 0,
            final(self)@ == old(self)@.resynced(sequence),
    {
        let n: usize = self.window.len();
        let mut i: usize = 0;
        while i < n
            invariant
                i <= n,
                n == self.window@.len(),
                n == old(self).window@.len(),
                *self == (Arbitrator { window: self.window, ..*old(self) }),
                forall|k: int| 0 <= k < i ==> !(#[trigger] self.window@[k]).occupied,
            decreases n - i,
        {
            self.window[i].occupied = false;
            i = i + 1;
        }
        self.occupied = 0;
        self.next_expected = sequence;
        self.state = FeedState::Live;
        self.started = true;
        if self.resyncs < u64::MAX {
            self.resyncs = self.resyncs + 1;
        }
        proof {
            lemma_taken_bounds(self@.window, n as int);
            assert(self@.window =~= Seq::new(old(self)@.window.len(), |i: int| None));
        }
    }

    /// Gives up on the hole that everything waits behind, if there is one.
    pub fn declare_gap_if_stalled(&mut self) -> (r: Option<Gap>)
        requires
            old(self).wf(),
        ensures
            final(self).wf(),
            final(self)@.wf(),
            old(self)@.next_expected <= final(self)@.next_expected,
            r == (if old(self)@.has_hole() {
                Some(old(self)@.hole())
            } else {
                None
            }),
            final(self)@ == old(self)@.unstalled(),
    {
        proof {
            lemma_unstalled_wf(self@);
        }
        match self.lowest_waiting() {
            Some(target) => if self.next_expected < target {
                Some(self.declare_gap(target))
            } else {
                None
            },
            None => None,
        }
    }
}

proof fn lemma_first_free(w: Seq<Option<Waiting>>, i: int)
    requires
        0 <= i < w.len(),
        w[i] is None,
    ensures
        find(w, is_free()) is Some,
    decreases i,
{
    if forall|j: int| 0 <= j < i ==> !is_free()(#[trigger] w[j]) {
        assert(lowest_slot(w, is_free(), i));
    } else {
        let j = choose|j: int| 0 <= j < i && is_free()(#[trigger] w[j]);
        lemma_first_free(w, j);
    }
}

pub proof fn lemma_some_covers(w: Seq<Option<Waiting>>, sequence: u64, i: int)
    requires
        0 <= i < w.len(),
        covers(sequence)(w[i]),
    ensures
        find(w, covers(sequence)) is Some,
    decreases i,
{
    if forall|j: int| 0 <= j < i ==> !covers(sequence)(#[trigger] w[j]) {
        assert(lowest_slot(w, covers(sequence), i));
    } else {
        let j = choose|j: int| 0 <= j < i && covers(sequence)(#[trigger] w[j]);
        lemma_some_covers(w, sequence, j);
    }
}

/// Each datagram begins no later than where the one before it ended, and ends
/// beyond it: from `from` to `to` every sequence is in exactly one newly delivered
/// range.
pub open spec fn contiguous(from: int, out: Seq<Waiting>, to: int) -> bool
    decreases out.len(),
{
    if out.len() == 0 {
        from == to
    } else {
        &&& out.first().first_sequence <= from < out.first().end()
        &&& contiguous(out.first().end(), out.drop_first(), to)
    }
}

pub proof fn lemma_found(w: Seq<Option<Waiting>>, sequence: u64)
    requires
        find(w, covers(sequence)) is Some,
    ensures
        0 <= find(w, covers(sequence))->0 < w.len(),
        covers(sequence)(w[find(w, covers(sequence))->0]),
{
    let i = choose|i: int| lowest_slot(w, covers(sequence), i);
    assert(lowest_slot(w, covers(sequence), i));
}

/// Forgetting what is behind a sequence leaves at most as much, and all of it ahead.
pub proof fn lemma_purged_taken(w: Seq<Option<Waiting>>, end: int, k: int)
    requires
        0 <= k <= w.len(),
    ensures
        0 <= taken(purged(w, end), k) <= taken(w, k),
    decreases k,
{
    if k > 0 {
        lemma_purged_taken(w, end, k - 1);
    }
}

/// One more gap, from the frontier on.
proof fn lemma_gap_pushed(from: int, gaps: Seq<Gap>, to: int, g: Gap, end: int)
    requires
        gaps_ascend(from, gaps, to),
        g.from == to,
        g.from <= g.through,
        g.through < end,
    ensures
        gaps_ascend(from, gaps.push(g), end),
        missing(gaps.push(g)) == missing(gaps) + (g.through - g.from + 1),
{
    let more = gaps.push(g);
    assert(more.drop_last() =~= gaps);
    assert forall|i: int| 0 <= i < more.len() implies from <= (#[trigger] more[i]).from
        <= more[i].through < end by {
        if i < gaps.len() {
            assert(more[i] == gaps[i]);
        }
    }
    assert forall|i: int, j: int| 0 <= i < j < more.len() implies (#[trigger] more[i]).through < (
    #[trigger] more[j]).from by {
        assert(more[i] == gaps[i]);
        if j < gaps.len() {
            assert(more[j] == gaps[j]);
        }
    }
}

/// Wrapping sums may be taken in any order.
proof fn lemma_wrapping(a: u64, b: u64, d: u64, n: u64)
    requires
        wrapping_add(a, b) == d,
    ensures
        wrapping_add(wrapping_add(a, n), b) == wrapping_add(d, n),
        wrapping_add(a, wrapping_add(b, n)) == wrapping_add(d, n),
{
}

/// A delivery of a range that covers the frontier, with its arm counted.
proof fn lemma_delivered_wf(m: ArbModel, c: ArmCounters, arm: u8, first: u64, count: u16)
    requires
        m.wf(),
        m.started,
        first + count <= u64::MAX,
        first <= m.next_expected < first + count,
        c.messages_first == m.arm(arm).messages_first,
    ensures
        m.with_arm(arm, c.first(m.newly(first, count))).delivered(first, count).wf(),
        m.with_arm(arm, c.first(m.newly(first, count))).delivered(first, count).next_expected
            == first + count,
{
    let n = m.with_arm(arm, c.first(m.newly(first, count))).delivered(first, count);
    let end = first + count;
    lemma_purged_taken(m.window, end, m.window.len() as int);
    lemma_taken_bounds(m.window, m.window.len() as int);
    lemma_wrapping(
        m.arm_a.messages_first,
        m.arm_b.messages_first,
        m.messages_delivered,
        m.newly(first, count) as u64,
    );
    assert forall|i: int| 0 <= i < n.window.len() implies (#[trigger] n.window[i] matches Some(h)
        ==> h.count > 0 && h.end() <= u64::MAX && h.arm < 2 && end < h.end()) by {
        assert(m.window[i] matches Some(h) ==> h.count > 0);
    }
}

/// The lowest of what waits, where something does.
pub proof fn lemma_lowest_is(w: Seq<Option<Waiting>>)
    requires
        taken(w, w.len() as int) > 0,
    ensures
        is_lowest(w, lowest(w)),
{
    lemma_lowest_exists(w, w.len() as int);
    assert(w.take(w.len() as int) =~= w);
}

proof fn lemma_declared_wf(m: ArbModel)
    requires
        m.wf(),
        m.has_hole(),
    ensures
        m.gap_declared().wf(),
        m.gap_declared().next_expected == lowest(m.window),
        m.hole().from == m.next_expected,
        m.hole().from <= m.hole().through < u64::MAX,
        m.hole().through + 1 == lowest(m.window),
        m.started,
{
    let n = m.gap_declared();
    lemma_lowest_is(m.window);
    assert forall|i: int| 0 <= i < n.window.len() implies (#[trigger] n.window[i] matches Some(h)
        ==> n.next_expected < h.end()) by {
        assert(m.window[i] matches Some(h) ==> h.count > 0);
    }
    assert forall|i: int| 0 <= i < n.gaps.len() implies (#[trigger] n.gaps[i]).from
        <= n.gaps[i].through < u64::MAX by {
        if i < m.gaps.len() {
            assert(n.gaps[i] == m.gaps[i]);
        }
    }
    lemma_missing_nonneg(m.gaps);
    assert(n.gaps.drop_last() =~= m.gaps);
    lemma_wrapped_add(missing(m.gaps), (m.hole().through - m.hole().from + 1) as u64);
    if m.resyncs == 0 {
        lemma_gap_pushed(
            m.first_sequence as int,
            m.gaps,
            m.next_expected as int,
            m.hole(),
            n.next_expected as int,
        );
    }
}

proof fn lemma_stored_wf(m: ArbModel, i: int, arm: u8, first: u64, count: u16, bytes: Seq<u8>)
    requires
        m.wf(),
        m.started,
        0 <= i < m.window.len(),
        count > 0,
        m.next_expected < first + count <= u64::MAX,
    ensures
        m.stored(i, arm, first, count, bytes).wf(),
{
    let n = m.stored(i, arm, first, count, bytes);
    assert forall|k: int| 0 <= k < n.window.len() implies (#[trigger] n.window[k] matches Some(h)
        ==> h.count > 0 && h.end() <= u64::MAX && h.arm < 2 && n.next_expected < h.end()) by {
        if k != i {
            assert(n.window[k] == m.window[k]);
        }
    }
}

/// Counting something of an arm other than what it was first with.
proof fn lemma_counted_wf(m: ArbModel, arm: u8, c: ArmCounters)
    requires
        m.wf(),
        c.messages_first == m.arm(arm).messages_first,
    ensures
        m.with_arm(arm, c).wf(),
{
    assert(m.with_arm(arm, c).held() == m.held());
}

proof fn lemma_noticed_wf(m: ArbModel, h: PacketHeader)
    requires
        m.wf(),
        h.message_count > 0,
        h.end() <= u64::MAX,
    ensures
        m.noticed(h).wf(),
        m.noticed(h).started,
        m.next_expected <= m.noticed(h).next_expected,
        m.noticed(h).held() == m.held(),
        forall|arm: u8| #[trigger] m.noticed(h).arm(arm) == m.arm(arm),
{
    lemma_taken_bounds(m.window, m.window.len() as int);
}

/// A free slot, where the window is not full.
pub proof fn lemma_slot_free(w: Seq<Option<Waiting>>)
    requires
        taken(w, w.len() as int) < w.len(),
    ensures
        find(w, is_free()) is Some,
        0 <= find(w, is_free())->0 < w.len(),
        w[find(w, is_free())->0] is None,
{
    lemma_taken_bounds(w, w.len() as int);
    let k = choose|k: int| 0 <= k < w.len() && (#[trigger] w[k]) is None;
    lemma_first_free(w, k);
    let i = choose|i: int| lowest_slot(w, is_free(), i);
    assert(lowest_slot(w, is_free(), i));
}

/// What the frontier is behind after a datagram that forced a gap.
proof fn lemma_kept_wf(m: ArbModel, arm: u8, h: PacketHeader, bytes: Seq<u8>)
    requires
        m.wf(),
        m.started,
        h.message_count > 0,
        h.end() <= u64::MAX,
    ensures
        m.kept(arm, h, bytes).wf(),
        m.next_expected <= m.kept(arm, h, bytes).next_expected,
{
    let c = m.arm(arm);
    if h.end() <= m.next_expected {
        lemma_counted_wf(m, arm, c.duplicate());
    } else if find(m.window, is_free()) is Some {
        let i = find(m.window, is_free())->0;
        let k = choose|k: int| lowest_slot(m.window, is_free(), k);
        assert(lowest_slot(m.window, is_free(), k));
        lemma_find(m.window, is_free(), k);
        lemma_stored_wf(m, i, arm, h.first_sequence, h.message_count, bytes);
        lemma_counted_wf(
            m.stored(i, arm, h.first_sequence, h.message_count, bytes),
            arm,
            c.buffered(),
        );
    } else {
        lemma_counted_wf(m, arm, c.dropped());
    }
}

/// Taking a datagram leaves an arbitrator as every one is, and its frontier where it
/// was or further on.
pub proof fn lemma_accepted_wf(m: ArbModel, arm: u8, header: Option<PacketHeader>, bytes: Seq<u8>)
    requires
        m.wf(),
        header matches Some(h) ==> h.end() <= u64::MAX,
    ensures
        m.accepted(arm, header, bytes).0.wf(),
        m.next_expected <= m.accepted(arm, header, bytes).0.next_expected,
{
    let c = m.arm(arm).offered(bytes.len() as int);
    match header {
        None => {
            lemma_counted_wf(m, arm, c.malformed());
        },
        Some(h) => {
            if h.message_count == 0 {
                lemma_counted_wf(m, arm, c.duplicate());
            } else {
                let q = m.noticed(h);
                lemma_noticed_wf(m, h);
                assert(q.arm(arm) == m.arm(arm));
                lemma_taken_bounds(q.window, q.window.len() as int);
                match q.outcome(h) {
                    Accepted::Ready { .. } => {
                        lemma_delivered_wf(q, c, arm, h.first_sequence, h.message_count);
                    },
                    Accepted::Buffered => {
                        lemma_slot_free(q.window);
                        let i = find(q.window, is_free())->0;
                        lemma_stored_wf(q, i, arm, h.first_sequence, h.message_count, bytes);
                        lemma_counted_wf(
                            q.stored(i, arm, h.first_sequence, h.message_count, bytes),
                            arm,
                            c.buffered(),
                        );
                    },
                    Accepted::ForcedGap(_) => {
                        let d = q.with_arm(arm, c);
                        lemma_counted_wf(q, arm, c);
                        assert(d.window == q.window);
                        lemma_declared_wf(d);
                        lemma_kept_wf(d.gap_declared(), arm, h, bytes);
                    },
                    Accepted::Dropped => {
                        lemma_counted_wf(q, arm, c.dropped());
                    },
                    _ => {
                        lemma_counted_wf(q, arm, c.duplicate());
                    },
                }
            }
        },
    }
}

pub proof fn lemma_unstalled_wf(m: ArbModel)
    requires
        m.wf(),
    ensures
        m.unstalled().wf(),
        m.next_expected <= m.unstalled().next_expected,
{
    if m.has_hole() {
        lemma_declared_wf(m);
    }
}

pub proof fn lemma_released_wf(m: ArbModel, i: int)
    requires
        m.wf(),
        0 <= i < m.window.len(),
        covers(m.next_expected)(m.window[i]),
    ensures
        m.released(i).wf(),
        m.released(i).next_expected == (m.window[i]->0).end(),
        m.next_expected < m.released(i).next_expected,
        m.started,
{
    let h = m.window[i]->0;
    let n = ArbModel { window: m.window.update(i, None), ..m };
    lemma_taken_bounds(m.window, m.window.len() as int);
    assert(m.started);
    assert(n.wf()) by {
        assert forall|k: int| 0 <= k < n.window.len() implies (
        #[trigger] n.window[k] matches Some(h) ==> h.count > 0 && h.end() <= u64::MAX && h.arm < 2
            && n.next_expected < h.end()) by {
            if k != i {
                assert(n.window[k] == m.window[k]);
            }
        }
    }
    lemma_delivered_wf(n, n.arm(h.arm), h.arm, h.first_sequence, h.count);
}

pub proof fn lemma_drained_wf(m: ArbModel, fuel: nat)
    requires
        m.wf(),
    ensures
        m.drained(fuel).wf(),
        m.next_expected <= m.drained(fuel).next_expected,
    decreases fuel,
{
    if find(m.window, covers(m.next_expected)) is Some && fuel > 0 {
        lemma_found(m.window, m.next_expected);
        let i = find(m.window, covers(m.next_expected))->0;
        lemma_released_wf(m, i);
        lemma_drained_wf(m.released(i), (fuel - 1) as nat);
    }
}

proof fn lemma_lowest_exists(w: Seq<Option<Waiting>>, k: int)
    requires
        0 <= k <= w.len(),
        taken(w, k) > 0,
    ensures
        exists|t: u64| is_lowest(#[trigger] w.take(k), t),
    decreases k,
{
    let v = w.take(k);
    if taken(w, k - 1) > 0 {
        lemma_lowest_exists(w, k - 1);
        let u = w.take(k - 1);
        let t = choose|t: u64| is_lowest(u, t);
        let i = choose|i: int|
            0 <= i < u.len() && (#[trigger] u[i] matches Some(h) && h.first_sequence == t);
        assert(v[i] == u[i]);
        assert forall|j: int| 0 <= j < k - 1 implies #[trigger] v[j] == u[j] by {}
        if v[k - 1] is Some && (v[k - 1]->0).first_sequence < t {
            assert(is_lowest(v, (v[k - 1]->0).first_sequence));
        } else {
            assert(is_lowest(v, t));
        }
    } else {
        lemma_taken_bounds(w, k - 1);
        assert(w[k - 1] is Some);
        assert forall|j: int| 0 <= j < k - 1 implies #[trigger] v[j] is None by {
            assert(w[j] is None);
        }
        assert(v[k - 1] is Some);
        assert(is_lowest(v, (v[k - 1]->0).first_sequence));
    }
}

/// What is drained comes out in sequence order, without a hole and without a
/// sequence twice, and the next expected sequence is right behind it.
pub proof fn law_drains_in_order(m: ArbModel, fuel: nat)
    requires
        m.wf(),
    ensures
        contiguous(
            m.next_expected as int,
            m.released_all(fuel),
            m.drained(fuel).next_expected as int,
        ),
    decreases fuel,
{
    if find(m.window, covers(m.next_expected)) is Some && fuel > 0 {
        lemma_found(m.window, m.next_expected);
        let i = find(m.window, covers(m.next_expected))->0;
        let h = m.window[i]->0;
        let n = m.released(i);
        lemma_released_wf(m, i);
        law_drains_in_order(n, (fuel - 1) as nat);
        let rest = n.released_all((fuel - 1) as nat);
        let all = seq![h] + rest;
        assert(m.released_all(fuel) == all);
        assert(all.drop_first() =~= rest);
    }
}

/// What is counted as missing is what the gaps cover together, in every state there is. The
/// counter wraps.
pub proof fn law_missed_is_what_the_gaps_cover(m: ArbModel)
    requires
        m.wf(),
    ensures
        m.messages_missed == wrapped(missing(m.gaps)),
        forall|i: int| 0 <= i < m.gaps.len() ==> (#[trigger] m.gaps[i]).from <= m.gaps[i].through,
{
}

/// In every state that no recovery has cut, the account is closed: what was delivered and
/// what is missing make up all from the first sequence to the frontier, what is missing is
/// what the gaps cover, and the gaps are ranges of at least one message that follow one
/// another, apart and behind the frontier.
pub proof fn law_account_is_closed(m: ArbModel)
    requires
        m.wf(),
        m.started,
        m.resyncs == 0,
    ensures
        m.messages_delivered + m.messages_missed == m.next_expected - m.first_sequence,
        m.messages_missed == missing(m.gaps),
        gaps_ascend(m.first_sequence as int, m.gaps, m.next_expected as int),
        wrapping_add(m.arm_a.messages_first, m.arm_b.messages_first) == m.messages_delivered,
{
}

/// The state says what has happened: nothing yet, or a stream without a gap, or one with
/// a gap. A recovery begins a new stream, and only a gap after it is told.
pub proof fn law_state_tells_the_history(m: ArbModel)
    requires
        m.wf(),
    ensures
        m.state == FeedState::Syncing <==> !m.started,
        m.state == FeedState::Gapped ==> m.gaps.len() > 0,
        m.resyncs == 0 ==> (m.state == FeedState::Gapped <==> m.gaps.len() > 0),
        m.resyncs == 0 ==> (m.state == FeedState::Live <==> m.started && m.gaps.len() == 0),
        forall|sequence: u64| #[trigger] m.resynced(sequence).state == FeedState::Live,
        m.has_hole() ==> m.unstalled().state == FeedState::Gapped,
{
}

/// What a datagram comes to, once the stream has started: nothing new in it is a
/// duplicate; what reaches over the frontier is ready and brings the frontier to its
/// end; what lies ahead is a duplicate if it waits already, waits if there is room, and
/// forces a gap if there is not, or is dropped where there is no hole to give up.
pub proof fn law_accept_outcomes(m: ArbModel, arm: u8, h: PacketHeader, bytes: Seq<u8>)
    requires
        m.wf(),
        m.started,
        h.end() <= u64::MAX,
    ensures
        ({
            let (n, r) = m.accepted(arm, Some(h), bytes);
            let waiting = find(m.window, starts_at(h.first_sequence)) is Some;
            &&& if h.message_count == 0 || h.end() <= m.next_expected {
                r == Accepted::Duplicate
            } else if h.first_sequence <= m.next_expected {
                r == (Accepted::Ready {
                    first_sequence: h.first_sequence,
                    count: h.message_count,
                }) && n.next_expected == h.end()
            } else if waiting {
                r == Accepted::Duplicate
            } else if m.held() < m.capacity {
                r == Accepted::Buffered
            } else if m.has_hole() {
                r == Accepted::ForcedGap(m.hole())
            } else {
                r == Accepted::Dropped
            }
            &&& r is Duplicate || r is Buffered || r is Dropped ==> {
                &&& n.next_expected == m.next_expected
                &&& n.state == m.state
                &&& n.gaps == m.gaps
                &&& n.messages_delivered == m.messages_delivered
                &&& n.messages_missed == m.messages_missed
            }
            &&& r is Ready ==> n.gaps == m.gaps && n.messages_missed == m.messages_missed
            &&& r matches Accepted::ForcedGap(gap) ==> {
                &&& gap.from == m.next_expected
                &&& n.gaps == m.gaps.push(gap)
                &&& n.state == FeedState::Gapped
            }
        }),
{
    assert(m.noticed(h).window == m.window);
}

/// The frontier never moves back: not when a datagram is taken, whatever comes of it,
/// not when what is ready is drained, and not when a hole is given up.
pub proof fn law_frontier_never_moves_back(
    m: ArbModel,
    arm: u8,
    header: Option<PacketHeader>,
    bytes: Seq<u8>,
    fuel: nat,
)
    requires
        m.wf(),
        header matches Some(h) ==> h.end() <= u64::MAX,
    ensures
        m.next_expected <= m.accepted(arm, header, bytes).0.next_expected,
        m.next_expected <= m.drained(fuel).next_expected,
        m.next_expected <= m.unstalled().next_expected,
{
    lemma_accepted_wf(m, arm, header, bytes);
    lemma_drained_wf(m, fuel);
    lemma_unstalled_wf(m);
}

/// This range waits in the window.
pub open spec fn waits(m: ArbModel, first: u64, count: u16) -> bool {
    exists|i: int|
        0 <= i < m.window.len() && (#[trigger] m.window[i] matches Some(w) && w.first_sequence
            == first && w.count == count)
}

/// Late is not lost: as long as the window has room, no datagram makes a gap of the hole
/// before it. It is ready, or waits its turn, or was there before; nothing is counted
/// as missed, and nothing that waited and is still ahead of the frontier is dropped.
pub proof fn law_late_is_not_lost(m: ArbModel, arm: u8, h: PacketHeader, bytes: Seq<u8>)
    requires
        m.wf(),
        m.held() < m.capacity,
        h.message_count > 0,
        h.end() <= u64::MAX,
    ensures
        ({
            let (n, r) = m.accepted(arm, Some(h), bytes);
            &&& r is Ready || r is Buffered || r is Duplicate
            &&& n.gaps == m.gaps
            &&& n.messages_missed == m.messages_missed
            &&& m.state != FeedState::Gapped ==> n.state != FeedState::Gapped
            &&& r is Buffered ==> waits(n, h.first_sequence, h.message_count)
            &&& forall|i: int|
                0 <= i < m.window.len() && (m.window[i] matches Some(w) && n.next_expected
                    < w.end()) ==> #[trigger] n.window[i] == m.window[i]
        }),
{
    let q = m.noticed(h);
    let (n, r) = m.accepted(arm, Some(h), bytes);
    lemma_taken_bounds(m.window, m.window.len() as int);
    lemma_slot_free(m.window);
    let i = find(m.window, is_free())->0;
    assert(q.window == m.window);
    if r is Buffered {
        assert(n.window[i] is Some);
        assert(n.window[i]->0.first_sequence == h.first_sequence);
        assert(n.window[i]->0.count == h.message_count);
    }
}

/// A datagram counts once on the arm that brought it: with its bytes, and as what became of
/// it, and as first with what is new in it and no more. Nothing changes on the other arm.
pub proof fn law_datagram_counts_on_its_arm(
    m: ArbModel,
    arm: u8,
    header: Option<PacketHeader>,
    bytes: Seq<u8>,
)
    requires
        m.wf(),
        header matches Some(h) ==> h.end() <= u64::MAX,
    ensures
        ({
            let (n, r) = m.accepted(arm, header, bytes);
            let a = m.arm(arm);
            let b = n.arm(arm);
            let began = if m.started {
                m.next_expected
            } else {
                header->0.first_sequence
            };
            &&& arm % 2 == 0 ==> n.arm_b == m.arm_b && b == n.arm_a && a == m.arm_a
            &&& arm % 2 == 1 ==> n.arm_a == m.arm_a && b == n.arm_b && a == m.arm_b
            &&& b.datagrams == wrapping_add(a.datagrams, 1)
            &&& b.bytes == wrapping_add(a.bytes, bytes.len() as u64)
            &&& b.malformed == (if r is Malformed {
                wrapping_add(a.malformed, 1)
            } else {
                a.malformed
            })
            &&& !(r is ForcedGap) ==> {
                &&& b.datagrams_first == (if r is Ready {
                    wrapping_add(a.datagrams_first, 1)
                } else {
                    a.datagrams_first
                })
                &&& b.datagrams_duplicate == (if r is Duplicate {
                    wrapping_add(a.datagrams_duplicate, 1)
                } else {
                    a.datagrams_duplicate
                })
                &&& b.datagrams_buffered == (if r is Buffered {
                    wrapping_add(a.datagrams_buffered, 1)
                } else {
                    a.datagrams_buffered
                })
                &&& b.dropped_window_full == (if r is Dropped {
                    wrapping_add(a.dropped_window_full, 1)
                } else {
                    a.dropped_window_full
                })
            }
            &&& b.messages_first == (if r is Ready {
                wrapping_add(a.messages_first, (n.next_expected - began) as u64)
            } else {
                a.messages_first
            })
            &&& n.messages_delivered == (if r is Ready {
                wrapping_add(m.messages_delivered, (n.next_expected - began) as u64)
            } else {
                m.messages_delivered
            })
        }),
{
}

/// A datagram that has to wait is kept as it came, with its arm, up to as many bytes as are
/// kept; one that was ready ends at the frontier; and the highest sequence seen is noticed
/// whatever becomes of it.
pub proof fn law_waiting_datagram_is_as_it_came(
    m: ArbModel,
    arm: u8,
    h: PacketHeader,
    bytes: Seq<u8>,
)
    requires
        m.wf(),
        h.message_count > 0,
        h.end() <= u64::MAX,
    ensures
        ({
            let (n, r) = m.accepted(arm, Some(h), bytes);
            &&& r is Buffered && bytes.len() <= m.max_bytes ==> exists|i: int|
                0 <= i < n.window.len() && #[trigger] n.window[i] == Some(
                    Waiting {
                        first_sequence: h.first_sequence,
                        count: h.message_count,
                        arm: arm % 2,
                        bytes,
                    },
                )
            &&& r is Buffered ==> n.held() == m.held() + 1
            &&& r is Buffered ==> n.max_window_used >= n.held()
            &&& r is Ready ==> n.last_delivered == h.end() - 1 && n.next_expected == h.end()
            &&& n.highest_seen == (if h.end() > m.highest_seen {
                h.end()
            } else {
                m.highest_seen as int
            })
            &&& !m.started ==> n.first_sequence == h.first_sequence && r is Ready
            &&& m.started ==> n.first_sequence == m.first_sequence
        }),
{
    let q = m.noticed(h);
    let (n, r) = m.accepted(arm, Some(h), bytes);
    assert(q.window == m.window);
    lemma_taken_bounds(m.window, m.window.len() as int);
    if r is Buffered {
        lemma_slot_free(m.window);
        let i = find(m.window, is_free())->0;
        lemma_taken_update(m.window, i, n.window[i], m.window.len() as int);
        assert(n.window[i] is Some);
    }
}

/// After a recovery the stream goes on at the sequence that was given, with nothing waiting
/// and nothing wrong; what was delivered, what is missing and the gaps stay on record.
pub proof fn law_resync_goes_on_where_told(m: ArbModel, sequence: u64)
    requires
        m.shaped(),
    ensures
        ({
            let n = m.resynced(sequence);
            &&& n.next_expected == sequence
            &&& n.held() == 0
            &&& n.state == FeedState::Live
            &&& n.started
            &&& n.gaps == m.gaps
            &&& n.messages_missed == m.messages_missed
            &&& n.messages_delivered == m.messages_delivered
            &&& n.arm_a == m.arm_a && n.arm_b == m.arm_b
            &&& n.first_sequence == m.first_sequence
            &&& n.capacity == m.capacity && n.max_bytes == m.max_bytes
            &&& m.resyncs < u64::MAX ==> n.resyncs == m.resyncs + 1
        }),
{
    let n = m.resynced(sequence);
    lemma_taken_bounds(n.window, n.window.len() as int);
}

} // verus!
