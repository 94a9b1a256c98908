//! Getting back to a trusted book after a gap.
//!
//! While a gap is open, live traffic is held instead of applied. A snapshot that
//! covers everything before the gap, or a replay of the missing range, then says
//! from which sequence on the held traffic counts, and what it holds below that is
//! skipped. The buffer is bounded and the wait has a deadline: a recovery that
//! cannot succeed fails and says so.

use vstd::prelude::*;
use vstd::wrapping::u64_specs::wrapping_add;

verus! {

/// Where a recovery stands.
#[derive(Debug, Clone, Copy, PartialEq, Eq, Structural)]
pub enum Recovery {
    Idle,
    /// Waiting for a snapshot, or a replay, that reaches up to the gap.
    AwaitingSnapshot { gap_from: u64 },
    /// Held traffic counts from this sequence on.
    Reconciling { from_sequence: u64 },
}

/// What closed a gap.
#[derive(Debug, Clone, Copy, PartialEq, Eq, Structural)]
pub enum RecoveredBy {
    Replay,
    Snapshot,
}

/// What recoveries there have been. The counters wrap.
#[derive(Debug, Clone, Copy, PartialEq, Eq, Structural)]
pub struct RecoveryStats {
    pub attempts: u64,
    pub completed: u64,
    pub failed: u64,
    pub datagrams_buffered: u64,
    pub messages_skipped: u64,
    pub messages_replayed: u64,
    pub snapshots_seen: u64,
    pub by_replay: u64,
    pub by_snapshot: u64,
    pub replay_refused: u64,
    pub replay_messages: u64,
    pub snapshots_discarded: u64,
    pub last_recovery_millis: u64,
    pub worst_recovery_millis: u64,
}

impl RecoveryStats {
    pub open spec fn zero() -> RecoveryStats {
        RecoveryStats {
            attempts: 0,
            completed: 0,
            failed: 0,
            datagrams_buffered: 0,
            messages_skipped: 0,
            messages_replayed: 0,
            snapshots_seen: 0,
            by_replay: 0,
            by_snapshot: 0,
            replay_refused: 0,
            replay_messages: 0,
            snapshots_discarded: 0,
            last_recovery_millis: 0,
            worst_recovery_millis: 0,
        }
    }
}

impl Default for RecoveryStats {
    fn default() -> (r: Self)
        ensures
            r == RecoveryStats::zero(),
    {
        RecoveryStats {
            attempts: 0,
            completed: 0,
            failed: 0,
            datagrams_buffered: 0,
            messages_skipped: 0,
            messages_replayed: 0,
            snapshots_seen: 0,
            by_replay: 0,
            by_snapshot: 0,
            replay_refused: 0,
            replay_messages: 0,
            snapshots_discarded: 0,
            last_recovery_millis: 0,
            worst_recovery_millis: 0,
        }
    }
}

/// Why a recovery was given up. Times are in nanoseconds.
#[derive(Debug, Clone, Copy, PartialEq, Eq, Structural)]
pub enum RecoveryFailure {
    BufferFull { capacity: usize },
    TimedOut { after: u64 },
}

/// A datagram of live traffic that is held.
pub struct HeldDatagram {
    pub first_sequence: u64,
    pub count: u16,
    pub bytes: Seq<u8>,
}

impl HeldDatagram {
    pub open spec fn end(self) -> int {
        self.first_sequence + self.count
    }

    /// How many of its messages come before `from`.
    pub open spec fn below(self, from: int) -> int {
        if self.end() <= from {
            self.count as int
        } else if self.first_sequence < from {
            from - self.first_sequence
        } else {
            0
        }
    }
}

/// A held datagram to apply, from the sequence `skip_below` on.
#[derive(Debug)]
pub struct Replayed {
    pub skip_below: u64,
    pub bytes: Vec<u8>,
}

/// What a recovery buffer knows.
#[verifier::ext_equal]
pub struct RecoveryModel {
    pub state: Recovery,
    pub held: Seq<HeldDatagram>,
    pub capacity: nat,
    pub max_bytes: nat,
    /// When the recovery began, in nanoseconds.
    pub started: Option<u64>,
    pub deadline: u64,
    pub stats: RecoveryStats,
}

/// How many of the first `k` held datagrams' messages come before `from`.
pub open spec fn skipped(held: Seq<HeldDatagram>, from: int, k: int) -> int
    decreases k,
{
    if k <= 0 {
        0
    } else {
        skipped(held, from, k - 1) + held[k - 1].below(from)
    }
}

/// How many messages the first `k` held datagrams hold.
pub open spec fn held_messages(held: Seq<HeldDatagram>, k: int) -> int
    decreases k,
{
    if k <= 0 {
        0
    } else {
        held_messages(held, k - 1) + held[k - 1].count
    }
}

/// Of the first `k` held datagrams, those that reach beyond `from`.
pub open spec fn reaching(held: Seq<HeldDatagram>, from: int, k: int) -> Seq<HeldDatagram>
    decreases k,
{
    if k <= 0 {
        Seq::empty()
    } else if held[k - 1].end() > from {
        reaching(held, from, k - 1).push(held[k - 1])
    } else {
        reaching(held, from, k - 1)
    }
}

impl RecoveryModel {
    pub open spec fn wf(self) -> bool {
        &&& 1 <= self.capacity <= 0xffff_ffff_ffff
        &&& self.held.len() <= self.capacity
        &&& forall|i: int|
            0 <= i < self.held.len() ==> (#[trigger] self.held[i]).end() <= u64::MAX
    }

    pub open spec fn recovering(self) -> bool {
        self.state != Recovery::Idle
    }

    /// A snapshot as of this sequence reaches up to the gap that is waited on.
    pub open spec fn usable(self, last_sequence: u64) -> bool {
        self.state matches Recovery::AwaitingSnapshot { gap_from } && last_sequence + 1 >= gap_from
    }

    /// The recovery has run out of time.
    pub open spec fn overdue(self, now: u64) -> bool {
        self.started is Some && self.recovering() && self.elapsed(now) >= self.deadline
    }

    /// A recovery begun, unless one is under way.
    pub open spec fn begun(self, gap_from: u64, now: u64) -> RecoveryModel {
        if self.recovering() {
            self
        } else {
            RecoveryModel {
                state: Recovery::AwaitingSnapshot { gap_from },
                started: Some(now),
                held: Seq::empty(),
                stats: RecoveryStats {
                    attempts: wrapping_add(self.stats.attempts, 1),
                    ..self.stats
                },
                ..self
            }
        }
    }

    /// A datagram put by, as much of it as there is room for.
    pub open spec fn holding(
        self,
        first_sequence: u64,
        count: u16,
        datagram: Seq<u8>,
    ) -> RecoveryModel {
        RecoveryModel {
            held: self.held.push(
                HeldDatagram {
                    first_sequence,
                    count,
                    bytes: if datagram.len() <= self.max_bytes {
                        datagram
                    } else {
                        datagram.take(self.max_bytes as int)
                    },
                },
            ),
            stats: RecoveryStats {
                datagrams_buffered: wrapping_add(self.stats.datagrams_buffered, 1),
                ..self.stats
            },
            ..self
        }
    }

    /// A snapshot as of this sequence taken.
    pub open spec fn with_snapshot(self, last_sequence: u64) -> RecoveryModel {
        RecoveryModel {
            state: Recovery::Reconciling { from_sequence: (last_sequence + 1) as u64 },
            stats: RecoveryStats {
                snapshots_seen: wrapping_add(self.stats.snapshots_seen, 1),
                by_snapshot: wrapping_add(self.stats.by_snapshot, 1),
                ..self.stats
            },
            ..self
        }
    }

    /// A replay through this sequence taken.
    pub open spec fn with_replay(self, through: u64, messages: u64) -> RecoveryModel {
        RecoveryModel {
            state: Recovery::Reconciling { from_sequence: (through + 1) as u64 },
            stats: RecoveryStats {
                by_replay: wrapping_add(self.stats.by_replay, 1),
                replay_messages: wrapping_add(self.stats.replay_messages, messages),
                ..self.stats
            },
            ..self
        }
    }

    /// What is handed back of what is held, once it is known where to go on.
    pub open spec fn handed_back(self) -> Seq<HeldDatagram> {
        match self.state {
            Recovery::Reconciling { from_sequence } => reaching(
                self.held,
                from_sequence as int,
                self.held.len() as int,
            ),
            _ => Seq::empty(),
        }
    }

    /// The recovery ended well.
    pub open spec fn completed(self, now: u64) -> RecoveryModel {
        let millis = self.elapsed(now) / 1_000_000;
        (RecoveryModel {
            stats: RecoveryStats {
                completed: wrapping_add(self.stats.completed, 1),
                last_recovery_millis: millis,
                worst_recovery_millis: if millis > self.stats.worst_recovery_millis {
                    millis
                } else {
                    self.stats.worst_recovery_millis
                },
                ..self.stats
            },
            ..self
        }).reset()
    }

    /// Nothing under way, nothing held.
    pub open spec fn reset(self) -> RecoveryModel {
        RecoveryModel { state: Recovery::Idle, started: None, held: Seq::empty(), ..self }
    }

    /// How long the recovery has taken, in nanoseconds.
    pub open spec fn elapsed(self, now: u64) -> u64 {
        match self.started {
            Some(s) => if now > s {
                (now - s) as u64
            } else {
                0
            },
            None => 0,
        }
    }
}

#[derive(Debug)]
struct Held {
    first_sequence: u64,
    count: u16,
    bytes: Vec<u8>,
}

spec fn held_view(h: Held) -> HeldDatagram {
    HeldDatagram { first_sequence: h.first_sequence, count: h.count, bytes: h.bytes@ }
}

#[derive(Debug)]
pub struct RecoveryBuffer {
    state: Recovery,
    held: Vec<Held>,
    capacity: usize,
    max_bytes: usize,
    started: Option<u64>,
    deadline: u64,
    stats: RecoveryStats,
}

impl View for RecoveryBuffer {
    type V = RecoveryModel;

    closed spec fn view(&self) -> RecoveryModel {
        RecoveryModel {
            state: self.state,
            held: Seq::new(self.held@.len(), |i: int| held_view(self.held@[i])),
            capacity: self.capacity as nat,
            max_bytes: self.max_bytes as nat,
            started: self.started,
            deadline: self.deadline,
            stats: self.stats,
        }
    }
}

impl RecoveryBuffer {
    /// A buffer for so many datagrams, at least one, whose recoveries may take
    /// `deadline` nanoseconds.
    pub fn new(capacity: usize, max_datagram_bytes: usize, deadline: u64) -> (r: Self)
        requires
            capacity <= 0xffff_ffff_ffff,
        ensures
            r@.wf(),
            r@ == (RecoveryModel {
                state: Recovery::Idle,
                held: Seq::empty(),
                capacity: if capacity < 1 {
                    1
                } else {
                    capacity as nat
                },
                max_bytes: max_datagram_bytes as nat,
                started: None,
                deadline,
                stats: RecoveryStats::zero(),
            }),
    {
        let capacity: usize = if capacity < 1 {
            1
        } else {
            capacity
        };
        let r = RecoveryBuffer {
            state: Recovery::Idle,
            held: Vec::with_capacity(capacity),
            capacity,
            max_bytes: max_datagram_bytes,
            started: None,
            deadline,
            stats: RecoveryStats::default(),
        };
        assert(r@.held =~= Seq::<HeldDatagram>::empty());
        r
    }

    pub fn state(&self) -> (r: Recovery)
        ensures
            r == self@.state,
    {
        self.state
    }

    pub fn stats(&self) -> (r: RecoveryStats)
        ensures
            r == self@.stats,
    {
        self.stats
    }

    pub fn is_recovering(&self) -> (r: bool)
        ensures
            r == self@.recovering(),
    {
        self.state != Recovery::Idle
    }

    /// Starts a recovery. One that is under way goes on, on its own clock.
    pub fn begin(&mut self, gap_from: u64, now: u64)
        requires
            old(self)@.wf(),
        ensures
            final(self)@.wf(),
            final(self)@ == old(self)@.begun(gap_from, now),
            final(self)@ == (if old(self)@.recovering() {
                old(self)@
            } else {
                RecoveryModel {
                    state: Recovery::AwaitingSnapshot { gap_from },
                    started: Some(now),
                    held: Seq::empty(),
                    stats: RecoveryStats {
                        attempts: wrapping_add(old(self)@.stats.attempts, 1),
                        ..old(self)@.stats
                    },
                    ..old(self)@
                }
            }),
    {
        if self.is_recovering() {
            return ;
        }
        self.state = Recovery::AwaitingSnapshot { gap_from };
        self.started = Some(now);
        self.held.clear();
        self.stats.attempts = self.stats.attempts.wrapping_add(1);
        assert(self@.held =~= Seq::<HeldDatagram>::empty());
    }

    /// Holds one datagram of live traffic.
    pub fn hold(&mut self, first_sequence: u64, count: u16, datagram: &[u8]) -> (r: Result<
        (),
        RecoveryFailure,
    >)
        requires
            old(self)@.wf(),
            first_sequence + count <= u64::MAX,
        ensures
            final(self)@.wf(),
            r == (if old(self)@.held.len() == old(self)@.capacity {
                Err(RecoveryFailure::BufferFull { capacity: old(self)@.capacity as usize })
            } else {
                Ok(())
            }),
            final(self)@ == (if r is Ok {
                RecoveryModel {
                    held: old(self)@.held.push(
                        HeldDatagram {
                            first_sequence,
                            count,
                            bytes: if datagram@.len() <= old(self)@.max_bytes {
                                datagram@
                            } else {
                                datagram@.take(old(self)@.max_bytes as int)
                            },
                        },
                    ),
                    stats: RecoveryStats {
                        datagrams_buffered: wrapping_add(
                            old(self)@.stats.datagrams_buffered,
                            1,
                        ),
                        ..old(self)@.stats
                    },
                    ..old(self)@
                }
            } else {
                old(self)@
            }),
            r is Ok ==> final(self)@ == old(self)@.holding(first_sequence, count, datagram@),
    {
        if self.held.len() == self.capacity {
            return Err(RecoveryFailure::BufferFull { capacity: self.capacity });
        }
        let len: usize = if datagram.len() < self.max_bytes {
            datagram.len()
        } else {
            self.max_bytes
        };
        let mut bytes: Vec<u8> = Vec::with_capacity(len);
        let mut i: usize = 0;
        while i < len
            invariant
                i <= len <= datagram@.len(),
                bytes@ == datagram@.take(i as int),
            decreases len - i,
        {
            bytes.push(datagram[i]);
            assert(datagram@.take(i as int + 1) =~= datagram@.take(i as int).push(datagram@[i as int]));
            i = i + 1;
        }
        proof {
            if datagram@.len() <= self.max_bytes {
                assert(datagram@.take(len as int) =~= datagram@);
            }
        }
        let ghost h = HeldDatagram { first_sequence, count, bytes: bytes@ };
        let ghost before = self@.held;
        self.held.push(Held { first_sequence, count, bytes });
        self.stats.datagrams_buffered = self.stats.datagrams_buffered.wrapping_add(1);
        assert(self@.held =~= before.push(h));
        Ok(())
    }

    /// Whether the recovery has run out of time.
    pub fn check_deadline(&self, now: u64) -> (r: Result<(), RecoveryFailure>)
        ensures
            r is Err <==> self@.overdue(now),
            r == (if self@.started is Some && self@.recovering() && self@.elapsed(now)
                >= self@.deadline {
                Err(RecoveryFailure::TimedOut { after: self@.deadline })
            } else {
                Ok(())
            }),
    {
        if let Some(started) = self.started {
            let elapsed: u64 = if now > started {
                now - started
            } else {
                0
            };
            if self.is_recovering() && elapsed >= self.deadline {
                return Err(RecoveryFailure::TimedOut { after: self.deadline });
            }
        }
        Ok(())
    }

    /// Whether a snapshot as of `last_sequence` covers everything before the gap.
    pub fn snapshot_is_usable(&self, last_sequence: u64) -> (r: bool)
        requires
            last_sequence < u64::MAX,
        ensures
            r == self@.usable(last_sequence),
            r == (self@.state matches Recovery::AwaitingSnapshot { gap_from } && last_sequence + 1
                >= gap_from),
    {
        match self.state {
            Recovery::AwaitingSnapshot { gap_from } => last_sequence + 1 >= gap_from,
            _ => false,
        }
    }

    /// Takes a snapshot as the new beginning: held traffic counts from behind it.
    pub fn adopt_snapshot(&mut self, last_sequence: u64)
        requires
            old(self)@.wf(),
            last_sequence < u64::MAX,
        ensures
            final(self)@.wf(),
            final(self)@ == (RecoveryModel {
                state: Recovery::Reconciling { from_sequence: (last_sequence + 1) as u64 },
                stats: RecoveryStats {
                    snapshots_seen: wrapping_add(old(self)@.stats.snapshots_seen, 1),
                    by_snapshot: wrapping_add(old(self)@.stats.by_snapshot, 1),
                    ..old(self)@.stats
                },
                ..old(self)@
            }),
            final(self)@ == old(self)@.with_snapshot(last_sequence),
    {
        self.stats.snapshots_seen = self.stats.snapshots_seen.wrapping_add(1);
        self.stats.by_snapshot = self.stats.by_snapshot.wrapping_add(1);
        self.state = Recovery::Reconciling { from_sequence: last_sequence + 1 };
        assert(self@.held =~= old(self)@.held);
    }

    /// Where the gap being waited on begins.
    pub fn gap_from(&self) -> (r: Option<u64>)
        ensures
            r == (match self@.state {
                Recovery::AwaitingSnapshot { gap_from } => Some(gap_from),
                _ => None,
            }),
    {
        match self.state {
            Recovery::AwaitingSnapshot { gap_from } => Some(gap_from),
            _ => None,
        }
    }

    /// Takes a replay that filled the hole up to `through`. Refused where nothing is
    /// being waited for any more.
    #[must_use]
    pub fn adopt_replay(&mut self, through: u64, messages: u64) -> (r: bool)
        requires
            old(self)@.wf(),
            through < u64::MAX,
        ensures
            final(self)@.wf(),
            r == (old(self)@.state is AwaitingSnapshot),
            final(self)@ == (if r {
                RecoveryModel {
                    state: Recovery::Reconciling { from_sequence: (through + 1) as u64 },
                    stats: RecoveryStats {
                        by_replay: wrapping_add(old(self)@.stats.by_replay, 1),
                        replay_messages: wrapping_add(
                            old(self)@.stats.replay_messages,
                            messages,
                        ),
                        ..old(self)@.stats
                    },
                    ..old(self)@
                }
            } else {
                old(self)@
            }),
            r ==> final(self)@ == old(self)@.with_replay(through, messages),
    {
        match self.state {
            Recovery::AwaitingSnapshot { .. } => {},
            _ => return false,
        }
        self.stats.by_replay = self.stats.by_replay.wrapping_add(1);
        self.stats.replay_messages = self.stats.replay_messages.wrapping_add(messages);
        self.state = Recovery::Reconciling { from_sequence: through + 1 };
        assert(self@.held =~= old(self)@.held);
        true
    }

    pub fn note_replay_refused(&mut self)
        requires
            old(self)@.wf(),
        ensures
            final(self)@.wf(),
            final(self)@ == (RecoveryModel {
                stats: RecoveryStats {
                    replay_refused: wrapping_add(old(self)@.stats.replay_refused, 1),
                    ..old(self)@.stats
                },
                ..old(self)@
            }),
    {
        self.stats.replay_refused = self.stats.replay_refused.wrapping_add(1);
        assert(self@.held =~= old(self)@.held);
    }

    /// The held datagrams that reach beyond what the snapshot or replay covered, in
    /// the order they came, and how many of their messages are new.
    pub fn replay(&mut self) -> (r: (Vec<Replayed>, u64))
        requires
            old(self)@.wf(),
        ensures
            final(self)@.wf(),
            r.0@.len() == old(self)@.handed_back().len(),
            forall|i: int|
                0 <= i < r.0@.len() ==> (#[trigger] r.0@[i]).bytes@
                    == old(self)@.handed_back()[i].bytes,
            match old(self)@.state {
                Recovery::Reconciling { from_sequence } => {
                    let held = old(self)@.held;
                    let n = held.len() as int;
                    let out = reaching(held, from_sequence as int, n);
                    &&& r.0@.len() == out.len()
                    &&& forall|i: int|
                        0 <= i < out.len() ==> (#[trigger] r.0@[i]).skip_below == from_sequence
                            && r.0@[i].bytes@ == out[i].bytes
                    &&& r.1 == held_messages(held, n) - skipped(held, from_sequence as int, n)
                    &&& final(self)@ == (RecoveryModel {
                        stats: RecoveryStats {
                            messages_skipped: wrapping_add(
                                old(self)@.stats.messages_skipped,
                                skipped(held, from_sequence as int, n) as u64,
                            ),
                            messages_replayed: wrapping_add(
                                old(self)@.stats.messages_replayed,
                                r.1,
                            ),
                            ..old(self)@.stats
                        },
                        ..old(self)@
                    })
                },
                _ => r.0@.len() == 0 && r.1 == 0 && final(self)@ == old(self)@,
            },
    {
        let mut out: Vec<Replayed> = Vec::new();
        let from: u64 = match self.state {
            Recovery::Reconciling { from_sequence } => from_sequence,
            _ => return (out, 0),
        };
        let ghost held = self@.held;
        let mut replayed: u64 = 0;
        let mut dropped: u64 = 0;
        let mut k: usize = 0;
        while k < self.held.len()
            invariant
                *self == *old(self),
                held == self@.held,
                self@.wf(),
                held.len() == self.held@.len(),
                k <= held.len(),
                dropped == skipped(held, from as int, k as int),
                replayed == held_messages(held, k as int) - skipped(held, from as int, k as int),
                dropped + replayed <= k * 0xffff,
                out@.len() == reaching(held, from as int, k as int).len(),
                forall|i: int|
                    0 <= i < out@.len() ==> (#[trigger] out@[i]).skip_below == from
                        && out@[i].bytes@ == reaching(held, from as int, k as int)[i].bytes,
            decreases held.len() - k,
        {
            let ghost h = held[k as int];
            let first: u64 = self.held[k].first_sequence;
            let count: u16 = self.held[k].count;
            proof {
                assert(h == held_view(self.held@[k as int]));
                assert(h.end() <= u64::MAX);
                assert(k * 0xffff + 0xffff <= u64::MAX) by (nonlinear_arith)
                    requires
                        k < 0xffff_ffff_ffff,
                ;
            }
            let end: u64 = first + count as u64;
            if end <= from {
                dropped = dropped + count as u64;
            } else {
                let below: u64 = if first < from {
                    from - first
                } else {
                    0
                };
                dropped = dropped + below;
                let mut bytes: Vec<u8> = Vec::new();
                let mut i: usize = 0;
                while i < self.held[k].bytes.len()
                    invariant
                        *self == *old(self),
                        k < self.held@.len(),
                        h == held_view(self.held@[k as int]),
                        i <= h.bytes.len(),
                        bytes@ == h.bytes.take(i as int),
                    decreases h.bytes.len() - i,
                {
                    bytes.push(self.held[k].bytes[i]);
                    assert(h.bytes.take(i as int + 1) =~= h.bytes.take(i as int).push(
                        h.bytes[i as int],
                    ));
                    i = i + 1;
                }
                assert(h.bytes.take(i as int) =~= h.bytes);
                out.push(Replayed { skip_below: from, bytes });
                replayed = replayed + (count as u64 - below);
            }
            k = k + 1;
        }
        self.stats.messages_skipped = self.stats.messages_skipped.wrapping_add(dropped);
        self.stats.messages_replayed = self.stats.messages_replayed.wrapping_add(replayed);
        assert(self@.held =~= held);
        (out, replayed)
    }

    fn reset(&mut self)
        requires
            old(self)@.wf(),
        ensures
            final(self)@.wf(),
            final(self)@ == old(self)@.reset(),
    {
        self.state = Recovery::Idle;
        self.started = None;
        self.held.clear();
        assert(self@.held =~= Seq::<HeldDatagram>::empty());
    }

    /// Ends a recovery that succeeded, and says how long it took.
    pub fn complete(&mut self, now: u64) -> (r: u64)
        requires
            old(self)@.wf(),
        ensures
            final(self)@.wf(),
            r == old(self)@.elapsed(now),
            final(self)@ == old(self)@.completed(now),
            final(self)@ == (RecoveryModel {
                stats: RecoveryStats {
                    completed: wrapping_add(old(self)@.stats.completed, 1),
                    last_recovery_millis: r / 1_000_000,
                    worst_recovery_millis: if r / 1_000_000
                        > old(self)@.stats.worst_recovery_millis {
                        r / 1_000_000
                    } else {
                        old(self)@.stats.worst_recovery_millis
                    },
                    ..old(self)@.stats
                },
                ..old(self)@
            }).reset(),
    {
        let elapsed: u64 = match self.started {
            Some(s) => if now > s {
                now - s
            } else {
                0
            },
            None => 0,
        };
        self.stats.completed = self.stats.completed.wrapping_add(1);
        self.stats.last_recovery_millis = elapsed / 1_000_000;
        if self.stats.last_recovery_millis > self.stats.worst_recovery_millis {
            self.stats.worst_recovery_millis = self.stats.last_recovery_millis;
        }
        assert(self@.held =~= old(self)@.held);
        self.reset();
        elapsed
    }

    /// Ends a recovery that did not succeed.
    pub fn fail(&mut self)
        requires
            old(self)@.wf(),
        ensures
            final(self)@.wf(),
            final(self)@ == (RecoveryModel {
                stats: RecoveryStats {
                    failed: wrapping_add(old(self)@.stats.failed, 1),
                    ..old(self)@.stats
                },
                ..old(self)@
            }).reset(),
    {
        self.stats.failed = self.stats.failed.wrapping_add(1);
        assert(self@.held =~= old(self)@.held);
        self.reset();
    }

    pub fn held_datagrams(&self) -> (r: usize)
        ensures
            r == self@.held.len(),
    {
        self.held.len()
    }

    /// The lowest sequence at which something that is held starts.
    pub fn first_held_sequence(&self) -> (r: Option<u64>)
        ensures
            r is None <==> self@.held.len() == 0,
            r matches Some(t) ==> {
                &&& exists|i: int|
                    0 <= i < self@.held.len() && (#[trigger] self@.held[i]).first_sequence == t
                &&& forall|i: int|
                    0 <= i < self@.held.len() ==> t <= (#[trigger] self@.held[i]).first_sequence
            },
    {
        let mut low: Option<u64> = None;
        let mut i: usize = 0;
        while i < self.held.len()
            invariant
                i <= self.held@.len(),
                low is None <==> i == 0,
                low matches Some(t) ==> {
                    &&& exists|j: int|
                        0 <= j < i && (#[trigger] self@.held[j]).first_sequence == t
                    &&& forall|j: int|
                        0 <= j < i ==> t <= (#[trigger] self@.held[j]).first_sequence
                },
            decreases self.held@.len() - i,
        {
            let first: u64 = self.held[i].first_sequence;
            assert(self@.held[i as int].first_sequence == first);
            low = match low {
                None => Some(first),
                Some(t) => if first < t {
                    Some(first)
                } else {
                    Some(t)
                },
            };
            i = i + 1;
        }
        low
    }

    /// Waits again, because what was adopted did not reach.
    pub fn reopen(&mut self, gap_from: u64)
        requires
            old(self)@.wf(),
        ensures
            final(self)@.wf(),
            final(self)@ == (RecoveryModel {
                state: Recovery::AwaitingSnapshot { gap_from },
                ..old(self)@
            }),
    {
        self.state = Recovery::AwaitingSnapshot { gap_from };
        assert(self@.held =~= old(self)@.held);
    }

    pub fn capacity(&self) -> (r: usize)
        ensures
            r == self@.capacity,
    {
        self.capacity
    }
}

/// Every message that is held is either skipped or replayed, and none of the
/// datagrams that are dropped whole has a message at or beyond `from`.
pub proof fn law_replay_loses_nothing(held: Seq<HeldDatagram>, from: int, k: int)
    requires
        0 <= k <= held.len(),
    ensures
        0 <= skipped(held, from, k) <= held_messages(held, k),
        forall|i: int|
            0 <= i < k && (#[trigger] held[i]).end() > from ==> reaching(held, from, k).contains(
                held[i],
            ),
        forall|i: int|
            0 <= i < reaching(held, from, k).len() ==> (#[trigger] reaching(
                held,
                from,
                k,
            )[i]).end() > from,
    decreases k,
{
    if k > 0 {
        law_replay_loses_nothing(held, from, k - 1);
        let a = reaching(held, from, k - 1);
        let b = reaching(held, from, k);
        assert forall|i: int| 0 <= i < k && (#[trigger] held[i]).end() > from implies b.contains(
            held[i],
        ) by {
            if i == k - 1 {
                assert(b[a.len() as int] == held[i]);
            } else {
                let j = choose|j: int| 0 <= j < a.len() && a[j] == held[i];
                assert(b[j] == held[i]);
            }
        }
    }
}

/// How many messages of a held datagram come before a sequence: those of its sequences that
/// are lower.
pub proof fn law_skipped_are_the_lower_ones(h: HeldDatagram, from: int)
    ensures
        h.below(from) == (if from <= h.first_sequence {
            0
        } else if from >= h.first_sequence + h.count {
            h.count as int
        } else {
            from - h.first_sequence
        }),
        h.below(from) == h.count <==> h.count == 0 || from >= h.first_sequence + h.count,
{
}

/// What is replayed comes in the order in which it was held, and each of it was held.
pub proof fn law_replay_keeps_the_order(held: Seq<HeldDatagram>, from: int, k: int)
    requires
        0 <= k <= held.len(),
        forall|i: int, j: int|
            0 <= i < j < held.len() ==> (#[trigger] held[i]).first_sequence <= (
            #[trigger] held[j]).first_sequence,
    ensures
        reaching(held, from, k).len() <= k,
        forall|i: int|
            0 <= i < reaching(held, from, k).len() ==> held.take(k).contains(
                #[trigger] reaching(held, from, k)[i],
            ),
        forall|i: int, j: int|
            0 <= i < j < reaching(held, from, k).len() ==> (#[trigger] reaching(
                held,
                from,
                k,
            )[i]).first_sequence <= (#[trigger] reaching(held, from, k)[j]).first_sequence,
    decreases k,
{
    if k > 0 {
        law_replay_keeps_the_order(held, from, k - 1);
        let a = reaching(held, from, k - 1);
        let r = reaching(held, from, k);
        let earlier = held.take(k - 1);
        assert forall|i: int| 0 <= i < r.len() implies held.take(k).contains(#[trigger] r[i]) by {
            if i < a.len() {
                assert(earlier.contains(a[i]));
                let j = choose|j: int| 0 <= j < earlier.len() && earlier[j] == a[i];
                assert(held.take(k)[j] == r[i]);
            } else {
                assert(held.take(k)[k - 1] == r[i]);
            }
        }
        assert forall|i: int, j: int| 0 <= i < j < r.len() implies (#[trigger] r[i]).first_sequence
            <= (#[trigger] r[j]).first_sequence by {
            assert(earlier.contains(a[i]));
            let x = choose|x: int| 0 <= x < earlier.len() && earlier[x] == a[i];
            assert(held[x] == r[i]);
            if j < a.len() {
                assert(r[j] == a[j]);
            } else {
                assert(r[j] == held[k - 1]);
            }
        }
    }
}

/// A recovery has taken as long as its clock says, and nothing where the clock went back or
/// none is under way.
pub proof fn law_elapsed_is_since_the_start(m: RecoveryModel, now: u64)
    ensures
        m.started matches Some(s) ==> m.elapsed(now) == (if s <= now {
            now - s
        } else {
            0
        }),
        m.started is None ==> m.elapsed(now) == 0,
        !m.reset().recovering(),
        m.reset().held.len() == 0,
        m.reset().elapsed(now) == 0,
        m.reset().stats == m.stats,
{
}

/// A sequence comes before a gap.
pub open spec fn comes_before(q: u64, gap_from: u64) -> bool {
    q < gap_from
}

/// A snapshot can be used exactly if it covers everything before the gap that is waited on.
pub proof fn law_usable_snapshot_covers_what_came_before(m: RecoveryModel, last_sequence: u64)
    ensures
        m.usable(last_sequence) <==> (m.state matches Recovery::AwaitingSnapshot { gap_from }
            && forall|q: u64| #[trigger] comes_before(q, gap_from) ==> q <= last_sequence),
{
    if let Recovery::AwaitingSnapshot { gap_from } = m.state {
        if gap_from > 0 && !m.usable(last_sequence) {
            let q = (gap_from - 1) as u64;
            assert(comes_before(q, gap_from));
        }
    }
}

/// A recovery goes on its own clock: it begins with nothing held and waits for the gap it was
/// begun for, another gap does not begin it anew, it is overdue once its time is up and not
/// before, and what it took is told in milliseconds, the worst of all kept.
pub proof fn law_recovery_goes_on_its_own_clock(
    m: RecoveryModel,
    gap_from: u64,
    began: u64,
    now: u64,
)
    ensures
        ({
            let b = m.begun(gap_from, began);
            let c = m.completed(now);
            &&& m.recovering() ==> b == m
            &&& !m.recovering() ==> {
                &&& b.recovering()
                &&& b.state == (Recovery::AwaitingSnapshot { gap_from })
                &&& b.started == Some(began)
                &&& b.held.len() == 0
                &&& b.stats.attempts == wrapping_add(m.stats.attempts, 1)
                &&& began <= now ==> (b.overdue(now) <==> now - began >= m.deadline)
                &&& began <= now ==> b.completed(now).stats.last_recovery_millis == (now - began)
                    / 1_000_000
            }
            &&& !c.recovering()
            &&& c.held.len() == 0
            &&& !c.overdue(now)
            &&& c.stats.completed == wrapping_add(m.stats.completed, 1)
            &&& c.stats.failed == m.stats.failed
            &&& c.stats.worst_recovery_millis >= c.stats.last_recovery_millis
            &&& c.stats.worst_recovery_millis >= m.stats.worst_recovery_millis
            &&& c.stats.worst_recovery_millis == c.stats.last_recovery_millis
                || c.stats.worst_recovery_millis == m.stats.worst_recovery_millis
        }),
{
}

/// A datagram put by while a snapshot or a replay is waited on is handed back after those
/// before it exactly if it holds a message that is not covered, and as it came where there was
/// room for it; and how the waiting ended is counted under what ended it.
pub proof fn law_held_datagram_is_handed_back(
    m: RecoveryModel,
    first_sequence: u64,
    count: u16,
    datagram: Seq<u8>,
    last: u64,
    messages: u64,
)
    requires
        last < u64::MAX,
    ensures
        ({
            let h = m.holding(first_sequence, count, datagram);
            let s = h.with_snapshot(last);
            let r = h.with_replay(last, messages);
            let before = m.with_snapshot(last).handed_back();
            &&& s.handed_back() == r.handed_back()
            &&& first_sequence + count > last + 1 ==> {
                &&& s.handed_back().len() == before.len() + 1
                &&& s.handed_back().drop_last() == before
                &&& s.handed_back().last().first_sequence == first_sequence
                &&& s.handed_back().last().count == count
                &&& s.handed_back().last().bytes.len() == (if datagram.len() < m.max_bytes {
                    datagram.len()
                } else {
                    m.max_bytes
                })
                &&& s.handed_back().last().bytes.is_prefix_of(datagram)
            }
            &&& first_sequence + count <= last + 1 ==> s.handed_back() == before
            &&& h.state == m.state && h.started == m.started
            &&& s.state == Recovery::Reconciling { from_sequence: (last + 1) as u64 }
            &&& s.started == m.started && r.started == m.started
            &&& h.stats.datagrams_buffered == wrapping_add(m.stats.datagrams_buffered, 1)
            &&& s.stats.by_snapshot == wrapping_add(m.stats.by_snapshot, 1)
            &&& s.stats.by_replay == m.stats.by_replay
            &&& s.stats.replay_messages == m.stats.replay_messages
            &&& r.stats.by_replay == wrapping_add(m.stats.by_replay, 1)
            &&& r.stats.replay_messages == wrapping_add(m.stats.replay_messages, messages)
            &&& r.stats.by_snapshot == m.stats.by_snapshot
            &&& r.stats.snapshots_seen == m.stats.snapshots_seen
        }),
{
    let h = m.holding(first_sequence, count, datagram);
    let from = last + 1;
    let n = m.held.len() as int;
    lemma_reaching_grows(m.held, h.held.last(), from, n);
    assert(h.held =~= m.held.push(h.held.last()));
    let before = reaching(m.held, from, n);
    assert(before.push(h.held.last()).drop_last() =~= before);
}

proof fn lemma_reaching_grows(held: Seq<HeldDatagram>, more: HeldDatagram, from: int, k: int)
    requires
        0 <= k <= held.len(),
    ensures
        reaching(held.push(more), from, k) == reaching(held, from, k),
    decreases k,
{
    if k > 0 {
        lemma_reaching_grows(held, more, from, k - 1);
    }
}

} // verus!
