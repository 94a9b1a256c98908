//! The consumer of the feed: what it does with each message as it arrives.

use crate::apply::{applied, apply_message, opens_book, symbol_of, ApplyError};
use crate::books::Books;
use crate::digest::BookDigest;
use crate::message::Message;
use crate::sheet::{gives, law_each_row_is_given, lemma_one_more, written};
use crate::text::{decimal, hex16, push_decimal, push_hex16};
use crate::view::BookSet;
use vstd::prelude::*;
use vstd::string::StringExecFns;
use vstd::wrapping::u64_specs::wrapping_add;

verus! {

/// What one arm of the feed brought. The datagrams and duplicates wrap.
#[derive(Debug, Clone, Copy, PartialEq, Eq, Structural)]
pub struct ArmTally {
    pub datagrams: u64,
    /// Messages that this arm brought before the other.
    pub first_arrivals: u64,
    pub duplicates: u64,
}

/// What has been received. The bytes, shares and bad datagrams wrap.
#[derive(Debug, Clone, Copy, PartialEq, Eq, Structural)]
pub struct HandlerStats {
    pub a: ArmTally,
    pub b: ArmTally,
    pub bytes: u64,
    pub messages: u64,
    pub trades: u64,
    pub shares_traded: u64,
    pub first_sequence: u64,
    pub last_sequence: u64,
    pub gaps: u64,
    pub messages_missed: u64,
    pub bad_datagrams: u64,
    /// Messages that did not apply, on a book that ought to be whole.
    pub apply_errors: u64,
    /// Messages that did not apply once messages had been missed.
    pub apply_errors_after_gap: u64,
    pub joined_mid_stream: bool,
}

pub open spec fn no_stats() -> HandlerStats {
    let none = ArmTally { datagrams: 0, first_arrivals: 0, duplicates: 0 };
    HandlerStats {
        a: none,
        b: none,
        bytes: 0,
        messages: 0,
        trades: 0,
        shares_traded: 0,
        first_sequence: 0,
        last_sequence: 0,
        gaps: 0,
        messages_missed: 0,
        bad_datagrams: 0,
        apply_errors: 0,
        apply_errors_after_gap: 0,
        joined_mid_stream: false,
    }
}

/// The two arms of the feed.
#[derive(Debug, Clone, Copy, PartialEq, Eq, Structural)]
pub enum Arm {
    A,
    B,
}

impl HandlerStats {
    pub open spec fn arm(self, arm: Arm) -> ArmTally {
        match arm {
            Arm::A => self.a,
            Arm::B => self.b,
        }
    }

    pub open spec fn with_arm(self, arm: Arm, t: ArmTally) -> HandlerStats {
        match arm {
            Arm::A => HandlerStats { a: t, ..self },
            Arm::B => HandlerStats { b: t, ..self },
        }
    }

    /// The tallies after a datagram.
    pub open spec fn received(self, arm: Arm, len: usize) -> HandlerStats {
        let t = self.arm(arm);
        HandlerStats {
            bytes: wrapping_add(self.bytes, len as u64),
            ..self.with_arm(arm, ArmTally { datagrams: wrapping_add(t.datagrams, 1), ..t })
        }
    }

    /// The tallies after a message that came before.
    pub open spec fn repeated(self, arm: Arm) -> HandlerStats {
        let t = self.arm(arm);
        self.with_arm(arm, ArmTally { duplicates: wrapping_add(t.duplicates, 1), ..t })
    }

    /// The tallies once a message is known to be new, by what was expected.
    pub open spec fn arrived(self, arm: Arm, expected: Option<u64>, seq: u64) -> HandlerStats {
        let t = self.arm(arm);
        let s = match expected {
            None => HandlerStats {
                first_sequence: seq,
                joined_mid_stream: self.joined_mid_stream || seq != 1,
                ..self
            },
            Some(e) => if seq > e {
                HandlerStats {
                    gaps: (self.gaps + 1) as u64,
                    messages_missed: (self.messages_missed + (seq - e)) as u64,
                    ..self
                }
            } else {
                self
            },
        };
        HandlerStats {
            messages: (s.messages + 1) as u64,
            last_sequence: seq,
            ..s.with_arm(arm, ArmTally { first_arrivals: (t.first_arrivals + 1) as u64, ..t })
        }
    }

    /// The tallies after the message was applied, or was not.
    pub open spec fn judged(self, ok: bool) -> HandlerStats {
        if ok {
            self
        } else if self.gaps == 0 && !self.joined_mid_stream {
            HandlerStats { apply_errors: (self.apply_errors + 1) as u64, ..self }
        } else {
            HandlerStats {
                apply_errors_after_gap: (self.apply_errors_after_gap + 1) as u64,
                ..self
            }
        }
    }

    /// The tallies after a trade was seen, if it was one.
    pub open spec fn traded(self, msg: Message) -> HandlerStats {
        match msg {
            Message::Trade { quantity, .. } => HandlerStats {
                trades: (self.trades + 1) as u64,
                shares_traded: wrapping_add(self.shares_traded, quantity as u64),
                ..self
            },
            _ => self,
        }
    }

    /// The run lost nothing, and everything applied.
    pub open spec fn is_clean(self) -> bool {
        self.gaps == 0 && self.bad_datagrams == 0 && self.apply_errors == 0
    }

    /// Every message since the first was either received or is counted as missed.
    pub open spec fn accounts(self, expected: Option<u64>) -> bool {
        &&& match expected {
            None => self.messages == 0 && self.messages_missed == 0,
            Some(n) => {
                &&& self.messages >= 1
                &&& self.messages + self.messages_missed == n - self.first_sequence
                &&& self.last_sequence == n - 1
            },
        }
        &&& self.gaps <= self.messages_missed
        &&& self.gaps == 0 <==> self.messages_missed == 0
        &&& self.a.first_arrivals + self.b.first_arrivals == self.messages
        &&& self.trades <= self.messages
        &&& self.apply_errors + self.apply_errors_after_gap <= self.messages
    }

    pub fn clean(&self) -> (r: bool)
        ensures
            r == self.is_clean(),
    {
        self.gaps == 0 && self.bad_datagrams == 0 && self.apply_errors == 0
    }

    /// Messages came, and the second arm was never first with one.
    pub fn second_arm_is_silent(&self) -> (r: bool)
        ensures
            r == (self.messages > 0 && self.b.first_arrivals == 0),
    {
        self.messages > 0 && self.b.first_arrivals == 0
    }

    /// What is said of a run that was not clean.
    pub fn describe_unclean(&self) -> (r: String)
        ensures
            r@ == "NOT CLEAN: "@ + decimal(self.gaps as int) + " gaps, "@ + decimal(
                self.bad_datagrams as int,
            ) + " bad datagrams, "@ + decimal(self.apply_errors as int)
                + " messages that did not apply"@,
    {
        let mut s: String = String::from_str("NOT CLEAN: ");
        push_decimal(&mut s, self.gaps);
        s.append(" gaps, ");
        push_decimal(&mut s, self.bad_datagrams);
        s.append(" bad datagrams, ");
        push_decimal(&mut s, self.apply_errors);
        s.append(" messages that did not apply");
        s
    }

    /// The summary of a run: a name and a value to a line.
    pub open spec fn summary_text(self, digest: BookDigest, elapsed: Seq<char>) -> Seq<char> {
        self.summary_counts() + self.summary_arms() + field("final_top"@, hex16(digest.top))
            + field("final_full"@, hex16(digest.full)) + field(
            "final_orders"@,
            decimal(digest.orders as int),
        ) + field("elapsed_seconds"@, elapsed)
    }

    pub open spec fn summary_counts(self) -> Seq<char> {
        field("messages"@, decimal(self.messages as int)) + field(
            "first_sequence"@,
            decimal(self.first_sequence as int),
        ) + field("last_sequence"@, decimal(self.last_sequence as int)) + field(
            "gaps"@,
            decimal(self.gaps as int),
        ) + field("messages_missed"@, decimal(self.messages_missed as int)) + field(
            "bad_datagrams"@,
            decimal(self.bad_datagrams as int),
        ) + field("apply_errors"@, decimal(self.apply_errors as int)) + field(
            "apply_errors_after_gap"@,
            decimal(self.apply_errors_after_gap as int),
        ) + field(
            "joined_mid_stream"@,
            if self.joined_mid_stream {
                "true"@
            } else {
                "false"@
            },
        )
    }

    pub open spec fn summary_arms(self) -> Seq<char> {
        field("datagrams_a"@, decimal(self.a.datagrams as int)) + field(
            "datagrams_b"@,
            decimal(self.b.datagrams as int),
        ) + field("first_arrivals_a"@, decimal(self.a.first_arrivals as int)) + field(
            "first_arrivals_b"@,
            decimal(self.b.first_arrivals as int),
        ) + field("duplicates_a"@, decimal(self.a.duplicates as int)) + field(
            "duplicates_b"@,
            decimal(self.b.duplicates as int),
        ) + field("bytes"@, decimal(self.bytes as int)) + field(
            "trades"@,
            decimal(self.trades as int),
        ) + field("shares_traded"@, decimal(self.shares_traded as int))
    }

    fn push_counts(&self, s: &mut String)
        ensures
            final(s)@ == old(s)@ + self.summary_counts(),
    {
        push_number(s, "messages", self.messages);
        push_number(s, "first_sequence", self.first_sequence);
        push_number(s, "last_sequence", self.last_sequence);
        push_number(s, "gaps", self.gaps);
        push_number(s, "messages_missed", self.messages_missed);
        push_number(s, "bad_datagrams", self.bad_datagrams);
        push_number(s, "apply_errors", self.apply_errors);
        push_number(s, "apply_errors_after_gap", self.apply_errors_after_gap);
        push_field(
            s,
            "joined_mid_stream",
            if self.joined_mid_stream {
                "true"
            } else {
                "false"
            },
        );
        assert(s@ =~= old(s)@ + self.summary_counts());
    }

    fn push_arms(&self, s: &mut String)
        ensures
            final(s)@ == old(s)@ + self.summary_arms(),
    {
        push_number(s, "datagrams_a", self.a.datagrams);
        push_number(s, "datagrams_b", self.b.datagrams);
        push_number(s, "first_arrivals_a", self.a.first_arrivals);
        push_number(s, "first_arrivals_b", self.b.first_arrivals);
        push_number(s, "duplicates_a", self.a.duplicates);
        push_number(s, "duplicates_b", self.b.duplicates);
        push_number(s, "bytes", self.bytes);
        push_number(s, "trades", self.trades);
        push_number(s, "shares_traded", self.shares_traded);
        assert(s@ =~= old(s)@ + self.summary_arms());
    }

    /// The summary that a run leaves, with the time it took as the caller writes it.
    pub fn summary(&self, digest: BookDigest, elapsed: &str) -> (r: String)
        ensures
            r@ == self.summary_text(digest, elapsed@),
    {
        let mut s: String = String::new();
        self.push_counts(&mut s);
        self.push_arms(&mut s);
        push_hex(&mut s, "final_top", digest.top);
        push_hex(&mut s, "final_full", digest.full);
        push_number(&mut s, "final_orders", digest.orders);
        push_field(&mut s, "elapsed_seconds", elapsed);
        assert(s@ =~= self.summary_text(digest, elapsed@));
        s
    }
}

/// A line that gives a name its value.
pub open spec fn field(name: Seq<char>, value: Seq<char>) -> Seq<char> {
    name + "="@ + value + "\n"@
}

pub fn push_field(s: &mut String, name: &str, value: &str)
    ensures
        final(s)@ == old(s)@ + field(name@, value@),
{
    s.append(name);
    s.append("=");
    s.append(value);
    s.append("\n");
    assert(s@ =~= old(s)@ + field(name@, value@));
}

pub fn push_number(s: &mut String, name: &str, value: u64)
    ensures
        final(s)@ == old(s)@ + field(name@, decimal(value as int)),
{
    s.append(name);
    s.append("=");
    push_decimal(s, value);
    s.append("\n");
    assert(s@ =~= old(s)@ + field(name@, decimal(value as int)));
}

fn push_hex(s: &mut String, name: &str, value: u64)
    ensures
        final(s)@ == old(s)@ + field(name@, hex16(value)),
{
    s.append(name);
    s.append("=");
    push_hex16(s, value);
    s.append("\n");
    assert(s@ =~= old(s)@ + field(name@, hex16(value)));
}

/// What became of a message.
#[derive(Debug, Clone, Copy, PartialEq, Eq, Structural)]
pub enum Arrival {
    /// It came before, on the other arm.
    Duplicate,
    Taken {
        /// It is the first, and the stream began before it.
        joined_late: bool,
        /// How many messages before it never came.
        missing: u64,
        /// Why it did not apply.
        refused: Option<ApplyError>,
        /// The books are to be digested now.
        checkpoint: bool,
        /// As many messages were taken as were asked for.
        done: bool,
    },
}

/// What a message does to a set of books.
pub open spec fn told<B: BookSet>(before: B, msg: Message, after: B, r: Result<(), ApplyError>) -> bool {
    &&& symbol_of(msg) is None ==> r is Ok && after == before
    &&& symbol_of(msg) matches Some(symbol_id) ==> {
        &&& applied(
            msg,
            before.model_of(symbol_id),
            before.room_of(symbol_id),
            after.model_of(symbol_id),
            r,
        )
        &&& forall|s: u16| s != symbol_id ==> #[trigger] after.model_of(s) == before.model_of(s)
        &&& forall|s: u16| #[trigger]
            after.symbol_ids().contains(s) <==> before.symbol_ids().contains(s) || (s == symbol_id
                && opens_book(msg))
    }
}

pub open spec fn refusal(refused: Option<ApplyError>) -> Result<(), ApplyError> {
    match refused {
        Some(e) => Err(e),
        None => Ok(()),
    }
}

/// Whether the books are digested at a sequence number.
pub open spec fn is_checkpoint(every: u64, seq: u64) -> bool {
    every > 0 && seq % every == 0
}

pub fn checkpoint_due(every: u64, seq: u64) -> (r: bool)
    ensures
        r == is_checkpoint(every, seq),
{
    every > 0 && seq % every == 0
}

/// A line of the checkpoint log.
pub fn checkpoint_line(seq: u64, digest: BookDigest) -> (r: String)
    ensures
        r@ == decimal(seq as int) + " "@ + crate::digest::digest_fields(digest) + "\n"@,
{
    let mut s: String = String::new();
    push_decimal(&mut s, seq);
    s.append(" ");
    s.append(digest.to_fields().as_str());
    s.append("\n");
    assert(s@ =~= decimal(seq as int) + " "@ + crate::digest::digest_fields(digest) + "\n"@);
    s
}

/// The books as the feed has built them so far.
pub struct Handler {
    books: Books,
    stats: HandlerStats,
    next_expected: Option<u64>,
    digest_interval: u64,
    message_limit: u64,
}

impl Handler {
    pub closed spec fn wf(self) -> bool {
        &&& self.books.valid()
        &&& self.stats.accounts(self.next_expected)
    }

    pub closed spec fn book_set(self) -> Books {
        self.books
    }

    pub closed spec fn tallies(self) -> HandlerStats {
        self.stats
    }

    pub closed spec fn expects(self) -> Option<u64> {
        self.next_expected
    }

    /// How often the books are digested, and how many messages are taken.
    pub closed spec fn limits(self) -> (u64, u64) {
        (self.digest_interval, self.message_limit)
    }

    /// A handler that digests its books every `digest_interval` sequence numbers and
    /// stops after `message_limit` messages; 0 turns either off.
    pub fn new(digest_interval: u64, message_limit: u64) -> (r: Self)
        ensures
            r.wf(),
            r.book_set().symbol_ids() == Seq::<u16>::empty(),
            r.tallies() == no_stats(),
            r.expects() is None,
            r.limits() == (digest_interval, message_limit),
    {
        let none = ArmTally { datagrams: 0, first_arrivals: 0, duplicates: 0 };
        Handler {
            books: Books::new(),
            stats: HandlerStats {
                a: none,
                b: none,
                bytes: 0,
                messages: 0,
                trades: 0,
                shares_traded: 0,
                first_sequence: 0,
                last_sequence: 0,
                gaps: 0,
                messages_missed: 0,
                bad_datagrams: 0,
                apply_errors: 0,
                apply_errors_after_gap: 0,
                joined_mid_stream: false,
            },
            next_expected: None,
            digest_interval,
            message_limit,
        }
    }

    pub fn books(&self) -> (r: &Books)
        ensures
            *r == self.book_set(),
            self.wf() ==> r.valid(),
    {
        &self.books
    }

    pub fn stats(&self) -> (r: HandlerStats)
        ensures
            r == self.tallies(),
            self.wf() ==> r.accounts(self.expects()),
    {
        self.stats
    }

    fn with_arm(&mut self, arm: Arm, t: ArmTally)
        ensures
            *final(self) == (Handler { stats: old(self).stats.with_arm(arm, t), ..*old(self) }),
    {
        match arm {
            Arm::A => self.stats.a = t,
            Arm::B => self.stats.b = t,
        }
    }

    fn arm(&self, arm: Arm) -> (r: ArmTally)
        ensures
            r == self.stats.arm(arm),
    {
        match arm {
            Arm::A => self.stats.a,
            Arm::B => self.stats.b,
        }
    }

    /// Counts a datagram of this many bytes.
    pub fn on_datagram(&mut self, arm: Arm, len: usize)
        requires
            old(self).wf(),
        ensures
            final(self).wf(),
            final(self).book_set() == old(self).book_set(),
            final(self).expects() == old(self).expects(),
            final(self).limits() == old(self).limits(),
            final(self).tallies() == old(self).tallies().received(arm, len),
    {
        let mut t = self.arm(arm);
        t.datagrams = t.datagrams.wrapping_add(1);
        self.with_arm(arm, t);
        self.stats.bytes = self.stats.bytes.wrapping_add(len as u64);
    }

    /// Counts a datagram, or the rest of one, that could not be read.
    pub fn on_bad_datagram(&mut self)
        requires
            old(self).wf(),
        ensures
            final(self).wf(),
            final(self).book_set() == old(self).book_set(),
            final(self).expects() == old(self).expects(),
            final(self).limits() == old(self).limits(),
            final(self).tallies() == (HandlerStats {
                bad_datagrams: wrapping_add(old(self).tallies().bad_datagrams, 1),
                ..old(self).tallies()
            }),
    {
        self.stats.bad_datagrams = self.stats.bad_datagrams.wrapping_add(1);
    }

    /// Takes a message that an arm brought: drops it if it came before, else counts
    /// what was missed before it and applies it.
    pub fn on_message(&mut self, arm: Arm, seq: u64, msg: &Message) -> (r: Arrival)
        requires
            old(self).wf(),
            seq < u64::MAX,
        ensures
            final(self).wf(),
            final(self).limits() == old(self).limits(),
            r is Duplicate <==> (old(self).expects() matches Some(e) && seq < e),
            r is Duplicate ==> {
                &&& final(self).book_set() == old(self).book_set()
                &&& final(self).expects() == old(self).expects()
                &&& final(self).tallies() == old(self).tallies().repeated(arm)
            },
            r matches Arrival::Taken { joined_late, missing, refused, checkpoint, done } ==> {
                let now = old(self).tallies().arrived(arm, old(self).expects(), seq).judged(
                    refused is None,
                ).traded(*msg);
                &&& final(self).tallies() == now
                &&& final(self).expects() == Some((seq + 1) as u64)
                &&& told(old(self).book_set(), *msg, final(self).book_set(), refusal(refused))
                &&& joined_late == (old(self).expects() is None && seq != 1)
                &&& missing == (match old(self).expects() {
                    Some(e) => seq - e,
                    None => 0,
                })
                &&& checkpoint == is_checkpoint(old(self).limits().0, seq)
                &&& done == (old(self).limits().1 > 0 && now.messages >= old(self).limits().1)
            },
    {
        let mut joined_late = false;
        let mut missing: u64 = 0;
        match self.next_expected {
            None => {
                if seq != 1 {
                    joined_late = true;
                    self.stats.joined_mid_stream = true;
                }
                self.stats.first_sequence = seq;
            },
            Some(expected) => {
                if seq < expected {
                    let mut t = self.arm(arm);
                    t.duplicates = t.duplicates.wrapping_add(1);
                    self.with_arm(arm, t);
                    return Arrival::Duplicate;
                }
                if seq > expected {
                    missing = seq - expected;
                    self.stats.gaps = self.stats.gaps + 1;
                    self.stats.messages_missed = self.stats.messages_missed + missing;
                }
            },
        }
        self.next_expected = Some(seq + 1);
        let mut t = self.arm(arm);
        t.first_arrivals = t.first_arrivals + 1;
        self.with_arm(arm, t);
        self.stats.messages = self.stats.messages + 1;
        self.stats.last_sequence = seq;
        assert(self.stats == old(self).stats.arrived(arm, old(self).next_expected, seq));
        let refused = match apply_message(&mut self.books, msg) {
            Ok(()) => None,
            Err(e) => Some(e),
        };
        if refused.is_some() {
            if self.stats.gaps == 0 && !self.stats.joined_mid_stream {
                self.stats.apply_errors = self.stats.apply_errors + 1;
            } else {
                self.stats.apply_errors_after_gap = self.stats.apply_errors_after_gap + 1;
            }
        }
        if let Message::Trade { quantity, .. } = msg {
            self.stats.trades = self.stats.trades + 1;
            self.stats.shares_traded = self.stats.shares_traded.wrapping_add(*quantity as u64);
        }
        let checkpoint = checkpoint_due(self.digest_interval, seq);
        let done = self.message_limit > 0 && self.stats.messages >= self.message_limit;
        Arrival::Taken { joined_late, missing, refused, checkpoint, done }
    }
}

/// Whether the feed has been silent for as long as is allowed; 0 allows any time.
pub fn idle_for_too_long(limit_nanos: u64, last_data: u64, now: u64) -> (r: bool)
    ensures
        r == (limit_nanos > 0 && now - last_data >= limit_nanos),
{
    limit_nanos > 0 && now >= last_data && now - last_data >= limit_nanos
}

/// What a message that is new counts for: one message, first on its arm, and whatever was
/// missing before it; as a trade of so many shares if it is one; and as one that did not
/// apply if it did not, apart from those that could not be expected to because messages had
/// been missed. Nothing else is counted.
pub proof fn law_new_message_is_counted_once(
    s: HandlerStats,
    arm: Arm,
    expected: Option<u64>,
    seq: u64,
    ok: bool,
    msg: Message,
)
    requires
        s.accounts(expected),
        seq < u64::MAX,
        expected matches Some(e) ==> e <= seq,
    ensures
        ({
            let n = s.arrived(arm, expected, seq).judged(ok).traded(msg);
            let missed = match expected {
                Some(e) => seq - e,
                None => 0,
            };
            let late = s.joined_mid_stream || (expected is None && seq != 1);
            let lossy = s.gaps > 0 || missed > 0 || late;
            &&& n.messages == s.messages + 1
            &&& n.messages_missed == s.messages_missed + missed
            &&& n.gaps == s.gaps + (if missed > 0 {
                1int
            } else {
                0
            })
            &&& n.joined_mid_stream == late
            &&& n.last_sequence == seq
            &&& n.first_sequence == (if expected is None {
                seq
            } else {
                s.first_sequence
            })
            &&& n.arm(arm).first_arrivals == s.arm(arm).first_arrivals + 1
            &&& n.arm(arm).duplicates == s.arm(arm).duplicates
            &&& n.arm(arm).datagrams == s.arm(arm).datagrams
            &&& arm is A ==> n.b == s.b
            &&& arm is B ==> n.a == s.a
            &&& n.apply_errors == s.apply_errors + (if !ok && !lossy {
                1int
            } else {
                0
            })
            &&& n.apply_errors_after_gap == s.apply_errors_after_gap + (if !ok && lossy {
                1int
            } else {
                0
            })
            &&& msg matches Message::Trade { quantity, .. } ==> n.trades == s.trades + 1
                && n.shares_traded == wrapping_add(s.shares_traded, quantity as u64)
            &&& !(msg is Trade) ==> n.trades == s.trades && n.shares_traded == s.shares_traded
            &&& n.bytes == s.bytes
            &&& n.bad_datagrams == s.bad_datagrams
        }),
{
}

/// A datagram counts on its arm with its bytes, and a message that came before as a
/// duplicate on its arm; neither counts for anything else.
pub proof fn law_datagram_and_duplicate_count_on_their_arm(s: HandlerStats, arm: Arm, len: usize)
    ensures
        ({
            let d = s.received(arm, len);
            let r = s.repeated(arm);
            &&& d.bytes == wrapping_add(s.bytes, len as u64)
            &&& d.arm(arm).datagrams == wrapping_add(s.arm(arm).datagrams, 1)
            &&& d.arm(arm).first_arrivals == s.arm(arm).first_arrivals
            &&& d.arm(arm).duplicates == s.arm(arm).duplicates
            &&& r.bytes == s.bytes
            &&& r.arm(arm).duplicates == wrapping_add(s.arm(arm).duplicates, 1)
            &&& r.arm(arm).first_arrivals == s.arm(arm).first_arrivals
            &&& r.arm(arm).datagrams == s.arm(arm).datagrams
            &&& arm is A ==> d.b == s.b && r.b == s.b && d.arm(arm) == d.a && r.arm(arm) == r.a
            &&& arm is B ==> d.a == s.a && r.a == s.a && d.arm(arm) == d.b && r.arm(arm) == r.b
            &&& d.messages == s.messages && r.messages == s.messages
            &&& d.last_sequence == s.last_sequence && r.last_sequence == s.last_sequence
            &&& d.gaps == s.gaps && r.gaps == s.gaps
            &&& d.messages_missed == s.messages_missed && r.messages_missed == s.messages_missed
            &&& d.trades == s.trades && r.trades == s.trades
            &&& d.shares_traded == s.shares_traded && r.shares_traded == s.shares_traded
        }),
{
}

/// A run is clean exactly if no message was missed, every datagram could be read, and every
/// message applied that could be expected to.
pub proof fn law_clean_run_lost_nothing(s: HandlerStats, expected: Option<u64>)
    requires
        s.accounts(expected),
    ensures
        s.is_clean() <==> s.messages_missed == 0 && s.bad_datagrams == 0 && s.apply_errors == 0,
{
}

/// The books are digested at every multiple of the interval, and never where there is none.
pub proof fn law_checkpoint_every_so_often(every: u64, seq: u64)
    ensures
        is_checkpoint(0, seq) == false,
        every > 0 ==> (is_checkpoint(every, seq) <==> exists|k: int|
            #[trigger] (k * every) == seq),
{
    if every > 0 {
        let e = every as int;
        let s = seq as int;
        vstd::arithmetic::div_mod::lemma_fundamental_div_mod(s, e);
        if seq % every == 0 {
            assert((s / e) * e == s) by (nonlinear_arith)
                requires
                    s == e * (s / e) + s % e,
                    s % e == 0,
            ;
            assert((s / e) * every == seq);
        }
        if exists|k: int| #[trigger] (k * every) == seq {
            let k = choose|k: int| #[trigger] (k * every) == seq;
            vstd::arithmetic::div_mod::lemma_mod_multiples_basic(k, e);
        }
    }
}

/// The summary of a run gives every figure under its own name.
pub proof fn law_summary_gives_every_figure(
    s: HandlerStats,
    digest: BookDigest,
    elapsed: Seq<char>,
)
    ensures
        ({
            let text = s.summary_text(digest, elapsed);
            &&& gives(text, "messages"@, decimal(s.messages as int))
            &&& gives(text, "first_sequence"@, decimal(s.first_sequence as int))
            &&& gives(text, "last_sequence"@, decimal(s.last_sequence as int))
            &&& gives(text, "gaps"@, decimal(s.gaps as int))
            &&& gives(text, "messages_missed"@, decimal(s.messages_missed as int))
            &&& gives(text, "bad_datagrams"@, decimal(s.bad_datagrams as int))
            &&& gives(text, "apply_errors"@, decimal(s.apply_errors as int))
            &&& gives(text, "apply_errors_after_gap"@, decimal(s.apply_errors_after_gap as int))
            &&& s.joined_mid_stream ==> gives(text, "joined_mid_stream"@, "true"@)
            &&& !s.joined_mid_stream ==> gives(text, "joined_mid_stream"@, "false"@)
            &&& gives(text, "datagrams_a"@, decimal(s.a.datagrams as int))
            &&& gives(text, "datagrams_b"@, decimal(s.b.datagrams as int))
            &&& gives(text, "first_arrivals_a"@, decimal(s.a.first_arrivals as int))
            &&& gives(text, "first_arrivals_b"@, decimal(s.b.first_arrivals as int))
            &&& gives(text, "duplicates_a"@, decimal(s.a.duplicates as int))
            &&& gives(text, "duplicates_b"@, decimal(s.b.duplicates as int))
            &&& gives(text, "bytes"@, decimal(s.bytes as int))
            &&& gives(text, "trades"@, decimal(s.trades as int))
            &&& gives(text, "shares_traded"@, decimal(s.shares_traded as int))
            &&& gives(text, "final_top"@, hex16(digest.top))
            &&& gives(text, "final_full"@, hex16(digest.full))
            &&& gives(text, "final_orders"@, decimal(digest.orders as int))
            &&& gives(text, "elapsed_seconds"@, elapsed)
        }),
{
    let text = s.summary_text(digest, elapsed);
    let joined = if s.joined_mid_stream {
        "true"@
    } else {
        "false"@
    };
    let r0 = Seq::<(Seq<char>, Seq<char>)>::empty();
    let r1 = r0.push(("messages"@, decimal(s.messages as int)));
    lemma_one_more(r0, "messages"@, decimal(s.messages as int));
    let r2 = r1.push(("first_sequence"@, decimal(s.first_sequence as int)));
    lemma_one_more(r1, "first_sequence"@, decimal(s.first_sequence as int));
    let r3 = r2.push(("last_sequence"@, decimal(s.last_sequence as int)));
    lemma_one_more(r2, "last_sequence"@, decimal(s.last_sequence as int));
    let r4 = r3.push(("gaps"@, decimal(s.gaps as int)));
    lemma_one_more(r3, "gaps"@, decimal(s.gaps as int));
    let r5 = r4.push(("messages_missed"@, decimal(s.messages_missed as int)));
    lemma_one_more(r4, "messages_missed"@, decimal(s.messages_missed as int));
    let r6 = r5.push(("bad_datagrams"@, decimal(s.bad_datagrams as int)));
    lemma_one_more(r5, "bad_datagrams"@, decimal(s.bad_datagrams as int));
    let r7 = r6.push(("apply_errors"@, decimal(s.apply_errors as int)));
    lemma_one_more(r6, "apply_errors"@, decimal(s.apply_errors as int));
    let r8 = r7.push(("apply_errors_after_gap"@, decimal(s.apply_errors_after_gap as int)));
    lemma_one_more(r7, "apply_errors_after_gap"@, decimal(s.apply_errors_after_gap as int));
    let r9 = r8.push(("joined_mid_stream"@, joined));
    lemma_one_more(r8, "joined_mid_stream"@, joined);
    assert(written(r9) =~= s.summary_counts());
    let r10 = r9.push(("datagrams_a"@, decimal(s.a.datagrams as int)));
    lemma_one_more(r9, "datagrams_a"@, decimal(s.a.datagrams as int));
    let r11 = r10.push(("datagrams_b"@, decimal(s.b.datagrams as int)));
    lemma_one_more(r10, "datagrams_b"@, decimal(s.b.datagrams as int));
    let r12 = r11.push(("first_arrivals_a"@, decimal(s.a.first_arrivals as int)));
    lemma_one_more(r11, "first_arrivals_a"@, decimal(s.a.first_arrivals as int));
    let r13 = r12.push(("first_arrivals_b"@, decimal(s.b.first_arrivals as int)));
    lemma_one_more(r12, "first_arrivals_b"@, decimal(s.b.first_arrivals as int));
    let r14 = r13.push(("duplicates_a"@, decimal(s.a.duplicates as int)));
    lemma_one_more(r13, "duplicates_a"@, decimal(s.a.duplicates as int));
    let r15 = r14.push(("duplicates_b"@, decimal(s.b.duplicates as int)));
    lemma_one_more(r14, "duplicates_b"@, decimal(s.b.duplicates as int));
    let r16 = r15.push(("bytes"@, decimal(s.bytes as int)));
    lemma_one_more(r15, "bytes"@, decimal(s.bytes as int));
    let r17 = r16.push(("trades"@, decimal(s.trades as int)));
    lemma_one_more(r16, "trades"@, decimal(s.trades as int));
    let r18 = r17.push(("shares_traded"@, decimal(s.shares_traded as int)));
    lemma_one_more(r17, "shares_traded"@, decimal(s.shares_traded as int));
    assert(written(r18) =~= s.summary_counts() + s.summary_arms());
    let r19 = r18.push(("final_top"@, hex16(digest.top)));
    lemma_one_more(r18, "final_top"@, hex16(digest.top));
    let r20 = r19.push(("final_full"@, hex16(digest.full)));
    lemma_one_more(r19, "final_full"@, hex16(digest.full));
    let r21 = r20.push(("final_orders"@, decimal(digest.orders as int)));
    lemma_one_more(r20, "final_orders"@, decimal(digest.orders as int));
    let r22 = r21.push(("elapsed_seconds"@, elapsed));
    lemma_one_more(r21, "elapsed_seconds"@, elapsed);
    assert(written(r22) =~= text);
    law_each_row_is_given(text, r22);
    assert(r22[0] == ("messages"@, decimal(s.messages as int)));
    assert(r22[1] == ("first_sequence"@, decimal(s.first_sequence as int)));
    assert(r22[2] == ("last_sequence"@, decimal(s.last_sequence as int)));
    assert(r22[3] == ("gaps"@, decimal(s.gaps as int)));
    assert(r22[4] == ("messages_missed"@, decimal(s.messages_missed as int)));
    assert(r22[5] == ("bad_datagrams"@, decimal(s.bad_datagrams as int)));
    assert(r22[6] == ("apply_errors"@, decimal(s.apply_errors as int)));
    assert(r22[7] == ("apply_errors_after_gap"@, decimal(s.apply_errors_after_gap as int)));
    assert(r22[8] == ("joined_mid_stream"@, joined));
    assert(r22[9] == ("datagrams_a"@, decimal(s.a.datagrams as int)));
    assert(r22[10] == ("datagrams_b"@, decimal(s.b.datagrams as int)));
    assert(r22[11] == ("first_arrivals_a"@, decimal(s.a.first_arrivals as int)));
    assert(r22[12] == ("first_arrivals_b"@, decimal(s.b.first_arrivals as int)));
    assert(r22[13] == ("duplicates_a"@, decimal(s.a.duplicates as int)));
    assert(r22[14] == ("duplicates_b"@, decimal(s.b.duplicates as int)));
    assert(r22[15] == ("bytes"@, decimal(s.bytes as int)));
    assert(r22[16] == ("trades"@, decimal(s.trades as int)));
    assert(r22[17] == ("shares_traded"@, decimal(s.shares_traded as int)));
    assert(r22[18] == ("final_top"@, hex16(digest.top)));
    assert(r22[19] == ("final_full"@, hex16(digest.full)));
    assert(r22[20] == ("final_orders"@, decimal(digest.orders as int)));
    assert(r22[21] == ("elapsed_seconds"@, elapsed));
}

} // verus!
