//! Does a handler that lost messages get back to a book it can trust?

use mdstack::apply::{apply_message, apply_snapshot};
use mdstack::arbitration::{Accepted, Arbitrator};
use mdstack::books::Books;
use mdstack::digest::BookDigest;
use mdstack::message::{Message, PacketHeader, Side, Snapshot, SnapshotOrder};
use mdstack::recovery::{RecoveryBuffer, RecoveryFailure};
use mdstack::view::BookSet;

const BATCH: u16 = 8;
const MILLI: u64 = 1_000_000;

/// A datagram of adds: what its header says, and a body that holds the orders.
type Packet = (Option<PacketHeader>, Vec<u8>);

/// Reads the adds out of a datagram's body, each with its sequence.
fn messages(bytes: &[u8]) -> Vec<(u64, Message)> {
    let word = |at: usize| {
        let mut b = [0u8; 8];
        b.copy_from_slice(&bytes[at..at + 8]);
        u64::from_le_bytes(b)
    };
    let mut out = Vec::new();
    let mut at = 8;
    while at < bytes.len() {
        let seq = word(0) + out.len() as u64;
        out.push((
            seq,
            Message::AddOrder {
                order_id: word(at),
                price: word(at + 8) as i64,
                quantity: word(at + 16) as u32,
                symbol_id: 7,
                side: Some(Side::Bid),
            },
        ));
        at += 24;
    }
    out
}

/// A publisher that also keeps the book it is describing, so a snapshot can be
/// produced from it at any point.
struct Feed {
    books: Books,
    next_seq: u64,
    next_order: u64,
}

impl Feed {
    fn new() -> Self {
        Self {
            books: Books::new(),
            next_seq: 1,
            next_order: 1,
        }
    }

    /// One datagram of `BATCH` AddOrders, applied to the publisher's own book.
    fn next_datagram(&mut self) -> Packet {
        let first = self.next_seq;
        let mut body = first.to_le_bytes().to_vec();
        for i in 0..BATCH {
            let id = self.next_order;
            self.next_order += 1;
            let price = 1_000_000 + i64::from(i % 5) * 100;
            body.extend(id.to_le_bytes());
            body.extend(price.to_le_bytes());
            body.extend(10u64.to_le_bytes());
            self.books
                .get_or_create(7)
                .add(id, Side::Bid, price, 10)
                .unwrap();
        }
        self.next_seq += u64::from(BATCH);
        (
            Some(PacketHeader { first_sequence: first, message_count: BATCH, snapshot: false }),
            body,
        )
    }

    /// A single-fragment snapshot of the whole book, as of everything published.
    fn snapshot(&self) -> Snapshot {
        let mut orders = Vec::new();
        if let Some(b) = self.books.get(7) {
            for side in [Side::Bid, Side::Ask] {
                for o in b.orders_in_queue_order(side) {
                    orders.push(SnapshotOrder {
                        order_id: o.order_id,
                        price: o.price,
                        quantity: o.quantity,
                        side: Some(o.side),
                    });
                }
            }
        }
        Snapshot { last_sequence: self.next_seq - 1, symbol_id: 7, orders }
    }
}

/// A consumer: arbitrator, recovery buffer, and the book being rebuilt.
struct Consumer {
    arb: Arbitrator,
    rec: RecoveryBuffer,
    books: Books,
}

impl Consumer {
    fn new() -> Self {
        Self {
            arb: Arbitrator::new(64, 4096),
            rec: RecoveryBuffer::new(512, 4096, 30_000 * MILLI),
            books: Books::new(),
        }
    }

    fn apply_datagram(books: &mut Books, bytes: &[u8], skip_below: u64) {
        for (seq, msg) in messages(bytes) {
            if seq < skip_below {
                continue;
            }
            apply_message(books, &msg).unwrap();
        }
    }

    fn offer(&mut self, arm: u8, d: &Packet, now: u64) -> Result<(), RecoveryFailure> {
        let bytes = &d.1;
        match self.arb.accept(arm, d.0, bytes) {
            Accepted::Ready {
                first_sequence,
                count,
            } => {
                if self.rec.is_recovering() {
                    self.rec.hold(first_sequence, count, bytes)?;
                } else {
                    Self::apply_datagram(&mut self.books, bytes, 0);
                }
            }
            Accepted::ForcedGap(gap) => self.rec.begin(gap.from, now),
            _ => {}
        }

        for d in self.arb.drain_ready() {
            if self.rec.is_recovering() {
                self.rec.hold(d.first_sequence, d.count, &d.bytes)?;
            } else {
                Self::apply_datagram(&mut self.books, &d.bytes, 0);
            }
        }
        Ok(())
    }

    /// Feeds a snapshot and, if it closes the gap, replays the held traffic.
    fn offer_snapshot(&mut self, d: &Snapshot, now: u64) -> bool {
        if !self.rec.is_recovering() {
            return false;
        }
        if !self.rec.snapshot_is_usable(d.last_sequence) {
            return false;
        }
        self.books.clear_all();
        apply_snapshot(&mut self.books, d).unwrap();

        let last = d.last_sequence;
        self.rec.adopt_snapshot(last);
        self.arb.resync_to(last + 1);

        for r in self.rec.replay().0 {
            Self::apply_datagram(&mut self.books, &r.bytes, r.skip_below);
        }
        self.rec.complete(now);
        true
    }

    /// What the handler does when the feed goes quiet with a hole outstanding.
    ///
    /// A gap is normally forced by the reorder window filling, which needs a lot
    /// of subsequent traffic. When a burst simply ends — or the publisher pauses
    /// — the hole is found this way instead, and the real receive loop calls it
    /// after `gap_timeout_millis` of silence.
    fn quiesce(&mut self, now: u64) {
        if let Some(gap) = self.arb.declare_gap_if_stalled() {
            self.rec.begin(gap.from, now);
        }
        for d in self.arb.drain_ready() {
            if self.rec.is_recovering() {
                let _ = self.rec.hold(d.first_sequence, d.count, &d.bytes);
            } else {
                Self::apply_datagram(&mut self.books, &d.bytes, 0);
            }
        }
    }

    fn is_recovering(&self) -> bool {
        self.rec.is_recovering()
    }
}

/// The headline: a range lost on both arms, then a snapshot puts the book back.
#[test]
fn a_gap_is_recovered_and_the_book_matches_the_publisher_exactly() {
    let mut feed = Feed::new();
    let mut c = Consumer::new();
    let t0 = 1_000 * MILLI;

    for _ in 0..20 {
        let d = feed.next_datagram();
        c.offer(0, &d, t0).unwrap();
        c.offer(1, &d, t0).unwrap();
    }
    assert_eq!(
        BookDigest::of(&c.books),
        BookDigest::of(&feed.books),
        "a clean stream should already agree"
    );

    // One datagram lost on BOTH arms. Redundancy cannot help.
    let _lost = feed.next_datagram();

    // More live traffic arrives, which forces the gap to be noticed and then has
    // to be held rather than applied.
    for _ in 0..10 {
        let d = feed.next_datagram();
        c.offer(0, &d, t0).unwrap();
        c.offer(1, &d, t0).unwrap();
    }
    c.quiesce(t0);
    assert!(c.is_recovering(), "a double loss must start a recovery");
    assert_ne!(
        BookDigest::of(&c.books),
        BookDigest::of(&feed.books),
        "while recovering, the book is knowingly behind"
    );

    let snap = feed.snapshot();
    assert!(
        c.offer_snapshot(&snap, t0 + 50 * MILLI),
        "the snapshot must be usable"
    );

    assert!(!c.is_recovering(), "recovery should be complete");
    assert_eq!(
        BookDigest::of(&c.books),
        BookDigest::of(&feed.books),
        "the recovered book must be the publisher's book, exactly"
    );
    c.books.check_invariants().unwrap();
}

/// Both arms dark for a while.
#[test]
fn a_blackout_on_both_arms_is_recovered_from() {
    let mut feed = Feed::new();
    let mut c = Consumer::new();
    let t0 = 1_000 * MILLI;

    for _ in 0..10 {
        let d = feed.next_datagram();
        c.offer(0, &d, t0).unwrap();
        c.offer(1, &d, t0).unwrap();
    }

    // Nothing reaches the consumer at all for a long stretch: 200 datagrams,
    // 1600 messages, gone on both arms. A total outage, not packet loss — no
    // amount of redundancy addresses it.
    for _ in 0..200 {
        let _ = feed.next_datagram();
    }

    for _ in 0..5 {
        let d = feed.next_datagram();
        c.offer(0, &d, t0).unwrap();
        c.offer(1, &d, t0).unwrap();
    }
    c.quiesce(t0);
    assert!(c.is_recovering(), "a blackout must be noticed");

    let snap = feed.snapshot();
    assert!(c.offer_snapshot(&snap, t0 + 120 * MILLI));

    assert!(!c.is_recovering());
    assert_eq!(
        BookDigest::of(&c.books),
        BookDigest::of(&feed.books),
        "1600 missed messages must not leave a trace once the snapshot lands"
    );
    assert_eq!(
        c.books.total_orders(),
        feed.books.total_orders(),
        "including the orders that rested entirely during the blackout"
    );
}

/// A snapshot older than the gap cannot close it and must be refused.
#[test]
fn a_snapshot_from_before_the_gap_is_refused_rather_than_adopted() {
    let mut feed = Feed::new();
    let mut c = Consumer::new();
    let t0 = 1_000 * MILLI;

    for _ in 0..5 {
        let d = feed.next_datagram();
        c.offer(0, &d, t0).unwrap();
    }
    // Taken here, so it reflects the book as of sequence 40.
    let stale = feed.snapshot();

    // More traffic arrives and is applied, so the consumer is now AHEAD of the
    // snapshot. Only then does a loss occur. A snapshot from before the messages
    // the consumer already has is the genuinely useless case: adopting it would
    // discard good state and still leave the hole.
    for _ in 0..3 {
        let d = feed.next_datagram();
        c.offer(0, &d, t0).unwrap();
    }
    let _lost = feed.next_datagram();
    for _ in 0..5 {
        let d = feed.next_datagram();
        c.offer(0, &d, t0).unwrap();
    }
    c.quiesce(t0);
    assert!(c.is_recovering());

    assert!(
        !c.offer_snapshot(&stale, t0),
        "a snapshot predating the gap leaves the hole and destroys good state"
    );
    assert!(c.is_recovering(), "and recovery must still be outstanding");

    let fresh = feed.snapshot();
    assert!(c.offer_snapshot(&fresh, t0));
    assert_eq!(BookDigest::of(&c.books), BookDigest::of(&feed.books));
}

/// Recovery has a failure mode, and it is reported rather than hung on.
#[test]
fn a_recovery_that_never_gets_a_snapshot_fails_instead_of_hanging() {
    let mut feed = Feed::new();
    let mut c = Consumer::new();
    // A buffer far too small for the traffic that will arrive.
    c.rec = RecoveryBuffer::new(4, 4096, 50 * MILLI);
    let t0 = 1_000 * MILLI;

    for _ in 0..3 {
        let d = feed.next_datagram();
        c.offer(0, &d, t0).unwrap();
    }
    let _lost = feed.next_datagram();

    // The arbitrator cannot know anything is missing until traffic past the hole
    // arrives, so offer some first, then let the feed go quiet to declare it.
    for _ in 0..2 {
        let d = feed.next_datagram();
        c.offer(0, &d, t0).unwrap();
    }
    c.quiesce(t0);
    assert!(
        c.is_recovering(),
        "the gap must be open before the buffer can fill"
    );

    let mut failed = false;
    for _ in 0..40 {
        let d = feed.next_datagram();
        if c.offer(0, &d, t0).is_err() {
            failed = true;
            break;
        }
    }
    assert!(
        failed,
        "a buffer that cannot hold the traffic must report failure, not grow"
    );

    // The deadline is the other way it ends.
    let mut c2 = Consumer::new();
    c2.rec = RecoveryBuffer::new(512, 4096, 10 * MILLI);
    c2.rec.begin(1, t0);
    assert!(c2
        .rec
        .check_deadline(t0 + 50 * MILLI)
        .is_err());
}

/// Queue order has to survive the round trip, or price-time priority is a lie.
#[test]
fn recovery_restores_queue_position_not_just_quantity() {
    let mut feed = Feed::new();
    let mut c = Consumer::new();
    let t0 = 1_000 * MILLI;

    for _ in 0..12 {
        let d = feed.next_datagram();
        c.offer(0, &d, t0).unwrap();
        c.offer(1, &d, t0).unwrap();
    }
    let _lost = feed.next_datagram();
    for _ in 0..5 {
        let d = feed.next_datagram();
        c.offer(0, &d, t0).unwrap();
        c.offer(1, &d, t0).unwrap();
    }

    c.quiesce(t0);
    let snap = feed.snapshot();
    assert!(c.offer_snapshot(&snap, t0));

    // The front of each price level must be the same order on both sides. The
    // digest already covers this; stating it directly is what makes the failure
    // legible when it breaks.
    for side in [Side::Bid, Side::Ask] {
        assert_eq!(
            c.books.get(7).map(|b| b.front(side)),
            feed.books.get(7).map(|b| b.front(side)),
            "the front of the {side:?} queue must be the same order"
        );
    }
}

/// A clean stream must never enter recovery.
#[test]
fn a_lossless_stream_never_recovers_and_never_needs_to() {
    let mut feed = Feed::new();
    let mut c = Consumer::new();
    let t0 = 1_000 * MILLI;

    for _ in 0..100 {
        let d = feed.next_datagram();
        c.offer(0, &d, t0).unwrap();
        c.offer(1, &d, t0).unwrap();
    }
    c.quiesce(t0);
    assert!(!c.is_recovering(), "a quiet period must not invent a gap");
    assert_eq!(c.rec.stats().attempts, 0);
    assert_eq!(BookDigest::of(&c.books), BookDigest::of(&feed.books));
}
