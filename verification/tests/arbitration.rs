use mdstack::arbitration::{Accepted, Arbitrator, FeedState, Gap};
use mdstack::message::PacketHeader;

/// A datagram carrying `count` messages starting at `first`.
fn datagram(first: u64, count: u16, channel: u8) -> (Option<PacketHeader>, Vec<u8>) {
    let mut bytes = vec![channel];
    bytes.extend(first.to_le_bytes());
    bytes.extend(vec![0x11; 32 * usize::from(count)]);
    (
        Some(PacketHeader { first_sequence: first, message_count: count, snapshot: false }),
        bytes,
    )
}

/// Feeds datagrams and collects every sequence actually delivered, in order.
struct Harness {
    arb: Arbitrator,
    delivered: Vec<u64>,
}

impl Harness {
    fn new(window: usize) -> Self {
        Self {
            arb: Arbitrator::new(window, 4096),
            delivered: Vec::new(),
        }
    }

    fn feed(&mut self, arm: u8, d: &(Option<PacketHeader>, Vec<u8>)) -> Accepted {
        let outcome = self.arb.accept(arm, d.0, &d.1);
        if let Accepted::Ready {
            first_sequence,
            count,
        } = outcome
        {
            for i in 0..u64::from(count) {
                self.delivered.push(first_sequence + i);
            }
        }
        self.drain();
        outcome
    }

    fn drain(&mut self) {
        for d in self.arb.drain_ready() {
            for i in 0..u64::from(d.count) {
                self.delivered.push(d.first_sequence + i);
            }
        }
    }
}

#[test]
fn the_second_arm_is_a_duplicate_when_the_first_already_delivered() {
    let mut h = Harness::new(8);
    let d = datagram(1, 4, 0);
    assert!(matches!(h.feed(0, &d), Accepted::Ready { .. }));
    assert_eq!(h.feed(1, &datagram(1, 4, 1)), Accepted::Duplicate);
    assert_eq!(h.delivered, vec![1, 2, 3, 4]);
    assert_eq!(h.arb.arm(0).datagrams_first, 1);
    assert_eq!(h.arb.arm(1).datagrams_duplicate, 1);
    assert_eq!(h.arb.state(), FeedState::Live);
}

#[test]
fn a_datagram_lost_on_one_arm_is_recovered_from_the_other() {
    // The case the whole mechanism exists for, and the one that
    // naive logic gets wrong: the replacement arrives *after* datagrams the
    // surviving arm already delivered.
    let mut h = Harness::new(8);
    h.feed(0, &datagram(1, 4, 0)); // A delivers 1..4
                                   // A drops 5..8. A runs ahead:
    assert_eq!(h.feed(0, &datagram(9, 4, 0)), Accepted::Buffered);
    assert_eq!(h.delivered, vec![1, 2, 3, 4], "9..12 must wait");
    // B's copy of 5..8 turns up late.
    assert!(matches!(
        h.feed(1, &datagram(5, 4, 1)),
        Accepted::Ready { .. }
    ));
    assert_eq!(
        h.delivered,
        vec![1, 2, 3, 4, 5, 6, 7, 8, 9, 10, 11, 12],
        "the buffered datagram must be released behind the late one"
    );
    assert_eq!(h.arb.state(), FeedState::Live, "late is not lost");
    assert!(h.arb.gaps().is_empty());
}

#[test]
fn many_datagrams_can_wait_behind_one_hole() {
    let mut h = Harness::new(16);
    h.feed(0, &datagram(1, 4, 0));
    for i in 0..10 {
        let first = 9 + i * 4;
        assert_eq!(h.feed(0, &datagram(first, 4, 0)), Accepted::Buffered);
    }
    assert_eq!(h.delivered.len(), 4, "everything is stuck behind the hole");
    h.feed(1, &datagram(5, 4, 1));
    assert_eq!(
        h.delivered,
        (1..=48).collect::<Vec<u64>>(),
        "one late datagram releases all ten"
    );
    assert!(h.arb.gaps().is_empty());
}

#[test]
fn a_full_window_declares_the_hole_lost_and_names_the_range() {
    let mut h = Harness::new(4);
    h.feed(0, &datagram(1, 4, 0)); // delivered 1..4
                                   // 5..8 lost on both arms. A keeps going.
    for i in 0..4 {
        let first = 9 + i * 4;
        assert_eq!(h.feed(0, &datagram(first, 4, 0)), Accepted::Buffered);
    }
    // The window is full; the next one forces a decision.
    let outcome = h.feed(0, &datagram(25, 4, 0));
    let Accepted::ForcedGap(gap) = outcome else {
        panic!("expected a forced gap, got {outcome:?}")
    };
    assert_eq!(
        gap,
        Gap {
            from: 5,
            through: 8
        },
        "the range must be named"
    );
    assert_eq!(gap.messages(), 4);
    assert_eq!(h.arb.state(), FeedState::Gapped);
    assert_eq!(h.arb.messages_missed(), 4);
    assert_eq!(
        h.delivered,
        (1..=4).chain(9..=28).collect::<Vec<u64>>(),
        "5..8 is skipped, and skipped exactly once"
    );
}

#[test]
fn a_quiet_feed_with_an_outstanding_hole_can_be_told_to_give_up() {
    let mut h = Harness::new(8);
    h.feed(0, &datagram(1, 4, 0));
    h.feed(0, &datagram(9, 4, 0));
    assert_eq!(h.arb.state(), FeedState::Live, "still hoping");
    let gap = h.arb.declare_gap_if_stalled().expect("a hole is open");
    assert_eq!(
        gap,
        Gap {
            from: 5,
            through: 8
        }
    );
    assert_eq!(h.arb.state(), FeedState::Gapped);
    // And the buffered datagram is released on the next drain.
    h.drain();
    assert_eq!(h.delivered, vec![1, 2, 3, 4, 9, 10, 11, 12]);
}

#[test]
fn nothing_to_give_up_on_when_the_stream_is_contiguous() {
    let mut h = Harness::new(8);
    h.feed(0, &datagram(1, 4, 0));
    assert_eq!(h.arb.declare_gap_if_stalled(), None);
    assert_eq!(h.arb.state(), FeedState::Live);
}

#[test]
fn the_stream_can_start_anywhere() {
    // Joining mid-stream is not a gap: there is no evidence anything was
    // lost, only that we were not listening.
    let mut h = Harness::new(8);
    h.feed(0, &datagram(5_000, 4, 0));
    assert_eq!(h.arb.first_sequence(), 5_000);
    assert_eq!(h.arb.state(), FeedState::Live);
    assert!(h.arb.gaps().is_empty());
    assert_eq!(h.delivered, vec![5_000, 5_001, 5_002, 5_003]);
}

#[test]
fn a_malformed_datagram_is_counted_and_dropped() {
    let mut h = Harness::new(8);
    assert!(matches!(h.feed(0, &(None, vec![0u8; 4])), Accepted::Malformed));
    assert_eq!(h.arb.arm(0).malformed, 1);
    assert_eq!(h.arb.state(), FeedState::Syncing, "nothing was delivered");
}

#[test]
fn both_arms_holding_the_same_out_of_order_datagram_buffer_it_once() {
    let mut h = Harness::new(8);
    h.feed(0, &datagram(1, 4, 0));
    assert_eq!(h.feed(0, &datagram(9, 4, 0)), Accepted::Buffered);
    assert_eq!(
        h.feed(1, &datagram(9, 4, 1)),
        Accepted::Duplicate,
        "the same datagram from the other arm must not take a second slot"
    );
    assert_eq!(h.arb.max_window_used(), 1);
}

#[test]
fn delivered_counts_never_double_count_a_message() {
    let mut h = Harness::new(8);
    for round in 0..50u64 {
        let first = 1 + round * 4;
        h.feed(0, &datagram(first, 4, 0));
        h.feed(1, &datagram(first, 4, 1));
    }
    assert_eq!(h.arb.messages_delivered(), 200);
    assert_eq!(h.delivered.len(), 200);
    assert_eq!(h.delivered, (1..=200).collect::<Vec<u64>>());
}

#[test]
fn a_delivery_hands_back_the_bytes_that_were_held() {
    let mut h = Harness::new(8);
    h.feed(0, &datagram(1, 4, 0));
    let held = datagram(9, 2, 0);
    assert_eq!(h.feed(0, &held), Accepted::Buffered);
    let late = datagram(5, 4, 1);
    assert!(matches!(h.arb.accept(1, late.0, &late.1), Accepted::Ready { .. }));
    let out = h.arb.drain_ready();
    assert_eq!(out.len(), 1);
    assert_eq!((out[0].first_sequence, out[0].count), (9, 2));
    assert_eq!(out[0].bytes, held.1);
    assert_eq!(h.arb.next_expected(), 11);
}

#[test]
fn a_gap_says_its_range_in_words() {
    assert_eq!(Gap { from: 5, through: 8 }.describe(), "5..=8 (4 messages)");
    assert_eq!(FeedState::Syncing.as_str(), "SYNCING");
    assert_eq!(FeedState::Live.as_str(), "LIVE");
    assert_eq!(FeedState::Gapped.as_str(), "GAPPED");
}

#[test]
fn a_resync_moves_past_what_a_snapshot_covers() {
    let mut h = Harness::new(8);
    h.feed(0, &datagram(1, 4, 0));
    h.feed(0, &datagram(9, 4, 0));
    h.arb.resync_to(13);
    assert_eq!(h.arb.next_expected(), 13);
    assert!(matches!(h.feed(0, &datagram(13, 4, 0)), Accepted::Ready { .. }));
}

#[test]
fn gaps_are_counted_and_the_window_is_at_least_one() {
    let mut h = Harness::new(0);
    assert_eq!(h.arb.window_capacity(), 1);
    h.feed(0, &datagram(1, 4, 0));
    h.feed(0, &datagram(9, 4, 0));
    h.feed(0, &datagram(17, 4, 0));
    assert_eq!(h.arb.gap_count(), 1);
    assert_eq!(h.arb.gaps()[0], Gap { from: 5, through: 8 });
    assert_eq!(h.arb.last_delivered(), 12);
}

#[test]
fn an_overlap_counts_only_what_is_new_in_it() {
    let mut a = Arbitrator::new(8, 4096);
    let (x, y) = (datagram(1, 4, 0), datagram(3, 4, 1));
    assert!(matches!(a.accept(0, x.0, &x.1), Accepted::Ready { .. }));
    assert!(matches!(a.accept(1, y.0, &y.1), Accepted::Ready { .. }));
    assert_eq!(a.arm(0).messages_first, 4);
    assert_eq!(a.arm(1).messages_first, 2);
    assert_eq!(a.messages_delivered(), 6);
}

#[test]
fn a_full_window_that_was_not_drained_makes_no_second_gap() {
    let mut a = Arbitrator::new(1, 4096);
    let [d1, d9, d13, d17] = [1, 9, 13, 17].map(|first| datagram(first, 4, 0));
    assert!(matches!(a.accept(0, d1.0, &d1.1), Accepted::Ready { .. }));
    assert_eq!(a.accept(0, d9.0, &d9.1), Accepted::Buffered);
    assert_eq!(
        a.accept(0, d13.0, &d13.1),
        Accepted::ForcedGap(Gap { from: 5, through: 8 })
    );
    assert_eq!(a.accept(0, d17.0, &d17.1), Accepted::Dropped);
    assert_eq!(a.arm(0).dropped_window_full, 1);
    assert_eq!(a.next_expected(), 9);
    assert!(a.gaps().iter().all(|g| g.from <= g.through));
    assert_eq!(a.messages_missed(), 4);
    let out = a.drain_ready();
    assert_eq!(out.len(), 2);
    assert_eq!(a.next_expected(), 17);
}

#[test]
fn a_hole_is_given_up_once() {
    let mut a = Arbitrator::new(8, 4096);
    let (x, y) = (datagram(1, 4, 0), datagram(9, 4, 0));
    assert!(matches!(a.accept(0, x.0, &x.1), Accepted::Ready { .. }));
    assert_eq!(a.accept(0, y.0, &y.1), Accepted::Buffered);
    assert_eq!(a.declare_gap_if_stalled(), Some(Gap { from: 5, through: 8 }));
    assert_eq!(a.declare_gap_if_stalled(), None);
    assert_eq!(*a.gaps(), vec![Gap { from: 5, through: 8 }]);
    assert_eq!(a.messages_missed(), 4);
}

#[test]
fn what_one_arm_loses_the_other_brings() {
    let mut h = Harness::new(8);
    // Each arm loses every other datagram, and the second comes late.
    h.feed(0, &datagram(1, 4, 0));
    h.feed(0, &datagram(9, 4, 0));
    h.feed(0, &datagram(17, 4, 0));
    h.feed(1, &datagram(5, 4, 1));
    h.feed(1, &datagram(13, 4, 1));
    assert_eq!(h.delivered, (1..=20).collect::<Vec<u64>>());
    assert_eq!(h.arb.gap_count(), 0);
    assert_eq!(h.arb.messages_delivered(), 20);
}

#[test]
fn the_datagram_that_forces_a_gap_is_handed_out_in_its_turn() {
    let mut a = Arbitrator::new(1, 4096);
    let (x, y, z) = (datagram(1, 4, 0), datagram(9, 4, 0), datagram(7, 8, 1));
    assert!(matches!(a.accept(0, x.0, &x.1), Accepted::Ready { .. }));
    assert_eq!(a.accept(0, y.0, &y.1), Accepted::Buffered);
    assert_eq!(
        a.accept(1, z.0, &z.1),
        Accepted::ForcedGap(Gap { from: 5, through: 8 })
    );
    assert_eq!(a.next_expected(), 9);
    let out = a.drain_ready();
    let ranges: Vec<(u64, u16)> = out.iter().map(|d| (d.first_sequence, d.count)).collect();
    assert_eq!(ranges, vec![(9, 4), (7, 8)]);
    assert_eq!(out[1].bytes, z.1);
    assert_eq!(a.next_expected(), 15);
    assert_eq!((a.messages_delivered(), a.messages_missed()), (10, 4));
    assert_eq!((a.arm(0).messages_first, a.arm(1).messages_first), (8, 2));
}

#[test]
fn a_recovery_begins_a_new_stretch() {
    let mut h = Harness::new(8);
    h.feed(0, &datagram(1, 4, 0));
    h.feed(0, &datagram(9, 4, 0));
    assert_eq!(h.arb.declare_gap_if_stalled(), Some(Gap { from: 5, through: 8 }));
    assert_eq!(h.arb.state(), FeedState::Gapped);
    h.drain();
    h.arb.resync_to(100);
    assert_eq!(h.arb.state(), FeedState::Live, "no gap since the recovery");
    assert_eq!((h.arb.gap_count(), h.arb.messages_missed()), (1, 4));
    h.feed(0, &datagram(100, 2, 0));
    assert_eq!(h.arb.state(), FeedState::Live);
    h.feed(0, &datagram(105, 2, 0));
    h.arb.declare_gap_if_stalled();
    h.drain();
    assert_eq!(h.arb.state(), FeedState::Gapped);
    // What is missed is what the gaps cover, those from before the recovery too.
    assert_eq!(h.arb.messages_missed(), 4 + 3);
    assert_eq!(h.arb.gaps().iter().map(|g| g.through - g.from + 1).sum::<u64>(), 7);
    assert_eq!(h.delivered, vec![1, 2, 3, 4, 9, 10, 11, 12, 100, 101, 105, 106]);
}
