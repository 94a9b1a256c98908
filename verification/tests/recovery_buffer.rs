use mdstack::recovery::{Recovery, RecoveryBuffer, RecoveryFailure};

const MILLI: u64 = 1_000_000;

fn buffer() -> RecoveryBuffer {
    RecoveryBuffer::new(8, 256, 500 * MILLI)
}

#[test]
fn a_fresh_buffer_is_idle() {
    let b = buffer();
    assert_eq!(b.state(), Recovery::Idle);
    assert!(!b.is_recovering());
}

#[test]
fn beginning_twice_does_not_restart_the_clock() {
    // A stream losing messages steadily would otherwise never time out and
    // never report failure.
    let mut b = buffer();
    let t0 = 7_000 * MILLI;
    b.begin(100, t0);
    b.begin(200, t0 + 400 * MILLI);
    assert_eq!(b.state(), Recovery::AwaitingSnapshot { gap_from: 100 });
    assert_eq!(b.stats().attempts, 1);
    assert!(b.check_deadline(t0 + 600 * MILLI).is_err());
}

#[test]
fn the_buffer_is_bounded() {
    let mut b = RecoveryBuffer::new(2, 64, 1000 * MILLI);
    b.begin(10, 7_000 * MILLI);
    assert!(b.hold(10, 4, &[0u8; 32]).is_ok());
    assert!(b.hold(14, 4, &[0u8; 32]).is_ok());
    assert_eq!(
        b.hold(18, 4, &[0u8; 32]),
        Err(RecoveryFailure::BufferFull { capacity: 2 })
    );
}

#[test]
fn a_stale_snapshot_is_refused() {
    // It reflects a point before the missing messages, so adopting it would
    // discard good state and still leave the hole.
    let mut b = buffer();
    b.begin(1_000, 7_000 * MILLI);
    assert!(!b.snapshot_is_usable(500), "500 is well before the gap");
    assert!(!b.snapshot_is_usable(998), "998 still misses sequence 999");
    assert!(
        b.snapshot_is_usable(999),
        "999 covers everything before the gap"
    );
    assert!(b.snapshot_is_usable(5_000), "a later snapshot is fine too");
}

#[test]
fn replay_skips_what_the_snapshot_already_covered() {
    let mut b = buffer();
    b.begin(100, 7_000 * MILLI);
    // Live traffic kept arriving while we waited.
    b.hold(100, 10, &[1u8; 32]).unwrap();
    b.hold(110, 10, &[2u8; 32]).unwrap();
    b.hold(120, 10, &[3u8; 32]).unwrap();

    // The snapshot reflects everything through 109.
    b.adopt_snapshot(109);
    let (out, replayed) = b.replay();
    let seen: Vec<u64> = out.iter().map(|r| r.skip_below).collect();

    assert_eq!(
        seen.len(),
        2,
        "the datagram the snapshot fully covers must not be replayed at all"
    );
    assert_eq!(replayed, 20);
    assert_eq!(b.stats().messages_skipped, 10);
}

#[test]
fn replay_delivers_everything_when_the_snapshot_predates_the_buffer() {
    let mut b = buffer();
    b.begin(100, 7_000 * MILLI);
    b.hold(100, 10, &[1u8; 32]).unwrap();
    b.hold(110, 10, &[2u8; 32]).unwrap();
    b.adopt_snapshot(99);
    let (out, replayed) = b.replay();
    assert_eq!(out.len(), 2);
    assert_eq!(replayed, 20);
    assert_eq!(b.stats().messages_skipped, 0);
}

#[test]
fn a_datagram_straddling_the_boundary_reports_where_to_resume() {
    // The bug this exists to prevent: replaying such a datagram whole
    // double-applies the messages the snapshot already reflects, and a
    // double-applied AddOrder leaves the book permanently wrong. With 32
    // messages per datagram the boundary lands mid-datagram unless it lands
    // exactly on a seam, so this is the normal case.
    let mut b = buffer();
    b.begin(100, 7_000 * MILLI);
    b.hold(100, 10, &[1u8; 32]).unwrap();
    // The snapshot covers through 104, so 100..=104 are already in the book.
    b.adopt_snapshot(104);

    let (out, replayed) = b.replay();
    let seen: Vec<u64> = out.iter().map(|r| r.skip_below).collect();
    assert_eq!(seen, vec![105], "the caller must be told to resume at 105");
    assert_eq!(replayed, 5, "only 105..=109 are new");
    assert_eq!(b.stats().messages_skipped, 5);
}

#[test]
fn completing_records_the_time_and_returns_to_idle() {
    let mut b = buffer();
    let t0 = 7_000 * MILLI;
    b.begin(1, t0);
    b.hold(1, 4, &[0u8; 16]).unwrap();
    b.adopt_snapshot(0);
    let elapsed = b.complete(t0 + 42 * MILLI);
    assert_eq!(elapsed / MILLI, 42);
    assert_eq!(b.state(), Recovery::Idle);
    assert_eq!(b.stats().completed, 1);
    assert_eq!(b.stats().last_recovery_millis, 42);
    assert_eq!(b.held_datagrams(), 0, "the buffer is reusable");
}

#[test]
fn the_worst_case_is_kept_not_just_the_last() {
    let mut b = buffer();
    let t0 = 7_000 * MILLI;
    b.begin(1, t0);
    b.complete(t0 + 90 * MILLI);
    b.begin(2, t0);
    b.complete(t0 + 20 * MILLI);
    assert_eq!(b.stats().last_recovery_millis, 20);
    assert_eq!(
        b.stats().worst_recovery_millis,
        90,
        "a threshold assertion has to see the worst case, not the most recent"
    );
}

#[test]
fn failing_returns_to_idle_so_the_next_gap_can_be_attempted() {
    let mut b = buffer();
    b.begin(1, 7_000 * MILLI);
    b.fail();
    assert_eq!(b.state(), Recovery::Idle);
    assert_eq!(b.stats().failed, 1);
    assert_eq!(b.stats().completed, 0);
}

#[test]
fn nothing_is_replayed_while_still_waiting_for_a_snapshot() {
    let mut b = buffer();
    b.begin(1, 7_000 * MILLI);
    b.hold(1, 4, &[0u8; 16]).unwrap();
    let (out, _) = b.replay();
    assert!(
        out.is_empty(),
        "replay before adopting a snapshot would be premature"
    );
}

#[test]
fn a_recovery_that_failed_says_why_in_words() {
    assert_eq!(
        RecoveryFailure::BufferFull { capacity: 2 }.describe(),
        "the recovery buffer filled at 2 datagrams before a snapshot arrived"
    );
    assert_eq!(
        RecoveryFailure::TimedOut { after: 500 * MILLI }.describe(),
        "no usable snapshot arrived within 500ms"
    );
}

#[test]
fn a_replayed_range_takes_the_place_of_a_snapshot() {
    let mut b = buffer();
    b.begin(100, 0);
    b.hold(110, 10, &[1u8; 32]).unwrap();
    assert_eq!(b.gap_from(), Some(100));
    assert_eq!(b.first_held_sequence(), Some(110));
    assert!(b.adopt_replay(109, 10));
    let (out, replayed) = b.replay();
    assert_eq!(out.len(), 1);
    assert_eq!(replayed, 10);
    assert_eq!(b.stats().messages_skipped, 0);
}

#[test]
fn a_refused_replay_is_counted_and_a_short_one_waits_again() {
    let mut b = buffer();
    b.begin(100, 0);
    b.note_replay_refused();
    assert_eq!(b.stats().replay_refused, 1);
    assert!(b.adopt_replay(104, 5));
    assert!(!b.adopt_replay(104, 5));
    b.reopen(105);
    assert_eq!(b.state(), Recovery::AwaitingSnapshot { gap_from: 105 });
    assert_eq!(b.capacity(), 8);
}
