use mdstack::message::Side;
use mdstack::poke::{expected, Findings};
use mdstack::ring::{
    Consumer, Producer, PushError, Ring, RingError, RingHeader, RingLayout, RING_MAGIC, RING_VERSION,
};

const LAYOUT: RingLayout = RingLayout { header_len: 192, slot_header_len: 8 };

fn header(capacity: u32, slot_size: u32) -> RingHeader {
    RingHeader {
        magic: RING_MAGIC,
        version: RING_VERSION,
        capacity,
        slot_size,
        file_len: Ring::file_size(capacity, slot_size, LAYOUT),
    }
}

fn pair(capacity: u32, slot_size: u32) -> (Ring, Producer, Consumer) {
    let ring = Ring::create(capacity, slot_size, LAYOUT).expect("create");
    let p = ring.into_producer();
    let c = ring.into_consumer();
    (ring, p, c)
}

fn popped(ring: &mut Ring, c: &mut Consumer) -> Option<Vec<u8>> {
    c.pop_with(ring)
}

// --- geometry --------------------------------------------------------------

#[test]
fn a_capacity_that_is_not_a_power_of_two_is_refused() {
    // Not rounded up silently: the mask depends on it, and a ring that quietly
    // holds 8 when it was asked for 6 makes a capacity-planning number wrong.
    assert_eq!(
        Ring::create(6, 128, LAYOUT).unwrap_err(),
        RingError::CapacityNotPowerOfTwo(6)
    );
    assert_eq!(
        Ring::create(0, 128, LAYOUT).unwrap_err(),
        RingError::CapacityZero
    );
}

#[test]
fn a_slot_that_would_straddle_a_cache_line_is_refused() {
    assert_eq!(
        Ring::create(8, 100, LAYOUT).unwrap_err(),
        RingError::BadSlotSize(100)
    );
    // A slot with no room for a message is a slot for nothing.
    assert_eq!(
        Ring::create(8, 0, LAYOUT).unwrap_err(),
        RingError::BadSlotSize(0)
    );
    assert!(Ring::create(8, 64, LAYOUT).is_ok());
}

#[test]
fn the_file_is_exactly_the_header_plus_the_slots() {
    assert_eq!(
        Ring::file_size(16, 128, LAYOUT),
        LAYOUT.header_len + 16 * 128
    );
}

#[test]
fn the_geometry_survives_a_reopen() {
    let r = Ring::create(32, 256, LAYOUT).expect("create");
    let h = header(32, 256);
    Ring::open(h, LAYOUT).expect("open");
    assert_eq!(r.capacity(), 32);
    assert_eq!(r.slot_size(), 256);
    assert_eq!(r.max_message_len(), 256 - LAYOUT.slot_header_len);
}

#[test]
fn a_file_that_is_not_a_ring_is_refused_rather_than_read() {
    // Long enough to map, so the refusal has to come from the magic and not
    // from the length.
    let h = RingHeader {
        magic: 0xABAB_ABAB_ABAB_ABAB,
        version: 0xABAB_ABAB,
        capacity: 0xABAB,
        slot_size: 0xABAB,
        file_len: 4096,
    };
    match Ring::open(h, LAYOUT) {
        Err(RingError::BadMagic(m)) => assert_eq!(m, 0xABAB_ABAB_ABAB_ABAB),
        other => panic!("expected BadMagic, got {other:?}"),
    }
}

#[test]
fn a_ring_from_a_future_build_is_refused() {
    let mut h = header(8, 128);
    h.version = RING_VERSION + 1;
    assert_eq!(
        Ring::open(h, LAYOUT).unwrap_err(),
        RingError::BadVersion(RING_VERSION + 1)
    );
}

#[test]
fn a_truncated_ring_is_refused() {
    // Keep the header, lose half the slots. The header still describes the full
    // file, so mapping it would map past the end.
    let mut h = header(8, 128);
    h.file_len /= 2;
    match Ring::open(h, LAYOUT) {
        Err(RingError::Truncated { need, got }) => {
            assert_eq!(need, Ring::file_size(8, 128, LAYOUT));
            assert!(got < need);
        }
        other => panic!("expected Truncated, got {other:?}"),
    }
}

// --- the queue -------------------------------------------------------------

#[test]
fn a_message_comes_out_as_it_went_in() {
    let (mut ring, mut p, mut c) = pair(8, 128);
    assert!(popped(&mut ring, &mut c).is_none(), "a fresh ring is empty");

    p.push(&mut ring, b"hello").expect("push");
    assert_eq!(popped(&mut ring, &mut c).as_deref(), Some(&b"hello"[..]));
    assert!(popped(&mut ring, &mut c).is_none(), "and empty again afterwards");
}

#[test]
fn messages_come_out_in_the_order_they_went_in() {
    let (mut ring, mut p, mut c) = pair(8, 128);
    for i in 0u8..8 {
        p.push(&mut ring, &[i, i, i]).expect("push");
    }
    for i in 0u8..8 {
        assert_eq!(popped(&mut ring, &mut c).as_deref(), Some(&[i, i, i][..]));
    }
}

#[test]
fn a_full_ring_refuses_rather_than_overwriting() {
    let (mut ring, mut p, mut c) = pair(4, 128);
    for i in 0u8..4 {
        p.push(&mut ring, &[i]).expect("push");
    }
    // The whole point. Overwriting would lose an order and report success,
    // which is the worst outcome available on this path.
    assert_eq!(p.push(&mut ring, b"x"), Err(PushError::Full));
    assert_eq!(p.depth(&ring), 4);

    // One pop makes exactly one slot available.
    assert_eq!(popped(&mut ring, &mut c).as_deref(), Some(&[0u8][..]));
    p.push(&mut ring, b"x").expect("push after a pop");
    assert_eq!(p.push(&mut ring, b"y"), Err(PushError::Full));
}

#[test]
fn full_and_empty_are_told_apart_without_a_spare_slot() {
    let (mut ring, mut p, mut c) = pair(4, 128);
    // Every slot is usable, which is what free-running indices buy: a ring that
    // wrapped its indices would have to leave one slot empty to tell the two
    // states apart.
    for i in 0u8..4 {
        p.push(&mut ring, &[i]).expect("push");
    }
    assert_eq!(p.depth(&ring), 4);
    assert_eq!(c.depth(&ring), 4);
    for _ in 0..4 {
        assert!(popped(&mut ring, &mut c).is_some());
    }
    assert_eq!(c.depth(&ring), 0);
    assert!(popped(&mut ring, &mut c).is_none());
}

#[test]
fn the_indices_keep_counting_past_the_capacity() {
    let (mut ring, mut p, mut c) = pair(4, 128);
    // Ten times round a four-slot ring. If the slot index were the counter
    // rather than a mask of it, this would have gone wrong at slot four.
    for i in 0u32..40 {
        p.push(&mut ring, &i.to_le_bytes()).expect("push");
        let got = popped(&mut ring, &mut c).expect("pop");
        assert_eq!(u32::from_le_bytes(got.try_into().unwrap()), i);
    }
}

#[test]
fn a_message_too_large_for_a_slot_is_refused() {
    let (mut ring, mut p, mut c) = pair(4, 128);
    let usable = ring.max_message_len();
    assert_eq!(
        p.push(&mut ring, &vec![0u8; usable + 1]),
        Err(PushError::TooLarge {
            len: usable + 1,
            capacity: usable,
        })
    );
    // And a message of exactly the usable size fits, so the boundary is where
    // it claims to be rather than one byte off.
    p.push(&mut ring, &vec![7u8; usable]).expect("exactly full slot");
    assert_eq!(popped(&mut ring, &mut c).map(|v| v.len()), Some(usable));
}

#[test]
fn an_abandoned_fill_consumes_no_slot() {
    let (mut ring, mut p, mut c) = pair(4, 128);
    p.push(&mut ring, b"first").expect("push");
    assert_eq!(p.push_with(&mut ring, &[], None), Err(PushError::Abandoned));
    // The abandoned push must not have moved the index, or the consumer would
    // read a slot the producer never filled.
    assert_eq!(p.depth(&ring), 1);
    assert_eq!(popped(&mut ring, &mut c).as_deref(), Some(&b"first"[..]));
    assert!(popped(&mut ring, &mut c).is_none());
}

#[test]
fn a_fill_that_overruns_its_slot_publishes_nothing() {
    let (mut ring, mut p, mut c) = pair(4, 128);
    let usable = ring.max_message_len();
    // A closure that lies about how much it wrote. It cannot corrupt the
    // consumer's view, because the slot is not published until the length has
    // been checked.
    assert_eq!(
        p.push_with(&mut ring, &[], Some(usable + 1)),
        Err(PushError::TooLarge {
            len: usable + 1,
            capacity: usable,
        })
    );
    assert_eq!(p.depth(&ring), 0);
    assert!(popped(&mut ring, &mut c).is_none());
}

#[test]
fn push_with_writes_the_slot_directly() {
    let (mut ring, mut p, mut c) = pair(4, 128);
    let n = p
        .push_with(&mut ring, b"abcd and what was there before", Some(4))
        .expect("push_with");
    assert_eq!(n, 4);
    assert_eq!(popped(&mut ring, &mut c).as_deref(), Some(&b"abcd"[..]));
}

#[test]
fn an_empty_message_round_trips() {
    let (mut ring, mut p, mut c) = pair(4, 128);
    // Zero length is a real length, not a sentinel for "no message". A
    // consumer that treated it as empty would stall behind it forever.
    p.push(&mut ring, b"").expect("push");
    assert_eq!(popped(&mut ring, &mut c).as_deref(), Some(&b""[..]));
    assert!(popped(&mut ring, &mut c).is_none());
}

#[test]
fn drain_stops_at_its_limit() {
    let (mut ring, mut p, mut c) = pair(16, 128);
    for i in 0u8..10 {
        p.push(&mut ring, &[i]).expect("push");
    }
    let mut seen: Vec<u8> = Vec::new();
    // Bounded on purpose: a consumer that drains without a limit can be held
    // in the loop by a fast producer and never reach its timers.
    let out = c.drain(&mut ring, 4);
    assert_eq!(out.len(), 4);
    seen.extend(out.iter().map(|b| b[0]));
    assert_eq!(seen, vec![0, 1, 2, 3]);
    let out = c.drain(&mut ring, 100);
    assert_eq!(out.len(), 6);
    seen.extend(out.iter().map(|b| b[0]));
    assert_eq!(seen.len(), 10);
    let out = c.drain(&mut ring, 100);
    assert_eq!(out.len(), 0);
    seen.extend(out.iter().map(|b| b[0]));
}

#[test]
fn errors_say_what_is_wrong() {
    assert_eq!(
        RingError::CapacityNotPowerOfTwo(6).describe(8),
        "capacity 6 is not a power of two"
    );
    assert_eq!(RingError::CapacityZero.describe(8), "capacity must be at least 1");
    assert_eq!(
        RingError::BadSlotSize(100).describe(8),
        "slot size 100 must be a multiple of 64 and larger than 8"
    );
    assert_eq!(
        RingError::BadMagic(0xABCD).describe(8),
        "not a ring: magic 0x000000000000abcd"
    );
    assert_eq!(
        RingError::BadVersion(2).describe(8),
        "ring layout version 2, this build speaks 1"
    );
    assert_eq!(
        RingError::Truncated { need: 1216, got: 608 }.describe(8),
        "ring file is 608 bytes; its header describes 1216"
    );
    assert_eq!(PushError::Full.describe(), "the ring is full");
    assert_eq!(
        PushError::TooLarge { len: 121, capacity: 120 }.describe(),
        "a 121-byte message does not fit a 120-byte slot"
    );
    assert_eq!(PushError::Abandoned.describe(), "the fill closure wrote nothing");
}

#[test]
fn an_order_on_the_ring_is_known_from_its_number() {
    let e = expected(1);
    assert_eq!(e.client_order_id, 0x1122_3344_0000_0001);
    assert_eq!(e.price, -1_000_001);
    assert_eq!(e.quantity, 101);
    assert_eq!(e.side, Side::Bid);
    assert_eq!(expected(6).price, 1_000_006);
    assert_eq!(expected(6).side, Side::Ask);
    assert_eq!(expected(901).quantity, 101);

    let mut f = Findings::new();
    f.check(Some((expected(0), 7)), 7);
    f.check(Some((expected(0), 7)), 7);
    f.check(None, 7);
    f.check(Some((expected(3), 8)), 7);
    f.check(Some((expected(4), 7)), 7);
    assert_eq!((f.consumed, f.mismatches, f.first_mismatch), (5, 3, Some(1)));
}
