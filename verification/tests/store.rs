use mdstack::message::PacketHeader;
use mdstack::protocol::{RangeRequest, Status};
use mdstack::store::DatagramStore;

/// A datagram of `count` messages, and what its header says.
fn datagram(first: u64, count: u16) -> (Option<PacketHeader>, Vec<u8>) {
    let mut bytes = first.to_le_bytes().to_vec();
    bytes.extend(count.to_le_bytes());
    bytes.extend(vec![0x55; 32 * usize::from(count)]);
    (
        Some(PacketHeader { first_sequence: first, message_count: count, snapshot: false }),
        bytes,
    )
}

fn snapshot_datagram(first: u64) -> (Option<PacketHeader>, Vec<u8>) {
    let (header, bytes) = datagram(first, 1);
    (header.map(|h| PacketHeader { snapshot: true, ..h }), bytes)
}

fn push(s: &mut DatagramStore, d: &(Option<PacketHeader>, Vec<u8>)) -> Result<(), &'static str> {
    s.push(d.0, &d.1)
}

fn first_sequence_of(d: &[u8]) -> u64 {
    let mut b = [0u8; 8];
    b.copy_from_slice(&d[..8]);
    u64::from_le_bytes(b)
}

fn message_count_of(d: &[u8]) -> u16 {
    u16::from_le_bytes([d[8], d[9]])
}

fn filled(capacity: usize, datagrams: usize, batch: u16) -> DatagramStore {
    let mut s = DatagramStore::new(capacity, 4096);
    for i in 0..datagrams {
        let first = 1 + (i as u64) * u64::from(batch);
        push(&mut s, &datagram(first, batch)).unwrap();
    }
    s
}

#[test]
fn an_empty_store_can_serve_nothing() {
    let s = DatagramStore::new(8, 4096);
    assert_eq!(s.locate(1, 10).status, Status::TooOld);
    assert!(s.is_empty());
}

#[test]
fn a_range_inside_the_history_is_located() {
    let s = filled(16, 10, 10); // sequences 1..=100
    let found = s.locate(25, 34);
    assert_eq!(found.status, Status::Served);
    // 25..=34 spans the datagrams starting at 21 and 31.
    assert_eq!(found.end - found.start, 2);
    assert_eq!(s.first_sequence(), 1);
    assert_eq!(s.next_sequence(), 101);
}

#[test]
fn a_range_that_fits_one_datagram_returns_one() {
    let s = filled(16, 10, 10);
    let found = s.locate(21, 30);
    assert_eq!(found.status, Status::Served);
    assert_eq!(found.end - found.start, 1);
}

#[test]
fn asking_for_history_that_has_been_evicted_says_so() {
    // The horizon is the honest cost of a bounded store, and a consumer has
    // to be able to tell "too late" from "broken".
    let s = filled(4, 10, 10); // only the last 4 datagrams survive
    assert_eq!(s.len(), 4);
    assert_eq!(s.first_sequence(), 61);
    assert_eq!(s.locate(1, 10).status, Status::TooOld);
    assert_eq!(s.locate(61, 70).status, Status::Served);
}

#[test]
fn asking_for_the_future_says_so_rather_than_serving_a_prefix() {
    let s = filled(16, 5, 10); // 1..=50
    assert_eq!(s.locate(45, 60).status, Status::NotYet);
    assert_eq!(
        s.locate(45, 50).status,
        Status::Served,
        "the same start is fine once the end is in range"
    );
}

#[test]
fn store_an_inverted_range_is_a_bad_request() {
    let s = filled(16, 5, 10);
    assert_eq!(s.locate(30, 20).status, Status::BadRequest);
}

#[test]
fn a_hole_in_the_uplink_discards_the_history_before_it() {
    // The store must never hold a range with a silent gap in the middle:
    // serving that would be worse than refusing, because the consumer asked
    // for help and would get corruption.
    let mut s = DatagramStore::new(16, 4096);
    push(&mut s, &datagram(1, 10)).unwrap();
    push(&mut s, &datagram(11, 10)).unwrap();
    // 21..=30 never arrives.
    push(&mut s, &datagram(31, 10)).unwrap();

    assert_eq!(s.stats().discontinuities, 1);
    assert_eq!(s.len(), 1, "everything before the hole is gone");
    assert_eq!(s.first_sequence(), 31);
    assert_eq!(
        s.locate(1, 10).status,
        Status::TooOld,
        "the pre-hole history must not be servable"
    );
    assert_eq!(s.locate(31, 40).status, Status::Served);
}

#[test]
fn a_replayed_datagram_after_a_reconnect_is_ignored() {
    let mut s = DatagramStore::new(16, 4096);
    push(&mut s, &datagram(1, 10)).unwrap();
    push(&mut s, &datagram(11, 10)).unwrap();
    push(&mut s, &datagram(1, 10)).unwrap();
    assert_eq!(s.stats().duplicates, 1);
    assert_eq!(s.len(), 2);
    assert_eq!(s.next_sequence(), 21);
}

#[test]
fn snapshot_datagrams_are_refused() {
    // They have their own sequence space; storing them alongside the
    // incremental stream would make every range lookup wrong.
    let mut s = DatagramStore::new(8, 4096);
    assert!(push(&mut s, &snapshot_datagram(1)).is_err());
    assert!(s.is_empty());
}

#[test]
fn a_datagram_that_does_not_decode_is_refused() {
    let mut s = DatagramStore::new(8, 4096);
    assert!(push(&mut s, &(None, vec![0u8; 4])).is_err());
}

#[test]
fn the_ring_wraps_without_losing_order() {
    let s = filled(4, 20, 5); // 1..=100, only the last 4 datagrams held
    assert_eq!(s.len(), 4);
    assert_eq!(s.first_sequence(), 81);
    let found = s.locate(81, 100);
    assert_eq!(found.status, Status::Served);
    assert_eq!(found.end - found.start, 4);

    // And the datagrams come back oldest first, in sequence order.
    let mut seen = Vec::new();
    for i in found.start..found.end {
        let d = s.datagram_at(i).unwrap();
        seen.push(first_sequence_of(d));
    }
    assert_eq!(seen, vec![81, 86, 91, 96]);
}

#[test]
fn every_message_in_a_located_range_is_actually_present() {
    // The property that makes a replay worth serving: no holes, nothing
    // missing at the edges.
    let s = filled(32, 20, 7); // 1..=140
    let found = s.locate(30, 100);
    assert_eq!(found.status, Status::Served);

    let mut covered = Vec::new();
    for i in found.start..found.end {
        let d = s.datagram_at(i).unwrap();
        for k in 0..u64::from(message_count_of(d)) {
            covered.push(first_sequence_of(d) + k);
        }
    }
    assert!(covered.first().is_some_and(|&f| f <= 30));
    assert!(covered.last().is_some_and(|&l| l >= 100));
    for (i, w) in covered.windows(2).enumerate() {
        assert_eq!(w[1], w[0] + 1, "gap at index {i}");
    }
}

#[test]
fn an_answer_carries_exactly_what_was_located() {
    let s = filled(16, 10, 10);
    let (h, ds) = s.answer(RangeRequest { from: 25, through: 34 });
    assert_eq!(h.status, Status::Served);
    assert_eq!(h.datagrams, 2);
    assert_eq!((h.first_available, h.last_available), (1, 101));
    assert_eq!(ds.len(), 2);
    assert_eq!(first_sequence_of(&ds[0]), 21);
    assert_eq!(first_sequence_of(&ds[1]), 31);
    let (h, ds) = s.answer(RangeRequest { from: 95, through: 101 });
    assert_eq!(h.status, Status::NotYet);
    assert_eq!(h.datagrams, 0);
    assert!(ds.is_empty());
}

#[test]
fn a_store_describes_what_it_holds() {
    assert_eq!(
        DatagramStore::new(8, 4096).describe(),
        "empty, capacity 8 datagrams"
    );
}
