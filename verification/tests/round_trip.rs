//! A client and a service, with the bytes between them.

use mdstack::client::{read_response, ReplayResult};
use mdstack::message::PacketHeader;
use mdstack::protocol::{
    read_datagram, read_hello, read_request, write_datagram, write_hello, write_request,
    write_response_header, ProtocolError, RangeRequest, Schema, Source, Status,
};
use mdstack::store::DatagramStore;

const BATCH: u16 = 10;
const SCHEMA: Schema = Schema { id: 1, version: 1 };

fn datagram(first: u64) -> Vec<u8> {
    let mut bytes = first.to_le_bytes().to_vec();
    bytes.extend(vec![0x33; 32 * usize::from(BATCH)]);
    bytes
}

fn first_sequence_of(d: &[u8]) -> u64 {
    let mut b = [0u8; 8];
    b.copy_from_slice(&d[..8]);
    u64::from_le_bytes(b)
}

fn header(first: u64) -> Option<PacketHeader> {
    Some(PacketHeader { first_sequence: first, message_count: BATCH, snapshot: false })
}

/// A store holding `datagrams` datagrams starting at sequence 1.
fn filled(capacity: usize, datagrams: usize) -> DatagramStore {
    let mut s = DatagramStore::new(capacity, 4096);
    for i in 0..datagrams {
        let first = 1 + (i as u64) * u64::from(BATCH);
        s.push(header(first), &datagram(first)).unwrap();
    }
    s
}

/// Asks a store for a range, with everything that either side sends in bytes.
fn ask(store: &DatagramStore, from: u64, through: u64) -> ReplayResult {
    let mut asked = Vec::new();
    write_request(&mut asked, RangeRequest { from, through });

    let req = read_request(&mut Source::new(asked)).unwrap();
    let (head, payload) = store.answer(req);
    let mut answered = Vec::new();
    write_response_header(&mut answered, head);
    for d in &payload {
        write_datagram(&mut answered, d).unwrap();
    }

    read_response(
        &mut Source::new(answered),
        RangeRequest { from, through },
        4096,
    )
    .expect("the answer should be readable")
}

#[test]
fn a_served_range_arrives_complete_and_in_order() {
    let store = filled(64, 20); // sequences 1..=200
    let result = ask(&store, 55, 84);

    assert_eq!(result.header.status, Status::Served);
    assert!(result.is_ok());
    assert_eq!(result.header.first_available, 1);
    assert_eq!(result.header.last_available, 201);
    assert!(!result.datagrams.is_empty());

    // Every sequence in the requested range must be present, exactly once, in
    // order. That is the whole contract: a replay with a hole in it would be
    // worse than a refusal, because the consumer asked for help.
    let mut covered = Vec::new();
    for d in &result.datagrams {
        for k in 0..u64::from(BATCH) {
            covered.push(first_sequence_of(d) + k);
        }
    }
    for w in covered.windows(2) {
        assert_eq!(w[1], w[0] + 1, "the replay must be contiguous");
    }
    assert!(covered.first().is_some_and(|&f| f <= 55));
    assert!(covered.last().is_some_and(|&l| l >= 84));
}

#[test]
fn a_range_that_aged_out_is_refused_with_the_horizon_reported() {
    // capacity 4 keeps only the last 4 datagrams of 20: sequences 161..=200.
    let store = filled(4, 20);
    let result = ask(&store, 1, 50);

    assert_eq!(result.header.status, Status::TooOld);
    assert!(result.datagrams.is_empty());
    // The consumer needs to know it asked too late, not merely that it failed:
    // the difference decides whether it falls back to a snapshot or gives up.
    assert_eq!(result.header.first_available, 161);
    assert_eq!(result.header.last_available, 201);
}

#[test]
fn a_range_past_the_end_is_refused_rather_than_partly_served() {
    let store = filled(64, 5); // 1..=50
    let result = ask(&store, 40, 90);
    assert_eq!(result.header.status, Status::NotYet);
    assert!(
        result.datagrams.is_empty(),
        "a partial answer to a range request is a hole the consumer would not know about"
    );
}

#[test]
fn round_trip_an_inverted_range_is_a_bad_request() {
    let store = filled(64, 5);
    let result = ask(&store, 40, 10);
    assert_eq!(result.header.status, Status::BadRequest);
}

#[test]
fn a_single_message_range_is_served() {
    let store = filled(64, 20);
    let result = ask(&store, 77, 77);
    assert_eq!(result.header.status, Status::Served);
    assert_eq!(result.datagrams.len(), 1);
}

/// The uplink half: datagrams streamed in come back out of the store intact.
#[test]
fn the_uplink_handshake_and_stream_round_trip() {
    let mut stream = Vec::new();
    write_hello(&mut stream, SCHEMA);
    for i in 0..10 {
        write_datagram(&mut stream, &datagram(1 + i * u64::from(BATCH))).unwrap();
    }

    let mut r = Source::new(stream);
    read_hello(&mut r, SCHEMA).unwrap();
    let mut store = DatagramStore::new(64, 4096);
    let mut buf = vec![0u8; 4096];
    while let Some(n) = read_datagram(&mut r, &mut buf).unwrap() {
        store
            .push(header(first_sequence_of(&buf[..n])), &buf[..n])
            .unwrap();
    }
    assert_eq!(store.len(), 10);
    assert_eq!(store.first_sequence(), 1);
    assert_eq!(store.next_sequence(), 101);
    assert_eq!(store.stats().discontinuities, 0);
}

/// A consumer pointed at the uplink port instead of the request port must fail
/// at the handshake, not by misreading a datagram much later.
#[test]
fn a_mis_wired_port_fails_at_the_handshake() {
    let mut asked = Vec::new();
    write_request(&mut asked, RangeRequest { from: 1, through: 10 });
    // This side expects an uplink hello; the client sent a request.
    assert!(read_hello(&mut Source::new(asked), SCHEMA).is_err());
    // It closes without a response, which the client must report.
    let result = read_response(
        &mut Source::new(Vec::new()),
        RangeRequest { from: 1, through: 10 },
        4096,
    );
    assert!(
        result.is_err(),
        "the server closes without a response, which the client must report"
    );
}

#[test]
fn a_response_that_ends_early_is_refused() {
    let store = filled(64, 20);
    let (head, payload) = store.answer(RangeRequest { from: 5, through: 44 });
    let mut answered = Vec::new();
    write_response_header(&mut answered, head);
    write_datagram(&mut answered, &payload[0]).unwrap();
    let e = read_response(
        &mut Source::new(answered),
        RangeRequest { from: 5, through: 44 },
        4096,
    )
    .unwrap_err();
    assert!(matches!(e, ProtocolError::ClosedEarly { promised: 5, got: 1 }), "{e:?}");
}

#[test]
fn another_schema_is_refused() {
    let mut stream = Vec::new();
    write_hello(&mut stream, SCHEMA);
    assert!(matches!(
        read_hello(&mut Source::new(stream.clone()), Schema { id: 2, version: 1 }),
        Err(ProtocolError::WrongSchemaId { .. })
    ));
    assert!(matches!(
        read_hello(&mut Source::new(stream), Schema { id: 1, version: 2 }),
        Err(ProtocolError::WrongSchemaVersion { .. })
    ));
}

#[test]
fn two_responses_on_one_stream_read_one_after_the_other() {
    let store = filled(64, 20);
    let mut answered = Vec::new();
    for range in [RangeRequest { from: 1, through: 10 }, RangeRequest { from: 11, through: 30 }] {
        let (head, payload) = store.answer(range);
        write_response_header(&mut answered, head);
        for d in &payload {
            write_datagram(&mut answered, d).unwrap();
        }
    }
    let mut r = Source::new(answered);
    let a = read_response(&mut r, RangeRequest { from: 1, through: 10 }, 4096).unwrap();
    let b = read_response(&mut r, RangeRequest { from: 11, through: 30 }, 4096).unwrap();
    assert_eq!((a.datagrams.len(), b.datagrams.len()), (1, 2));
    assert_eq!(first_sequence_of(&b.datagrams[0]), 11);
}
