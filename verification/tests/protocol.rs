use mdstack::protocol::{
    datagram_bytes_wanted, read_datagram, read_hello, read_request, read_response_header, write_datagram, write_hello,
    write_request, write_response_header, ProtocolError, RangeRequest, ResponseHeader, Schema,
    Source, Status, HELLO_LEN, REQUEST_LEN, RESPONSE_HEADER_LEN,
};

const SCHEMA: Schema = Schema { id: 7, version: 3 };

#[test]
fn a_hello_round_trips() {
    let mut buf = Vec::new();
    write_hello(&mut buf, SCHEMA);
    assert_eq!(buf.len(), HELLO_LEN);
    read_hello(&mut Source::new(buf.clone()), SCHEMA).unwrap();
}

#[test]
fn a_hello_on_the_wrong_port_is_rejected_immediately() {
    // Pointing the engine at the request port instead of the uplink port is
    // the obvious wiring mistake; it must fail at the handshake rather than
    // by misparsing a datagram much later.
    let mut buf = Vec::new();
    write_request(
        &mut buf,
        RangeRequest {
            from: 1,
            through: 2,
        },
    );
    let err = read_hello(&mut Source::new(buf.clone()), SCHEMA).unwrap_err();
    assert!(matches!(err, ProtocolError::WrongKind { .. }), "{err:?}");
}

#[test]
fn garbage_is_rejected_rather_than_interpreted() {
    let junk = [0xFFu8; 32];
    assert!(read_hello(&mut Source::new(junk.to_vec()), SCHEMA).is_err());
    assert!(read_request(&mut Source::new(junk.to_vec())).is_err());
    assert!(read_response_header(&mut Source::new(junk.to_vec())).is_err());
}

#[test]
fn a_request_round_trips() {
    let req = RangeRequest {
        from: 0xDEAD_BEEF,
        through: 0xDEAD_BEEF + 99,
    };
    let mut buf = Vec::new();
    write_request(&mut buf, req);
    assert_eq!(buf.len(), REQUEST_LEN);
    assert_eq!(read_request(&mut Source::new(buf.clone())).unwrap(), req);
    assert_eq!(req.messages(), 100);
}

#[test]
fn a_response_header_round_trips_every_status() {
    for status in [
        Status::Served,
        Status::TooOld,
        Status::NotYet,
        Status::Incomplete,
        Status::BadRequest,
    ] {
        let h = ResponseHeader {
            status,
            datagrams: 7,
            first_available: 1_000,
            last_available: 2_000,
        };
        let mut buf = Vec::new();
        write_response_header(&mut buf, h);
        assert_eq!(buf.len(), RESPONSE_HEADER_LEN);
        assert_eq!(read_response_header(&mut Source::new(buf.clone())).unwrap(), h);
    }
}

#[test]
fn datagrams_round_trip_and_a_clean_close_is_not_an_error() {
    let mut stream = Vec::new();
    write_datagram(&mut stream, &[1, 2, 3]).unwrap();
    write_datagram(&mut stream, &[4, 5]).unwrap();

    let mut r = Source::new(stream);
    let mut buf = vec![0u8; 64];
    assert_eq!(read_datagram(&mut r, &mut buf).unwrap(), Some(3));
    assert_eq!(&buf[..3], &[1, 2, 3]);
    assert_eq!(read_datagram(&mut r, &mut buf).unwrap(), Some(2));
    assert_eq!(&buf[..2], &[4, 5]);
    assert_eq!(
        read_datagram(&mut r, &mut buf).unwrap(),
        None,
        "a peer closing between datagrams is normal, not a failure"
    );
}

#[test]
fn a_datagram_too_large_for_the_buffer_is_an_error_not_an_overrun() {
    let mut stream = Vec::new();
    write_datagram(&mut stream, &[0u8; 100]).unwrap();
    let mut small = vec![0u8; 16];
    assert!(read_datagram(&mut Source::new(stream), &mut small).is_err());
}

#[test]
fn a_truncated_datagram_is_an_error_not_a_short_read() {
    let mut stream = Vec::new();
    write_datagram(&mut stream, &[1, 2, 3, 4, 5]).unwrap();
    stream.truncate(stream.len() - 2);
    let mut buf = vec![0u8; 64];
    assert!(read_datagram(&mut Source::new(stream), &mut buf).is_err());
}

#[test]
fn a_stream_that_ends_inside_a_length_is_cut_short() {
    let mut buf = vec![0u8; 64];
    for cut in 1..4 {
        let part = vec![3u8; cut];
        assert!(read_datagram(&mut Source::new(part), &mut buf).is_err());
    }
    assert!(read_datagram(&mut Source::new(vec![3, 0]), &mut buf).is_err());
    assert_eq!(read_datagram(&mut Source::new(Vec::new()), &mut buf).unwrap(), None);
}

#[test]
fn a_stream_says_how_many_bytes_it_wants() {
    let mut stream = Vec::new();
    write_datagram(&mut stream, &[1, 2, 3, 4, 5]).unwrap();
    assert_eq!(datagram_bytes_wanted(&Vec::new(), 64), 4);
    assert_eq!(datagram_bytes_wanted(&stream[..3].to_vec(), 64), 1);
    assert_eq!(datagram_bytes_wanted(&stream[..4].to_vec(), 64), 5);
    assert_eq!(datagram_bytes_wanted(&stream[..6].to_vec(), 64), 3);
    assert_eq!(datagram_bytes_wanted(&stream, 64), 0);
    assert_eq!(datagram_bytes_wanted(&stream[..4].to_vec(), 4), 0, "too large to read");
}
