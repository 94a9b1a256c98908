use mdstack::transport::{
    is_multicast, Endpoint, Publisher, Receiver, ShortSend, SocketOptions, TargetError, TransportMode,
};

fn endpoint(a: u8, b: u8, c: u8, d: u8, port: u16) -> Endpoint {
    Endpoint { ip: u32::from_be_bytes([a, b, c, d]), port }
}

#[test]
fn a_publisher_needs_at_least_one_target() {
    let err = Publisher::bind(TransportMode::UnicastFanout, vec![], 0)
        .expect_err("empty target list must be refused");
    assert_eq!(err, TargetError::NoTarget);
    assert_eq!(err.describe(), "a publisher needs at least one target address");
}

#[test]
fn multicast_refuses_a_unicast_group_address() {
    let err = Publisher::bind(
        TransportMode::Multicast,
        vec![endpoint(10, 0, 0, 1, 30001)],
        0,
    )
    .expect_err("a unicast address is not a group");
    assert_eq!(err, TargetError::NotMulticast(0x0a00_0001));
    assert!(err.describe().starts_with("10.0.0.1 is not a multicast address;"));

    let err = Publisher::bind(
        TransportMode::Multicast,
        vec![
            endpoint(239, 1, 1, 1, 30001),
            endpoint(239, 1, 1, 2, 30001),
        ],
        0,
    )
    .expect_err("one group per channel");
    assert_eq!(err, TargetError::ManyGroups);
    assert_eq!(
        err.describe(),
        "multicast takes exactly one group address per channel"
    );
}

#[test]
fn transport_mode_parses_the_spellings_people_actually_type() {
    assert_eq!(
        TransportMode::from_str("multicast"),
        Ok(TransportMode::Multicast)
    );
    for spelling in ["unicast-fanout", "unicast_fanout", "unicast"] {
        assert_eq!(
            TransportMode::from_str(spelling),
            Ok(TransportMode::UnicastFanout),
            "{spelling} should parse"
        );
    }
    assert!(TransportMode::from_str("udp").is_err());
}

#[test]
fn an_unknown_mode_is_quoted_in_the_refusal() {
    assert_eq!(
        TransportMode::from_str("u\"dp\n").unwrap_err(),
        "unknown transport \"u\\\"dp\\n\": expected \"multicast\" or \"unicast-fanout\""
    );
}

#[test]
fn groups_are_the_224_to_239_block() {
    assert!(!is_multicast(0xdfff_ffff));
    assert!(is_multicast(0xe000_0000));
    assert!(is_multicast(0xefff_ffff));
    assert!(!is_multicast(0xf000_0000));
}

#[test]
fn channels_describe_themselves() {
    let p = Publisher::bind(
        TransportMode::UnicastFanout,
        vec![endpoint(127, 0, 0, 1, 31001), endpoint(127, 0, 0, 1, 31002)],
        262_144,
    )
    .unwrap();
    assert_eq!(
        p.describe(),
        "unicast-fanout -> [127.0.0.1:31001, 127.0.0.1:31002] (send buffer 256 KiB)"
    );
    assert_eq!(p.mode(), TransportMode::UnicastFanout);
    assert_eq!(p.targets().len(), 2);

    let r = Receiver::bind(TransportMode::Multicast, endpoint(239, 1, 1, 1, 30001), 212_992).unwrap();
    assert_eq!(
        r.describe(),
        "multicast <- 239.1.1.1:30001 (receive buffer 208 KiB)"
    );
    assert!(r.buffer_was_clamped(4 * 1024 * 1024));
    assert!(!r.buffer_was_clamped(212_992));
    assert_eq!(r.bound_addr().port, 30001);
    assert_eq!(r.granted_recv_buffer(), 212_992);

    let e = Receiver::bind(TransportMode::Multicast, endpoint(10, 0, 0, 1, 1), 0).unwrap_err();
    assert_eq!(e.describe(), "10.0.0.1 is not a multicast address");
    assert!(Receiver::bind(TransportMode::UnicastFanout, endpoint(10, 0, 0, 1, 1), 0).is_ok());
}

#[test]
fn a_datagram_that_went_out_in_part_is_refused() {
    let to = endpoint(127, 0, 0, 1, 9);
    assert!(ShortSend::check(10, 10, to).is_ok());
    assert_eq!(
        ShortSend::check(4, 10, to).unwrap_err().describe(),
        "sent 4 of 10 bytes to 127.0.0.1:9; the datagram was truncated"
    );
}

#[test]
fn sockets_are_local_and_roomy_by_default() {
    let o = SocketOptions::default();
    assert_eq!((o.interface, o.ttl, o.loopback, o.buffer_bytes), (0, 1, true, 4 * 1024 * 1024));
}
