use mdstack::feed::{FeedError, FeedPublisher, Shadow, WireSizes};
use mdstack::message::{Message, ModifyReason, Side};
use mdstack::transport::{Endpoint, Publisher, TransportMode};
use mdstack::view::BookSet;

/// Header plus body of each message, as the encoder lays them out.
const SIZES: WireSizes = WireSizes {
    packet_header: 24,
    add_order: 8 + 24,
    modify_order: 8 + 24,
    delete_order: 8 + 16,
    trade: 8 + 40,
    heartbeat: 8 + 8,
};

/// What kind of message this is.
#[derive(Debug, Clone, Copy, PartialEq, Eq)]
enum Kind {
    AddOrder,
    ModifyOrder,
    DeleteOrder,
    Trade,
    Heartbeat,
    Other,
}

fn kind(m: &Message) -> Kind {
    match m {
        Message::AddOrder { .. } => Kind::AddOrder,
        Message::ModifyOrder { .. } => Kind::ModifyOrder,
        Message::DeleteOrder { .. } => Kind::DeleteOrder,
        Message::Trade { .. } => Kind::Trade,
        Message::Heartbeat { .. } => Kind::Heartbeat,
        _ => Kind::Other,
    }
}

fn rig(batch_size: u16, max_bytes: usize) -> FeedPublisher {
    FeedPublisher::new(batch_size, max_bytes, SIZES)
}

#[test]
fn messages_are_packed_until_the_batch_is_full() {
    let mut feed = rig(4, 1400);
    for i in 0..4u64 {
        feed.add_order(i, 100, 1, 1, Side::Bid).unwrap();
    }
    // Four messages at a batch size of four: still buffered, nothing sent.
    assert_eq!(feed.stats().datagrams, 0);
    feed.flush();

    let grams = feed.take_outbox();
    assert_eq!(grams.len(), 1, "one datagram, not four");
    assert_eq!(grams[0].messages.len(), 4);
    assert_eq!(grams[0].first_sequence, 1);
}

#[test]
fn sequences_are_contiguous_across_datagram_boundaries() {
    // The property the handler's gap detection depends on: batching must not
    // introduce a hole at the seam between two datagrams.
    let mut feed = rig(3, 1400);
    for i in 0..10u64 {
        feed.add_order(i, 100, 1, 1, Side::Bid).unwrap();
    }
    feed.flush();

    let mut seen = Vec::new();
    for g in feed.take_outbox() {
        for i in 0..g.messages.len() as u64 {
            seen.push(g.first_sequence + i);
        }
    }
    assert_eq!(seen, (1..=10).collect::<Vec<u64>>());
}

#[test]
fn a_datagram_too_small_for_the_batch_flushes_on_size_instead() {
    // 24 header + 4 x (8 + 24) = 152 would be needed for a batch of four
    // AddOrders; give it room for two and it must cut the datagram short
    // rather than overrun or drop.
    let mut feed = rig(4, 24 + 2 * (8 + 24));
    for i in 0..4u64 {
        feed.add_order(i, 100, 1, 1, Side::Bid).unwrap();
    }
    feed.flush();

    assert!(
        feed.stats().size_flushes > 0,
        "the size cap should have bitten"
    );
    let mut seen = Vec::new();
    for g in feed.take_outbox() {
        for i in 0..g.messages.len() as u64 {
            seen.push(g.first_sequence + i);
        }
    }
    assert_eq!(seen, vec![1, 2, 3, 4], "no message may be lost at the seam");
}

#[test]
fn a_message_larger_than_the_datagram_is_a_configuration_error() {
    let mut feed = rig(4, 24 + 8);
    let err = feed.add_order(1, 100, 1, 1, Side::Bid).unwrap_err();
    assert!(matches!(err, FeedError::MessageTooLarge { .. }), "{err:?}");
}

#[test]
fn flushing_an_empty_datagram_sends_nothing() {
    let mut feed = rig(4, 1400);
    feed.flush();
    feed.flush_on_timer();
    assert_eq!(feed.stats().datagrams, 0);
    assert!(feed.take_outbox().is_empty());
}

#[test]
fn every_message_type_survives_the_round_trip() {
    let mut feed = rig(16, 1400);
    feed.add_order(1, 1000, 5, 7, Side::Bid).unwrap();
    feed.modify_order(1, 1000, 3, 7, Side::Bid, ModifyReason::Reduce)
        .unwrap();
    feed.trade(9, 2, 1, 1000, 2, 7, Side::Ask).unwrap();
    feed.delete_order(1, 7, Side::Bid).unwrap();
    feed.heartbeat(4).unwrap();
    feed.flush();

    let grams = feed.take_outbox();
    let kinds: Vec<Kind> = grams[0].messages.iter().map(kind).collect();
    assert_eq!(
        kinds,
        vec![
            Kind::AddOrder,
            Kind::ModifyOrder,
            Kind::Trade,
            Kind::DeleteOrder,
            Kind::Heartbeat,
        ]
    );

    // And the fields survived.
    let Message::AddOrder { order_id, price, quantity, symbol_id, .. } = grams[0].messages[0]
    else {
        panic!("expected AddOrder")
    };
    assert_eq!(order_id, 1);
    assert_eq!(price, 1000);
    assert_eq!(quantity, 5);
    assert_eq!(symbol_id, 7);
}

#[test]
fn a_shadow_follows_what_was_sent() {
    let mut feed = rig(2, 1400);
    let mut shadow = Shadow::new();
    feed.add_order(1, 1000, 5, 7, Side::Bid).unwrap();
    feed.add_order(2, 1100, 5, 7, Side::Ask).unwrap();
    feed.delete_order(1, 7, Side::Bid).unwrap();
    feed.flush();
    for d in feed.take_outbox() {
        shadow.check(&d).unwrap();
    }
    assert_eq!(shadow.shadow().total_orders(), 1);
    feed.delete_order(1, 7, Side::Bid).unwrap();
    feed.flush();
    for d in feed.take_outbox() {
        let e = shadow.check(&d).unwrap_err();
        assert_eq!(e.sequence, 4);
    }
}

#[test]
fn a_datagram_is_as_long_as_its_messages() {
    let mut feed = rig(8, 1400);
    feed.add_order(1, 1000, 5, 7, Side::Bid).unwrap();
    feed.heartbeat(1).unwrap();
    feed.flush_on_timer();
    let out = feed.take_outbox();
    assert_eq!(out.len(), 1);
    assert_eq!(out[0].len, 24 + (8 + 24) + (8 + 8));
    assert_eq!(feed.stats().timer_flushes, 1);
    assert_eq!(feed.last_sequence(), 2);
}

#[test]
fn a_publisher_describes_its_arms() {
    let arm = |port| {
        Publisher::bind(
            TransportMode::UnicastFanout,
            vec![Endpoint { ip: 0x7f00_0001, port }],
            2048,
        )
        .unwrap()
    };
    assert_eq!(
        rig(4, 1400).describe(&arm(1), &arm(2)),
        "A: unicast-fanout -> [127.0.0.1:1] (send buffer 2 KiB)\n  \
         B: unicast-fanout -> [127.0.0.1:2] (send buffer 2 KiB)\n  \
         batching 4 messages per datagram, 1400 byte cap"
    );
}

#[test]
fn a_self_check_applies_what_comes_before_the_failure() {
    let mut feed = rig(8, 1400);
    feed.add_order(1, 1000, 5, 7, Side::Bid).unwrap();
    feed.add_order(2, 1000, 5, 8, Side::Bid).unwrap();
    feed.add_order(1, 1000, 5, 7, Side::Bid).unwrap();
    feed.add_order(3, 1000, 5, 8, Side::Bid).unwrap();
    feed.flush();
    let mut shadow = Shadow::new();
    let failure = shadow.check(&feed.take_outbox()[0]).unwrap_err();
    assert_eq!(failure.sequence, 3, "the first that does not apply");
    assert_eq!(shadow.shadow().get(7).unwrap().len(), 1);
    assert_eq!(shadow.shadow().get(8).unwrap().len(), 1, "nothing after it was applied");
}
