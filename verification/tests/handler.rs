use mdstack::apply::ApplyError;
use mdstack::digest::BookDigest;
use mdstack::handler::{checkpoint_due, checkpoint_line, idle_for_too_long, Arm, Arrival, Handler};
use mdstack::message::{Message, Side};
use mdstack::model::BookError;
use mdstack::view::BookSet;

fn add(order_id: u64) -> Message {
    Message::AddOrder { order_id, price: 100, quantity: 5, symbol_id: 7, side: Some(Side::Bid) }
}

fn delete(order_id: u64) -> Message {
    Message::DeleteOrder { order_id, symbol_id: 7, side: Some(Side::Bid) }
}

#[test]
fn the_second_copy_of_a_message_is_dropped() {
    let mut h = Handler::new(2, 3);
    h.on_datagram(Arm::A, 100);
    let r = h.on_message(Arm::A, 1, &add(1));
    assert_eq!(
        r,
        Arrival::Taken {
            joined_late: false,
            missing: 0,
            refused: None,
            checkpoint: false,
            done: false,
        }
    );
    h.on_datagram(Arm::B, 100);
    assert_eq!(h.on_message(Arm::B, 1, &add(1)), Arrival::Duplicate);
    assert!(matches!(
        h.on_message(Arm::B, 2, &add(2)),
        Arrival::Taken { checkpoint: true, done: false, .. }
    ));
    assert!(matches!(h.on_message(Arm::A, 3, &add(3)), Arrival::Taken { done: true, .. }));
    let s = h.stats();
    assert_eq!((s.a.datagrams, s.b.datagrams, s.bytes), (1, 1, 200));
    assert_eq!((s.a.first_arrivals, s.b.first_arrivals, s.b.duplicates), (2, 1, 1));
    assert_eq!((s.first_sequence, s.last_sequence, s.messages), (1, 3, 3));
    assert_eq!(h.books().total_orders(), 3);
    assert!(s.clean());
}

#[test]
fn a_missing_range_is_counted_and_later_refusals_are_blamed_on_it() {
    let mut h = Handler::new(0, 0);
    h.on_message(Arm::A, 1, &add(1));
    assert!(matches!(
        h.on_message(Arm::A, 5, &delete(4)),
        Arrival::Taken {
            missing: 3,
            refused: Some(ApplyError::Book { symbol_id: 7, error: BookError::UnknownOrderId(4) }),
            ..
        }
    ));
    let s = h.stats();
    assert_eq!((s.gaps, s.messages_missed, s.messages), (1, 3, 2));
    assert_eq!((s.apply_errors, s.apply_errors_after_gap), (0, 1));
    assert_eq!(s.messages + s.messages_missed, s.last_sequence - s.first_sequence + 1);
    assert!(!s.clean());
}

#[test]
fn a_refusal_on_a_whole_stream_is_an_error() {
    let mut h = Handler::new(0, 0);
    h.on_message(Arm::B, 1, &delete(9));
    h.on_bad_datagram();
    let s = h.stats();
    assert_eq!((s.apply_errors, s.apply_errors_after_gap, s.bad_datagrams), (1, 0, 1));
    assert_eq!(
        s.describe_unclean(),
        "NOT CLEAN: 0 gaps, 1 bad datagrams, 1 messages that did not apply"
    );
    assert!(!s.second_arm_is_silent());
}

#[test]
fn joining_late_is_no_gap() {
    let mut h = Handler::new(0, 0);
    assert!(matches!(
        h.on_message(Arm::A, 500, &add(1)),
        Arrival::Taken { joined_late: true, missing: 0, .. }
    ));
    let s = h.stats();
    assert!(s.joined_mid_stream && s.gaps == 0 && s.first_sequence == 500);
    assert!(s.second_arm_is_silent());
}

#[test]
fn trades_are_counted() {
    let mut h = Handler::new(0, 0);
    let t = Message::Trade {
        trade_id: 1,
        aggressor_order_id: 2,
        resting_order_id: 3,
        price: 100,
        quantity: 40,
        symbol_id: 7,
        aggressor_side: Some(Side::Ask),
    };
    h.on_message(Arm::A, 1, &t);
    h.on_message(Arm::A, 2, &t);
    assert_eq!((h.stats().trades, h.stats().shares_traded), (2, 80));
}

#[test]
fn a_summary_gives_each_count_a_line() {
    let mut h = Handler::new(0, 0);
    h.on_message(Arm::A, 1, &add(1));
    let d = BookDigest { top: 0xAB, full: 0xCD, orders: 1 };
    let text = h.stats().summary(d, "1.250");
    assert!(text.starts_with("messages=1\nfirst_sequence=1\nlast_sequence=1\ngaps=0\n"));
    assert!(text.contains("joined_mid_stream=false\ndatagrams_a=0\n"));
    assert!(text.ends_with(
        "final_top=00000000000000ab\nfinal_full=00000000000000cd\nfinal_orders=1\nelapsed_seconds=1.250\n"
    ));
    assert_eq!(text.lines().count(), 22);
}

#[test]
fn checkpoints_fall_on_multiples() {
    assert!(!checkpoint_due(0, 10));
    assert!(checkpoint_due(5, 10));
    assert!(!checkpoint_due(3, 10));
    let d = BookDigest { top: 1, full: 2, orders: 3 };
    assert_eq!(
        checkpoint_line(10, d),
        "10 0000000000000001 0000000000000002 3\n"
    );
    assert_eq!(
        d.describe(),
        "top=0000000000000001 full=0000000000000002 orders=3"
    );
}

#[test]
fn silence_is_measured_from_the_last_data() {
    assert!(!idle_for_too_long(0, 0, 1_000));
    assert!(!idle_for_too_long(10, 100, 109));
    assert!(idle_for_too_long(10, 100, 110));
    assert!(!idle_for_too_long(10, 100, 50));
}

#[test]
fn errors_say_what_is_wrong_with_a_message() {
    let e = |error| ApplyError::Book { symbol_id: 7, error };
    assert_eq!(
        e(BookError::DuplicateOrderId(4)).describe(),
        "symbol 7: order 4 is already on the book"
    );
    assert_eq!(
        e(BookError::ReduceWouldIncrease { order_id: 4, from: 1, to: 2 }).describe(),
        "symbol 7: order 4: reduce from 1 to 2 would increase quantity"
    );
    assert_eq!(
        BookError::ZeroQuantity(4).describe(),
        "order 4 would be left with zero quantity"
    );
    assert_eq!(BookError::UnknownOrderId(4).describe(), "order 4 is not on the book");
    assert_eq!(
        ApplyError::SnapshotOverlap { symbol_id: 7, order_id: 4 }.describe(),
        "symbol 7: snapshot order 4 is already on the book; the cycle was not started with apply_snapshot"
    );
}
