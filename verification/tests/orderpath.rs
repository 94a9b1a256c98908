use mdstack::config::Symbol;
use mdstack::engine::Engine;
use mdstack::feed::{FeedPublisher, WireSizes};
use mdstack::message::Side;
use mdstack::orderpath::{
    room_for_a_pass, ExecType, OrderPath, OrderPathMessage, RejectReason, MAX_OWNED,
    ORDERS_PER_PASS,
};
use mdstack::view::BookSet;

const SIZES: WireSizes = WireSizes {
    packet_header: 24,
    add_order: 8 + 24,
    modify_order: 8 + 24,
    delete_order: 8 + 16,
    trade: 8 + 40,
    heartbeat: 8 + 8,
};

fn rig() -> (OrderPath, Engine, FeedPublisher) {
    let symbols = vec![Symbol {
        id: 7,
        name: "TEST".to_string(),
        reference_price: 1_000_000,
        tick_size: 100,
    }];
    let mut p = OrderPath::new();
    p.set_room(100);
    (p, Engine::new(&symbols), FeedPublisher::new(64, 1400, SIZES))
}

fn new_order(client_order_id: u64, side: Side, price: i64, quantity: u32) -> Option<OrderPathMessage> {
    Some(OrderPathMessage::NewOrder {
        client_order_id,
        symbol_id: 7,
        side: Some(side),
        price,
        quantity,
    })
}

#[test]
fn an_order_that_rests_is_acknowledged() {
    let (mut p, mut e, mut f) = rig();
    let n = p
        .pump(&mut e, &mut f, &vec![new_order(90, Side::Bid, 1_000_000, 10)])
        .unwrap();
    assert_eq!(n, 1);
    let out = p.take_reports();
    assert_eq!(out.len(), 1);
    assert_eq!(out[0].exec_type, ExecType::Acknowledged);
    assert_eq!(out[0].client_order_id, 90);
    assert_eq!(out[0].exchange_order_id, 1);
    assert_eq!(out[0].leaves_quantity, 10);
    assert_eq!(p.stats().acks_reported, 1);
    assert_eq!(f.last_sequence(), 1);
}

#[test]
fn an_order_that_trades_is_told_each_fill() {
    let (mut p, mut e, mut f) = rig();
    e.submit(&mut f, 7, Side::Ask, 1_000_000, 4, 0).unwrap();
    e.submit(&mut f, 7, Side::Ask, 1_000_100, 4, 0).unwrap();
    p.pump(&mut e, &mut f, &vec![new_order(91, Side::Bid, 1_000_100, 8)])
        .unwrap();
    let out = p.take_reports();
    let seen: Vec<(ExecType, i64, u32, u32)> = out
        .iter()
        .map(|r| (r.exec_type, r.price, r.quantity, r.leaves_quantity))
        .collect();
    assert_eq!(
        seen,
        vec![
            (ExecType::PartialFill, 1_000_000, 4, 4),
            (ExecType::Fill, 1_000_100, 4, 0),
        ]
    );
    assert_eq!(p.stats().fills_reported, 2);
}

#[test]
fn the_owner_of_a_resting_order_is_told_when_it_trades() {
    let (mut p, mut e, mut f) = rig();
    p.pump(&mut e, &mut f, &vec![new_order(92, Side::Bid, 1_000_000, 10)])
        .unwrap();
    p.take_reports();
    // The watch takes hold with the next pass.
    p.pump(&mut e, &mut f, &vec![]).unwrap();
    e.submit(&mut f, 7, Side::Ask, 1_000_000, 10, 0).unwrap();
    p.pump(&mut e, &mut f, &vec![]).unwrap();
    let out = p.take_reports();
    assert_eq!(out.len(), 1);
    assert_eq!(out[0].exec_type, ExecType::Fill);
    assert_eq!(out[0].client_order_id, 92);
    assert_eq!((out[0].quantity, out[0].leaves_quantity), (10, 0));
}

#[test]
fn a_cancel_says_what_was_left_and_an_unknown_one_is_rejected() {
    let (mut p, mut e, mut f) = rig();
    let cancel = Some(OrderPathMessage::CancelOrder {
        client_order_id: 94,
        orig_client_order_id: 1,
        symbol_id: 7,
        side: Some(Side::Bid),
    });
    p.pump(
        &mut e,
        &mut f,
        &vec![new_order(93, Side::Bid, 1_000_000, 10), cancel, cancel],
    )
    .unwrap();
    let out = p.take_reports();
    assert_eq!(out[1].exec_type, ExecType::Canceled);
    assert_eq!(out[1].quantity, 10);
    assert_eq!(out[2].exec_type, ExecType::Rejected);
    assert_eq!(out[2].reject_reason, RejectReason::UnknownOrder);
    assert_eq!((p.stats().cancels_received, p.stats().cancels_reported), (2, 1));
}

#[test]
fn an_order_without_a_side_is_rejected() {
    let (mut p, mut e, mut f) = rig();
    let bad = Some(OrderPathMessage::NewOrder {
        client_order_id: 95,
        symbol_id: 7,
        side: None,
        price: 1,
        quantity: 1,
    });
    p.dispatch(bad, &mut e, &mut f).unwrap();
    let out = p.take_reports();
    assert_eq!(out[0].exec_type, ExecType::Rejected);
    assert_eq!(out[0].reject_reason, RejectReason::UnknownSymbol);
    assert_eq!(f.last_sequence(), 0);
}

#[test]
fn a_reconciliation_names_what_still_rests() {
    let (mut p, mut e, mut f) = rig();
    p.pump(
        &mut e,
        &mut f,
        &vec![
            new_order(1, Side::Bid, 1_000_000, 10),
            new_order(2, Side::Bid, 999_900, 5),
        ],
    )
    .unwrap();
    e.cancel(&mut f, 7, 1, 0).unwrap();
    p.take_reports();
    p.dispatch(Some(OrderPathMessage::ReconcileRequest { request_id: 77 }), &mut e, &mut f)
        .unwrap();
    let out = p.take_reports();
    assert_eq!(out.len(), 2);
    assert_eq!(out[0].exec_type, ExecType::OrderStatus);
    assert_eq!((out[0].client_order_id, out[0].quantity), (2, 5));
    assert_eq!(out[1].exec_type, ExecType::StatusComplete);
    assert_eq!((out[1].client_order_id, out[1].quantity), (77, 1));
}

#[test]
fn a_report_that_does_not_fit_is_dropped_and_counted() {
    let (mut p, mut e, mut f) = rig();
    p.set_room(1);
    p.pump(
        &mut e,
        &mut f,
        &vec![
            new_order(1, Side::Bid, 1_000_000, 10),
            new_order(2, Side::Bid, 999_900, 5),
            None,
        ],
    )
    .unwrap();
    assert_eq!(p.take_reports().len(), 1);
    assert_eq!(p.stats().reports_dropped, 2);
    assert_eq!(p.stats().acks_reported, 2);
}

#[test]
fn a_pass_takes_a_bounded_number_of_messages() {
    let (mut p, mut e, mut f) = rig();
    let many: Vec<Option<OrderPathMessage>> =
        (0..100).map(|i| new_order(i, Side::Bid, 1_000_000, 1)).collect();
    assert_eq!(p.pump(&mut e, &mut f, &many).unwrap(), ORDERS_PER_PASS);
    assert_eq!(p.stats().orders_received, ORDERS_PER_PASS as u64);
}

#[test]
fn there_is_room_for_a_pass_at_the_start() {
    let (_, e, f) = rig();
    assert!(room_for_a_pass(&e, &f));
    assert_eq!((e.next_order_id(), e.next_trade_id()), (1, 1));
}

#[test]
fn an_order_that_cannot_be_followed_is_rejected() {
    let (mut p, mut e, mut f) = rig();
    p.set_room(MAX_OWNED + 10);
    for i in 0..MAX_OWNED as u64 {
        p.dispatch(new_order(i, Side::Bid, 1_000_000, 1), &mut e, &mut f).unwrap();
    }
    assert_eq!(p.take_reports().len(), MAX_OWNED);
    let stats = p.stats();

    p.dispatch(new_order(9_000, Side::Bid, 999_900, 10), &mut e, &mut f).unwrap();
    let out = p.take_reports();
    assert_eq!(out.len(), 1);
    assert_eq!(out[0].exec_type, ExecType::Rejected);
    assert_eq!(out[0].reject_reason, RejectReason::TooManyOrders);
    assert_eq!((out[0].client_order_id, out[0].quantity), (9_000, 10));
    assert_eq!(p.stats().rejects_reported, stats.rejects_reported + 1);
    assert_eq!(p.stats().acks_reported, stats.acks_reported);
    assert_eq!(p.stats().reports_dropped, stats.reports_dropped);
    let id = out[0].exchange_order_id;
    assert!(e.books().get(7).unwrap().get(id).is_none(), "nothing of it rests");

    // One that trades in full needs no following.
    e.submit(&mut f, 7, Side::Ask, 1_000_100, 5, 0).unwrap();
    p.dispatch(new_order(9_001, Side::Bid, 1_000_100, 5), &mut e, &mut f).unwrap();
    let out = p.take_reports();
    assert_eq!(out.len(), 1);
    assert_eq!(out[0].exec_type, ExecType::Fill);

    // Every order that was followed is followed still.
    p.set_room(MAX_OWNED + 10);
    p.dispatch(Some(OrderPathMessage::ReconcileRequest { request_id: 5 }), &mut e, &mut f).unwrap();
    assert_eq!(p.take_reports().len(), MAX_OWNED + 1);
}
