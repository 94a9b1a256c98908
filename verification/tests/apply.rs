use mdstack::apply::{apply_message, apply_snapshot, ApplyError, WireError};
use mdstack::books::Books;
use mdstack::message::{Message, ModifyReason, Side, Snapshot, SnapshotOrder};
use mdstack::model::BookError;
use mdstack::view::BookSet;

/// The messages of a feed, in order.
struct Feed {
    messages: Vec<Message>,
}

impl Feed {
    fn push(&mut self, m: Message) -> Result<(), String> {
        self.messages.push(m);
        Ok(())
    }

    fn add_order(
        &mut self,
        order_id: u64,
        price: i64,
        quantity: u32,
        symbol_id: u16,
        side: Side,
    ) -> Result<(), String> {
        self.push(Message::AddOrder { order_id, price, quantity, symbol_id, side: Some(side) })
    }

    fn modify_order(
        &mut self,
        order_id: u64,
        new_price: i64,
        new_quantity: u32,
        symbol_id: u16,
        side: Side,
        reason: ModifyReason,
    ) -> Result<(), String> {
        self.push(Message::ModifyOrder {
            order_id,
            new_price,
            new_quantity,
            symbol_id,
            side: Some(side),
            reason: Some(reason),
        })
    }

    fn delete_order(&mut self, order_id: u64, symbol_id: u16, side: Side) -> Result<(), String> {
        self.push(Message::DeleteOrder { order_id, symbol_id, side: Some(side) })
    }

    #[allow(clippy::too_many_arguments)]
    fn trade(
        &mut self,
        trade_id: u64,
        aggressor_order_id: u64,
        resting_order_id: u64,
        price: i64,
        quantity: u32,
        symbol_id: u16,
        aggressor_side: Side,
    ) -> Result<(), String> {
        self.push(Message::Trade {
            trade_id,
            aggressor_order_id,
            resting_order_id,
            price,
            quantity,
            symbol_id,
            aggressor_side: Some(aggressor_side),
        })
    }

    fn heartbeat(&mut self, last_sequence: u64) -> Result<(), String> {
        self.push(Message::Heartbeat { last_sequence })
    }

    fn sequence_reset(&mut self, next_sequence: u64) -> Result<(), String> {
        self.push(Message::SequenceReset { next_sequence })
    }
}

/// Applies every message of a feed, as the feed handler does.
fn round_trip(build: impl FnOnce(&mut Feed)) -> (Books, Vec<ApplyError>) {
    let mut feed = Feed { messages: Vec::new() };
    build(&mut feed);
    let mut books = Books::new();
    let mut errors = Vec::new();
    for msg in &feed.messages {
        if let Err(e) = apply_message(&mut books, msg) {
            errors.push(e);
        }
    }
    (books, errors)
}

#[test]
fn a_feed_rebuilds_the_book_it_describes() {
    let (books, errors) = round_trip(|w| {
        w.add_order(1, 1_000_000, 10, 7, Side::Bid).unwrap();
        w.add_order(2, 1_000_100, 5, 7, Side::Ask).unwrap();
        w.add_order(3, 999_900, 20, 7, Side::Bid).unwrap();
    });
    assert!(errors.is_empty(), "{errors:?}");
    let book = books.get(7).expect("symbol 7");
    assert_eq!(book.len(), 3);
    assert_eq!(book.best_bid().unwrap().price, 1_000_000);
    assert_eq!(book.best_ask().unwrap().price, 1_000_100);
    books.check_invariants().unwrap();
}

#[test]
fn a_trade_alone_does_not_move_the_book() {
    // The fill arrives separately. If Trade also applied one, every partial
    // fill would be counted twice.
    let (books, errors) = round_trip(|w| {
        w.add_order(1, 1_000_000, 10, 7, Side::Bid).unwrap();
        w.trade(500, 900, 1, 1_000_000, 4, 7, Side::Ask).unwrap();
    });
    assert!(errors.is_empty(), "{errors:?}");
    assert_eq!(
        books.get(7).unwrap().get(1).unwrap().quantity,
        10,
        "the Trade must not have touched the resting quantity"
    );
}

#[test]
fn a_partial_fill_is_the_modify_that_follows_the_trade() {
    let (books, errors) = round_trip(|w| {
        w.add_order(1, 1_000_000, 10, 7, Side::Bid).unwrap();
        w.trade(500, 900, 1, 1_000_000, 4, 7, Side::Ask).unwrap();
        w.modify_order(1, 1_000_000, 6, 7, Side::Bid, ModifyReason::Reduce)
            .unwrap();
    });
    assert!(errors.is_empty(), "{errors:?}");
    assert_eq!(books.get(7).unwrap().get(1).unwrap().quantity, 6);
}

#[test]
fn a_full_fill_removes_the_resting_order() {
    let (books, errors) = round_trip(|w| {
        w.add_order(1, 1_000_000, 10, 7, Side::Bid).unwrap();
        w.trade(500, 900, 1, 1_000_000, 10, 7, Side::Ask).unwrap();
        w.delete_order(1, 7, Side::Bid).unwrap();
    });
    assert!(errors.is_empty(), "{errors:?}");
    assert!(books.get(7).unwrap().is_empty());
}

#[test]
fn replace_moves_the_order_and_reduce_does_not() {
    let (books, errors) = round_trip(|w| {
        w.add_order(1, 1_000_000, 10, 7, Side::Bid).unwrap();
        w.add_order(2, 1_000_000, 10, 7, Side::Bid).unwrap();
        w.modify_order(1, 1_000_000, 4, 7, Side::Bid, ModifyReason::Reduce)
            .unwrap();
    });
    assert!(errors.is_empty(), "{errors:?}");
    assert_eq!(
        books.get(7).unwrap().front(Side::Bid),
        Some((1_000_000, 1)),
        "Reduce keeps the front of the queue"
    );

    let (books, errors) = round_trip(|w| {
        w.add_order(1, 1_000_000, 10, 7, Side::Bid).unwrap();
        w.add_order(2, 1_000_000, 10, 7, Side::Bid).unwrap();
        w.modify_order(1, 1_000_000, 12, 7, Side::Bid, ModifyReason::Replace)
            .unwrap();
    });
    assert!(errors.is_empty(), "{errors:?}");
    assert_eq!(
        books.get(7).unwrap().front(Side::Bid),
        Some((1_000_000, 2)),
        "Replace goes to the back"
    );
}

#[test]
fn heartbeats_and_sequence_resets_leave_the_book_alone() {
    let (books, errors) = round_trip(|w| {
        w.add_order(1, 1_000_000, 10, 7, Side::Bid).unwrap();
        w.heartbeat(99).unwrap();
        w.sequence_reset(1000).unwrap();
    });
    assert!(errors.is_empty(), "{errors:?}");
    assert_eq!(books.get(7).unwrap().len(), 1);
}

#[test]
fn a_message_that_contradicts_the_book_is_reported() {
    // On a live feed this is what a missed message looks like from the
    // consumer's side, which is why it is surfaced rather than ignored.
    let (_books, errors) = round_trip(|w| {
        w.delete_order(42, 7, Side::Bid).unwrap();
    });
    assert_eq!(
        errors,
        vec![ApplyError::Book {
            symbol_id: 7,
            error: BookError::UnknownOrderId(42)
        }]
    );
}

/// A snapshot fragment for symbol 7.
fn snapshot(orders: &[(u64, i64, u32, Side)]) -> Snapshot {
    Snapshot {
        last_sequence: 500,
        symbol_id: 7,
        orders: orders
            .iter()
            .map(|(order_id, price, quantity, side)| SnapshotOrder {
                order_id: *order_id,
                price: *price,
                quantity: *quantity,
                side: Some(*side),
            })
            .collect(),
    }
}

#[test]
fn a_snapshot_rebuilds_the_book_it_describes() {
    let bytes = snapshot(&[
        (1, 1_000_000, 10, Side::Bid),
        (2, 1_000_000, 5, Side::Bid),
        (3, 1_000_100, 7, Side::Ask),
    ]);
    let mut books = Books::new();
    apply_snapshot(&mut books, &bytes).unwrap();

    let book = books.get(7).unwrap();
    assert_eq!(book.len(), 3);
    assert_eq!(book.best_bid().unwrap().price, 1_000_000);
    assert_eq!(book.best_ask().unwrap().price, 1_000_100);
    books.check_invariants().unwrap();
}

#[test]
fn a_snapshot_restores_queue_order_not_just_quantity() {
    // This is the property that justifies carrying orders rather than
    // aggregated levels. An aggregate could reproduce "15 resting at
    // 1_000_000" but never which order is at the front of the queue — and
    // queue position is the whole of price-time priority.
    let bytes = snapshot(&[
        (11, 1_000_000, 5, Side::Bid),
        (22, 1_000_000, 5, Side::Bid),
        (33, 1_000_000, 5, Side::Bid),
    ]);
    let mut books = Books::new();
    apply_snapshot(&mut books, &bytes).unwrap();

    assert_eq!(
        books.get(7).unwrap().front(Side::Bid),
        Some((1_000_000, 11)),
        "the first order on the wire must be the front of the queue"
    );
}

#[test]
fn a_snapshot_replaces_the_book_rather_than_merging_into_it() {
    let mut books = Books::new();
    books.get_or_create(7).add(99, Side::Ask, 5_000, 1).unwrap();

    let bytes = snapshot(&[(1, 1_000_000, 10, Side::Bid)]);
    apply_snapshot(&mut books, &bytes).unwrap();

    let book = books.get(7).unwrap();
    assert_eq!(book.len(), 1, "the stale order must be gone");
    assert!(book.get(99).is_none());
    assert!(book.get(1).is_some());
}

#[test]
fn continuation_fragments_append_to_the_cycle() {
    // apply_snapshot starts a cycle; apply_message continues it.
    let mut books = Books::new();
    apply_snapshot(
        &mut books,
        &snapshot(&[(1, 1_000_000, 10, Side::Bid)]),
    )
    .unwrap();

    let second = snapshot(&[(2, 999_900, 4, Side::Bid)]);
    apply_message(&mut books, &Message::Snapshot(second)).unwrap();

    assert_eq!(books.get(7).unwrap().len(), 2);
}

#[test]
fn a_fragment_that_repeats_an_order_is_reported_as_a_broken_cycle() {
    let mut books = Books::new();
    let bytes = snapshot(&[(1, 1_000_000, 10, Side::Bid)]);
    apply_snapshot(&mut books, &bytes).unwrap();

    assert_eq!(
        apply_message(&mut books, &Message::Snapshot(bytes)),
        Err(ApplyError::SnapshotOverlap {
            symbol_id: 7,
            order_id: 1
        })
    );
}

#[test]
fn what_is_not_defined_is_refused_and_the_rest_applies() {
    let mut books = Books::new();
    let add = |order_id, side| Message::AddOrder {
        order_id,
        price: 1_000_000,
        quantity: 10,
        symbol_id: 7,
        side,
    };
    let e = apply_message(&mut books, &add(1, None)).unwrap_err();
    assert_eq!(e, ApplyError::Wire(WireError::UndefinedSide));
    assert_eq!(e.describe(), "the side is not defined");
    assert!(books.get(7).is_none());

    apply_message(&mut books, &add(2, Some(Side::Bid))).unwrap();
    let modify = Message::ModifyOrder {
        order_id: 2,
        new_price: 1_000_000,
        new_quantity: 4,
        symbol_id: 7,
        side: None,
        reason: None,
    };
    assert_eq!(
        apply_message(&mut books, &modify),
        Err(ApplyError::Wire(WireError::UndefinedReason))
    );
    assert_eq!(books.get(7).unwrap().get(2).unwrap().quantity, 10);

    // The side of a delete is not looked at.
    apply_message(&mut books, &Message::DeleteOrder { order_id: 2, symbol_id: 7, side: None })
        .unwrap();
    assert!(books.get(7).unwrap().get(2).is_none());

    let mut d = snapshot(&[(1, 1_000_000, 10, Side::Bid), (2, 1_000_100, 5, Side::Ask)]);
    d.orders[1].side = None;
    assert_eq!(
        apply_snapshot(&mut books, &d),
        Err(ApplyError::Wire(WireError::UndefinedSide))
    );
    assert_eq!(books.get(7).unwrap().len(), 1);
}
