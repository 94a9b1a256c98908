use mdstack::apply::apply_message;
use mdstack::books::Books;
use mdstack::config::Symbol;
use mdstack::digest::BookDigest;
use mdstack::engine::{Engine, EngineError};
use mdstack::feed::{FeedError, FeedPublisher, WireSizes};
use mdstack::message::{Message, Side};
use mdstack::model::BookError;
use mdstack::view::BookSet;

/// Header plus body of each message, as the encoder lays them out.
const SIZES: WireSizes = WireSizes {
    packet_header: 24,
    add_order: 8 + 24,
    modify_order: 8 + 24,
    delete_order: 8 + 16,
    trade: 8 + 40,
    heartbeat: 8 + 8,
};

/// What kind of message this is.
#[derive(Debug, Clone, Copy, PartialEq, Eq)]
enum Kind {
    AddOrder,
    ModifyOrder,
    DeleteOrder,
    Trade,
    Heartbeat,
    Other,
}

fn kind(m: &Message) -> Kind {
    match m {
        Message::AddOrder { .. } => Kind::AddOrder,
        Message::ModifyOrder { .. } => Kind::ModifyOrder,
        Message::DeleteOrder { .. } => Kind::DeleteOrder,
        Message::Trade { .. } => Kind::Trade,
        Message::Heartbeat { .. } => Kind::Heartbeat,
        _ => Kind::Other,
    }
}

fn rig() -> (Engine, FeedPublisher) {
    let symbols = vec![Symbol {
        id: 7,
        name: "TEST".into(),
        reference_price: 1_000_000,
        tick_size: 100,
    }];
    (Engine::new(&symbols), FeedPublisher::new(64, 1400, SIZES))
}

fn messages(feed: &mut FeedPublisher) -> Vec<(u64, Message)> {
    feed.flush();
    let mut out = Vec::new();
    for d in feed.take_outbox() {
        let mut seq = d.first_sequence;
        for m in d.messages {
            out.push((seq, m));
            seq += 1;
        }
    }
    out
}

fn published(feed: &mut FeedPublisher) -> Vec<(u64, Kind)> {
    messages(feed).iter().map(|(seq, m)| (*seq, kind(m))).collect()
}

#[test]
fn a_resting_order_produces_one_add() {
    let (mut e, mut feed) = rig();
    e.submit(&mut feed, 7, Side::Bid, 1_000_000, 10, 0)
        .unwrap();
    assert_eq!(
        published(&mut feed),
        vec![(1, Kind::AddOrder)]
    );
    assert_eq!(e.books().get(7).unwrap().len(), 1);
}

#[test]
fn a_full_fill_publishes_a_trade_then_a_delete() {
    let (mut e, mut feed) = rig();
    e.submit(&mut feed, 7, Side::Ask, 1_000_000, 10, 0)
        .unwrap();
    e.submit(&mut feed, 7, Side::Bid, 1_000_000, 10, 0)
        .unwrap();

    assert_eq!(
        published(&mut feed),
        vec![
            (1, Kind::AddOrder),
            (2, Kind::Trade),
            (3, Kind::DeleteOrder),
        ],
        "the aggressor fully filled, so it never rests and never adds"
    );
    assert!(e.books().get(7).unwrap().is_empty());
}

#[test]
fn a_partial_fill_reduces_the_resting_order_and_keeps_its_priority() {
    let (mut e, mut feed) = rig();
    e.submit(&mut feed, 7, Side::Ask, 1_000_000, 10, 0)
        .unwrap();
    e.submit(&mut feed, 7, Side::Bid, 1_000_000, 4, 0)
        .unwrap();

    assert_eq!(
        published(&mut feed),
        vec![
            (1, Kind::AddOrder),
            (2, Kind::Trade),
            (3, Kind::ModifyOrder),
        ]
    );
    let book = e.books().get(7).unwrap();
    assert_eq!(book.get(1).unwrap().quantity, 6);
    assert_eq!(book.front(Side::Ask), Some((1_000_000, 1)));
}

#[test]
fn an_aggressor_larger_than_the_book_fills_then_rests_the_remainder() {
    let (mut e, mut feed) = rig();
    e.submit(&mut feed, 7, Side::Ask, 1_000_000, 5, 0)
        .unwrap();
    e.submit(&mut feed, 7, Side::Bid, 1_000_000, 12, 0)
        .unwrap();

    assert_eq!(
        published(&mut feed),
        vec![
            (1, Kind::AddOrder),
            (2, Kind::Trade),
            (3, Kind::DeleteOrder),
            (4, Kind::AddOrder),
        ]
    );
    let book = e.books().get(7).unwrap();
    assert_eq!(book.best_bid().unwrap().quantity, 7, "12 in, 5 filled");
}

#[test]
fn matching_walks_price_levels_and_respects_time_at_each() {
    let (mut e, mut feed) = rig();
    // Two at the best ask, one behind it; the aggressor should take the
    // first-arrived at 1_000_000 before the second, then move to 1_000_100.
    e.submit(&mut feed, 7, Side::Ask, 1_000_000, 5, 0)
        .unwrap();
    e.submit(&mut feed, 7, Side::Ask, 1_000_000, 5, 0)
        .unwrap();
    e.submit(&mut feed, 7, Side::Ask, 1_000_100, 5, 0)
        .unwrap();
    let _ = published(&mut feed);

    e.submit(&mut feed, 7, Side::Bid, 1_000_100, 12, 0)
        .unwrap();
    let msgs = published(&mut feed);
    let kinds: Vec<Kind> = msgs.iter().map(|(_, t)| *t).collect();
    assert_eq!(
        kinds,
        vec![
            Kind::Trade,
            Kind::DeleteOrder,
            Kind::Trade,
            Kind::DeleteOrder,
            Kind::Trade,
            Kind::ModifyOrder,
        ],
        "two full fills at the touch, then a partial at the next level"
    );
    assert_eq!(e.books().get(7).unwrap().get(3).unwrap().quantity, 3);
}

#[test]
fn an_order_that_does_not_cross_just_rests() {
    let (mut e, mut feed) = rig();
    e.submit(&mut feed, 7, Side::Ask, 1_000_100, 5, 0)
        .unwrap();
    e.submit(&mut feed, 7, Side::Bid, 1_000_000, 5, 0)
        .unwrap();
    assert_eq!(
        published(&mut feed),
        vec![
            (1, Kind::AddOrder),
            (2, Kind::AddOrder),
        ],
        "a bid below the ask is not a trade"
    );
}

#[test]
fn a_trade_prints_at_the_resting_price_not_the_aggressors_limit() {
    let (mut e, mut feed) = rig();
    e.submit(&mut feed, 7, Side::Ask, 1_000_000, 5, 0)
        .unwrap();
    // Willing to pay far more, but the passive side set the terms.
    e.submit(&mut feed, 7, Side::Bid, 1_500_000, 5, 0)
        .unwrap();
    let mut trade_price = None;
    for (_, m) in messages(&mut feed) {
        if let Message::Trade { price, .. } = m {
            trade_price = Some(price);
        }
    }
    assert_eq!(trade_price, Some(1_000_000));
}

#[test]
fn cancelling_an_order_that_is_not_there_publishes_nothing() {
    let (mut e, mut feed) = rig();
    e.cancel(&mut feed, 7, 999, 0).unwrap();
    assert!(published(&mut feed).is_empty());
}

#[test]
fn amend_picks_reduce_only_when_priority_survives() {
    let (mut e, mut feed) = rig();
    e.submit(&mut feed, 7, Side::Bid, 1_000_000, 10, 0)
        .unwrap();
    let _ = published(&mut feed);

    e.amend(&mut feed, 7, 1, None, 4, 0).unwrap();
    assert_eq!(
        published(&mut feed),
        vec![(2, Kind::ModifyOrder)]
    );

    // Sizing up loses priority, so it must be a Replace and the book must
    // accept it — a Reduce would have been rejected outright.
    e.amend(&mut feed, 7, 1, None, 20, 0).unwrap();
    assert_eq!(e.books().get(7).unwrap().get(1).unwrap().quantity, 20);
}

#[test]
fn the_book_after_publishing_sequence_s_is_the_result_of_one_through_s() {
    // The invariant the whole cross-process digest comparison rests on.
    let (mut e, mut feed) = rig();
    let mut checkpoints: Vec<(u64, BookDigest)> = Vec::new();

    for i in 0..20u32 {
        let side = if i % 2 == 0 { Side::Ask } else { Side::Bid };
        let price = 1_000_000 + i64::from(i % 5) * 100;
        for c in e.submit(&mut feed, 7, side, price, 3 + i, 1).unwrap() {
            checkpoints.push((c.sequence, c.digest));
        }
    }
    feed.flush();

    // Sequences are contiguous and every one has exactly one checkpoint.
    let seqs: Vec<u64> = checkpoints.iter().map(|(s, _)| *s).collect();
    assert_eq!(seqs, (1..=seqs.len() as u64).collect::<Vec<_>>());
    // And the last checkpoint is the engine's current book.
    assert_eq!(checkpoints.last().unwrap().1, e.digest());
}

#[test]
fn a_checkpoint_is_what_a_replay_of_the_feed_comes_to() {
    let (mut e, mut feed) = rig();
    let mut checkpoints = Vec::new();
    for i in 0..30u32 {
        let side = if i % 3 == 0 { Side::Ask } else { Side::Bid };
        let price = 1_000_000 + i64::from(i % 4) * 100;
        checkpoints.extend(e.submit(&mut feed, 7, side, price, 1 + i % 7, 5).unwrap());
    }
    checkpoints.extend(e.cancel(&mut feed, 7, 4, 5).unwrap());
    checkpoints.extend(e.amend(&mut feed, 7, 2, Some(999_000), 50, 5).unwrap());

    let mut books = Books::new();
    let mut seen = Vec::new();
    for (seq, m) in messages(&mut feed) {
        apply_message(&mut books, &m).unwrap();
        if seq % 5 == 0 {
            seen.push((seq, BookDigest::of(&books)));
        }
    }
    let want: Vec<(u64, BookDigest)> =
        checkpoints.iter().map(|c| (c.sequence, c.digest)).collect();
    assert_eq!(seen, want);
    assert_eq!(BookDigest::of(&books), e.digest());
}

#[test]
fn a_submitted_order_is_reported_fill_by_fill() {
    let (mut e, mut feed) = rig();
    e.submit(&mut feed, 7, Side::Ask, 1_000_000, 5, 0).unwrap();
    e.submit(&mut feed, 7, Side::Ask, 1_000_100, 5, 0).unwrap();
    e.watch_order(1);
    let r = e
        .submit_reported(&mut feed, 7, Side::Bid, 1_000_100, 12, false, 0)
        .unwrap();
    assert_eq!(r.order_id, 3);
    assert_eq!(r.resting, 2);
    let fills: Vec<(i64, u32, u32)> =
        r.fills.iter().map(|f| (f.price, f.quantity, f.leaves)).collect();
    assert_eq!(fills, vec![(1_000_000, 5, 7), (1_000_100, 5, 2)]);
    let passive = e.take_passive_fills();
    assert_eq!(passive.len(), 1);
    assert_eq!(passive[0].resting_order_id, 1);
    assert_eq!(passive[0].leaves, 0);
    assert!(e.take_passive_fills().is_empty());
    let s = e.stats();
    assert_eq!((s.orders_submitted, s.trades, s.shares_traded), (3, 2, 10));
}

#[test]
fn a_cancelled_order_says_what_was_left_of_it() {
    let (mut e, mut feed) = rig();
    e.submit(&mut feed, 7, Side::Ask, 1_000_000, 10, 0).unwrap();
    e.submit(&mut feed, 7, Side::Bid, 1_000_000, 4, 0).unwrap();
    let (left, _) = e.cancel_reported(&mut feed, 7, 1, 0).unwrap();
    assert_eq!(left, Some(6));
    let (left, _) = e.cancel_reported(&mut feed, 7, 1, 0).unwrap();
    assert_eq!(left, None);
    assert_eq!(e.stats().cancels, 1);
}

#[test]
fn an_amendment_to_nothing_is_refused() {
    let (mut e, mut feed) = rig();
    e.submit(&mut feed, 7, Side::Bid, 1_000_000, 10, 0).unwrap();
    assert!(matches!(
        e.amend(&mut feed, 7, 1, None, 0, 0),
        Err(EngineError::Book(BookError::ZeroQuantity(1)))
    ));
    assert_eq!(e.books().get(7).unwrap().get(1).unwrap().quantity, 10);
}

#[test]
fn a_book_is_never_left_crossed() {
    let (mut e, mut feed) = rig();
    for i in 0..200u32 {
        let side = if (i * 7) % 3 == 0 { Side::Ask } else { Side::Bid };
        let price = 1_000_000 + i64::from((i * 13) % 11) * 100;
        e.submit(&mut feed, 7, side, price, 1 + i % 9, 0).unwrap();
        let book = e.books().get(7).unwrap();
        if let (Some(b), Some(a)) = (book.best_bid(), book.best_ask()) {
            assert!(b.price < a.price);
        }
    }
}

#[test]
fn a_trade_that_fits_no_datagram_is_an_error() {
    let (mut e, _) = rig();
    let mut feed = FeedPublisher::new(64, 24 + 8 + 24, SIZES);
    e.submit(&mut feed, 7, Side::Ask, 1_000_000, 5, 0).unwrap();
    let err = e.submit(&mut feed, 7, Side::Bid, 1_000_000, 5, 0).unwrap_err();
    assert!(matches!(
        err.error,
        EngineError::Feed(FeedError::MessageTooLarge { max_datagram_bytes: 56 })
    ));
    // The trade was the first of its messages, so the book is as it was.
    assert_eq!(feed.last_sequence(), 1);
    assert_eq!(e.books().get(7).unwrap().len(), 1);
}

#[test]
fn an_order_is_watched_until_it_is_not() {
    let (mut e, mut feed) = rig();
    e.submit(&mut feed, 7, Side::Ask, 1_000_000, 10, 0).unwrap();
    e.watch_order(1);
    e.submit(&mut feed, 7, Side::Bid, 1_000_000, 4, 0).unwrap();
    e.unwatch_order(1);
    e.submit(&mut feed, 7, Side::Bid, 1_000_000, 4, 0).unwrap();
    let fills = e.take_passive_fills();
    assert_eq!(fills.len(), 1);
    assert_eq!((fills[0].quantity, fills[0].leaves), (4, 6));
}

#[test]
fn there_are_numbers_left_at_the_start() {
    let (e, feed) = rig();
    assert!(e.goes_on(&feed));
}

#[test]
fn an_order_stopped_midway_keeps_the_checkpoints_of_what_was_published() {
    let (mut e, _) = rig();
    // A trade and a delete fit a datagram; a modify does not.
    let sizes = WireSizes { modify_order: 2000, ..SIZES };
    let mut feed = FeedPublisher::new(64, 1400, sizes);
    e.submit(&mut feed, 7, Side::Ask, 1_000_000, 5, 0).unwrap();
    e.submit(&mut feed, 7, Side::Ask, 1_000_000, 5, 0).unwrap();
    let before = feed.last_sequence();
    let stopped = e.submit(&mut feed, 7, Side::Bid, 1_000_000, 8, 1).unwrap_err();
    assert_eq!(
        stopped.error,
        EngineError::Feed(FeedError::MessageTooLarge { max_datagram_bytes: 1400 })
    );
    // Trade and delete of the first order, then the trade with the second.
    let seen: Vec<u64> = stopped.checkpoints.iter().map(|c| c.sequence).collect();
    assert_eq!(seen, vec![before + 1, before + 2, before + 3]);
    assert_eq!(feed.last_sequence(), before + 3);
}

#[test]
fn everything_published_is_in_a_datagram_once_flushed() {
    let (mut e, _) = rig();
    let mut feed = FeedPublisher::new(3, 1400, SIZES);
    let mut sent = Vec::new();
    for i in 0..20u32 {
        let side = if i % 2 == 0 { Side::Bid } else { Side::Ask };
        e.submit(&mut feed, 7, side, 1_000_000, 1 + i % 3, 0).unwrap();
        if i % 7 == 0 {
            sent.extend(feed.take_outbox());
        }
    }
    feed.flush();
    sent.extend(feed.take_outbox());
    let mut next = 1;
    for d in &sent {
        assert_eq!(d.first_sequence, next);
        next += d.messages.len() as u64;
    }
    assert_eq!(next, feed.last_sequence() + 1);
}
