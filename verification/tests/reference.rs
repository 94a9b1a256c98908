use mdstack::message::Side;
use mdstack::model::{BookError, Level};
use mdstack::reference::ReferenceBook;

fn book() -> ReferenceBook {
    ReferenceBook::new()
}

#[test]
fn reference_orders_rest_in_arrival_order_at_a_price() {
    let mut b = book();
    b.add(1, Side::Bid, 100, 10).unwrap();
    b.add(2, Side::Bid, 100, 20).unwrap();
    b.add(3, Side::Bid, 100, 30).unwrap();
    assert_eq!(b.front(Side::Bid), Some((100, 1)));
    b.delete(1).unwrap();
    assert_eq!(b.front(Side::Bid), Some((100, 2)));
    b.check_invariants().unwrap();
}

#[test]
fn the_best_bid_is_the_highest_and_the_best_ask_the_lowest() {
    let mut b = book();
    b.add(1, Side::Bid, 100, 10).unwrap();
    b.add(2, Side::Bid, 101, 10).unwrap();
    b.add(3, Side::Ask, 105, 10).unwrap();
    b.add(4, Side::Ask, 104, 10).unwrap();
    assert_eq!(b.best_bid().unwrap().price, 101);
    assert_eq!(b.best_ask().unwrap().price, 104);
}

#[test]
fn reduce_keeps_queue_priority_and_replace_loses_it() {
    let mut b = book();
    b.add(1, Side::Bid, 100, 10).unwrap();
    b.add(2, Side::Bid, 100, 10).unwrap();

    b.reduce(1, 5).unwrap();
    assert_eq!(b.front(Side::Bid), Some((100, 1)), "reduce keeps the front");
    assert_eq!(b.get(1).unwrap().quantity, 5);

    b.replace(1, 100, 8).unwrap();
    assert_eq!(
        b.front(Side::Bid),
        Some((100, 2)),
        "replace sends the order to the back"
    );
    b.check_invariants().unwrap();
}

#[test]
fn replace_across_price_levels_moves_the_order() {
    let mut b = book();
    b.add(1, Side::Bid, 100, 10).unwrap();
    b.replace(1, 99, 10).unwrap();
    assert_eq!(b.best_bid().unwrap().price, 99);
    assert_eq!(b.levels(Side::Bid, 0).len(), 1, "the old level is gone");
    b.check_invariants().unwrap();
}

#[test]
fn reference_levels_aggregate_quantity_and_count() {
    let mut b = book();
    b.add(1, Side::Ask, 105, 10).unwrap();
    b.add(2, Side::Ask, 105, 15).unwrap();
    b.add(3, Side::Ask, 106, 5).unwrap();
    let levels = b.levels(Side::Ask, 0);
    assert_eq!(
        levels,
        vec![
            Level {
                price: 105,
                quantity: 25,
                order_count: 2
            },
            Level {
                price: 106,
                quantity: 5,
                order_count: 1
            },
        ]
    );
    assert_eq!(b.levels(Side::Ask, 1).len(), 1, "depth is respected");
}

#[test]
fn a_feed_that_contradicts_the_book_is_an_error_not_a_silent_no_op() {
    let mut b = book();
    b.add(1, Side::Bid, 100, 10).unwrap();
    assert_eq!(
        b.add(1, Side::Bid, 100, 10),
        Err(BookError::DuplicateOrderId(1))
    );
    assert_eq!(b.delete(99), Err(BookError::UnknownOrderId(99)));
    assert_eq!(b.reduce(99, 1), Err(BookError::UnknownOrderId(99)));
    assert_eq!(
        b.reduce(1, 20),
        Err(BookError::ReduceWouldIncrease {
            order_id: 1,
            from: 10,
            to: 20
        })
    );
    assert_eq!(b.add(2, Side::Bid, 100, 0), Err(BookError::ZeroQuantity(2)));
    assert_eq!(b.reduce(1, 0), Err(BookError::ZeroQuantity(1)));
}

#[test]
fn emptying_a_level_removes_it() {
    let mut b = book();
    b.add(1, Side::Bid, 100, 10).unwrap();
    b.delete(1).unwrap();
    assert!(b.is_empty());
    assert_eq!(b.best_bid(), None);
    assert_eq!(b.front(Side::Bid), None);
    b.check_invariants().unwrap();
}
