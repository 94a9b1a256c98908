use mdstack::books::Books;
use mdstack::digest::{BookDigest, DIGEST_DEPTH};
use mdstack::message::Side;
use mdstack::view::BookSet;

fn books_with(entries: &[(u16, u64, Side, i64, u32)]) -> Books {
    let mut books = Books::new();
    for (symbol, id, side, price, qty) in entries {
        books
            .get_or_create(*symbol)
            .add(*id, *side, *price, *qty)
            .unwrap();
    }
    books
}

#[test]
fn the_same_book_built_in_a_different_order_digests_the_same() {
    // This is the property the whole reconciliation rests on: the engine and
    // the handler reach the same state by different routes.
    let a = books_with(&[
        (1, 10, Side::Bid, 100, 5),
        (1, 11, Side::Ask, 105, 7),
        (2, 12, Side::Bid, 200, 1),
    ]);
    let b = books_with(&[
        (2, 12, Side::Bid, 200, 1),
        (1, 11, Side::Ask, 105, 7),
        (1, 10, Side::Bid, 100, 5),
    ]);
    assert_eq!(BookDigest::of(&a), BookDigest::of(&b));
}

#[test]
fn a_quantity_change_anywhere_changes_the_digest() {
    let a = books_with(&[(1, 10, Side::Bid, 100, 5)]);
    let b = books_with(&[(1, 10, Side::Bid, 100, 6)]);
    assert_ne!(BookDigest::of(&a), BookDigest::of(&b));
}

#[test]
fn a_side_swap_changes_the_digest() {
    let a = books_with(&[(1, 10, Side::Bid, 100, 5)]);
    let b = books_with(&[(1, 10, Side::Ask, 100, 5)]);
    assert_ne!(BookDigest::of(&a), BookDigest::of(&b));
}

#[test]
fn two_orders_at_one_level_differ_from_one_order_of_the_same_size() {
    // Aggregating only quantity would make these look identical, which
    // would hide a whole class of feed bug.
    let a = books_with(&[(1, 10, Side::Bid, 100, 10)]);
    let b = books_with(&[(1, 10, Side::Bid, 100, 5), (1, 11, Side::Bid, 100, 5)]);
    assert_ne!(BookDigest::of(&a), BookDigest::of(&b));
}

#[test]
fn divergence_below_the_top_depth_shows_up_in_full_but_not_in_top() {
    let mut a = Books::new();
    let mut b = Books::new();
    for i in 0..DIGEST_DEPTH as i64 + 4 {
        let id = i as u64;
        a.get_or_create(1).add(id, Side::Bid, 100 - i, 5).unwrap();
        b.get_or_create(1).add(id, Side::Bid, 100 - i, 5).unwrap();
    }
    // Change a level well below the touch.
    b.get_or_create(1)
        .reduce(DIGEST_DEPTH as u64 + 2, 1)
        .unwrap();

    let da = BookDigest::of(&a);
    let db = BookDigest::of(&b);
    assert_eq!(
        da.top, db.top,
        "the change is deeper than the top digest sees"
    );
    assert_ne!(da.full, db.full, "the full digest still catches it");
}

#[test]
fn an_empty_book_has_a_stable_digest() {
    // Pinned so an accidental change to the encoding is caught here rather
    // than as an unexplained smoke-test failure across two processes.
    let d = BookDigest::of(&Books::new());
    assert_eq!(d.top, 0xcbf2_9ce4_8422_2325);
    assert_eq!(d.full, 0xcbf2_9ce4_8422_2325);
    assert_eq!(d.orders, 0);
}

#[test]
fn fields_round_trip() {
    let d = BookDigest {
        top: 0x0123_4567_89ab_cdef,
        full: 0xfedc_ba98_7654_3210,
        orders: 42,
    };
    assert_eq!(BookDigest::from_fields(&d.to_fields()), Some(d));
    assert_eq!(BookDigest::from_fields("nonsense"), None);
    assert_eq!(BookDigest::from_fields("00 00 1 extra"), None);
}
