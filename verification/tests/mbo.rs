use mdstack::mbo::{MboBook, MboCapacity};
use mdstack::message::Side;
use mdstack::model::{BookError, Level, RestingOrder};

fn book() -> MboBook {
    // Small on purpose: a 64-slot window and a 16-order slab put the
    // capacity edges within reach of a test instead of a million messages
    // away.
    MboBook::new(MboCapacity {
        levels: 64,
        orders: 16,
        reference_price: 1_000_000,
        tick: 100,
    })
}

fn levels(b: &MboBook, side: Side, depth: usize) -> Vec<Level> {
    b.for_each_level(side, depth)
}

fn queue(b: &MboBook, side: Side) -> Vec<u64> {
    b.for_each_order(side).iter().map(|o| o.order_id).collect()
}

#[test]
fn mbo_orders_rest_in_arrival_order_at_a_price() {
    let mut b = book();
    b.add(1, Side::Bid, 1_000_000, 10).unwrap();
    b.add(2, Side::Bid, 1_000_000, 20).unwrap();
    b.add(3, Side::Bid, 1_000_000, 30).unwrap();
    assert_eq!(queue(&b, Side::Bid), vec![1, 2, 3]);
    assert_eq!(b.front(Side::Bid), Some((1_000_000, 1)));
    b.check_invariants().unwrap();
}

#[test]
fn the_best_bid_is_the_highest_and_the_best_ask_is_the_lowest() {
    let mut b = book();
    b.add(1, Side::Bid, 999_900, 10).unwrap();
    b.add(2, Side::Bid, 1_000_000, 10).unwrap();
    b.add(3, Side::Ask, 1_000_200, 10).unwrap();
    b.add(4, Side::Ask, 1_000_100, 10).unwrap();
    assert_eq!(b.best_bid().unwrap().price, 1_000_000);
    assert_eq!(b.best_ask().unwrap().price, 1_000_100);
    b.check_invariants().unwrap();
}

#[test]
fn mbo_levels_aggregate_quantity_and_count() {
    let mut b = book();
    b.add(1, Side::Bid, 1_000_000, 10).unwrap();
    b.add(2, Side::Bid, 1_000_000, 5).unwrap();
    b.add(3, Side::Bid, 999_900, 7).unwrap();
    let ls = levels(&b, Side::Bid, 0);
    assert_eq!(ls.len(), 2);
    assert_eq!(
        ls[0],
        Level {
            price: 1_000_000,
            quantity: 15,
            order_count: 2
        }
    );
    assert_eq!(
        ls[1],
        Level {
            price: 999_900,
            quantity: 7,
            order_count: 1
        }
    );
    assert_eq!(b.level_count(Side::Bid, 0), 2);
    assert_eq!(b.level_count(Side::Bid, 1), 1);
}

#[test]
fn deleting_the_only_order_at_the_touch_moves_the_best_price_down() {
    // The rescan path. A stale cached best is the failure mode this whole
    // structure is most exposed to.
    let mut b = book();
    b.add(1, Side::Bid, 1_000_000, 10).unwrap();
    b.add(2, Side::Bid, 999_900, 10).unwrap();
    b.delete(1).unwrap();
    assert_eq!(b.best_bid().unwrap().price, 999_900);
    b.check_invariants().unwrap();
    b.delete(2).unwrap();
    assert_eq!(b.best_bid(), None);
    assert!(b.is_empty());
    b.check_invariants().unwrap();
}

#[test]
fn reduce_keeps_queue_position_and_replace_loses_it() {
    let mut b = book();
    b.add(1, Side::Bid, 1_000_000, 10).unwrap();
    b.add(2, Side::Bid, 1_000_000, 10).unwrap();

    b.reduce(1, 4).unwrap();
    assert_eq!(queue(&b, Side::Bid), vec![1, 2], "reduce keeps priority");
    assert_eq!(levels(&b, Side::Bid, 0)[0].quantity, 14);

    b.replace(1, 1_000_000, 9).unwrap();
    assert_eq!(queue(&b, Side::Bid), vec![2, 1], "replace goes to the back");
    assert_eq!(levels(&b, Side::Bid, 0)[0].quantity, 19);
    b.check_invariants().unwrap();
}

#[test]
fn a_same_price_replace_does_not_double_count_the_level() {
    // The level empties and refills within one operation. Counting the two
    // halves independently would leave the occupied-level total wrong, and
    // nothing but the digest would ever notice.
    let mut b = book();
    b.add(1, Side::Bid, 1_000_000, 10).unwrap();
    b.replace(1, 1_000_000, 12).unwrap();
    assert_eq!(b.level_count(Side::Bid, 0), 1);
    b.check_invariants().unwrap();
}

#[test]
fn a_replace_across_prices_moves_the_level_totals() {
    let mut b = book();
    b.add(1, Side::Bid, 1_000_000, 10).unwrap();
    b.add(2, Side::Bid, 999_900, 3).unwrap();
    b.replace(1, 999_800, 4).unwrap();
    assert_eq!(b.best_bid().unwrap().price, 999_900);
    assert_eq!(levels(&b, Side::Bid, 0).len(), 2);
    assert_eq!(b.get(1).unwrap().price, 999_800);
    b.check_invariants().unwrap();
}

#[test]
fn the_malformed_feed_cases_match_the_reference_book() {
    let mut b = book();
    b.add(1, Side::Bid, 1_000_000, 10).unwrap();
    assert_eq!(
        b.add(1, Side::Bid, 1_000_000, 5),
        Err(BookError::DuplicateOrderId(1))
    );
    assert_eq!(b.delete(99), Err(BookError::UnknownOrderId(99)));
    assert_eq!(b.reduce(99, 1), Err(BookError::UnknownOrderId(99)));
    assert_eq!(b.reduce(1, 0), Err(BookError::ZeroQuantity(1)));
    assert_eq!(
        b.reduce(1, 11),
        Err(BookError::ReduceWouldIncrease {
            order_id: 1,
            from: 10,
            to: 11
        })
    );
    assert_eq!(
        b.add(2, Side::Bid, 1_000_000, 0),
        Err(BookError::ZeroQuantity(2))
    );
    b.check_invariants().unwrap();
}

#[test]
fn a_price_off_the_tick_grid_is_refused() {
    let mut b = book();
    assert_eq!(
        b.add(1, Side::Bid, 1_000_050, 10),
        Err(BookError::PriceOffGrid {
            order_id: 1,
            price: 1_000_050
        })
    );
    assert!(b.is_empty());
    b.check_invariants().unwrap();
}

#[test]
fn the_slab_reports_being_full_rather_than_growing() {
    let mut b = book(); // 16 orders
    for i in 0..16u64 {
        b.add(i, Side::Bid, 1_000_000, 1).unwrap();
    }
    assert_eq!(
        b.add(16, Side::Bid, 1_000_000, 1),
        Err(BookError::SlabFull {
            order_id: 16,
            capacity: 16
        })
    );
    b.check_invariants().unwrap();
    // And the slab is reusable: freeing one makes room for one.
    b.delete(0).unwrap();
    b.add(16, Side::Bid, 1_000_000, 1).unwrap();
    b.check_invariants().unwrap();
}

#[test]
fn the_window_slides_onto_a_far_price_and_brings_the_book_with_it() {
    let mut b = book();
    b.add(1, Side::Bid, 1_000_000, 10).unwrap();
    b.add(2, Side::Bid, 999_900, 5).unwrap();
    assert_eq!(b.stats().rebases, 0);

    // A 64-slot window of 100 centred on 1_000_000 covers 996_800..=1_003_100,
    // so this is outside it — but the occupied prices are close enough that
    // one slide fits everything.
    let outside = 1_004_000;
    assert_eq!(
        b.slot_of(outside),
        None,
        "the test price must start outside"
    );
    b.add(3, Side::Ask, outside, 7).unwrap();
    assert_eq!(b.stats().rebases, 1, "the window had to move");

    // Everything that was on the book is still on it, at its own price.
    assert_eq!(b.get(1).unwrap().price, 1_000_000);
    assert_eq!(b.get(2).unwrap().price, 999_900);
    assert_eq!(b.get(3).unwrap().price, outside);
    assert_eq!(b.best_bid().unwrap().price, 1_000_000);
    assert_eq!(b.best_ask().unwrap().price, outside);
    b.check_invariants().unwrap();
}

#[test]
fn a_rebase_that_would_drop_a_live_level_is_refused_not_performed() {
    // The property that stops the book quietly forgetting its far side.
    let mut b = book(); // 64 slots of 100 = a 6,400-wide window
    b.add(1, Side::Bid, 1_000_000, 10).unwrap();
    let far = 2_000_000;
    assert_eq!(
        b.add(2, Side::Bid, far, 10),
        Err(BookError::PriceOutOfRange {
            order_id: 2,
            price: far
        })
    );
    // Refused, not half-applied.
    assert_eq!(b.len(), 1);
    assert_eq!(b.get(1).unwrap().price, 1_000_000);
    assert_eq!(b.stats().rebases, 0);
    b.check_invariants().unwrap();
}

#[test]
fn a_replace_refused_for_range_leaves_the_order_where_it_was() {
    let mut b = book();
    b.add(1, Side::Bid, 1_000_000, 10).unwrap();
    b.add(2, Side::Bid, 999_900, 10).unwrap();
    assert!(b.replace(1, 9_000_000, 5).is_err());
    assert_eq!(
        b.get(1).unwrap(),
        RestingOrder {
            order_id: 1,
            price: 1_000_000,
            quantity: 10,
            side: Side::Bid,
        }
    );
    assert_eq!(queue(&b, Side::Bid), vec![1, 2]);
    b.check_invariants().unwrap();
}

#[test]
fn clear_empties_the_book_and_the_slab_is_fully_reusable_afterwards() {
    // Recovery does this: a snapshot replaces the book wholesale, and the
    // free list has to come back intact or the next 16 adds fail.
    let mut b = book();
    for i in 0..16u64 {
        b.add(i, Side::Bid, 1_000_000 - (i as i64) * 100, 1)
            .unwrap();
    }
    b.clear();
    assert!(b.is_empty());
    assert_eq!(b.best_bid(), None);
    assert_eq!(b.level_count(Side::Bid, 0), 0);
    b.check_invariants().unwrap();
    for i in 0..16u64 {
        b.add(i, Side::Bid, 1_000_000, 1).unwrap();
    }
    b.check_invariants().unwrap();
}

#[test]
fn the_order_map_survives_heavy_churn_without_degrading() {
    // Backward-shift deletion is the reason this passes. With tombstones the
    // table would end up mostly dead entries and the probe count would climb
    // without bound.
    let mut b = book();
    let mut next = 0u64;
    for round in 0..500u64 {
        for _ in 0..8 {
            b.add(next, Side::Bid, 1_000_000, 1).unwrap();
            next += 1;
        }
        for id in (next - 8)..next {
            b.delete(id).unwrap();
        }
        if round % 100 == 0 {
            b.check_invariants().unwrap();
        }
    }
    assert!(b.is_empty());
    let s = b.stats();
    // 4x sized table, so a healthy table averages well under one extra probe.
    assert!(
        s.extra_probes < s.lookups,
        "probe chains grew: {} extra probes over {} lookups",
        s.extra_probes,
        s.lookups
    );
    b.check_invariants().unwrap();
}

#[test]
fn colliding_ids_are_all_findable_after_the_middle_one_is_removed() {
    // The exact case backward-shift deletion exists for: three ids that
    // probe to the same home slot, with the middle of the chain removed.
    // Naively clearing the slot would strand the third.
    let mut b = MboBook::new(MboCapacity {
        levels: 8,
        orders: 1024,
        reference_price: 1_000_000,
        tick: 100,
    });
    // Find three ids that share a home slot in this table.
    let mut colliding = Vec::new();
    let home = b.hash(1);
    for id in 1..2_000_000u64 {
        if b.hash(id) == home {
            colliding.push(id);
            if colliding.len() == 3 {
                break;
            }
        }
    }
    assert_eq!(colliding.len(), 3, "expected to find a 3-way collision");

    for id in &colliding {
        b.add(*id, Side::Bid, 1_000_000, 1).unwrap();
    }
    b.delete(colliding[1]).unwrap();
    assert!(b.get(colliding[0]).is_some());
    assert!(b.get(colliding[1]).is_none());
    assert!(
        b.get(colliding[2]).is_some(),
        "the tail of the probe chain was stranded by the deletion"
    );
    b.check_invariants().unwrap();
}

#[test]
fn a_capacity_says_whether_a_book_can_be_made() {
    let cap = MboCapacity::new(1_000_000, 100);
    assert!(cap.is_valid());
    assert!(!MboCapacity { reference_price: i64::MIN, ..cap }.is_valid());
    assert!(!MboCapacity { orders: usize::MAX, ..cap }.is_valid());
    assert!(!MboCapacity { levels: usize::MAX, ..cap }.is_valid());
}

#[test]
fn a_book_may_be_as_large_as_its_nodes_can_be_numbered() {
    let cap = MboCapacity::new(1_000_000, 100);
    assert!(MboCapacity { orders: 0x3000_0000, ..cap }.is_valid());
    assert!(MboCapacity { orders: u32::MAX as usize, ..cap }.is_valid());
    assert!(!MboCapacity { orders: u32::MAX as usize + 1, ..cap }.is_valid());
}

#[test]
fn the_highest_price_there_is_can_rest() {
    let top = i64::MAX / 100 * 100;
    let mut b = MboBook::new(MboCapacity { levels: 64, orders: 16, reference_price: top, tick: 100 });
    b.add(1, Side::Ask, top, 10).unwrap();
    b.add(2, Side::Bid, top - 3_100, 5).unwrap();
    assert_eq!(b.best_ask().unwrap().price, top);
    assert_eq!(levels(&b, Side::Bid, 0).len(), 1);
    b.check_invariants().unwrap();
    // A window that slides up to it.
    let mut b = MboBook::new(MboCapacity {
        levels: 64,
        orders: 16,
        reference_price: top - 1_000_000,
        tick: 100,
    });
    b.add(1, Side::Ask, top, 10).unwrap();
    assert_eq!(queue(&b, Side::Ask), vec![1]);
    assert_eq!(b.stats().rebases, 1);
    b.check_invariants().unwrap();
}
