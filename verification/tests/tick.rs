use mdstack::tick::{Slot, TickIndex};

fn idx() -> TickIndex {
    // 1000 ticks of 100 units, centred on 1_000_000: covers 950_000..1_049_900.
    TickIndex::centred_on(1_000_000, 100, 1000)
}

#[test]
fn the_centre_price_lands_in_the_middle() {
    let t = idx();
    assert_eq!(t.slot(1_000_000), Slot::At(500));
    assert_eq!(t.price_at(500), 1_000_000);
}

#[test]
fn prices_map_to_adjacent_slots_one_tick_apart() {
    let t = idx();
    assert_eq!(t.slot(1_000_100), Slot::At(501));
    assert_eq!(t.slot(999_900), Slot::At(499));
}

#[test]
fn the_window_edges_are_inside_and_one_past_is_not() {
    let t = idx();
    assert_eq!(t.slot(t.anchor()), Slot::At(0));
    assert_eq!(t.slot(t.price_at(999)), Slot::At(999));
    assert_eq!(t.slot(t.anchor() - t.tick()), Slot::Outside);
    assert_eq!(t.slot(t.price_at(1000)), Slot::Outside);
}

#[test]
fn a_price_off_the_tick_grid_is_refused_not_rounded() {
    // Rounding would put an order at a price nobody quoted, and the book
    // would then disagree with the publisher about where it rests.
    let t = idx();
    assert_eq!(t.slot(1_000_050), Slot::OffGrid);
    assert_eq!(t.slot(1_000_001), Slot::OffGrid);
}

#[test]
fn rebasing_an_empty_window_centres_it_on_the_new_price() {
    let t = idx();
    let far = 2_000_000;
    assert_eq!(t.slot(far), Slot::Outside);
    let (moved, shift) = t.rebase_for(far, None).unwrap();
    assert_eq!(moved.slot(far), Slot::At(500));
    assert_eq!(moved.tick(), t.tick());
    assert_eq!(moved.capacity(), t.capacity());
    assert_eq!(shift, (moved.anchor() - t.anchor()) / t.tick());
}

#[test]
fn rebasing_slides_just_far_enough_to_keep_what_is_occupied() {
    // The case that makes rebasing useful at all. Re-centring on the new
    // price would throw the occupied range out of the window and the move
    // would have to be refused; sliding over the span keeps everything.
    let t = idx(); // 1000 ticks of 100 from 950_000
    let occupied = (999_000, 1_001_000);
    let just_outside = t.price_at(t.capacity() - 1) + t.tick();

    let (moved, _shift) = t.rebase_for(just_outside, Some(occupied)).unwrap();
    assert!(moved.contains(just_outside), "the new price has to fit");
    assert!(
        moved.contains(occupied.0),
        "and so does the lowest occupied"
    );
    assert!(moved.contains(occupied.1), "and the highest");
}

#[test]
fn a_span_wider_than_the_window_is_refused_rather_than_truncated() {
    let t = idx(); // covers 100_000 units
                   // 1M away from the occupied range: no placement of a 100_000-unit
                   // window covers both, and pretending otherwise would silently drop one.
    assert_eq!(t.rebase_for(2_000_000, Some((999_000, 1_001_000))), None);
}

#[test]
fn rebasing_cannot_fix_an_off_grid_price() {
    let t = idx();
    assert_eq!(t.rebase_for(1_000_050, None), None);
}

#[test]
fn a_shift_that_would_lose_an_occupied_level_is_refused() {
    // The property that stops a rebase quietly forgetting the far side of
    // the book.
    let t = idx();
    // Occupied from slot 10 to slot 990.
    assert!(t.shift_preserves(0, Some(10), Some(990)));
    assert!(t.shift_preserves(9, Some(10), Some(990)));
    assert!(
        !t.shift_preserves(11, Some(10), Some(990)),
        "shifting past the lowest occupied slot must be refused"
    );
    assert!(
        !t.shift_preserves(-10, Some(10), Some(990)),
        "shifting past the highest occupied slot must be refused"
    );
}

#[test]
fn an_empty_book_can_always_be_rebased() {
    let t = idx();
    assert!(t.shift_preserves(10_000, None, None));
}

#[test]
fn negative_prices_work() {
    // Spreads and settlement marks go below zero, and the index arithmetic
    // must not assume otherwise.
    let t = TickIndex::centred_on(0, 100, 1000);
    assert_eq!(t.slot(0), Slot::At(500));
    assert_eq!(t.slot(-100), Slot::At(499));
    assert_eq!(t.slot(-50_000), Slot::At(0));
    assert_eq!(t.price_at(0), -50_000);
}

#[test]
fn every_slot_round_trips_through_its_price() {
    let t = idx();
    for i in 0..t.capacity() {
        assert_eq!(t.slot(t.price_at(i)), Slot::At(i), "slot {i}");
    }
}

#[test]
fn a_window_starts_at_a_price() {
    assert!(TickIndex::can_centre(1_000_000, 100, 1000));
    assert!(TickIndex::can_centre(i64::MAX, 100, 1000));
    assert!(TickIndex::can_centre(i64::MIN + 500 * 100, 100, 1000));
    assert!(!TickIndex::can_centre(i64::MIN + 500 * 100 - 1, 100, 1000));
    assert!(!TickIndex::can_centre(0, i64::MAX, usize::MAX));
}
