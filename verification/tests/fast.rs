use mdstack::fast::{default_capacity, FastBooks};
use mdstack::message::Side;
use mdstack::view::BookSet;

#[test]
fn symbols_are_visited_in_id_order_whatever_order_they_arrived_in() {
    // Not cosmetic: the digest hashes symbols in the order it is handed
    // them, so two processes that saw the same symbols in a different order
    // would disagree about an identical book.
    let mut set = FastBooks::new(default_capacity());
    for symbol in [9u16, 1, 5, 3] {
        set.get_or_create(symbol)
            .add(u64::from(symbol), Side::Bid, 1_000_000, 1)
            .unwrap();
    }
    let seen = set.for_each_symbol();
    assert_eq!(seen, vec![1, 3, 5, 9]);
    assert_eq!(set.total_orders(), 4);
    set.check_invariants().unwrap();
}

#[test]
fn a_symbol_is_created_once_and_found_thereafter() {
    let mut set = FastBooks::new(default_capacity());
    set.get_or_create(7)
        .add(1, Side::Bid, 1_000_000, 1)
        .unwrap();
    set.get_or_create(7)
        .add(2, Side::Bid, 1_000_000, 1)
        .unwrap();
    assert_eq!(set.symbols(), 1);
    assert_eq!(set.get(7).unwrap().len(), 2);
    assert!(set.get(8).is_none());
}

#[test]
fn clear_all_empties_symbols_the_cycle_never_mentions() {
    // A snapshot cycle replaces the whole set. A symbol that has gone away
    // simply stops appearing, so clearing only what the cycle names would
    // leave it resting forever.
    let mut set = FastBooks::new(default_capacity());
    set.get_or_create(1)
        .add(1, Side::Bid, 1_000_000, 1)
        .unwrap();
    set.get_or_create(2)
        .add(2, Side::Bid, 1_000_000, 1)
        .unwrap();
    set.clear_all();
    assert_eq!(set.total_orders(), 0);
    assert_eq!(set.symbols(), 2, "the books stay, keeping their memory");
    set.check_invariants().unwrap();
}

#[test]
fn preconfigured_symbols_pay_their_allocation_up_front() {
    let set = FastBooks::uniform(&vec![1, 2, 3], default_capacity());
    assert_eq!(set.symbols(), 3);
    assert_eq!(set.total_orders(), 0);
}

#[test]
fn a_symbol_given_twice_keeps_its_first_capacity() {
    let mut small = default_capacity();
    small.orders = 8;
    let mut set = FastBooks::with_symbols(
        &vec![(3, small), (1, default_capacity()), (3, default_capacity())],
        small,
    );
    assert_eq!(set.symbols(), 2);
    assert_eq!(set.fallback_capacity().orders, 8);
    assert_eq!(set.get(3).unwrap().capacity(), 8);
    assert_eq!(set.get(1).unwrap().capacity(), 65_536);
    assert_eq!(set.get_or_create(9).capacity(), 8);
    assert_eq!(set.iter().len(), 3);
}
