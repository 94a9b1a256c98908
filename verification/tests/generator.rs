use mdstack::engine::SymbolState;
use mdstack::generator::{Generator, Intent, Shape};
use mdstack::message::Side;
use mdstack::rng::Chance;

const CROWDED_RUNS: usize = 2000;

/// A probability as a chance.
fn odds(p: f64) -> Chance {
    Chance::Of((p * 9_007_199_254_740_992.0).ceil() as u64)
}

fn shape() -> Shape {
    Shape {
        target_depth: 20,
        price_spread_ticks: 5,
        aggressive_chance: odds(0.2),
        cancel_chance: odds(0.25),
        modify_chance: odds(0.15),
        min_quantity: 1,
        max_quantity: 100,
    }
}

fn symbol(live: usize) -> SymbolState {
    SymbolState {
        id: 3,
        tick_size: 100,
        mid: 1_000_000,
        live: (1..=live as u64).collect(),
    }
}

#[test]
fn the_same_seed_produces_the_same_intents() {
    let sym = symbol(30);
    let mut a = Generator::new(4242, shape());
    let mut b = Generator::new(4242, shape());
    for _ in 0..2000 {
        assert_eq!(a.next(&sym), b.next(&sym));
    }
}

#[test]
fn an_empty_book_is_only_ever_added_to() {
    // Otherwise a run that cancelled itself flat would emit nothing but
    // cancels for orders that are not there.
    let sym = symbol(0);
    let mut g = Generator::new(1, shape());
    for _ in 0..500 {
        assert!(
            matches!(g.next(&sym), Intent::Submit { .. }),
            "nothing rests, so there is nothing to cancel or amend"
        );
    }
}

#[test]
fn a_crowded_book_is_pushed_back_down() {
    let sym = symbol(shape().target_depth * 3);
    let mut g = Generator::new(2, shape());
    let mut cancels = 0;
    for _ in 0..CROWDED_RUNS {
        if matches!(g.next(&sym), Intent::Cancel { .. }) {
            cancels += 1;
        }
    }
    assert!(
        cancels > CROWDED_RUNS / 2,
        "an overfull book should mostly cancel, saw {cancels} of {CROWDED_RUNS}"
    );
}

#[test]
fn every_intent_names_an_order_that_is_actually_resting() {
    let sym = symbol(12);
    let mut g = Generator::new(3, shape());
    for _ in 0..5000 {
        match g.next(&sym) {
            Intent::Cancel { order_id, .. } | Intent::Amend { order_id, .. } => {
                assert!(
                    sym.live.contains(&order_id),
                    "generator named order {order_id}, which is not resting"
                );
            }
            Intent::Submit { .. } => {}
        }
    }
}

#[test]
fn quantities_stay_inside_the_configured_band() {
    let sym = symbol(5);
    let mut g = Generator::new(9, shape());
    for _ in 0..5000 {
        let q = match g.next(&sym) {
            Intent::Submit { quantity, .. } => quantity,
            Intent::Amend { new_quantity, .. } => new_quantity,
            Intent::Cancel { .. } => continue,
        };
        assert!((1..=100).contains(&q), "quantity {q} is outside 1..=100");
    }
}

#[test]
fn the_mid_actually_moves_when_it_is_drifted() {
    let mut sym = symbol(5);
    let start = sym.mid;
    let mut g = Generator::new(17, shape());
    for _ in 0..2000 {
        g.drift_mid(&mut sym);
    }
    assert_ne!(sym.mid, start, "the drift has to be stored, not recomputed");
}

#[test]
fn the_flow_produces_a_mix_rather_than_one_kind_of_intent() {
    let sym = symbol(20);
    let mut g = Generator::new(11, shape());
    let (mut submits, mut cancels, mut amends) = (0, 0, 0);
    for _ in 0..5000 {
        match g.next(&sym) {
            Intent::Submit { .. } => submits += 1,
            Intent::Cancel { .. } => cancels += 1,
            Intent::Amend { .. } => amends += 1,
        }
    }
    assert!(
        submits > 100 && cancels > 100 && amends > 100,
        "expected a mix, saw {submits} submits / {cancels} cancels / {amends} amends"
    );
}

#[test]
fn a_shape_takes_at_least_one_from_the_configuration() {
    let mut e = mdstack::config::Engine::default();
    e.price_spread_ticks = 0;
    e.min_quantity = 0;
    e.max_quantity = 0;
    let s = Shape::of(&e);
    assert_eq!(s.price_spread_ticks, 1);
    assert_eq!(s.min_quantity, 1);
    assert_eq!(s.max_quantity, 1);
    assert_eq!(s.target_depth, 40);
}

#[test]
fn a_starving_symbol_gets_only_orders_behind_the_mid() {
    let sym = symbol(2);
    let mut g = Generator::new(21, shape());
    for _ in 0..2000 {
        match g.next(&sym) {
            Intent::Submit { side, price, .. } => match side {
                Side::Bid => assert!(price < 1_000_000),
                Side::Ask => assert!(price > 1_000_000),
            },
            other => panic!("expected a submit, got {other:?}"),
        }
    }
}

#[test]
fn a_shape_knows_how_far_it_reaches() {
    let mut sym = symbol(0);
    assert!(shape().is_fit());
    assert!(shape().can_reach(&sym));
    sym.mid = i64::MAX - 499;
    assert!(!shape().can_reach(&sym));
    sym.mid = i64::MAX - 500;
    assert!(shape().can_reach(&sym));
    sym.mid = i64::MIN + 499;
    assert!(!shape().can_reach(&sym));
    sym.tick_size = 0;
    assert!(shape().can_reach(&sym));
    assert!(!Shape { price_spread_ticks: -1, ..shape() }.is_fit());
}

#[test]
fn a_symbol_is_picked_among_those_there_are() {
    let mut g = Generator::new(5, shape());
    let mut seen = [false; 3];
    for _ in 0..100 {
        seen[g.pick_symbol(3)] = true;
    }
    assert_eq!(seen, [true; 3]);
    assert_eq!(g.pick_symbol(0), 0);
}
