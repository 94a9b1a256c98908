use mdstack::rng::{Chance, Rng};

/// A probability as a chance.
fn odds(p: f64) -> Chance {
    if p <= 0.0 {
        Chance::Never
    } else if p >= 1.0 {
        Chance::Always
    } else {
        Chance::Of((p * 9_007_199_254_740_992.0).ceil() as u64)
    }
}

#[test]
fn the_same_seed_produces_the_same_stream() {
    // The property the reproducibility of the whole smoke test rests on.
    let mut a = Rng::new(12345);
    let mut b = Rng::new(12345);
    for _ in 0..1000 {
        assert_eq!(a.next_u64(), b.next_u64());
    }
}

#[test]
fn different_seeds_diverge_immediately() {
    let mut a = Rng::new(1);
    let mut b = Rng::new(2);
    assert_ne!(a.next_u64(), b.next_u64());
}

#[test]
fn below_stays_in_range_and_tolerates_zero() {
    let mut r = Rng::new(7);
    assert_eq!(r.below(0), 0);
    for _ in 0..10_000 {
        assert!(r.below(10) < 10);
    }
}

#[test]
fn range_inclusive_covers_both_ends() {
    let mut r = Rng::new(99);
    let mut saw_lo = false;
    let mut saw_hi = false;
    for _ in 0..10_000 {
        let v = r.range_inclusive(5, 9);
        assert!((5..=9).contains(&v));
        saw_lo |= v == 5;
        saw_hi |= v == 9;
    }
    assert!(saw_lo && saw_hi, "the endpoints must be reachable");
    assert_eq!(r.range_inclusive(4, 4), 4);
    assert_eq!(
        r.range_inclusive(9, 3),
        9,
        "an inverted range is not a panic"
    );
}

#[test]
fn chance_is_roughly_calibrated_and_exact_at_the_extremes() {
    let mut r = Rng::new(2024);
    assert!(!r.chance(odds(0.0)));
    assert!(r.chance(odds(1.0)));

    let mut hits = 0;
    for _ in 0..100_000 {
        if r.chance(odds(0.25)) {
            hits += 1;
        }
    }
    let observed = hits as f64 / 100_000f64;
    assert!(
        (observed - 0.25).abs() < 0.01,
        "expected about 0.25, observed {observed}"
    );
}

#[test]
fn a_known_seed_gives_known_numbers() {
    let mut r = Rng::new(0);
    assert_eq!(r.next_u64(), 0xE220_A839_7B1D_CDAF);
    assert_eq!(r.next_u64(), 0x6E78_9E6A_A1B9_65F4);
    assert_eq!(r.next_u64(), 0x06C4_5D18_8009_454F);
}

#[test]
fn nothing_is_drawn_for_what_is_certain() {
    let mut a = Rng::new(5);
    let mut b = Rng::new(5);
    assert!(!a.chance(Chance::Never));
    assert!(a.chance(Chance::Always));
    assert_eq!(a.below(0), 0);
    assert_eq!(a.range_inclusive(3, 3), 3);
    assert_eq!(a.next_u64(), b.next_u64());
}

#[test]
fn a_range_may_be_all_there_is() {
    let mut a = Rng::new(9);
    let mut b = Rng::new(9);
    assert_eq!(a.range_inclusive(0, u64::MAX), b.next_u64());
    assert_eq!(a.range_inclusive(u64::MAX, 0), u64::MAX);
    assert_eq!(a.range_inclusive(u64::MAX, u64::MAX), u64::MAX);
    let v = a.range_inclusive(1, u64::MAX);
    assert!(v >= 1);
}
