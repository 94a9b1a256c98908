use mdstack::histogram::Histogram;

/// The guarantee the whole layout exists to provide.
const MAX_RELATIVE_ERROR: f64 = 1.0 / 1024.0;

/// The value at a quantile.
fn quantile(h: &Histogram, q: f64) -> u64 {
    let rank = ((q.clamp(0.0, 1.0) * h.count() as f64).ceil() as u64).max(1);
    h.quantile_rank(rank)
}

fn mean(h: &Histogram) -> f64 {
    if h.count() == 0 {
        0.0
    } else {
        h.total() as f64 / h.count() as f64
    }
}

#[test]
fn small_values_are_recorded_exactly() {
    // Below SUB_BUCKET_COUNT the unit is 1, so there is no bucketing error
    // at all — which matters, because a decode is supposed to land at a few
    // tens of nanoseconds and that is exactly this range.
    let mut h = Histogram::default();
    for v in [1u64, 2, 7, 40, 99, 100, 500, 2047] {
        h.clear();
        h.record(v);
        assert_eq!(quantile(&h, 0.5), v, "value {v} was not recorded exactly");
        assert_eq!(h.min(), v);
        assert_eq!(h.max(), v);
    }
}

#[test]
fn every_value_reads_back_within_the_error_bound() {
    // The claim in the module docs, checked across five orders of magnitude
    // rather than asserted.
    let mut h = Histogram::default();
    let mut v = 1u64;
    while v < 1_000_000_000 {
        h.clear();
        h.record(v);
        let read = quantile(&h, 1.0);
        assert!(
            read >= v,
            "value {v} read back as {read}, which is below it: a latency \
             histogram must never report faster than the truth"
        );
        let err = (read - v) as f64 / v as f64;
        assert!(
            err <= MAX_RELATIVE_ERROR,
            "value {v} read back as {read}, relative error {err:.5} exceeds \
             the {MAX_RELATIVE_ERROR:.5} the bucketing promises"
        );
        v = v + (v / 7) + 1;
    }
}

#[test]
fn quantiles_match_an_exact_computation() {
    // A uniform 1..=100_000 has quantiles that can be worked out by hand, so
    // this checks the rank arithmetic rather than trusting it.
    let mut h = Histogram::default();
    for v in 1..=100_000u64 {
        h.record(v);
    }
    assert_eq!(h.count(), 100_000);
    for (q, exact) in [(0.5, 50_000.0), (0.9, 90_000.0), (0.99, 99_000.0)] {
        let got = quantile(&h, q) as f64;
        let err = (got - exact).abs() / exact;
        assert!(
            err <= MAX_RELATIVE_ERROR,
            "q{q}: got {got}, expected about {exact}, relative error {err:.5}"
        );
    }
    assert_eq!(h.min(), 1);
    assert_eq!(h.max(), 100_000);
}

#[test]
fn a_tail_of_slow_samples_shows_up_in_p999_and_not_in_the_median() {
    // The shape of a real latency distribution, and the reason p99.9 is
    // reported at all: a median that looks fine while one request in a
    // thousand takes a hundred times longer is the case a mean hides.
    let mut h = Histogram::default();
    for _ in 0..999_000 {
        h.record(100);
    }
    for _ in 0..1_000 {
        h.record(50_000);
    }
    assert_eq!(quantile(&h, 0.5), 100);
    assert_eq!(quantile(&h, 0.99), 100);
    assert!(
        quantile(&h, 0.999) >= 100,
        "the tail must be visible at p99.9"
    );
    assert!(quantile(&h, 1.0) >= 50_000);
    assert!(
        mean(&h) > 100.0 && mean(&h) < 200.0,
        "the mean hides the tail, which is why it is not the headline number"
    );
}

#[test]
fn a_value_past_the_range_is_counted_not_clamped() {
    // A clamped outlier is indistinguishable from a fast sample at the top
    // of the range, which would make the histogram lie in the direction
    // that flatters it.
    let mut h = Histogram::new(1_000);
    h.record(500);
    h.record(1_000_000);
    assert_eq!(h.overflowed(), 1);
    assert_eq!(h.count(), 2);
    assert_eq!(h.max(), 1_000_000, "the true maximum is still known");
    assert_eq!(quantile(&h, 1.0), 1_000_000);
}

#[test]
fn an_empty_histogram_reports_zero_rather_than_panicking() {
    let h = Histogram::default();
    assert_eq!(h.count(), 0);
    assert_eq!(quantile(&h, 0.5), 0);
    assert_eq!(h.min(), 0);
    assert_eq!(h.max(), 0);
    assert_eq!(mean(&h), 0.0);
}

#[test]
fn merging_is_the_same_as_recording_into_one() {
    // Per-thread histograms merged at the end is how a multi-threaded run
    // avoids contending on a shared counter, so the merge has to be exact.
    let mut a = Histogram::default();
    let mut b = Histogram::default();
    let mut both = Histogram::default();
    for v in 1..=10_000u64 {
        if v % 2 == 0 {
            a.record(v);
        } else {
            b.record(v);
        }
        both.record(v);
    }
    a.merge(&b);
    assert_eq!(a.count(), both.count());
    assert_eq!(a.min(), both.min());
    assert_eq!(a.max(), both.max());
    for q in [0.5, 0.9, 0.99, 0.999] {
        assert_eq!(quantile(&a, q), quantile(&both, q), "q{q} differs after merge");
    }
}

#[test]
fn clearing_keeps_the_allocation_and_the_shape() {
    let mut h = Histogram::default();
    for v in 1..=1000 {
        h.record(v);
    }
    h.clear();
    assert!(h.is_empty());
    assert_eq!(h.max(), 0);
    h.record(42);
    assert_eq!(quantile(&h, 0.5), 42);
}

#[test]
fn the_index_round_trips_for_every_slot() {
    // `value_from_index` is the inverse of `counts_index`, and a quantile is
    // wrong in a way nothing else would catch if it is not.
    let h = Histogram::default();
    for i in 0..h.slots() {
        let v = Histogram::value_from_index(i);
        assert_eq!(
            Histogram::counts_index(v),
            i,
            "slot {i} maps to value {v}, which maps back to slot {}",
            Histogram::counts_index(v)
        );
    }
}

#[test]
fn the_fields_carry_the_counts_and_the_quantiles() {
    let mut h = Histogram::new(1_000_000);
    h.record(10);
    h.record(30);
    let text = h.to_fields(
        "decode",
        quantile(&h, 0.5),
        quantile(&h, 0.9),
        quantile(&h, 0.99),
        quantile(&h, 0.999),
        "20.0",
    );
    assert!(text.contains("decode_"), "{text}");
    assert!(text.contains("=10\n"), "{text}");
    assert!(text.contains("=30"), "{text}");
    assert!(text.contains("=20.0"), "{text}");
}

#[test]
fn a_quantile_is_never_below_the_sample_it_stands_for() {
    let mut h = Histogram::new(10_000_000);
    for v in [3_000u64, 5_001, 70_003, 999_999] {
        h.record(v);
    }
    for (rank, v) in [(1u64, 3_000u64), (2, 5_001), (3, 70_003), (4, 999_999)] {
        let read = h.quantile_rank(rank);
        assert!(read >= v && read <= v + v / 1024 + 1, "{v} read back as {read}");
    }
}

#[test]
fn merging_is_recording_into_one() {
    let (mut a, mut b, mut all) =
        (Histogram::new(4_000), Histogram::new(4_000), Histogram::new(4_000));
    for v in [5u64, 70, 3_999] {
        a.record(v);
        all.record(v);
    }
    for v in [6u64, 2_100, 9_000] {
        b.record(v);
        all.record(v);
    }
    a.merge(&b);
    assert_eq!(a.count(), all.count());
    assert_eq!(a.overflowed(), 1);
    assert_eq!((a.min(), a.max(), a.total()), (all.min(), all.max(), all.total()));
    for rank in 1..=5 {
        assert_eq!(a.quantile_rank(rank), all.quantile_rank(rank));
    }
}

#[test]
fn a_cleared_histogram_reads_like_a_fresh_one() {
    let mut h = Histogram::new(4_000);
    for v in [5u64, 70, 9_999] {
        h.record(v);
    }
    h.clear();
    let fresh = Histogram::new(4_000);
    assert_eq!((h.count(), h.overflowed(), h.total()), (0, 0, 0));
    assert_eq!((h.min(), h.max(), h.slots()), (fresh.min(), fresh.max(), fresh.slots()));
    assert!(h.is_empty());
}

#[test]
fn the_order_of_the_samples_makes_no_difference() {
    let (mut a, mut b, mut all) =
        (Histogram::new(4_000), Histogram::new(4_000), Histogram::new(4_000));
    for v in 0..60u64 {
        let sample = (v * 997) % 5_000;
        if v % 3 == 0 { a.record(sample) } else { b.record(sample) }
        all.record(sample);
    }
    b.merge(&a);
    assert_eq!(b.count(), all.count());
    assert_eq!(b.overflowed(), all.overflowed());
    assert_eq!((b.min(), b.max(), b.total()), (all.min(), all.max(), all.total()));
    for rank in 1..=b.count() {
        assert_eq!(b.quantile_rank(rank), all.quantile_rank(rank));
    }
}
