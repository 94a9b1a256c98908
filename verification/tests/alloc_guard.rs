use mdstack::alloc_guard::{AllocCounts, AllocGuard};

#[test]
fn deltas_compose() {
    let a = AllocCounts {
        allocations: 10,
        deallocations: 4,
        reallocations: 1,
        bytes: 100,
    };
    let b = AllocCounts {
        allocations: 15,
        deallocations: 9,
        reallocations: 3,
        bytes: 250,
    };
    let d = a.delta(b);
    assert_eq!(d.allocations, 5);
    assert_eq!(d.deallocations, 5);
    assert_eq!(d.reallocations, 2);
    assert_eq!(d.bytes, 150);
}

#[test]
fn a_delta_never_goes_negative() {
    // Counters are per thread and read without synchronisation, so an
    // out-of-order pair must saturate rather than wrap to a huge number that
    // would read as a catastrophic leak.
    let later = AllocCounts {
        allocations: 1,
        ..Default::default()
    };
    let earlier = AllocCounts {
        allocations: 5,
        ..Default::default()
    };
    assert_eq!(earlier.delta(later).allocations, 0);
}

#[test]
fn a_guard_counts_what_its_scope_asked_for() {
    let mut now = AllocCounts::default().on_alloc(64).on_dealloc();
    let guard = AllocGuard::start(now);
    assert!(guard.sample(now).is_clean());

    now = now.on_alloc(1024);
    let seen = guard.sample(now);
    assert!(!seen.is_clean());
    assert_eq!(seen.allocations, 1);
    assert_eq!(seen.bytes, 1024);

    now = now.on_realloc(1024, 4096).on_realloc(4096, 100).on_dealloc();
    let end = guard.finish(now);
    assert_eq!(end.allocations, 1);
    assert_eq!(end.reallocations, 2);
    assert_eq!(end.deallocations, 1);
    assert_eq!(end.bytes, 4096);
    assert_eq!(
        end.describe(),
        "1 allocations, 1 deallocations, 2 reallocations, 4096 bytes"
    );
}

#[test]
fn a_scope_that_only_frees_is_not_clean() {
    let guard = AllocGuard::start(AllocCounts::default());
    assert!(!guard.finish(AllocCounts::default().on_dealloc()).is_clean());
}
