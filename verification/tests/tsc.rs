use mdstack::tsc::{is_trustworthy, net_ticks, objections, overhead_of, Arch, TscQuality};

#[test]
fn missing_flags_produce_an_explanation_naming_them() {
    let q = TscQuality {
        constant_tsc: false,
        nonstop_tsc: true,
        flags_readable: true,
        counter_hz: None,
    };
    let why = q
        .why_not(Arch::X86_64)
        .expect("a non-invariant TSC must explain itself");

    let both = TscQuality {
        constant_tsc: false,
        nonstop_tsc: false,
        flags_readable: true,
        counter_hz: None,
    };
    let why_both = both.why_not(Arch::X86_64).unwrap();

    assert!(why.contains("constant_tsc"), "{why}");
    assert!(
        !why.contains("nonstop_tsc and"),
        "it named a flag that is present"
    );
    assert!(why_both.contains("constant_tsc") && why_both.contains("nonstop_tsc"));

    // On aarch64 the same value is explained in terms of `cntfrq_el0`, because
    // that is what is missing there.
    let why_arm = q.why_not(Arch::Aarch64).unwrap();
    assert!(why_arm.contains("cntfrq_el0"), "{why_arm}");
    let why_both_arm = both.why_not(Arch::Aarch64).unwrap();
    assert!(why_both_arm.contains("cntfrq_el0"), "{why_both_arm}");

    let good = TscQuality {
        constant_tsc: true,
        nonstop_tsc: true,
        flags_readable: true,
        counter_hz: None,
    };
    assert!(good.why_not(Arch::X86_64).is_none());
    assert!(good.is_invariant());
}

#[test]
fn an_arm_timer_reports_its_granularity() {
    // A 25MHz timer is 40ns a tick.
    let q = TscQuality::from_timer(25_000_000);
    assert_eq!(q.counter_hz, Some(25_000_000));
    assert_eq!(1e9 / q.counter_hz.unwrap() as f64, 40.0);
    assert!(q.is_invariant());
    assert!(q.why_not(Arch::X86_64).is_none());
    assert!(!TscQuality::from_timer(999_999).is_invariant());
    assert!(!TscQuality::from_timer(1_000_000_001).is_invariant());
    assert!(TscQuality::from_timer(1_000_000_000).is_invariant());
}

#[test]
fn flags_are_read_from_the_processor_list() {
    let q = TscQuality::from_cpuinfo(Some("processor\t: 0\nflags\t\t: fpu constant_tsc nonstop_tsc\n"));
    assert!(q.is_invariant() && q.flags_readable);
    let q = TscQuality::from_cpuinfo(Some("flags : fpu constant_tsc_not\r\nflags : nonstop_tsc\n"));
    assert!(!q.constant_tsc && !q.nonstop_tsc);
    let q = TscQuality::from_cpuinfo(None);
    assert!(!q.flags_readable);
    assert!(q.why_not(Arch::X86_64).unwrap().contains("could not be read"));
}

#[test]
fn the_overhead_is_subtracted_and_never_wraps() {
    let ticks_to_nanos = |ticks: u64| (net_ticks(ticks, 30) as f64 / 3.0) as u64;
    assert_eq!(ticks_to_nanos(0), 0);
    assert_eq!(ticks_to_nanos(30), 0);
    assert_eq!(ticks_to_nanos(60), 10);
    assert_eq!(ticks_to_nanos(330), 100);
}

#[test]
fn the_overhead_is_the_least_of_its_samples() {
    assert_eq!(overhead_of(&vec![(10, 40), (100, 124), (50, 80)]), 24);
    assert_eq!(overhead_of(&vec![(10, 5)]), 0);
    assert_eq!(overhead_of(&vec![]), 0);
}

#[test]
fn an_untrustworthy_counter_says_so_and_says_why() {
    let good = TscQuality::from_timer(25_000_000);
    assert!(is_trustworthy(Arch::Aarch64, &good, true));
    assert!(objections(Arch::Aarch64, &good, None).is_empty());

    let bad = TscQuality::from_cpuinfo(None);
    for (arch, q, noise) in [
        (Arch::X86_64, &bad, None),
        (Arch::X86_64, &good, Some("3.10")),
        (Arch::Other, &good, None),
    ] {
        assert!(!is_trustworthy(arch, q, noise.is_none()));
        let os = objections(arch, q, noise);
        assert_eq!(os.len(), 1);
        for o in os {
            assert!(o.len() > 40, "an objection has to be an explanation: {o:?}");
        }
    }
    assert_eq!(objections(Arch::X86_64, &bad, Some("3.10")).len(), 2);
}
