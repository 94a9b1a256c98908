use mdstack::hostcheck::{report_header, HostFacts};
use mdstack::hostinfo::{
    cores_of_tree, cpu_model, detect_turbo, detect_virtualisation, kernel, physical_cores, CpuEntry,
};
use mdstack::tsc::{Arch, TscQuality};

fn facts(cores: Option<usize>, virt: Option<&'static str>, optimised: bool) -> HostFacts {
    HostFacts {
        cpu_model: "test".into(),
        physical_cores: cores,
        logical_cores: cores.unwrap_or(1) * 2,
        kernel: "test".into(),
        virtualised: virt,
        governor: Some("performance".into()),
        turbo_enabled: Some(false),
        tsc: TscQuality {
            constant_tsc: true,
            nonstop_tsc: true,
            flags_readable: true,
            counter_hz: None,
        },
        optimised_build: optimised,
        target_cpu_native: true,
    }
}

#[test]
fn a_host_that_meets_every_precondition_is_publishable() {
    let v = facts(Some(8), None, true).verdict(Arch::X86_64);
    assert!(v.is_publishable(), "{v:?}");
    assert!(v.blockers().is_empty());
    assert!(v.warnings().is_empty());
}

#[test]
fn too_few_cores_is_a_blocker_and_names_the_number() {
    let v = facts(Some(2), None, true).verdict(Arch::X86_64);
    assert!(!v.is_publishable());
    assert!(
        v.blockers().iter().any(|b| b.contains("2 physical cores")),
        "the refusal has to say what it found: {v:?}"
    );
}

#[test]
fn a_workable_but_thin_core_count_is_a_caveat_rather_than_a_refusal() {
    // Four cores meets the stated minimum. That is a real distinction: the
    // minimum exists to stop numbers from a 2-core laptop, not to make the
    // project unbuildable on anything short of ideal hardware.
    let v = facts(Some(4), None, true).verdict(Arch::X86_64);
    assert!(v.is_publishable(), "{v:?}");
    assert_eq!(v.warnings().len(), 1);
    assert!(v.warnings()[0].contains("prefers"));
}

#[test]
fn virtualisation_is_a_caveat_not_a_refusal() {
    // Every free host is a VM. Blocking on virtualisation blocks on
    // everything, which would refuse every measurement.
    // What matters about a VM is checked on its own terms: a masked counter
    // and too few cores are both still blockers, and WSL2 fails both.
    let v = facts(Some(16), Some("a hypervisor"), true).verdict(Arch::X86_64);
    assert!(v.is_publishable(), "{v:?}");
    assert!(v.warnings().iter().any(|w| w.contains("hypervisor")));
}

#[test]
fn wsl2_is_still_refused_on_its_own_merits() {
    // The case all of this exists for. It must keep failing after
    // virtualisation stopped being a blocker, or demoting that check
    // quietly opened the door this whole crate is here to hold shut.
    let mut f = facts(Some(2), Some("WSL2"), true);
    f.tsc = TscQuality {
        constant_tsc: false,
        nonstop_tsc: false,
        flags_readable: true,
        counter_hz: None,
    };
    let v = f.verdict(Arch::X86_64);
    assert!(!v.is_publishable(), "{v:?}");
    assert_eq!(v.blockers().len(), 2, "cores and the counter, both: {v:?}");
}

#[test]
fn a_debug_build_blocks() {
    let v = facts(Some(16), None, false).verdict(Arch::X86_64);
    assert!(!v.is_publishable());
    assert!(v.blockers().iter().any(|b| b.contains("debug build")));
}

#[test]
fn a_masked_tsc_blocks() {
    let mut f = facts(Some(16), None, true);
    f.tsc = TscQuality {
        constant_tsc: false,
        nonstop_tsc: false,
        flags_readable: true,
        counter_hz: None,
    };
    let v = f.verdict(Arch::X86_64);
    assert!(!v.is_publishable());
    // The property, not the wording. A counter that cannot be trusted must
    // block; *why* it cannot be trusted is architecture-specific, and
    // asserting the x86 phrasing failed this test on the arm64 runner where
    // the honest explanation names `cntfrq_el0` instead.
    assert!(
        v.blockers().iter().any(|b| b.contains("cycle counter")),
        "a masked counter must block, whatever the architecture calls it: {v:?}"
    );
}

#[test]
fn a_scaling_governor_is_a_caveat_not_a_refusal() {
    let mut f = facts(Some(8), None, true);
    f.governor = Some("powersave".into());
    let v = f.verdict(Arch::X86_64);
    assert!(v.is_publishable(), "a governor alone should not block: {v:?}");
    assert!(v.warnings().iter().any(|w| w.contains("powersave")));
}

#[test]
fn every_blocker_is_reported_not_just_the_first() {
    // A host that fails three ways should say so once, rather than being
    // fixed one round-trip at a time.
    let mut f = facts(Some(2), Some("WSL2"), false);
    f.tsc = TscQuality {
        constant_tsc: false,
        nonstop_tsc: false,
        flags_readable: true,
        counter_hz: None,
    };
    let v = f.verdict(Arch::X86_64);
    assert_eq!(
        v.blockers().len(),
        3,
        "cores, counter and build profile. Virtualisation is a caveat: {v:?}"
    );
}

#[test]
fn the_fields_carry_the_verdict_so_a_report_cannot_omit_it() {
    let text = facts(Some(2), None, true).to_fields(Arch::X86_64);
    assert!(text.contains("host_physical_cores=2"));
    assert!(
        text.contains("host_publishable=false"),
        "the header has to carry it: {text}"
    );
}

#[test]
fn physical_cores_collapses_smt_siblings() {
    // Two logical CPUs sharing one core must count once, or a 2-core laptop
    // with hyperthreading passes for a 4-core host.
    let cpuinfo = "\
processor\t: 0
physical id\t: 0
core id\t\t: 0

processor\t: 1
physical id\t: 0
core id\t\t: 0

processor\t: 2
physical id\t: 0
core id\t\t: 1

processor\t: 3
physical id\t: 0
core id\t\t: 1
";
    assert_eq!(physical_cores(cpuinfo), Some(2));
}

#[test]
fn an_unknown_core_count_blocks_rather_than_passing_with_a_note() {
    // The hole the free arm64 runner found. `/proc/cpuinfo` on aarch64 has
    // no `core id`, the count came back None, and the answer was
    // PUBLISHABLE while saying in the next line that the most important
    // precondition was unverified.
    let cpuinfo = "processor\t: 0\nmodel name\t: something\n";
    assert_eq!(physical_cores(cpuinfo), None);
    let v = facts(None, None, true).verdict(Arch::X86_64);
    assert!(!v.is_publishable(), "unknown is not the same as fine: {v:?}");
    assert!(v.blockers().iter().any(|b| b.contains("unverified")));
}

#[test]
fn a_host_says_what_it_is_called() {
    assert_eq!(cpu_model("model name\t: Fast One 9000 \nflags\t: a b\n", None), "Fast One 9000");
    assert_eq!(
        cpu_model("CPU implementer\t: 0x41\nCPU part\t: 0xd0c\n", None),
        "aarch64 implementer 0x41 part 0xd0c"
    );
    assert_eq!(cpu_model("processor\t: 0\n", Some("Box")), "Box");
    assert_eq!(cpu_model("", None), "unknown");
    assert_eq!(kernel("Linux 6.1\nmore\n"), "Linux 6.1");
    assert_eq!(kernel(""), "unknown");
}

#[test]
fn virtualisation_is_told_from_the_first_source_that_knows() {
    assert_eq!(detect_virtualisation(None, None, None, None), None);
    assert_eq!(
        detect_virtualisation(Some("Linux 5.15 Microsoft-standard-WSL2"), None, None, None),
        Some("WSL2")
    );
    assert_eq!(
        detect_virtualisation(Some("Linux 6.1"), Some("xen\n"), None, None),
        Some("Xen")
    );
    assert_eq!(
        detect_virtualisation(None, None, Some("flags\t: fpu hypervisor sse\n"), None),
        Some("a hypervisor")
    );
    assert_eq!(
        detect_virtualisation(None, None, Some("flags\t: fpu sse\n"), Some("Amazon EC2")),
        Some("an Amazon hypervisor")
    );
    assert_eq!(detect_virtualisation(None, None, None, Some("QEMU")), Some("QEMU/KVM"));
    assert_eq!(detect_virtualisation(None, None, None, Some("Dell Inc.")), None);
}

#[test]
fn turbo_is_read_from_either_place() {
    assert_eq!(detect_turbo(Some("0"), None), Some(true));
    assert_eq!(detect_turbo(Some("1"), Some("1")), Some(false));
    assert_eq!(detect_turbo(None, Some("1")), Some(true));
    assert_eq!(detect_turbo(None, Some("0")), Some(false));
    assert_eq!(detect_turbo(None, None), None);
}

fn entry(name: &str, core: Option<&str>, package: Option<&str>) -> CpuEntry {
    CpuEntry {
        name: name.to_string(),
        core: core.map(|s| s.to_string()),
        package: package.map(|s| s.to_string()),
    }
}

#[test]
fn the_processor_tree_counts_each_core_once() {
    let tree = vec![
        entry("cpu0", Some("0"), Some("0")),
        entry("cpu1", Some("0"), None),
        entry("cpu2", Some("1"), Some("0")),
        entry("cpu3", Some("0"), Some("1")),
        entry("cpufreq", Some("7"), None),
        entry("cpu", Some("8"), None),
        entry("cpu4", None, Some("0")),
        entry("online", Some("9"), None),
    ];
    assert_eq!(cores_of_tree(&tree), Some(3));
    assert_eq!(cores_of_tree(&vec![]), None);
}

#[test]
fn a_verdict_in_words_lists_every_reason() {
    let good = facts(Some(8), None, true).verdict(Arch::X86_64).describe();
    assert_eq!(good, "PUBLISHABLE: this host meets the preconditions.\n");
    let bad = facts(Some(2), Some("WSL2"), false).verdict(Arch::X86_64).describe();
    assert!(bad.starts_with("REFUSED: "));
    assert_eq!(bad.matches("  blocker: ").count(), 2);
    assert_eq!(bad.matches("  caveat: ").count(), 1);
}

#[test]
fn a_report_begins_with_the_host_and_what_speaks_against_it() {
    let f = facts(Some(2), None, true);
    let text = report_header(&f, Arch::X86_64, "3000.0", 24, "0.00100", true);
    assert!(text.starts_with("host_cpu=test\nhost_physical_cores=2\nhost_logical_cores=4\n"));
    assert!(text.contains("host_publishable=false\ntsc_megahertz=3000.0\n"));
    assert!(text.contains("tsc_overhead_ticks=24\ntsc_calibration_spread=0.00100\n"));
    assert!(text.contains("tsc_trustworthy=true\nblocker_0=2 physical cores."));
}
