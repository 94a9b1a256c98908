//! Whether a number measured on a host says something of the code or only of the
//! host.

use crate::handler::{field as line_field, push_field, push_number};
use crate::text::{chars_of, decimal, push_decimal, same_text};
use crate::tsc::{optional, push_optional, texts, Arch, TscQuality};
use vstd::prelude::*;
use vstd::string::StringExecFns;

verus! {

pub const MINIMUM_PHYSICAL_CORES: usize = 4;

pub const PREFERRED_PHYSICAL_CORES: usize = 6;

/// What is known of a host.
#[derive(Debug)]
pub struct HostFacts {
    pub cpu_model: String,
    pub physical_cores: Option<usize>,
    pub logical_cores: usize,
    pub kernel: String,
    pub virtualised: Option<&'static str>,
    pub governor: Option<String>,
    pub turbo_enabled: Option<bool>,
    pub tsc: TscQuality,
    pub optimised_build: bool,
    pub target_cpu_native: bool,
}

/// Whether a number can be published, and what speaks against it.
#[derive(Debug)]
pub enum Verdict {
    Publishable { warnings: Vec<String> },
    Refused { blockers: Vec<String>, warnings: Vec<String> },
}

impl Verdict {
    pub open spec fn blocked_by(self) -> Seq<Seq<char>> {
        match self {
            Verdict::Publishable { .. } => Seq::empty(),
            Verdict::Refused { blockers, .. } => texts(blockers@),
        }
    }

    pub open spec fn caveats(self) -> Seq<Seq<char>> {
        match self {
            Verdict::Publishable { warnings } => texts(warnings@),
            Verdict::Refused { warnings, .. } => texts(warnings@),
        }
    }

    pub fn is_publishable(&self) -> (r: bool)
        ensures
            r == (self is Publishable),
    {
        match self {
            Verdict::Publishable { .. } => true,
            Verdict::Refused { .. } => false,
        }
    }

    pub fn blockers(&self) -> (r: Vec<&String>)
        ensures
            r@.len() == self.blocked_by().len(),
            forall|i: int| 0 <= i < r@.len() ==> (#[trigger] r@[i])@ == self.blocked_by()[i],
    {
        match self {
            Verdict::Publishable { .. } => Vec::new(),
            Verdict::Refused { blockers, .. } => listed(blockers),
        }
    }

    pub fn warnings(&self) -> (r: Vec<&String>)
        ensures
            r@.len() == self.caveats().len(),
            forall|i: int| 0 <= i < r@.len() ==> (#[trigger] r@[i])@ == self.caveats()[i],
    {
        match self {
            Verdict::Publishable { warnings } => listed(warnings),
            Verdict::Refused { warnings, .. } => listed(warnings),
        }
    }

    /// The verdict in words.
    pub open spec fn text(self) -> Seq<char> {
        match self {
            Verdict::Publishable { .. } => "PUBLISHABLE: this host meets the preconditions.\n"@
                + each("  caveat: "@, self.caveats()),
            Verdict::Refused { .. } =>
                "REFUSED: a performance number measured here would describe this host, not this code.\n"@
                + each("  blocker: "@, self.blocked_by()) + each("  caveat: "@, self.caveats())
                + "\nThe harness still runs — the code paths are worth exercising anywhere. What it will not do is write a report that looks publishable.\n"@,
        }
    }

    pub fn describe(&self) -> (r: String)
        ensures
            r@ == self.text(),
    {
        match self {
            Verdict::Publishable { warnings } => {
                let mut s: String = String::from_str(
                    "PUBLISHABLE: this host meets the preconditions.\n",
                );
                push_each(&mut s, "  caveat: ", warnings);
                s
            },
            Verdict::Refused { blockers, warnings } => {
                let mut s: String = String::from_str(
                    "REFUSED: a performance number measured here would describe this host, not this code.\n",
                );
                push_each(&mut s, "  blocker: ", blockers);
                push_each(&mut s, "  caveat: ", warnings);
                s.append(
                    "\nThe harness still runs — the code paths are worth exercising anywhere. What it will not do is write a report that looks publishable.\n",
                );
                s
            },
        }
    }
}

fn listed(v: &Vec<String>) -> (r: Vec<&String>)
    ensures
        r@.len() == v@.len(),
        forall|i: int| 0 <= i < r@.len() ==> (#[trigger] r@[i])@ == v@[i]@,
{
    let mut out: Vec<&String> = Vec::new();
    let mut i: usize = 0;
    while i < v.len()
        invariant
            i <= v@.len(),
            out@.len() == i,
            forall|k: int| 0 <= k < i ==> (#[trigger] out@[k])@ == v@[k]@,
        decreases v@.len() - i,
    {
        out.push(&v[i]);
        i = i + 1;
    }
    out
}

/// Each text on a line of its own, behind a label.
pub open spec fn each(label: Seq<char>, ts: Seq<Seq<char>>) -> Seq<char>
    decreases ts.len(),
{
    if ts.len() == 0 {
        Seq::empty()
    } else {
        each(label, ts.drop_last()) + label + ts.last() + "\n"@
    }
}

fn push_each(s: &mut String, label: &str, v: &Vec<String>)
    ensures
        final(s)@ == old(s)@ + each(label@, texts(v@)),
{
    let mut i: usize = 0;
    let ghost all = texts(v@);
    assert(s@ =~= old(s)@ + each(label@, all.take(0)));
    while i < v.len()
        invariant
            i <= v@.len(),
            all == texts(v@),
            s@ == old(s)@ + each(label@, all.take(i as int)),
        decreases v@.len() - i,
    {
        s.append(label);
        s.append(v[i].as_str());
        s.append("\n");
        proof {
            let t = all.take(i as int + 1);
            assert(t.drop_last() =~= all.take(i as int));
            assert(t.last() == v@[i as int]@);
            assert(s@ =~= old(s)@ + each(label@, t));
        }
        i = i + 1;
    }
    assert(all.take(i as int) =~= all);
}

/// Each text on a line of its own, behind a label, its number and an equals sign.
pub open spec fn numbered(label: Seq<char>, ts: Seq<Seq<char>>) -> Seq<char>
    decreases ts.len(),
{
    if ts.len() == 0 {
        Seq::empty()
    } else {
        numbered(label, ts.drop_last()) + label + decimal(ts.len() - 1) + "="@ + ts.last() + "\n"@
    }
}

fn push_numbered(s: &mut String, label: &str, v: &Vec<&String>)
    ensures
        final(s)@ == old(s)@ + numbered(label@, Seq::new(v@.len(), |i: int| v@[i]@)),
{
    let mut i: usize = 0;
    let ghost all = Seq::new(v@.len(), |i: int| v@[i]@);
    assert(s@ =~= old(s)@ + numbered(label@, all.take(0)));
    while i < v.len()
        invariant
            i <= v@.len(),
            all == Seq::new(v@.len(), |i: int| v@[i]@),
            s@ == old(s)@ + numbered(label@, all.take(i as int)),
        decreases v@.len() - i,
    {
        s.append(label);
        push_decimal(s, i as u64);
        s.append("=");
        s.append(v[i].as_str());
        s.append("\n");
        proof {
            let t = all.take(i as int + 1);
            assert(t.drop_last() =~= all.take(i as int));
            assert(t.last() == v@[i as int]@);
            assert(s@ =~= old(s)@ + numbered(label@, t));
        }
        i = i + 1;
    }
    assert(all.take(i as int) =~= all);
}

pub open spec fn told(o: Option<String>) -> Option<Seq<char>> {
    match o {
        Some(s) => Some(s@),
        None => None,
    }
}

pub open spec fn truth(b: bool) -> Seq<char> {
    if b {
        "true"@
    } else {
        "false"@
    }
}

fn truth_text(b: bool) -> (r: &'static str)
    ensures
        r@ == truth(b),
{
    if b {
        "true"
    } else {
        "false"
    }
}

impl HostFacts {
    /// Too few cores, or nobody knows how many.
    pub open spec fn core_blocker(self) -> Option<Seq<char>> {
        match self.physical_cores {
            Some(n) => if n < 4 {
                Some(
                    decimal(n as int)
                        + " physical cores. This project needs at least 4 (6 preferred): the publisher, the engine and the handler each need one, and on fewer the throughput figure is unreachable and the tail latencies measure the scheduler rather than the code."@,
                )
            } else {
                None
            },
            None => Some(
                "the physical core count could not be determined, so the most important precondition is unverified. A number from a host that has not been shown to meet the requirement is not publishable, whatever the requirement turns out to be."@,
            ),
        }
    }

    /// Enough cores, but few.
    pub open spec fn core_warning(self) -> Option<Seq<char>> {
        match self.physical_cores {
            Some(n) => if 4 <= n < 6 {
                Some(
                    decimal(n as int)
                        + " physical cores, below the 6 this project prefers. Usable, but the report has to say so."@,
                )
            } else {
                None
            },
            None => None,
        }
    }

    pub open spec fn host_warning(self) -> Option<Seq<char>> {
        match self.virtualised {
            Some(kind) => Some(
                "running under "@ + kind@
                    + ". The scheduler belongs to a host this process cannot see, so the tail latencies are partly a measurement of that host. The report has to say so, and the three-runs-within-10% requirement is what decides whether it was quiet enough to matter."@,
            ),
            None => None,
        }
    }

    pub open spec fn clock_blocker(self, arch: Arch) -> Option<Seq<char>> {
        match self.tsc.objection(arch) {
            Some(why) => Some("the cycle counter cannot be trusted: "@ + why),
            None => None,
        }
    }

    pub open spec fn build_blocker(self) -> Option<Seq<char>> {
        if self.optimised_build {
            None
        } else {
            Some(
                "this is a debug build. A debug build is not a slow release build, it is a different program, and benchmarking it produces a number about nothing."@,
            )
        }
    }

    pub open spec fn governor_warning(self) -> Option<Seq<char>> {
        match self.governor {
            Some(g) => if g@ == "performance"@ {
                None
            } else {
                Some(
                    "the CPU governor is `"@ + g@
                        + "`, so the core changes frequency during the run. The median tolerates that; the p99.9 does not, and the p99.9 is the number that says something."@,
                )
            },
            None => Some(
                "the CPU governor could not be read, so frequency scaling during the run is unknown."@,
            ),
        }
    }

    pub open spec fn turbo_warning(self) -> Option<Seq<char>> {
        if self.turbo_enabled == Some(true) {
            Some(
                "turbo is enabled. Not disqualifying, but the clock depends on thermal state, and this project promises three runs within 10% of each other."@,
            )
        } else {
            None
        }
    }

    pub open spec fn all_blockers(self, arch: Arch) -> Seq<Seq<char>> {
        optional(self.core_blocker()) + optional(self.clock_blocker(arch)) + optional(
            self.build_blocker(),
        )
    }

    pub open spec fn all_warnings(self) -> Seq<Seq<char>> {
        optional(self.core_warning()) + optional(self.host_warning()) + optional(
            self.governor_warning(),
        ) + optional(self.turbo_warning())
    }

    /// A number measured here could be published.
    pub open spec fn publishable(self) -> bool {
        &&& self.physical_cores matches Some(n) && n >= 4
        &&& self.tsc.invariable()
        &&& self.optimised_build
    }

    fn say_core_blocker(&self) -> (r: Option<String>)
        ensures
            told(r) == self.core_blocker(),
    {
        match self.physical_cores {
            Some(n) => if n < MINIMUM_PHYSICAL_CORES {
                let mut s: String = String::new();
                push_decimal(&mut s, n as u64);
                assert(s@ =~= decimal(n as int));
                s.append(
                    " physical cores. This project needs at least 4 (6 preferred): the publisher, the engine and the handler each need one, and on fewer the throughput figure is unreachable and the tail latencies measure the scheduler rather than the code.",
                );
                Some(s)
            } else {
                None
            },
            None => Some(
                String::from_str(
                    "the physical core count could not be determined, so the most important precondition is unverified. A number from a host that has not been shown to meet the requirement is not publishable, whatever the requirement turns out to be.",
                ),
            ),
        }
    }

    fn say_core_warning(&self) -> (r: Option<String>)
        ensures
            told(r) == self.core_warning(),
    {
        match self.physical_cores {
            Some(n) => if n >= MINIMUM_PHYSICAL_CORES && n < PREFERRED_PHYSICAL_CORES {
                let mut s: String = String::new();
                push_decimal(&mut s, n as u64);
                assert(s@ =~= decimal(n as int));
                s.append(
                    " physical cores, below the 6 this project prefers. Usable, but the report has to say so.",
                );
                Some(s)
            } else {
                None
            },
            None => None,
        }
    }

    fn say_host_warning(&self) -> (r: Option<String>)
        ensures
            told(r) == self.host_warning(),
    {
        match self.virtualised {
            Some(kind) => {
                let mut s: String = String::from_str("running under ");
                s.append(kind);
                s.append(
                    ". The scheduler belongs to a host this process cannot see, so the tail latencies are partly a measurement of that host. The report has to say so, and the three-runs-within-10% requirement is what decides whether it was quiet enough to matter.",
                );
                Some(s)
            },
            None => None,
        }
    }

    fn say_clock_blocker(&self, arch: Arch) -> (r: Option<String>)
        ensures
            told(r) == self.clock_blocker(arch),
    {
        match self.tsc.why_not(arch) {
            Some(why) => {
                let mut s: String = String::from_str("the cycle counter cannot be trusted: ");
                s.append(why.as_str());
                Some(s)
            },
            None => None,
        }
    }

    fn say_build_blocker(&self) -> (r: Option<String>)
        ensures
            told(r) == self.build_blocker(),
    {
        if self.optimised_build {
            None
        } else {
            Some(
                String::from_str(
                    "this is a debug build. A debug build is not a slow release build, it is a different program, and benchmarking it produces a number about nothing.",
                ),
            )
        }
    }

    fn say_governor_warning(&self) -> (r: Option<String>)
        ensures
            told(r) == self.governor_warning(),
    {
        match &self.governor {
            Some(g) => {
                if same_text(&chars_of(g.as_str()), "performance") {
                    return None;
                }
                let mut s: String = String::from_str("the CPU governor is `");
                s.append(g.as_str());
                s.append(
                    "`, so the core changes frequency during the run. The median tolerates that; the p99.9 does not, and the p99.9 is the number that says something.",
                );
                Some(s)
            },
            None => Some(
                String::from_str(
                    "the CPU governor could not be read, so frequency scaling during the run is unknown.",
                ),
            ),
        }
    }

    fn say_turbo_warning(&self) -> (r: Option<String>)
        ensures
            told(r) == self.turbo_warning(),
    {
        match self.turbo_enabled {
            Some(true) => Some(
                String::from_str(
                    "turbo is enabled. Not disqualifying, but the clock depends on thermal state, and this project promises three runs within 10% of each other.",
                ),
            ),
            _ => None,
        }
    }

    /// The verdict on a host: refused with every reason there is, or publishable with
    /// every caveat.
    pub fn verdict(&self, arch: Arch) -> (r: Verdict)
        ensures
            r is Publishable <==> self.publishable(),
            r.blocked_by() == self.all_blockers(arch),
            r.caveats() == self.all_warnings(),
    {
        let mut blockers: Vec<String> = Vec::new();
        let mut warnings: Vec<String> = Vec::new();
        assert(texts(blockers@) =~= Seq::<Seq<char>>::empty());
        assert(texts(warnings@) =~= Seq::<Seq<char>>::empty());
        push_optional(&mut blockers, self.say_core_blocker());
        push_optional(&mut blockers, self.say_clock_blocker(arch));
        push_optional(&mut blockers, self.say_build_blocker());
        push_optional(&mut warnings, self.say_core_warning());
        push_optional(&mut warnings, self.say_host_warning());
        push_optional(&mut warnings, self.say_governor_warning());
        push_optional(&mut warnings, self.say_turbo_warning());
        proof {
            assert(texts(blockers@) =~= self.all_blockers(arch));
            assert(texts(warnings@) =~= self.all_warnings());
            assert(texts(blockers@).len() == blockers@.len());
        }
        if blockers.len() == 0 {
            assert(self.all_blockers(arch) =~= Seq::<Seq<char>>::empty());
            Verdict::Publishable { warnings }
        } else {
            Verdict::Refused { blockers, warnings }
        }
    }

    pub open spec fn fields_text(self, arch: Arch) -> Seq<char> {
        self.machine_text() + self.clock_text(arch)
    }

    pub open spec fn machine_text(self) -> Seq<char> {
        line_field("host_cpu"@, self.cpu_model@) + line_field(
            "host_physical_cores"@,
            match self.physical_cores {
                Some(n) => decimal(n as int),
                None => "unknown"@,
            },
        ) + line_field("host_logical_cores"@, decimal(self.logical_cores as int)) + line_field(
            "host_kernel"@,
            self.kernel@,
        ) + line_field(
            "host_virtualised"@,
            match self.virtualised {
                Some(kind) => kind@,
                None => "no"@,
            },
        ) + line_field(
            "host_governor"@,
            match self.governor {
                Some(g) => g@,
                None => "unknown"@,
            },
        )
    }

    pub open spec fn clock_text(self, arch: Arch) -> Seq<char> {
        line_field("host_turbo"@, self.turbo_text()) + line_field("host_constant_tsc"@, truth(self.tsc.constant_tsc)) + line_field(
            "host_nonstop_tsc"@,
            truth(self.tsc.nonstop_tsc),
        ) + line_field("host_optimised_build"@, truth(self.optimised_build)) + "host_publishable="@
            + truth(self.publishable())
    }

    pub open spec fn turbo_text(self) -> Seq<char> {
        match self.turbo_enabled {
            Some(b) => if b {
                "on"@
            } else {
                "off"@
            },
            None => "unknown"@,
        }
    }

    fn turbo_word(&self) -> (r: &'static str)
        ensures
            r@ == self.turbo_text(),
    {
        match self.turbo_enabled {
            Some(true) => "on",
            Some(false) => "off",
            None => "unknown",
        }
    }

    fn push_machine(&self, s: &mut String)
        ensures
            final(s)@ == old(s)@ + self.machine_text(),
    {
        push_field(s, "host_cpu", self.cpu_model.as_str());
        match self.physical_cores {
            Some(n) => push_number(s, "host_physical_cores", n as u64),
            None => push_field(s, "host_physical_cores", "unknown"),
        }
        push_number(s, "host_logical_cores", self.logical_cores as u64);
        push_field(s, "host_kernel", self.kernel.as_str());
        match self.virtualised {
            Some(kind) => push_field(s, "host_virtualised", kind),
            None => push_field(s, "host_virtualised", "no"),
        }
        match &self.governor {
            Some(g) => push_field(s, "host_governor", g.as_str()),
            None => push_field(s, "host_governor", "unknown"),
        }
        assert(s@ =~= old(s)@ + self.machine_text());
    }

    fn push_clock(&self, arch: Arch, s: &mut String)
        ensures
            final(s)@ == old(s)@ + self.clock_text(arch),
    {
        push_field(s, "host_turbo", self.turbo_word());
        let ghost a = line_field("host_turbo"@, self.turbo_text());
        let ghost b = line_field("host_constant_tsc"@, truth(self.tsc.constant_tsc));
        let ghost c = line_field("host_nonstop_tsc"@, truth(self.tsc.nonstop_tsc));
        let ghost d = line_field("host_optimised_build"@, truth(self.optimised_build));
        push_field(s, "host_constant_tsc", truth_text(self.tsc.constant_tsc));
        push_field(s, "host_nonstop_tsc", truth_text(self.tsc.nonstop_tsc));
        push_field(s, "host_optimised_build", truth_text(self.optimised_build));
        s.append("host_publishable=");
        s.append(truth_text(self.verdict(arch).is_publishable()));
        assert(s@ == old(s)@ + a + b + c + d + "host_publishable="@ + truth(self.publishable()));
        assert(s@ =~= old(s)@ + self.clock_text(arch));
    }

    /// The facts and the verdict, a name and a value to a line.
    pub fn to_fields(&self, arch: Arch) -> (r: String)
        ensures
            r@ == self.fields_text(arch),
    {
        let mut s: String = String::new();
        self.push_machine(&mut s);
        self.push_clock(arch, &mut s);
        assert(s@ =~= self.fields_text(arch));
        s
    }
}

/// How a report begins: the host, its clock as the caller has measured it, and
/// everything that speaks against a number from here.
pub fn report_header(
    facts: &HostFacts,
    arch: Arch,
    megahertz: &str,
    overhead_ticks: u64,
    spread: &str,
    trustworthy: bool,
) -> (r: String)
    ensures
        r@ == facts.fields_text(arch) + "\n"@ + line_field("tsc_megahertz"@, megahertz@)
            + line_field("tsc_overhead_ticks"@, decimal(overhead_ticks as int)) + line_field(
            "tsc_calibration_spread"@,
            spread@,
        ) + line_field("tsc_trustworthy"@, truth(trustworthy)) + numbered(
            "blocker_"@,
            facts.all_blockers(arch),
        ) + numbered("caveat_"@, facts.all_warnings()),
{
    let verdict = facts.verdict(arch);
    let mut s: String = facts.to_fields(arch);
    s.append("\n");
    push_field(&mut s, "tsc_megahertz", megahertz);
    push_number(&mut s, "tsc_overhead_ticks", overhead_ticks);
    push_field(&mut s, "tsc_calibration_spread", spread);
    push_field(&mut s, "tsc_trustworthy", truth_text(trustworthy));
    let blockers = verdict.blockers();
    let warnings = verdict.warnings();
    push_numbered(&mut s, "blocker_", &blockers);
    push_numbered(&mut s, "caveat_", &warnings);
    proof {
        assert(Seq::new(blockers@.len(), |i: int| blockers@[i]@) =~= facts.all_blockers(arch));
        assert(Seq::new(warnings@.len(), |i: int| warnings@[i]@) =~= facts.all_warnings());
    }
    s
}

/// A host is publishable exactly when nothing blocks it.
pub proof fn law_publishable_without_blockers(facts: HostFacts, arch: Arch)
    ensures
        facts.publishable() <==> facts.all_blockers(arch).len() == 0,
{
}

/// A host of fewer than the minimum of cores, or of a number that nobody knows, is
/// refused whatever else it has.
pub proof fn law_too_few_cores_block(facts: HostFacts)
    requires
        !(facts.physical_cores matches Some(n) && n >= MINIMUM_PHYSICAL_CORES),
    ensures
        !facts.publishable(),
        facts.core_blocker() is Some,
{
}

/// A number may be published from a host exactly if it is known to have four cores, its
/// counter runs at one rate always, and the build is optimised; what blocks it is one
/// sentence for each of these that is not so.
pub proof fn law_what_blocks_a_host(facts: HostFacts, arch: Arch)
    ensures
        ({
            let cores = facts.physical_cores is Some && facts.physical_cores->0 >= 4;
            let clock = facts.tsc.constant_tsc && facts.tsc.nonstop_tsc;
            let build = facts.optimised_build;
            &&& facts.publishable() <==> cores && clock && build
            &&& facts.core_blocker() is None <==> cores
            &&& facts.clock_blocker(arch) is None <==> clock
            &&& facts.build_blocker() is None <==> build
            &&& facts.all_blockers(arch).len() == (if cores {
                0int
            } else {
                1
            }) + (if clock {
                0int
            } else {
                1
            }) + (if build {
                0int
            } else {
                1
            })
        }),
{
}

/// What is only said of a host and does not block it: that it has four or five cores, that
/// it runs under something, that its governor is not known to be `performance`, that turbo is
/// on.
pub proof fn law_what_is_said_of_a_host(facts: HostFacts)
    ensures
        facts.core_warning() is Some <==> (facts.physical_cores == Some(4usize)
            || facts.physical_cores == Some(5usize)),
        facts.host_warning() is Some <==> facts.virtualised is Some,
        facts.governor_warning() is None <==> (facts.governor matches Some(g) && g@
            == "performance"@),
        facts.turbo_warning() is Some <==> facts.turbo_enabled == Some(true),
        facts.all_warnings().len() == (if facts.core_warning() is Some {
            1int
        } else {
            0
        }) + (if facts.host_warning() is Some {
            1int
        } else {
            0
        }) + (if facts.governor_warning() is Some {
            1int
        } else {
            0
        }) + (if facts.turbo_warning() is Some {
            1int
        } else {
            0
        }),
{
}

} // verus!
