//! Whether a cycle counter can be trusted, and what it measured.

use crate::lines::{begins, cut, lines, split_lines, split_once, starts_with, views};
use crate::text::{chars_of, same_text, split_words, words};
use vstd::prelude::*;
use vstd::string::StringExecFns;

verus! {

/// What a program was built for.
#[derive(Debug, Clone, Copy, PartialEq, Eq, Structural)]
pub enum Arch {
    X86_64,
    Aarch64,
    Other,
}

/// There is a counter to read.
pub open spec fn has_counter(arch: Arch) -> bool {
    arch is X86_64 || arch is Aarch64
}

pub fn available(arch: Arch) -> (r: bool)
    ensures
        r == has_counter(arch),
{
    match arch {
        Arch::Other => false,
        _ => true,
    }
}

/// What a host says of its cycle counter.
#[derive(Debug, Clone, Copy, PartialEq, Eq, Structural)]
pub struct TscQuality {
    pub constant_tsc: bool,
    pub nonstop_tsc: bool,
    pub flags_readable: bool,
    /// The fixed rate of the counter, where it has one.
    pub counter_hz: Option<u64>,
}

/// The first line that begins with a key is at this place.
pub open spec fn first_line(s: Seq<Seq<char>>, key: Seq<char>, i: int) -> int
    decreases s.len() - i,
{
    if i >= s.len() {
        s.len() as int
    } else if begins(s[i], key) {
        i
    } else {
        first_line(s, key, i + 1)
    }
}

/// The part after the colon of the first line that begins with a key.
pub open spec fn raw_field(text: Seq<char>, key: Seq<char>) -> Option<Seq<char>> {
    let all = lines(text);
    let i = first_line(all, key, 0);
    if i < all.len() {
        match cut(all[i]) {
            Some((_, v)) => Some(v),
            None => None,
        }
    } else {
        None
    }
}

/// The part after the colon of the first line that begins with a key.
pub fn find_field(text: &Vec<char>, key: &str) -> (r: Option<Vec<char>>)
    ensures
        r is Some <==> raw_field(text@, key@) is Some,
        r matches Some(v) ==> raw_field(text@, key@) == Some(v@),
{
    let all: Vec<Vec<char>> = split_lines(text);
    let ghost seen = lines(text@);
    let mut i: usize = 0;
    while i < all.len() && !starts_with(&all[i], key)
        invariant
            views(all@) == seen,
            i <= all@.len(),
            first_line(seen, key@, i as int) == first_line(seen, key@, 0),
        decreases all@.len() - i,
    {
        assert(seen[i as int] == all@[i as int]@);
        i = i + 1;
    }
    assert(seen.len() == all@.len());
    if i == all.len() {
        return None;
    }
    assert(seen[i as int] == all@[i as int]@);
    match split_once(&all[i]) {
        Some(kv) => Some(kv.1),
        None => None,
    }
}

/// A text has a word.
pub open spec fn has_word(s: Seq<char>, w: Seq<char>) -> bool {
    words(s).contains(w)
}

pub fn holds_word(s: &Vec<char>, w: &str) -> (r: bool)
    ensures
        r == has_word(s@, w@),
{
    let all: Vec<Vec<char>> = split_words(s);
    let mut i: usize = 0;
    while i < all.len()
        invariant
            i <= all@.len(),
            all@.len() == words(s@).len(),
            forall|k: int| 0 <= k < all@.len() ==> (#[trigger] all@[k])@ == words(s@)[k],
            forall|k: int| 0 <= k < i ==> words(s@)[k] != w@,
        decreases all@.len() - i,
    {
        if same_text(&all[i], w) {
            assert(words(s@)[i as int] == w@);
            return true;
        }
        assert(all@[i as int]@ == words(s@)[i as int]);
        i = i + 1;
    }
    false
}

/// The flags that a host advertises.
pub open spec fn flags_of(cpuinfo: Seq<char>) -> Seq<char> {
    match raw_field(cpuinfo, "flags"@) {
        Some(v) => v,
        None => Seq::empty(),
    }
}

impl TscQuality {
    /// Reads the counter's flags from what the host says of its processors, if it
    /// says anything.
    pub fn from_cpuinfo(cpuinfo: Option<&str>) -> (r: Self)
        ensures
            r == (match cpuinfo {
                None => TscQuality {
                    constant_tsc: false,
                    nonstop_tsc: false,
                    flags_readable: false,
                    counter_hz: None,
                },
                Some(t) => TscQuality {
                    constant_tsc: has_word(flags_of(t@), "constant_tsc"@),
                    nonstop_tsc: has_word(flags_of(t@), "nonstop_tsc"@),
                    flags_readable: true,
                    counter_hz: None,
                },
            }),
    {
        match cpuinfo {
            None => TscQuality {
                constant_tsc: false,
                nonstop_tsc: false,
                flags_readable: false,
                counter_hz: None,
            },
            Some(t) => {
                let text: Vec<char> = chars_of(t);
                let flags: Vec<char> = match find_field(&text, "flags") {
                    Some(v) => v,
                    None => {
                        let none: Vec<char> = Vec::new();
                        none
                    },
                };
                assert(flags@ =~= flags_of(t@));
                TscQuality {
                    constant_tsc: holds_word(&flags, "constant_tsc"),
                    nonstop_tsc: holds_word(&flags, "nonstop_tsc"),
                    flags_readable: true,
                    counter_hz: None,
                }
            },
        }
    }

    /// Takes the rate that a timer says it has. One outside 1 MHz to 1 GHz is not
    /// believed.
    pub fn from_timer(hz: u64) -> (r: Self)
        ensures
            r == ({
                let believed = 1_000_000 <= hz <= 1_000_000_000;
                TscQuality {
                    constant_tsc: believed,
                    nonstop_tsc: believed,
                    flags_readable: true,
                    counter_hz: if believed {
                        Some(hz)
                    } else {
                        None
                    },
                }
            }),
    {
        let believed = 1_000_000 <= hz && hz <= 1_000_000_000;
        TscQuality {
            constant_tsc: believed,
            nonstop_tsc: believed,
            flags_readable: true,
            counter_hz: if believed {
                Some(hz)
            } else {
                None
            },
        }
    }

    /// The counter runs at one rate, always.
    pub open spec fn invariable(self) -> bool {
        self.constant_tsc && self.nonstop_tsc
    }

    pub open spec fn missing(self) -> Seq<char> {
        if self.constant_tsc {
            "nonstop_tsc"@
        } else if self.nonstop_tsc {
            "constant_tsc"@
        } else {
            "constant_tsc"@ + " and "@ + "nonstop_tsc"@
        }
    }

    /// Why the counter cannot be trusted, if it cannot.
    pub open spec fn objection(self, arch: Arch) -> Option<Seq<char>> {
        if self.invariable() {
            None
        } else if arch is Aarch64 {
            Some(
                "cntfrq_el0 read as zero or could not be read, so the generic timer's frequency is unknown and a tick count cannot be converted to a duration."@,
            )
        } else if !self.flags_readable {
            Some(
                "/proc/cpuinfo could not be read, so constant_tsc and nonstop_tsc are unknown. A cycle count from this host cannot be converted to a duration."@,
            )
        } else {
            Some(
                "the host does not advertise "@ + self.missing()
                    + ". Without them the cycle counter changes rate underneath the measurement, so the result is not imprecise — it is meaningless. This is the normal state under WSL2, where the flags are masked."@,
            )
        }
    }

    pub fn is_invariant(&self) -> (r: bool)
        ensures
            r == self.invariable(),
    {
        self.constant_tsc && self.nonstop_tsc
    }

    /// Why the counter cannot be trusted. What there is to say depends on the machine that
    /// the program was built for.
    pub fn why_not(&self, arch: Arch) -> (r: Option<String>)
        ensures
            r is Some <==> self.objection(arch) is Some,
            r matches Some(s) ==> self.objection(arch) == Some(s@),
    {
        if self.is_invariant() {
            return None;
        }
        if arch == Arch::Aarch64 {
            return Some(
                String::from_str(
                    "cntfrq_el0 read as zero or could not be read, so the generic timer's frequency is unknown and a tick count cannot be converted to a duration.",
                ),
            );
        }
        if !self.flags_readable {
            return Some(
                String::from_str(
                    "/proc/cpuinfo could not be read, so constant_tsc and nonstop_tsc are unknown. A cycle count from this host cannot be converted to a duration.",
                ),
            );
        }
        let mut s: String = String::from_str("the host does not advertise ");
        if self.constant_tsc {
            s.append("nonstop_tsc");
        } else if self.nonstop_tsc {
            s.append("constant_tsc");
        } else {
            s.append("constant_tsc");
            s.append(" and ");
            s.append("nonstop_tsc");
            assert(s@ =~= "the host does not advertise "@ + self.missing());
        }
        s.append(
            ". Without them the cycle counter changes rate underneath the measurement, so the result is not imprecise — it is meaningless. This is the normal state under WSL2, where the flags are masked.",
        );
        Some(s)
    }
}

/// What a measurement took, less what measuring takes; never below nothing.
pub fn net_ticks(ticks: u64, overhead: u64) -> (r: u64)
    ensures
        r == (if ticks > overhead {
            ticks - overhead
        } else {
            0
        }),
{
    if ticks > overhead {
        ticks - overhead
    } else {
        0
    }
}

/// The least that a sample took; `u64::MAX` of none.
pub open spec fn least_taken(samples: Seq<(u64, u64)>) -> u64
    decreases samples.len(),
{
    if samples.len() == 0 {
        u64::MAX
    } else {
        let rest = least_taken(samples.drop_last());
        if taken(samples.last()) < rest {
            taken(samples.last())
        } else {
            rest
        }
    }
}

/// What one reading of the counter after another takes: the least of the samples,
/// each a start and a stop, or nothing where there is none.
pub fn overhead_of(samples: &Vec<(u64, u64)>) -> (r: u64)
    ensures
        r == (if least_taken(samples@) == u64::MAX {
            0
        } else {
            least_taken(samples@)
        }),
{
    let mut best: u64 = u64::MAX;
    let mut i: usize = 0;
    while i < samples.len()
        invariant
            i <= samples@.len(),
            best == least_taken(samples@.take(i as int)),
        decreases samples@.len() - i,
    {
        let t: u64 = net_ticks(samples[i].1, samples[i].0);
        assert(samples@.take(i as int + 1).drop_last() =~= samples@.take(i as int));
        if t < best {
            best = t;
        }
        i = i + 1;
    }
    assert(samples@.take(i as int) =~= samples@);
    if best == u64::MAX {
        0
    } else {
        best
    }
}

/// From a start to a stop; nothing where the stop is not later.
pub open spec fn taken(sample: (u64, u64)) -> u64 {
    if sample.1 > sample.0 {
        (sample.1 - sample.0) as u64
    } else {
        0
    }
}

/// The counter is there, runs at one rate, and calibrated quietly.
pub fn is_trustworthy(arch: Arch, quality: &TscQuality, quiet: bool) -> (r: bool)
    ensures
        r == (has_counter(arch) && quality.invariable() && quiet),
{
    available(arch) && quality.is_invariant() && quiet
}

/// Everything that speaks against the counter.
pub open spec fn all_objections(
    arch: Arch,
    quality: TscQuality,
    noise: Option<Seq<char>>,
) -> Seq<Seq<char>> {
    if !has_counter(arch) {
        seq![
            "this build is not x86_64, so there is no cycle counter and the timing harness is inert."@,
        ]
    } else {
        optional(quality.objection(arch)) + optional(
            match noise {
                Some(spread) => Some(
                    "the calibration samples disagreed by "@ + spread
                        + "%, which is more than the 1% that would let a tick rate be quoted. The host was too noisy to establish what a tick is worth, so nothing measured with it can be published."@,
                ),
                None => None,
            },
        )
    }
}

/// Nothing, or the one thing.
pub open spec fn optional(o: Option<Seq<char>>) -> Seq<Seq<char>> {
    match o {
        Some(s) => seq![s],
        None => Seq::empty(),
    }
}

pub open spec fn texts(v: Seq<String>) -> Seq<Seq<char>> {
    Seq::new(v.len(), |i: int| v[i]@)
}

/// Adds a text to a list, if there is one.
pub fn push_optional(v: &mut Vec<String>, o: Option<String>)
    ensures
        texts(final(v)@) == texts(old(v)@) + optional(
            match o {
                Some(s) => Some(s@),
                None => None,
            },
        ),
{
    match o {
        Some(s) => {
            v.push(s);
            assert(texts(v@) =~= texts(old(v)@) + seq![s@]);
        },
        None => {
            assert(texts(v@) =~= texts(old(v)@) + Seq::<Seq<char>>::empty());
        },
    }
}

/// Everything that speaks against the counter. `noise` is by how many percent the
/// calibration disagreed, as the caller writes it, where that is too much.
pub fn objections(arch: Arch, quality: &TscQuality, noise: Option<&str>) -> (r: Vec<String>)
    ensures
        texts(r@) == all_objections(
            arch,
            *quality,
            match noise {
                Some(s) => Some(s@),
                None => None,
            },
        ),
{
    let mut out: Vec<String> = Vec::new();
    assert(texts(out@) =~= Seq::<Seq<char>>::empty());
    if !available(arch) {
        push_optional(
            &mut out,
            Some(
                String::from_str(
                    "this build is not x86_64, so there is no cycle counter and the timing harness is inert.",
                ),
            ),
        );
        assert(texts(out@) =~= all_objections(arch, *quality, None));
        return out;
    }
    push_optional(&mut out, quality.why_not(arch));
    let noisy: Option<String> = match noise {
        Some(spread) => {
            let mut s: String = String::from_str("the calibration samples disagreed by ");
            s.append(spread);
            s.append(
                "%, which is more than the 1% that would let a tick rate be quoted. The host was too noisy to establish what a tick is worth, so nothing measured with it can be published.",
            );
            Some(s)
        },
        None => None,
    };
    push_optional(&mut out, noisy);
    proof {
        let noise_text = match noise {
            Some(s) => Some(s@),
            None => None,
        };
        assert(texts(out@) =~= all_objections(arch, *quality, noise_text));
    }
    out
}

/// A counter is trusted exactly when nothing speaks against it.
pub proof fn law_trusted_without_objections(
    arch: Arch,
    quality: TscQuality,
    noise: Option<Seq<char>>,
)
    ensures
        (has_counter(arch) && quality.invariable() && noise is None) <==> all_objections(
            arch,
            quality,
            noise,
        ).len() == 0,
{
}

/// The overhead is the least that any sample took, and one of them took it.
pub proof fn law_overhead_is_the_least_taken(samples: Seq<(u64, u64)>)
    requires
        samples.len() > 0,
    ensures
        forall|i: int|
            0 <= i < samples.len() ==> least_taken(samples) <= (if (#[trigger] samples[i]).1
                > samples[i].0 {
                samples[i].1 - samples[i].0
            } else {
                0
            }),
        exists|i: int|
            0 <= i < samples.len() && least_taken(samples) == (if (#[trigger] samples[i]).1
                > samples[i].0 {
                samples[i].1 - samples[i].0
            } else {
                0
            }),
    decreases samples.len(),
{
    let rest = samples.drop_last();
    let l = samples.last();
    assert(samples[samples.len() - 1] == l);
    if rest.len() > 0 {
        law_overhead_is_the_least_taken(rest);
        assert forall|i: int| 0 <= i < samples.len() implies least_taken(samples) <= (if (
        #[trigger] samples[i]).1 > samples[i].0 {
            samples[i].1 - samples[i].0
        } else {
            0
        }) by {
            if i < rest.len() {
                assert(rest[i] == samples[i]);
            }
        }
        let k = choose|k: int|
            0 <= k < rest.len() && least_taken(rest) == (if (#[trigger] rest[k]).1 > rest[k].0 {
                rest[k].1 - rest[k].0
            } else {
                0
            });
        assert(samples[k] == rest[k]);
    } else {
        assert(rest =~= Seq::<(u64, u64)>::empty());
    }
}

/// A counter can be trusted only on a machine that has one, that runs it at one rate through
/// every state, and whose samples agreed; it is invariable exactly if both flags are there.
pub proof fn law_what_trust_needs(arch: Arch, quality: TscQuality)
    ensures
        quality.invariable() <==> quality.constant_tsc && quality.nonstop_tsc,
        has_counter(arch) <==> arch != Arch::Other,
        quality.objection(arch) is None <==> quality.constant_tsc && quality.nonstop_tsc,
{
}

} // verus!
