//! Reading what a host says of itself.

use crate::lines::{
    begins, contains, cut, holds, lines, lowered, split_lines, split_once, starts_with, to_lower,
    trim, trimmed, views,
};
use crate::text::{chars_of, push_chars, same_text};
use crate::tsc::{find_field, first_line, has_word, holds_word, raw_field};
use vstd::prelude::*;
use vstd::string::StringExecFns;

verus! {

/// A processor core: its package and its number there, as the host writes them.
pub type Core = (Seq<char>, Seq<char>);

/// What has been read of the processors so far.
pub struct Reading {
    pub physical_id: Option<Seq<char>>,
    pub core_id: Option<Seq<char>>,
    pub cores: Set<Core>,
}

impl Reading {
    pub open spec fn start() -> Reading {
        Reading { physical_id: None, core_id: None, cores: Set::empty() }
    }

    /// Takes down what a line says of a processor.
    pub open spec fn noted(self, line: Seq<char>) -> Reading {
        match cut(line) {
            Some((k, v)) => if trimmed(k) == "physical id"@ {
                Reading { physical_id: Some(trimmed(v)), ..self }
            } else if trimmed(k) == "core id"@ {
                Reading { core_id: Some(trimmed(v)), ..self }
            } else {
                self
            },
            None => self,
        }
    }

    /// Ends a processor: its core counts if both of its numbers are known.
    pub open spec fn ended(self) -> Reading {
        Reading {
            physical_id: None,
            core_id: None,
            cores: match (self.physical_id, self.core_id) {
                (Some(p), Some(c)) => self.cores.insert((p, c)),
                _ => self.cores,
            },
        }
    }

    /// Reads a line; an empty one ends a processor.
    pub open spec fn read(self, line: Seq<char>) -> Reading {
        let r = self.noted(line);
        if trimmed(line).len() == 0 {
            r.ended()
        } else {
            r
        }
    }

    pub open spec fn read_all(ls: Seq<Seq<char>>) -> Reading
        decreases ls.len(),
    {
        if ls.len() == 0 {
            Reading::start()
        } else {
            Reading::read_all(ls.drop_last()).read(ls.last())
        }
    }
}

/// The cores that a host lists. Processors that share a core count once.
pub open spec fn listed_cores(cpuinfo: Seq<char>) -> Set<Core> {
    Reading::read_all(lines(cpuinfo)).ended().cores
}

/// A core that was read.
#[derive(Debug)]
pub struct CoreName {
    pub package: Vec<char>,
    pub core: Vec<char>,
}

impl CoreName {
    pub open spec fn model(self) -> Core {
        (self.package@, self.core@)
    }
}

pub open spec fn core_set(v: Seq<CoreName>) -> Set<Core> {
    Set::new(|c: Core| exists|i: int| 0 <= i < v.len() && #[trigger] v[i].model() == c)
}

/// No core stands there twice.
pub open spec fn cores_differ(v: Seq<CoreName>) -> bool {
    forall|i: int, j: int|
        0 <= i < j < v.len() ==> #[trigger] v[i].model() != #[trigger] v[j].model()
}

proof fn lemma_core_count(v: Seq<CoreName>)
    requires
        cores_differ(v),
    ensures
        core_set(v).finite(),
        core_set(v).len() == v.len(),
    decreases v.len(),
{
    if v.len() == 0 {
        assert(core_set(v) =~= Set::empty());
    } else {
        let w = v.drop_last();
        let c = v.last().model();
        assert forall|i: int, j: int| 0 <= i < j < w.len() implies #[trigger] w[i].model()
            != #[trigger] w[j].model() by {
            assert(w[i] == v[i] && w[j] == v[j]);
        }
        lemma_core_count(w);
        assert(!core_set(w).contains(c)) by {
            if core_set(w).contains(c) {
                let i = choose|i: int| 0 <= i < w.len() && #[trigger] w[i].model() == c;
                assert(v[i].model() == v[v.len() - 1].model());
            }
        }
        assert(core_set(v) =~= core_set(w).insert(c)) by {
            assert forall|x: Core| core_set(v).contains(x) implies core_set(w).insert(c).contains(
                x,
            ) by {
                let i = choose|i: int| 0 <= i < v.len() && #[trigger] v[i].model() == x;
                if i < w.len() {
                    assert(w[i].model() == x);
                }
            }
            assert forall|x: Core| core_set(w).insert(c).contains(x) implies core_set(v).contains(
                x,
            ) by {
                if x == c {
                    assert(v[v.len() - 1].model() == x);
                } else {
                    let i = choose|i: int| 0 <= i < w.len() && #[trigger] w[i].model() == x;
                    assert(v[i].model() == x);
                }
            }
        }
    }
}

fn same_chars(a: &Vec<char>, b: &Vec<char>) -> (r: bool)
    ensures
        r == (a@ == b@),
{
    if a.len() != b.len() {
        return false;
    }
    let mut i: usize = 0;
    while i < a.len()
        invariant
            i <= a@.len(),
            a@.len() == b@.len(),
            forall|k: int| 0 <= k < i ==> a@[k] == b@[k],
        decreases a@.len() - i,
    {
        if a[i] != b[i] {
            return false;
        }
        i = i + 1;
    }
    assert(a@ =~= b@);
    true
}

/// Adds a core, unless it is there.
fn add_core(v: &mut Vec<CoreName>, package: Vec<char>, core: Vec<char>)
    requires
        cores_differ(old(v)@),
    ensures
        cores_differ(final(v)@),
        core_set(final(v)@) == core_set(old(v)@).insert((package@, core@)),
{
    let ghost c = (package@, core@);
    let mut i: usize = 0;
    while i < v.len()
        invariant
            *v == *old(v),
            cores_differ(v@),
            i <= v@.len(),
            c == (package@, core@),
            forall|k: int| 0 <= k < i ==> #[trigger] v@[k].model() != c,
        decreases v@.len() - i,
    {
        if same_chars(&v[i].package, &package) && same_chars(&v[i].core, &core) {
            assert(v@[i as int].model() == c);
            assert(core_set(v@) =~= core_set(v@).insert(c));
            return;
        }
        i = i + 1;
    }
    v.push(CoreName { package, core });
    proof {
        let o = old(v)@;
        assert forall|x: Core| core_set(v@).contains(x) <==> core_set(o).insert(c).contains(x) by {
            if core_set(o).contains(x) {
                let i = choose|i: int| 0 <= i < o.len() && #[trigger] o[i].model() == x;
                assert(v@[i].model() == x);
            }
            if x == c {
                assert(v@[o.len() as int].model() == x);
            }
            if core_set(v@).contains(x) {
                let i = choose|i: int| 0 <= i < v@.len() && #[trigger] v@[i].model() == x;
                if i < o.len() {
                    assert(o[i].model() == x);
                }
            }
        }
        assert(core_set(v@) =~= core_set(o).insert(c));
        assert forall|i: int, j: int| 0 <= i < j < v@.len() implies #[trigger] v@[i].model()
            != #[trigger] v@[j].model() by {
            assert(v@[i] == o[i]);
            if j < o.len() {
                assert(v@[j] == o[j]);
            }
        }
    }
}

pub open spec fn noted_name(o: Option<Vec<char>>) -> Option<Seq<char>> {
    match o {
        Some(v) => Some(v@),
        None => None,
    }
}

fn end_processor(cores: &mut Vec<CoreName>, package: Option<Vec<char>>, core: Option<Vec<char>>)
    requires
        cores_differ(old(cores)@),
    ensures
        cores_differ(final(cores)@),
        core_set(final(cores)@) == (Reading {
            physical_id: noted_name(package),
            core_id: noted_name(core),
            cores: core_set(old(cores)@),
        }).ended().cores,
{
    if let Some(p) = package {
        if let Some(c) = core {
            add_core(cores, p, c);
        }
    }
}

/// How many cores a host lists, if it lists any.
pub fn physical_cores(cpuinfo: &str) -> (r: Option<usize>)
    ensures
        listed_cores(cpuinfo@).finite(),
        r == (if listed_cores(cpuinfo@).len() == 0 {
            None::<usize>
        } else {
            Some(listed_cores(cpuinfo@).len() as usize)
        }),
        listed_cores(cpuinfo@).len() <= usize::MAX,
{
    let all: Vec<Vec<char>> = split_lines(&chars_of(cpuinfo));
    let ghost ls = lines(cpuinfo@);
    let mut cores: Vec<CoreName> = Vec::new();
    let mut physical_id: Option<Vec<char>> = None;
    let mut core_id: Option<Vec<char>> = None;
    let mut i: usize = 0;
    proof {
        assert(core_set(cores@) =~= Set::empty());
        assert(ls.take(0) =~= Seq::<Seq<char>>::empty());
    }
    while i < all.len()
        invariant
            views(all@) == ls,
            i <= all@.len(),
            cores_differ(cores@),
            Reading::read_all(ls.take(i as int)) == (Reading {
                physical_id: noted_name(physical_id),
                core_id: noted_name(core_id),
                cores: core_set(cores@),
            }),
        decreases all@.len() - i,
    {
        let line = &all[i];
        proof {
            assert(ls[i as int] == line@);
            assert(ls.take(i as int + 1).drop_last() =~= ls.take(i as int));
            assert(ls.take(i as int + 1).last() == line@);
        }
        match split_once(line) {
            Some(kv) => {
                let k: Vec<char> = trim(&kv.0);
                if same_text(&k, "physical id") {
                    physical_id = Some(trim(&kv.1));
                } else if same_text(&k, "core id") {
                    core_id = Some(trim(&kv.1));
                }
            },
            None => {},
        }
        if trim(line).len() == 0 {
            end_processor(&mut cores, physical_id, core_id);
            physical_id = None;
            core_id = None;
        }
        i = i + 1;
    }
    assert(ls.take(i as int) =~= ls);
    end_processor(&mut cores, physical_id, core_id);
    proof {
        lemma_core_count(cores@);
    }
    if cores.len() == 0 {
        None
    } else {
        Some(cores.len())
    }
}

/// What a host says under a key of its processors.
pub open spec fn field_text(cpuinfo: Seq<char>, key: Seq<char>) -> Option<Seq<char>> {
    match raw_field(cpuinfo, key) {
        Some(v) => Some(trimmed(v)),
        None => None,
    }
}

/// What a host says under a key of its processors.
pub fn field(cpuinfo: &str, key: &str) -> (r: Option<Vec<char>>)
    ensures
        noted_name(r) == field_text(cpuinfo@, key@),
{
    match find_field(&chars_of(cpuinfo), key) {
        Some(v) => Some(trim(&v)),
        None => None,
    }
}

/// What a host calls its processor: by name, by implementer and part, by the name
/// of the product, or not at all.
pub open spec fn model_text(cpuinfo: Seq<char>, product: Option<&str>) -> Seq<char> {
    match field_text(cpuinfo, "model name"@) {
        Some(name) => name,
        None => match (
            field_text(cpuinfo, "CPU implementer"@),
            field_text(cpuinfo, "CPU part"@),
        ) {
            (Some(implementer), Some(part)) => "aarch64 implementer "@ + implementer + " part "@
                + part,
            _ => match product {
                Some(name) => name@,
                None => "unknown"@,
            },
        },
    }
}

pub fn cpu_model(cpuinfo: &str, product: Option<&str>) -> (r: String)
    ensures
        r@ == model_text(cpuinfo@, product),
{
    if let Some(name) = field(cpuinfo, "model name") {
        let mut s: String = String::new();
        push_chars(&mut s, &name);
        assert(s@ =~= name@);
        return s;
    }
    if let Some(implementer) = field(cpuinfo, "CPU implementer") {
        if let Some(part) = field(cpuinfo, "CPU part") {
            let mut s: String = String::from_str("aarch64 implementer ");
            push_chars(&mut s, &implementer);
            s.append(" part ");
            push_chars(&mut s, &part);
            return s;
        }
    }
    match product {
        Some(name) => String::from_str(name),
        None => String::from_str("unknown"),
    }
}

/// The first line of what a kernel says of its version.
pub fn kernel(version: &str) -> (r: String)
    ensures
        r@ == (if lines(version@).len() == 0 {
            "unknown"@
        } else {
            lines(version@)[0]
        }),
{
    let all: Vec<Vec<char>> = split_lines(&chars_of(version));
    assert(views(all@).len() == all@.len());
    if all.len() == 0 {
        return String::from_str("unknown");
    }
    let mut s: String = String::new();
    push_chars(&mut s, &all[0]);
    assert(views(all@)[0] == all@[0]@);
    assert(s@ =~= all@[0]@);
    s
}

/// Whether a text that a host gives holds another, whatever the case of its letters.
fn mentions(text: &str, word: &str) -> (r: bool)
    ensures
        r == holds(lowered(text@), word@),
{
    contains(&to_lower(&chars_of(text)), word)
}

/// The first line of the processor list that begins with `flags` has this word.
pub open spec fn flagged(cpuinfo: Seq<char>, word: Seq<char>) -> bool {
    let all = lines(cpuinfo);
    let i = first_line(all, "flags"@, 0);
    i < all.len() && has_word(all[i], word)
}

fn has_flag(cpuinfo: &str, word: &str) -> (r: bool)
    ensures
        r == flagged(cpuinfo@, word@),
{
    let all: Vec<Vec<char>> = split_lines(&chars_of(cpuinfo));
    let ghost seen = lines(cpuinfo@);
    let mut i: usize = 0;
    while i < all.len() && !starts_with(&all[i], "flags")
        invariant
            views(all@) == seen,
            i <= all@.len(),
            first_line(seen, "flags"@, i as int) == first_line(seen, "flags"@, 0),
        decreases all@.len() - i,
    {
        assert(seen[i as int] == all@[i as int]@);
        i = i + 1;
    }
    assert(seen.len() == all@.len());
    if i == all.len() {
        return false;
    }
    assert(seen[i as int] == all@[i as int]@);
    holds_word(&all[i], word)
}

/// What a vendor's name says of a hypervisor.
pub open spec fn vendor_kind(vendor: Seq<char>) -> Option<Seq<char>> {
    let v = lowered(vendor);
    if holds(v, "microsoft"@) {
        Some("a Microsoft hypervisor"@)
    } else if holds(v, "amazon"@) {
        Some("an Amazon hypervisor"@)
    } else if holds(v, "google"@) {
        Some("a Google hypervisor"@)
    } else if holds(v, "qemu"@) {
        Some("QEMU/KVM"@)
    } else if holds(v, "vmware"@) {
        Some("VMware"@)
    } else if holds(v, "xen"@) {
        Some("Xen"@)
    } else if holds(v, "oracle"@) {
        Some("an Oracle hypervisor"@)
    } else {
        None
    }
}

pub open spec fn shown(o: Option<&'static str>) -> Option<Seq<char>> {
    match o {
        Some(s) => Some(s@),
        None => None,
    }
}

fn vendor_virtualisation(vendor: &str) -> (r: Option<&'static str>)
    ensures
        shown(r) == vendor_kind(vendor@),
{
    if mentions(vendor, "microsoft") {
        Some("a Microsoft hypervisor")
    } else if mentions(vendor, "amazon") {
        Some("an Amazon hypervisor")
    } else if mentions(vendor, "google") {
        Some("a Google hypervisor")
    } else if mentions(vendor, "qemu") {
        Some("QEMU/KVM")
    } else if mentions(vendor, "vmware") {
        Some("VMware")
    } else if mentions(vendor, "xen") {
        Some("Xen")
    } else if mentions(vendor, "oracle") {
        Some("an Oracle hypervisor")
    } else {
        None
    }
}

/// What a host runs under, by the first of its sources that tells.
pub open spec fn virtualisation(
    version: Option<&str>,
    hypervisor: Option<&str>,
    cpuinfo: Option<&str>,
    vendor: Option<&str>,
) -> Option<Seq<char>> {
    if version matches Some(v) && (holds(lowered(v@), "microsoft"@) || holds(
        lowered(v@),
        "wsl"@,
    )) {
        Some("WSL2"@)
    } else if hypervisor matches Some(t) && trimmed(t@) == "xen"@ {
        Some("Xen"@)
    } else if cpuinfo matches Some(c) && flagged(c@, "hypervisor"@) {
        Some("a hypervisor"@)
    } else {
        match vendor {
            Some(v) => vendor_kind(v@),
            None => None,
        }
    }
}

/// What a host runs under, from those of its sources that could be read: its kernel's
/// version, its hypervisor's type, its processors, its vendor.
pub fn detect_virtualisation(
    version: Option<&str>,
    hypervisor: Option<&str>,
    cpuinfo: Option<&str>,
    vendor: Option<&str>,
) -> (r: Option<&'static str>)
    ensures
        shown(r) == virtualisation(version, hypervisor, cpuinfo, vendor),
{
    if let Some(v) = version {
        if mentions(v, "microsoft") || mentions(v, "wsl") {
            return Some("WSL2");
        }
    }
    if let Some(t) = hypervisor {
        if same_text(&trim(&chars_of(t)), "xen") {
            return Some("Xen");
        }
    }
    if let Some(c) = cpuinfo {
        if has_flag(c, "hypervisor") {
            return Some("a hypervisor");
        }
    }
    match vendor {
        Some(v) => vendor_virtualisation(v),
        None => None,
    }
}

/// Whether turbo is on, from the two places where a host may say so: that it is off,
/// or that it is on.
pub fn detect_turbo(no_turbo: Option<&str>, boost: Option<&str>) -> (r: Option<bool>)
    ensures
        r == (match (no_turbo, boost) {
            (Some(v), _) => Some(v@ == "0"@),
            (None, Some(v)) => Some(v@ == "1"@),
            (None, None) => None,
        }),
{
    if let Some(v) = no_turbo {
        return Some(same_text(&chars_of(v), "0"));
    }
    if let Some(v) = boost {
        return Some(same_text(&chars_of(v), "1"));
    }
    None
}

/// The name of a processor's directory: `cpu` and then digits.
pub open spec fn names_processor(s: Seq<char>) -> bool {
    &&& begins(s, "cpu"@)
    &&& s.len() > 3
    &&& forall|i: int| 3 <= i < s.len() ==> '0' <= #[trigger] s[i] <= '9'
}

pub fn is_processor(name: &str) -> (r: bool)
    ensures
        r == names_processor(name@),
{
    let s: Vec<char> = chars_of(name);
    proof {
        reveal_strlit("cpu");
    }
    if !starts_with(&s, "cpu") || s.len() == 3 {
        return false;
    }
    let mut i: usize = 3;
    while i < s.len()
        invariant
            3 <= i <= s@.len(),
            s@ == name@,
            forall|k: int| 3 <= k < i ==> '0' <= #[trigger] s@[k] <= '9',
        decreases s@.len() - i,
    {
        if s[i] < '0' || s[i] > '9' {
            assert(!('0' <= s@[i as int] <= '9'));
            return false;
        }
        i = i + 1;
    }
    true
}

/// A directory of a host's processor tree, and the numbers in it that could be read.
#[derive(Debug)]
pub struct CpuEntry {
    pub name: String,
    pub core: Option<String>,
    pub package: Option<String>,
}

impl CpuEntry {
    /// The core that a directory stands for. One that says no package is of package 0.
    pub open spec fn core_of(self) -> Option<Core> {
        if names_processor(self.name@) {
            match self.core {
                Some(c) => Some(
                    (
                        match self.package {
                            Some(p) => p@,
                            None => "0"@,
                        },
                        c@,
                    ),
                ),
                None => None,
            }
        } else {
            None
        }
    }
}

pub open spec fn tree_cores(v: Seq<CpuEntry>) -> Set<Core>
    decreases v.len(),
{
    if v.len() == 0 {
        Set::empty()
    } else {
        match v.last().core_of() {
            Some(c) => tree_cores(v.drop_last()).insert(c),
            None => tree_cores(v.drop_last()),
        }
    }
}

/// How many cores a host's processor tree has, if it has any.
pub fn cores_of_tree(entries: &Vec<CpuEntry>) -> (r: Option<usize>)
    ensures
        tree_cores(entries@).finite(),
        r == (if tree_cores(entries@).len() == 0 {
            None::<usize>
        } else {
            Some(tree_cores(entries@).len() as usize)
        }),
        tree_cores(entries@).len() <= usize::MAX,
{
    let mut cores: Vec<CoreName> = Vec::new();
    let mut i: usize = 0;
    assert(core_set(cores@) =~= tree_cores(entries@.take(0)));
    while i < entries.len()
        invariant
            i <= entries@.len(),
            cores_differ(cores@),
            core_set(cores@) == tree_cores(entries@.take(i as int)),
        decreases entries@.len() - i,
    {
        let e = &entries[i];
        assert(entries@.take(i as int + 1).drop_last() =~= entries@.take(i as int));
        if is_processor(e.name.as_str()) {
            if let Some(c) = &e.core {
                let package: Vec<char> = match &e.package {
                    Some(p) => chars_of(p.as_str()),
                    None => chars_of("0"),
                };
                add_core(&mut cores, package, chars_of(c.as_str()));
            }
        }
        i = i + 1;
    }
    assert(entries@.take(i as int) =~= entries@);
    proof {
        lemma_core_count(cores@);
    }
    if cores.len() == 0 {
        None
    } else {
        Some(cores.len())
    }
}

} // verus!
