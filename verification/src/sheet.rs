//! Texts that give names their values, one to a line.

use crate::handler::field as line_field;
use crate::hostcheck::{law_publishable_without_blockers, truth, HostFacts};
use crate::lines::holds_at;
use crate::text::decimal;
use crate::tsc::Arch;
use vstd::prelude::*;

verus! {

/// Rows of a name and its value, each written on a line that ends.
pub open spec fn written(rows: Seq<(Seq<char>, Seq<char>)>) -> Seq<char>
    decreases rows.len(),
{
    if rows.len() == 0 {
        Seq::empty()
    } else {
        written(rows.drop_last()) + (rows.last().0 + "="@ + rows.last().1 + "\n"@)
    }
}

/// A line begins at this place of a text that is the name, the sign and the value, and
/// nothing more.
pub open spec fn gives_at(text: Seq<char>, name: Seq<char>, value: Seq<char>, i: int) -> bool {
    let line = name + "="@ + value;
    &&& holds_at(text, line, i)
    &&& i > 0 ==> text[i - 1] == '\n'
    &&& i + line.len() < text.len() ==> text[i + line.len()] == '\n'
}

/// A text gives a name this value, on a line of its own.
pub open spec fn gives(text: Seq<char>, name: Seq<char>, value: Seq<char>) -> bool {
    exists|i: int| #[trigger] gives_at(text, name, value, i)
}

/// The rows that begin a text, or make all of it but for the end of the last line.
pub open spec fn shows(text: Seq<char>, rows: Seq<(Seq<char>, Seq<char>)>) -> bool {
    written(rows).is_prefix_of(text) || written(rows) == text.push('\n')
}

/// Where a row is written, and what ends before it.
proof fn lemma_row(rows: Seq<(Seq<char>, Seq<char>)>, i: int) -> (at: int)
    requires
        0 <= i < rows.len(),
    ensures
        ({
            let line = rows[i].0 + "="@ + rows[i].1;
            let all = written(rows);
            &&& holds_at(all, line, at)
            &&& at > 0 ==> all[at - 1] == '\n'
            &&& at + line.len() < all.len()
            &&& all[at + line.len()] == '\n'
        }),
    decreases rows.len(),
{
    reveal_strlit("\n");
    let before = written(rows.drop_last());
    let last = rows.last().0 + "="@ + rows.last().1;
    let all = written(rows);
    assert(all =~= before + last + "\n"@);
    if i == rows.len() - 1 {
        let at = before.len() as int;
        assert(all.subrange(at, at + last.len()) =~= last);
        if at > 0 {
            lemma_ends(rows.drop_last());
        }
        at
    } else {
        let at = lemma_row(rows.drop_last(), i);
        let line = rows[i].0 + "="@ + rows[i].1;
        assert(rows.drop_last()[i] == rows[i]);
        assert(all.subrange(at, at + line.len()) =~= before.subrange(at, at + line.len()));
        at
    }
}

proof fn lemma_ends(rows: Seq<(Seq<char>, Seq<char>)>)
    ensures
        written(rows).len() > 0 ==> written(rows).last() == '\n',
{
    reveal_strlit("\n");
}

/// A text that shows rows gives each name its value.
pub proof fn law_each_row_is_given(text: Seq<char>, rows: Seq<(Seq<char>, Seq<char>)>)
    requires
        shows(text, rows),
    ensures
        forall|i: int| 0 <= i < rows.len() ==> gives(text, (#[trigger] rows[i]).0, rows[i].1),
{
    assert forall|i: int| 0 <= i < rows.len() implies gives(
        text,
        (#[trigger] rows[i]).0,
        rows[i].1,
    ) by {
        let at = lemma_row(rows, i);
        let line = rows[i].0 + "="@ + rows[i].1;
        let all = written(rows);
        assert(forall|k: int|
            0 <= k < all.len() && k < text.len() ==> #[trigger] text[k] == all[k]) by {
            if !all.is_prefix_of(text) {
                assert(forall|k: int| 0 <= k < text.len() ==> text[k] == text.push('\n')[k]);
            }
        }
        assert(text.subrange(at, at + line.len()) =~= all.subrange(at, at + line.len()));
        assert(gives_at(text, rows[i].0, rows[i].1, at));
    }
}

/// A row more is a line more.
pub proof fn lemma_one_more(
    rows: Seq<(Seq<char>, Seq<char>)>,
    name: Seq<char>,
    value: Seq<char>,
)
    ensures
        written(rows.push((name, value))) == written(rows) + (name + "="@ + value + "\n"@),
{
    assert(rows.push((name, value)).drop_last() =~= rows);
}

/// A name of two parts, its sign and its value, as a row has them.
proof fn lemma_two_parts(
    prefix: Seq<char>,
    name: Seq<char>,
    signed: Seq<char>,
    value: Seq<char>,
)
    requires
        signed == name + "="@,
    ensures
        (prefix + signed + value).push('\n') == (prefix + name) + "="@ + value + "\n"@,
{
    reveal_strlit("\n");
    assert(prefix + signed =~= (prefix + name) + "="@);
    let line = (prefix + name) + "="@ + value;
    assert(line + "\n"@ =~= line.push('\n'));
}

proof fn lemma_names_of_figures()
    ensures
        "_count="@ == "_count"@ + "="@,
        "_min="@ == "_min"@ + "="@,
        "_median="@ == "_median"@ + "="@,
        "_p90="@ == "_p90"@ + "="@,
        "_p99="@ == "_p99"@ + "="@,
        "_p999="@ == "_p999"@ + "="@,
        "_max="@ == "_max"@ + "="@,
        "_mean="@ == "_mean"@ + "="@,
        "_overflow="@ == "_overflow"@ + "="@,
{
    reveal_strlit("=");
    reveal_strlit("_count");
    reveal_strlit("_count=");
    assert("_count="@ =~= "_count"@ + "="@);
    reveal_strlit("_min");
    reveal_strlit("_min=");
    assert("_min="@ =~= "_min"@ + "="@);
    reveal_strlit("_median");
    reveal_strlit("_median=");
    assert("_median="@ =~= "_median"@ + "="@);
    reveal_strlit("_p90");
    reveal_strlit("_p90=");
    assert("_p90="@ =~= "_p90"@ + "="@);
    reveal_strlit("_p99");
    reveal_strlit("_p99=");
    assert("_p99="@ =~= "_p99"@ + "="@);
    reveal_strlit("_p999");
    reveal_strlit("_p999=");
    assert("_p999="@ =~= "_p999"@ + "="@);
    reveal_strlit("_max");
    reveal_strlit("_max=");
    assert("_max="@ =~= "_max"@ + "="@);
    reveal_strlit("_mean");
    reveal_strlit("_mean=");
    assert("_mean="@ =~= "_mean"@ + "="@);
    reveal_strlit("_overflow");
    reveal_strlit("_overflow=");
    assert("_overflow="@ =~= "_overflow"@ + "="@);
}

/// The figures of a histogram, each under the prefix and its own name.
pub proof fn lemma_figures_are_given(
    text: Seq<char>,
    prefix: Seq<char>,
    a: Seq<char>,
    b: Seq<char>,
    c: Seq<char>,
    d: Seq<char>,
    e: Seq<char>,
    f: Seq<char>,
    g: Seq<char>,
    h: Seq<char>,
    i: Seq<char>,
)
    requires
        text == (prefix + "_count="@ + a).push('\n')
            + (prefix + "_min="@ + b).push('\n')
            + (prefix + "_median="@ + c).push('\n')
            + (prefix + "_p90="@ + d).push('\n')
            + (prefix + "_p99="@ + e).push('\n')
            + (prefix + "_p999="@ + f).push('\n')
            + (prefix + "_max="@ + g).push('\n')
            + (prefix + "_mean="@ + h).push('\n')
            + (prefix + "_overflow="@ + i),
    ensures
        gives(text, prefix + "_count"@, a),
        gives(text, prefix + "_min"@, b),
        gives(text, prefix + "_median"@, c),
        gives(text, prefix + "_p90"@, d),
        gives(text, prefix + "_p99"@, e),
        gives(text, prefix + "_p999"@, f),
        gives(text, prefix + "_max"@, g),
        gives(text, prefix + "_mean"@, h),
        gives(text, prefix + "_overflow"@, i),
{
    lemma_names_of_figures();
    let r0 = Seq::<(Seq<char>, Seq<char>)>::empty();
    let r1 = r0.push((prefix + "_count"@, a));
    lemma_one_more(r0, prefix + "_count"@, a);
    lemma_two_parts(prefix, "_count"@, "_count="@, a);
    assert(written(r1) =~= (prefix + "_count="@ + a).push('\n'));
    let r2 = r1.push((prefix + "_min"@, b));
    lemma_one_more(r1, prefix + "_min"@, b);
    lemma_two_parts(prefix, "_min"@, "_min="@, b);
    let r3 = r2.push((prefix + "_median"@, c));
    lemma_one_more(r2, prefix + "_median"@, c);
    lemma_two_parts(prefix, "_median"@, "_median="@, c);
    let r4 = r3.push((prefix + "_p90"@, d));
    lemma_one_more(r3, prefix + "_p90"@, d);
    lemma_two_parts(prefix, "_p90"@, "_p90="@, d);
    let r5 = r4.push((prefix + "_p99"@, e));
    lemma_one_more(r4, prefix + "_p99"@, e);
    lemma_two_parts(prefix, "_p99"@, "_p99="@, e);
    let r6 = r5.push((prefix + "_p999"@, f));
    lemma_one_more(r5, prefix + "_p999"@, f);
    lemma_two_parts(prefix, "_p999"@, "_p999="@, f);
    let r7 = r6.push((prefix + "_max"@, g));
    lemma_one_more(r6, prefix + "_max"@, g);
    lemma_two_parts(prefix, "_max"@, "_max="@, g);
    let r8 = r7.push((prefix + "_mean"@, h));
    lemma_one_more(r7, prefix + "_mean"@, h);
    lemma_two_parts(prefix, "_mean"@, "_mean="@, h);
    let r9 = r8.push((prefix + "_overflow"@, i));
    lemma_one_more(r8, prefix + "_overflow"@, i);
    lemma_two_parts(prefix, "_overflow"@, "_overflow="@, i);
    let last = prefix + "_overflow="@ + i;
    assert(written(r9) == written(r8) + last.push('\n'));
    assert(text == written(r8) + last);
    assert(text.push('\n') =~= written(r8) + last.push('\n'));
    law_each_row_is_given(text, r9);
    assert(r9[0] == (prefix + "_count"@, a));
    assert(r9[1] == (prefix + "_min"@, b));
    assert(r9[2] == (prefix + "_median"@, c));
    assert(r9[3] == (prefix + "_p90"@, d));
    assert(r9[4] == (prefix + "_p99"@, e));
    assert(r9[5] == (prefix + "_p999"@, f));
    assert(r9[6] == (prefix + "_max"@, g));
    assert(r9[7] == (prefix + "_mean"@, h));
    assert(r9[8] == (prefix + "_overflow"@, i));
}

spec fn cores_text(facts: HostFacts) -> Seq<char> {
    match facts.physical_cores {
        Some(n) => decimal(n as int),
        None => "unknown"@,
    }
}

spec fn under_text(facts: HostFacts) -> Seq<char> {
    match facts.virtualised {
        Some(kind) => kind@,
        None => "no"@,
    }
}

spec fn governor_text(facts: HostFacts) -> Seq<char> {
    match facts.governor {
        Some(g) => g@,
        None => "unknown"@,
    }
}

/// The rows that make the text of a host's facts.
proof fn lemma_host_rows(facts: HostFacts, arch: Arch) -> (rows: Seq<(Seq<char>, Seq<char>)>)
    ensures
        written(rows) == facts.fields_text(arch).push('\n'),
        rows.len() == 11,
        rows[0] == ("host_cpu"@, facts.cpu_model@),
        rows[1] == ("host_physical_cores"@, cores_text(facts)),
        rows[2] == ("host_logical_cores"@, decimal(facts.logical_cores as int)),
        rows[3] == ("host_kernel"@, facts.kernel@),
        rows[4] == ("host_virtualised"@, under_text(facts)),
        rows[5] == ("host_governor"@, governor_text(facts)),
        rows[6] == ("host_turbo"@, facts.turbo_text()),
        rows[7] == ("host_constant_tsc"@, truth(facts.tsc.constant_tsc)),
        rows[8] == ("host_nonstop_tsc"@, truth(facts.tsc.nonstop_tsc)),
        rows[9] == ("host_optimised_build"@, truth(facts.optimised_build)),
        rows[10] == ("host_publishable"@, truth(facts.publishable())),
{
    let r0 = Seq::<(Seq<char>, Seq<char>)>::empty();
    let r1 = r0.push(("host_cpu"@, facts.cpu_model@));
    lemma_one_more(r0, "host_cpu"@, facts.cpu_model@);
    let r2 = r1.push(("host_physical_cores"@, cores_text(facts)));
    lemma_one_more(r1, "host_physical_cores"@, cores_text(facts));
    let r3 = r2.push(("host_logical_cores"@, decimal(facts.logical_cores as int)));
    lemma_one_more(r2, "host_logical_cores"@, decimal(facts.logical_cores as int));
    let r4 = r3.push(("host_kernel"@, facts.kernel@));
    lemma_one_more(r3, "host_kernel"@, facts.kernel@);
    let r5 = r4.push(("host_virtualised"@, under_text(facts)));
    lemma_one_more(r4, "host_virtualised"@, under_text(facts));
    let r6 = r5.push(("host_governor"@, governor_text(facts)));
    lemma_one_more(r5, "host_governor"@, governor_text(facts));
    assert(written(r6) =~= facts.machine_text());
    let r7 = r6.push(("host_turbo"@, facts.turbo_text()));
    lemma_one_more(r6, "host_turbo"@, facts.turbo_text());
    let r8 = r7.push(("host_constant_tsc"@, truth(facts.tsc.constant_tsc)));
    lemma_one_more(r7, "host_constant_tsc"@, truth(facts.tsc.constant_tsc));
    let r9 = r8.push(("host_nonstop_tsc"@, truth(facts.tsc.nonstop_tsc)));
    lemma_one_more(r8, "host_nonstop_tsc"@, truth(facts.tsc.nonstop_tsc));
    let r10 = r9.push(("host_optimised_build"@, truth(facts.optimised_build)));
    lemma_one_more(r9, "host_optimised_build"@, truth(facts.optimised_build));
    let r11 = r10.push(("host_publishable"@, truth(facts.publishable())));
    lemma_one_more(r10, "host_publishable"@, truth(facts.publishable()));
    let machine = facts.machine_text();
    let a = line_field("host_turbo"@, facts.turbo_text());
    let b = line_field("host_constant_tsc"@, truth(facts.tsc.constant_tsc));
    let c = line_field("host_nonstop_tsc"@, truth(facts.tsc.nonstop_tsc));
    let d = line_field("host_optimised_build"@, truth(facts.optimised_build));
    let e = "host_publishable="@;
    let f = truth(facts.publishable());
    assert(written(r10) == machine + a + b + c + d);
    assert(written(r11) == machine + a + b + c + d + ("host_publishable"@ + "="@ + f + "\n"@));
    lemma_last_line(machine, a, b, c, d, f);
    r11
}

proof fn lemma_last_line(
    machine: Seq<char>,
    a: Seq<char>,
    b: Seq<char>,
    c: Seq<char>,
    d: Seq<char>,
    f: Seq<char>,
)
    ensures
        machine + a + b + c + d + ("host_publishable"@ + "="@ + f + "\n"@) == (machine + (a + b + c
            + d + "host_publishable="@ + f)).push('\n'),
{
    reveal_strlit("\n");
    reveal_strlit("host_publishable");
    reveal_strlit("=");
    reveal_strlit("host_publishable=");
    assert("host_publishable="@ =~= "host_publishable"@ + "="@);
    assert(machine + a + b + c + d =~= machine + (a + b + c + d));
    let name = "host_publishable="@;
    assert(name + f + "\n"@ =~= (name + f).push('\n'));
    let all = machine + (a + b + c + d);
    assert(all + (name + f).push('\n') =~= (all + (name + f)).push('\n'));
    assert(all + (name + f) =~= machine + (a + b + c + d + name + f));
}

proof fn lemma_publishable_if_nothing_blocks(facts: HostFacts, arch: Arch)
    ensures
        facts.publishable() <==> facts.all_blockers(arch) == Seq::<Seq<char>>::empty(),
{
    law_publishable_without_blockers(facts, arch);
    if facts.all_blockers(arch).len() == 0 {
        assert(facts.all_blockers(arch) =~= Seq::<Seq<char>>::empty());
    }
}

/// What is said of a host gives every fact under its own name.
pub proof fn law_every_fact_is_given(facts: HostFacts, arch: Arch)
    ensures
        ({
            let text = facts.fields_text(arch);
            let word = |b: bool|
                if b {
                    "true"@
                } else {
                    "false"@
                };
            &&& gives(text, "host_cpu"@, facts.cpu_model@)
            &&& facts.physical_cores matches Some(n) ==> gives(
                text,
                "host_physical_cores"@,
                decimal(n as int),
            )
            &&& facts.physical_cores is None ==> gives(text, "host_physical_cores"@, "unknown"@)
            &&& gives(text, "host_logical_cores"@, decimal(facts.logical_cores as int))
            &&& gives(text, "host_kernel"@, facts.kernel@)
            &&& facts.virtualised matches Some(kind) ==> gives(text, "host_virtualised"@, kind@)
            &&& facts.virtualised is None ==> gives(text, "host_virtualised"@, "no"@)
            &&& facts.governor matches Some(g) ==> gives(text, "host_governor"@, g@)
            &&& facts.governor is None ==> gives(text, "host_governor"@, "unknown"@)
            &&& facts.turbo_enabled == Some(true) ==> gives(text, "host_turbo"@, "on"@)
            &&& facts.turbo_enabled == Some(false) ==> gives(text, "host_turbo"@, "off"@)
            &&& facts.turbo_enabled is None ==> gives(text, "host_turbo"@, "unknown"@)
            &&& gives(text, "host_constant_tsc"@, word(facts.tsc.constant_tsc))
            &&& gives(text, "host_nonstop_tsc"@, word(facts.tsc.nonstop_tsc))
            &&& gives(text, "host_optimised_build"@, word(facts.optimised_build))
            &&& gives(
                text,
                "host_publishable"@,
                word(facts.all_blockers(arch) == Seq::<Seq<char>>::empty()),
            )
        }),
{
    let rows = lemma_host_rows(facts, arch);
    lemma_publishable_if_nothing_blocks(facts, arch);
    law_each_row_is_given(facts.fields_text(arch), rows);
}

} // verus!
