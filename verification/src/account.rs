//! What holds of an arbitrator over a whole run, however long.
//!
//! A run is what an arbitrator is given to do, in order: datagrams to take, ready
//! datagrams to hand out, a hole to give up, a recovery to go on from. A recovery begins a
//! new stretch of the run, and the account of each stretch is closed by itself.

use crate::arbitration::{
    contiguous, covers, find, gaps_ascend, is_free, law_drains_in_order, lemma_accepted_wf,
    lemma_drained_wf, lemma_found, lemma_lowest_is, lemma_purged_taken, lemma_released_wf,
    lemma_slot_free, lemma_some_covers, lemma_taken_bounds, lemma_taken_update,
    lemma_unstalled_wf, lemma_wrapped_add, missing, purged, starts_at, wrapped, Accepted, ArbModel, FeedState, Gap,
};
use crate::message::PacketHeader;
use vstd::prelude::*;

verus! {

/// One thing an arbitrator does.
pub enum Step {
    Accept { arm: u8, header: Option<PacketHeader>, bytes: Seq<u8> },
    /// Hands out everything that is ready.
    Drain,
    /// Gives up the hole before what waits.
    Declare,
    /// Goes on from a sequence after a recovery.
    Resync { sequence: u64 },
}

impl Step {
    /// The sequences of a datagram are numbers.
    pub open spec fn fits(self) -> bool {
        self matches Step::Accept { header: Some(h), .. } ==> h.end() <= u64::MAX
    }
}

/// What is known after a step.
#[verifier::opaque]
pub open spec fn stepped(m: ArbModel, s: Step) -> ArbModel {
    match s {
        Step::Accept { arm, header, bytes } => m.accepted(arm, header, bytes).0,
        Step::Drain => m.drained(m.window.len()),
        Step::Declare => m.unstalled(),
        Step::Resync { sequence } => m.resynced(sequence),
    }
}

/// Where the sequences begin that a step hands out for the first time. They end at the
/// frontier after it. Only a datagram that is ready, and what is drained, is handed out.
#[verifier::opaque]
pub open spec fn newly_from(m: ArbModel, s: Step) -> int {
    match s {
        Step::Accept { arm, header, bytes } => match m.accepted(arm, header, bytes).1 {
            Accepted::Ready { first_sequence, .. } => if m.started {
                m.next_expected as int
            } else {
                first_sequence as int
            },
            _ => stepped(m, s).next_expected as int,
        },
        Step::Drain => m.next_expected as int,
        Step::Declare => stepped(m, s).next_expected as int,
        Step::Resync { .. } => stepped(m, s).next_expected as int,
    }
}

pub open spec fn after_run(m: ArbModel, steps: Seq<Step>) -> ArbModel
    decreases steps.len(),
{
    if steps.len() == 0 {
        m
    } else {
        stepped(after_run(m, steps.drop_last()), steps.last())
    }
}

/// How many steps of a run lie before its last stretch.
pub open spec fn cut(steps: Seq<Step>) -> int
    decreases steps.len(),
{
    if steps.len() == 0 {
        0
    } else if steps.last() is Resync {
        steps.len() as int
    } else {
        cut(steps.drop_last())
    }
}

/// What was known when the last stretch of a run began.
pub open spec fn at_cut(m: ArbModel, steps: Seq<Step>) -> ArbModel {
    after_run(m, steps.take(cut(steps)))
}

/// The sequence at which the last stretch of a run began: that of the recovery, or else the
/// first of the stream.
pub open spec fn stretch_from(m: ArbModel, steps: Seq<Step>) -> int {
    if cut(steps) == 0 {
        after_run(m, steps).first_sequence as int
    } else {
        at_cut(m, steps).next_expected as int
    }
}

/// The gaps of the last stretch of a run.
pub open spec fn stretch_gaps(m: ArbModel, steps: Seq<Step>) -> Seq<Gap> {
    after_run(m, steps).gaps.skip(at_cut(m, steps).gaps.len() as int)
}

/// Some step in the last stretch of a run hands out `q` for the first time in it.
pub open spec fn handed_out(m: ArbModel, steps: Seq<Step>, q: int) -> bool
    decreases steps.len(),
{
    if steps.len() == 0 || steps.last() is Resync {
        false
    } else {
        let before = after_run(m, steps.drop_last());
        let now = stepped(before, steps.last());
        handed_out(m, steps.drop_last(), q) || newly_from(before, steps.last()) <= q
            < now.next_expected
    }
}

/// A sequence lies in one of the gaps.
pub open spec fn in_gaps(gaps: Seq<Gap>, q: int) -> bool {
    exists|i: int| 0 <= i < gaps.len() && (#[trigger] gaps[i]).from <= q <= gaps[i].through
}

/// Handing out what is ready changes no gap and begins no new stream.
proof fn lemma_drained_keeps(m: ArbModel, fuel: nat)
    requires
        m.wf(),
    ensures
        m.drained(fuel).gaps == m.gaps,
        m.drained(fuel).messages_missed == m.messages_missed,
        m.drained(fuel).resyncs == m.resyncs,
        m.drained(fuel).started == m.started,
        m.drained(fuel).first_sequence == m.first_sequence,
        m.drained(fuel).capacity == m.capacity,
        m.drained(fuel).window.len() == m.window.len(),
        m.drained(fuel).state == m.state,
        m.drained(fuel).messages_delivered == wrapped(
            m.messages_delivered + (m.drained(fuel).next_expected - m.next_expected),
        ),
    decreases fuel,
{
    if find(m.window, covers(m.next_expected)) is Some && fuel > 0 {
        lemma_found(m.window, m.next_expected);
        let i = find(m.window, covers(m.next_expected))->0;
        lemma_released_wf(m, i);
        let n = m.released(i);
        lemma_drained_keeps(n, (fuel - 1) as nat);
        lemma_drained_wf(n, (fuel - 1) as nat);
        lemma_wrapped_add(
            m.messages_delivered as int,
            (n.next_expected - m.next_expected) as u64,
        );
    }
}

/// How a step that is no recovery gets on, from `m` to `n`, with what is newly handed out
/// beginning at `from`: it either leaves the gaps alone, or adds one that begins at the
/// frontier, and goes on behind it.
spec fn gets_on(m: ArbModel, n: ArbModel, from: int) -> bool {
    &&& n.wf()
    &&& n.resyncs == m.resyncs
    &&& m.next_expected <= n.next_expected
    &&& 0 <= from <= n.next_expected
    &&& n.messages_delivered == wrapped(m.messages_delivered + (n.next_expected - from))
    &&& !n.started ==> n.next_expected == m.next_expected
    &&& !m.started ==> n.gaps == m.gaps && (n.started ==> from == n.first_sequence && n.state
        == FeedState::Live)
    &&& m.started ==> {
        &&& n.started
        &&& n.first_sequence == m.first_sequence
        &&& if n.gaps.len() == m.gaps.len() {
            &&& n.gaps == m.gaps
            &&& n.state == m.state
            &&& from == m.next_expected || (from == n.next_expected && n.next_expected
                == m.next_expected)
        } else {
            &&& n.gaps.len() == m.gaps.len() + 1
            &&& n.gaps.drop_last() == m.gaps
            &&& n.state == FeedState::Gapped
            &&& n.gaps.last().from == m.next_expected
            &&& from == n.gaps.last().through + 1
        }
    }
}

proof fn lemma_accept_step(m: ArbModel, arm: u8, header: Option<PacketHeader>, bytes: Seq<u8>)
    requires
        m.wf(),
        header matches Some(h) ==> h.end() <= u64::MAX,
    ensures
        ({
            let (n, r) = m.accepted(arm, header, bytes);
            gets_on(
                m,
                n,
                match r {
                    Accepted::Ready { first_sequence, .. } => if m.started {
                        m.next_expected as int
                    } else {
                        first_sequence as int
                    },
                    _ => n.next_expected as int,
                },
            )
        }),
{
    let n = m.accepted(arm, header, bytes).0;
    lemma_taken_bounds(m.window, m.window.len() as int);
    lemma_accepted_wf(m, arm, header, bytes);
    if let Some(h) = header {
        if h.message_count > 0 {
            let q = m.noticed(h);
            assert(q.window == m.window);
            if q.outcome(h) is ForcedGap {
                lemma_lowest_is(q.window);
                assert(n.gaps =~= m.gaps.push(q.hole()));
                assert(n.gaps.drop_last() =~= m.gaps);
            }
            if q.outcome(h) is Ready {
                lemma_wrapped_add(
                    m.messages_delivered as int,
                    q.newly(h.first_sequence, h.message_count) as u64,
                );
            }
        }
    }
}

proof fn lemma_drain_step(m: ArbModel)
    requires
        m.wf(),
    ensures
        gets_on(m, m.drained(m.window.len()), m.next_expected as int),
{
    lemma_taken_bounds(m.window, m.window.len() as int);
    lemma_drained_wf(m, m.window.len());
    lemma_drained_keeps(m, m.window.len());
    if !m.started {
        assert forall|i: int| 0 <= i < m.window.len() implies !covers(m.next_expected)(
            #[trigger] m.window[i],
        ) by {}
        if find(m.window, covers(m.next_expected)) is Some {
            lemma_found(m.window, m.next_expected);
        }
    }
}

proof fn lemma_declare_step(m: ArbModel)
    requires
        m.wf(),
    ensures
        gets_on(m, m.unstalled(), m.unstalled().next_expected as int),
{
    let n = m.unstalled();
    lemma_taken_bounds(m.window, m.window.len() as int);
    lemma_unstalled_wf(m);
    if m.has_hole() {
        lemma_lowest_is(m.window);
        assert(n.gaps.drop_last() =~= m.gaps);
    }
}

proof fn lemma_step(m: ArbModel, s: Step)
    requires
        m.wf(),
        s.fits(),
        !(s is Resync),
    ensures
        gets_on(m, stepped(m, s), newly_from(m, s)),
{
    reveal(stepped);
    reveal(newly_from);
    match s {
        Step::Accept { arm, header, bytes } => lemma_accept_step(m, arm, header, bytes),
        Step::Drain => lemma_drain_step(m),
        Step::Declare => lemma_declare_step(m),
        Step::Resync { .. } => {},
    }
}

/// A recovery leaves the gaps and the counts as they are, and the state live.
proof fn lemma_resync(m: ArbModel, s: Step)
    requires
        m.wf(),
        s is Resync,
    ensures
        stepped(m, s).wf(),
        stepped(m, s).started,
        stepped(m, s).state == FeedState::Live,
        stepped(m, s).gaps == m.gaps,
        stepped(m, s).messages_missed == m.messages_missed,
        stepped(m, s).messages_delivered == m.messages_delivered,
{
    reveal(stepped);
    let n = stepped(m, s);
    lemma_taken_bounds(n.window, n.window.len() as int);
}

/// What a step is said to hand out is what comes out of it: the ready datagram reaches from
/// the first such sequence or before it to the frontier, and so do the datagrams that are
/// drained, one after the other.
pub proof fn law_newly_is_what_came_out(m: ArbModel, s: Step)
    requires
        m.wf(),
        s.fits(),
    ensures
        match s {
            Step::Accept { arm, header, bytes } => match m.accepted(arm, header, bytes).1 {
                Accepted::Ready { first_sequence, count } => first_sequence <= newly_from(m, s)
                    < first_sequence + count && first_sequence + count == stepped(
                    m,
                    s,
                ).next_expected,
                _ => newly_from(m, s) == stepped(m, s).next_expected,
            },
            Step::Drain => contiguous(
                newly_from(m, s),
                m.released_all(m.window.len()),
                stepped(m, s).next_expected as int,
            ),
            _ => newly_from(m, s) == stepped(m, s).next_expected,
        },
{
    reveal(stepped);
    reveal(newly_from);
    if s is Drain {
        law_drains_in_order(m, m.window.len());
    }
}

/// The last stretch of a longer run, where the step more is no recovery.
proof fn lemma_same_stretch(m: ArbModel, steps: Seq<Step>)
    requires
        steps.len() > 0,
        !(steps.last() is Resync),
    ensures
        0 <= cut(steps) <= steps.drop_last().len(),
        cut(steps) == cut(steps.drop_last()),
        at_cut(m, steps) == at_cut(m, steps.drop_last()),
{
    let p = steps.drop_last();
    lemma_cut_bounds(p);
    assert(steps.take(cut(p)) =~= p.take(cut(p)));
}

proof fn lemma_cut_bounds(steps: Seq<Step>)
    ensures
        0 <= cut(steps) <= steps.len(),
    decreases steps.len(),
{
    if steps.len() > 0 {
        lemma_cut_bounds(steps.drop_last());
    }
}

/// What every run leaves its last stretch like.
pub open spec fn stretch_closed(m: ArbModel, steps: Seq<Step>) -> bool {
    let n = after_run(m, steps);
    let c = at_cut(m, steps);
    let from = stretch_from(m, steps);
    let gaps = stretch_gaps(m, steps);
    &&& n.wf()
    &&& c.gaps.len() <= n.gaps.len()
    &&& n.gaps.take(c.gaps.len() as int) == c.gaps
    &&& !n.started ==> n.gaps.len() == 0 && n.next_expected == 0 && n.messages_delivered
        == c.messages_delivered && cut(steps) == 0
    &&& n.started ==> gaps_ascend(from, gaps, n.next_expected as int)
    &&& n.started ==> n.state == (if gaps.len() > 0 {
        FeedState::Gapped
    } else {
        FeedState::Live
    })
    &&& n.started ==> n.messages_delivered == wrapped(
        c.messages_delivered + (n.next_expected - from) - missing(gaps),
    )
    &&& n.started ==> missing(gaps) <= n.next_expected - from
}

/// One step more that adds no gap and hands out what follows on the frontier.
proof fn lemma_stretch_goes_on(m: ArbModel, steps: Seq<Step>)
    requires
        steps.len() > 0,
        !(steps.last() is Resync),
        steps.last().fits(),
        stretch_closed(m, steps.drop_last()),
        after_run(m, steps.drop_last()).started,
        stepped(after_run(m, steps.drop_last()), steps.last()).gaps == after_run(
            m,
            steps.drop_last(),
        ).gaps,
    ensures
        stretch_closed(m, steps),
        stretch_gaps(m, steps) == stretch_gaps(m, steps.drop_last()),
        stretch_from(m, steps) == stretch_from(m, steps.drop_last()),
{
    let p = steps.drop_last();
    let a = after_run(m, p);
    let n = after_run(m, steps);
    let d = at_cut(m, p).messages_delivered as int;
    let from = stretch_from(m, p);
    let gaps = stretch_gaps(m, p);
    lemma_step(a, steps.last());
    lemma_same_stretch(m, steps);
    lemma_wrapped_add(
        d + (a.next_expected - from) - missing(gaps),
        (n.next_expected - a.next_expected) as u64,
    );
    lemma_wrapped_add(a.messages_delivered as int, (n.next_expected - a.next_expected) as u64);
}

/// One step more that adds a gap.
proof fn lemma_stretch_gapped(m: ArbModel, steps: Seq<Step>)
    requires
        steps.len() > 0,
        !(steps.last() is Resync),
        steps.last().fits(),
        stretch_closed(m, steps.drop_last()),
        after_run(m, steps.drop_last()).started,
        stepped(after_run(m, steps.drop_last()), steps.last()).gaps != after_run(
            m,
            steps.drop_last(),
        ).gaps,
    ensures
        stretch_closed(m, steps),
        stretch_gaps(m, steps) == stretch_gaps(m, steps.drop_last()).push(
            after_run(m, steps).gaps.last(),
        ),
        stretch_from(m, steps) == stretch_from(m, steps.drop_last()),
{
    let p = steps.drop_last();
    let a = after_run(m, p);
    let n = after_run(m, steps);
    let c = at_cut(m, p);
    let d = c.messages_delivered as int;
    let from = stretch_from(m, p);
    let before = stretch_gaps(m, p);
    let gaps = stretch_gaps(m, steps);
    let g = n.gaps.last();
    lemma_step(a, steps.last());
    lemma_same_stretch(m, steps);
    assert(n.gaps =~= a.gaps.push(g));
    assert(gaps =~= before.push(g));
    assert(gaps.drop_last() =~= before);
    assert(n.gaps.take(c.gaps.len() as int) =~= a.gaps.take(c.gaps.len() as int));
    assert(n.gaps[n.gaps.len() - 1] == g);
    assert(gaps_ascend(from, gaps, n.next_expected as int)) by {
        assert forall|i: int| 0 <= i < gaps.len() implies from <= (#[trigger] gaps[i]).from
            <= gaps[i].through < n.next_expected by {
            if i < before.len() {
                assert(gaps[i] == before[i]);
            }
        }
        assert forall|i: int, j: int| 0 <= i < j < gaps.len() implies (#[trigger] gaps[i]).through
            < (#[trigger] gaps[j]).from by {
            assert(gaps[i] == before[i]);
            if j < before.len() {
                assert(gaps[j] == before[j]);
            }
        }
    }
    let more = (n.next_expected - newly_from(a, steps.last())) as u64;
    lemma_wrapped_add(d + (a.next_expected - from) - missing(before), more);
    lemma_wrapped_add(a.messages_delivered as int, more);
}

/// The step that starts the stream, or one before it.
proof fn lemma_stretch_starts(m: ArbModel, steps: Seq<Step>)
    requires
        steps.len() > 0,
        !(steps.last() is Resync),
        steps.last().fits(),
        stretch_closed(m, steps.drop_last()),
        !after_run(m, steps.drop_last()).started,
    ensures
        stretch_closed(m, steps),
        stretch_gaps(m, steps).len() == 0,
        cut(steps) == 0,
{
    let p = steps.drop_last();
    let a = after_run(m, p);
    let n = after_run(m, steps);
    lemma_step(a, steps.last());
    lemma_same_stretch(m, steps);
    assert(n.gaps.take(0) =~= at_cut(m, p).gaps);
    let more = (n.next_expected - newly_from(a, steps.last())) as u64;
    lemma_wrapped_add(a.messages_delivered as int, more);
}

/// A recovery begins a stretch with nothing in it.
proof fn lemma_stretch_begins(m: ArbModel, steps: Seq<Step>)
    requires
        steps.len() > 0,
        steps.last() is Resync,
        stretch_closed(m, steps.drop_last()),
    ensures
        stretch_closed(m, steps),
        stretch_gaps(m, steps).len() == 0,
        stretch_from(m, steps) == after_run(m, steps).next_expected,
{
    let n = after_run(m, steps);
    lemma_resync(after_run(m, steps.drop_last()), steps.last());
    assert(steps.take(steps.len() as int) =~= steps);
    assert(n.gaps.take(n.gaps.len() as int) =~= n.gaps);
}

proof fn lemma_shorter_fits(steps: Seq<Step>)
    requires
        steps.len() > 0,
        forall|i: int| 0 <= i < steps.len() ==> (#[trigger] steps[i]).fits(),
    ensures
        steps.last().fits(),
        forall|i: int|
            0 <= i < steps.drop_last().len() ==> (#[trigger] steps.drop_last()[i]).fits(),
{
    assert(steps[steps.len() - 1].fits());
    assert forall|i: int| 0 <= i < steps.drop_last().len() implies (
    #[trigger] steps.drop_last()[i]).fits() by {
        assert(steps.drop_last()[i] == steps[i]);
    }
}

/// Whatever an arbitrator goes through, recoveries too: since the last recovery, or from
/// the start where there was none, the gaps are ranges of at least one message that follow
/// one another, apart and behind the frontier; what was delivered and what is missing make
/// up all up to the frontier; and the state is gapped exactly if there is such a gap. The
/// gaps from before a recovery stay on record.
pub proof fn law_account_of_any_run(m: ArbModel, steps: Seq<Step>)
    requires
        m.wf(),
        !m.started,
        forall|i: int| 0 <= i < steps.len() ==> (#[trigger] steps[i]).fits(),
    ensures
        stretch_closed(m, steps),
        after_run(m, steps).messages_missed == wrapped(missing(after_run(m, steps).gaps)),
        after_run(m, steps).state == FeedState::Gapped <==> stretch_gaps(m, steps).len() > 0,
    decreases steps.len(),
{
    if steps.len() == 0 {
        assert(steps.take(0) =~= steps);
        assert(m.gaps.take(0) =~= m.gaps);
    } else {
        let p = steps.drop_last();
        lemma_shorter_fits(steps);
        law_account_of_any_run(m, p);
        let a = after_run(m, p);
        if steps.last() is Resync {
            lemma_stretch_begins(m, steps);
        } else if !a.started {
            lemma_stretch_starts(m, steps);
        } else if stepped(a, steps.last()).gaps == a.gaps {
            lemma_stretch_goes_on(m, steps);
        } else {
            lemma_stretch_gapped(m, steps);
        }
    }
}

/// Whatever an arbitrator goes through, each sequence from where its last stretch began to
/// the frontier was either handed out in it or lies in a gap of it, and none that lies in
/// such a gap was handed out.
pub proof fn law_gaps_are_never_handed_out(m: ArbModel, steps: Seq<Step>)
    requires
        m.wf(),
        !m.started,
        forall|i: int| 0 <= i < steps.len() ==> (#[trigger] steps[i]).fits(),
    ensures
        !after_run(m, steps).started ==> forall|q: int| !#[trigger] handed_out(m, steps, q),
        after_run(m, steps).started ==> forall|q: int| #[trigger]
            handed_out(m, steps, q) <==> stretch_from(m, steps) <= q < after_run(
                m,
                steps,
            ).next_expected && !in_gaps(stretch_gaps(m, steps), q),
    decreases steps.len(),
{
    law_account_of_any_run(m, steps);
    if steps.len() > 0 && steps.last() is Resync {
        lemma_shorter_fits(steps);
        law_account_of_any_run(m, steps.drop_last());
        lemma_stretch_begins(m, steps);
    } else if steps.len() > 0 {
        let p = steps.drop_last();
        let s = steps.last();
        lemma_shorter_fits(steps);
        law_gaps_are_never_handed_out(m, p);
        law_account_of_any_run(m, p);
        let a = after_run(m, p);
        let n = after_run(m, steps);
        lemma_step(a, s);
        lemma_same_stretch(m, steps);
        let before = stretch_gaps(m, p);
        let now = stretch_gaps(m, steps);
        assert forall|q: int| #[trigger] handed_out(m, steps, q) <==> handed_out(m, p, q) || (
        newly_from(a, s) <= q < n.next_expected) by {}
        if a.started && n.gaps != a.gaps {
            lemma_stretch_gapped(m, steps);
            let g = n.gaps.last();
            assert forall|q: int| #[trigger] in_gaps(now, q) <==> in_gaps(before, q) || g.from <= q
                <= g.through by {
                lemma_in_gaps_push(before, g, q);
            }
        } else if a.started {
            lemma_stretch_goes_on(m, steps);
        } else {
            lemma_stretch_starts(m, steps);
        }
        if n.started {
            assert forall|q: int| #[trigger] handed_out(m, steps, q) <==> stretch_from(m, steps)
                <= q < n.next_expected && !in_gaps(now, q) by {
                if a.started && in_gaps(before, q) {
                    lemma_behind(stretch_from(m, p), before, a.next_expected as int, q);
                }
            }
        }
    }
}

proof fn lemma_in_gaps_push(gaps: Seq<Gap>, g: Gap, q: int)
    ensures
        in_gaps(gaps.push(g), q) <==> in_gaps(gaps, q) || g.from <= q <= g.through,
{
    let now = gaps.push(g);
    if in_gaps(gaps, q) {
        let i = choose|i: int|
            0 <= i < gaps.len() && (#[trigger] gaps[i]).from <= q <= gaps[i].through;
        assert(now[i].from <= q <= now[i].through);
    }
    if g.from <= q <= g.through {
        assert(now[gaps.len() as int].from <= q <= now[gaps.len() as int].through);
    }
    if in_gaps(now, q) {
        let i = choose|i: int|
            0 <= i < now.len() && (#[trigger] now[i]).from <= q <= now[i].through;
        if i < gaps.len() {
            assert(gaps[i].from <= q <= gaps[i].through);
        }
    }
}

/// What lies in a gap lies behind the frontier.
proof fn lemma_behind(from: int, gaps: Seq<Gap>, to: int, q: int)
    requires
        gaps_ascend(from, gaps, to),
        in_gaps(gaps, q),
    ensures
        from <= q < to,
{
}

/// The frontier never moves back, however long the run, but for a recovery that says where
/// to go on.
pub proof fn law_runs_never_move_back(m: ArbModel, a: Seq<Step>, b: Seq<Step>)
    requires
        m.wf(),
        forall|i: int| 0 <= i < (a + b).len() ==> (#[trigger] (a + b)[i]).fits(),
        forall|i: int| 0 <= i < b.len() ==> !(#[trigger] b[i] is Resync),
    ensures
        after_run(m, a).wf(),
        after_run(m, a).next_expected <= after_run(m, a + b).next_expected,
        after_run(m, a + b).wf(),
    decreases a.len() + b.len(),
{
    if b.len() > 0 {
        let p = b.drop_last();
        assert((a + b).drop_last() =~= a + p);
        assert((a + b).last() == b.last());
        assert forall|i: int| 0 <= i < (a + p).len() implies (#[trigger] (a + p)[i]).fits() by {
            assert((a + p)[i] == (a + b)[i]);
        }
        assert forall|i: int| 0 <= i < p.len() implies !(#[trigger] p[i] is Resync) by {
            assert(p[i] == b[i]);
        }
        law_runs_never_move_back(m, a, p);
        assert((a + b)[(a + b).len() - 1].fits());
        assert(!(b[b.len() - 1] is Resync));
        lemma_step(after_run(m, a + p), b.last());
    } else {
        assert(a + b =~= a);
        if a.len() > 0 {
            let p = a.drop_last();
            let none = Seq::<Step>::empty();
            assert(p + none =~= p);
            assert forall|i: int| 0 <= i < (p + none).len() implies (
            #[trigger] (p + none)[i]).fits() by {
                assert((p + none)[i] == (a + b)[i]);
            }
            law_runs_never_move_back(m, p, none);
            assert((a + b)[a.len() - 1].fits());
            if a.last() is Resync {
                lemma_resync(after_run(m, p), a.last());
            } else {
                lemma_step(after_run(m, p), a.last());
            }
        }
    }
}

/// A datagram of a run carries `q`.
pub open spec fn offered(steps: Seq<Step>, q: int) -> bool {
    exists|i: int|
        0 <= i < steps.len() && (#[trigger] steps[i] matches Step::Accept { header: Some(h), .. }
            && h.first_sequence <= q < h.end())
}

/// A datagram that waits carries `q`.
pub open spec fn holds(m: ArbModel, q: int) -> bool {
    exists|i: int|
        0 <= i < m.window.len() && (#[trigger] m.window[i] matches Some(w) && w.first_sequence <= q
            < w.end())
}

/// No hole is given up in a run and nothing has to be recovered, and each datagram finds
/// room in the window.
pub open spec fn finds_room(m: ArbModel, steps: Seq<Step>) -> bool {
    forall|k: int|
        0 <= k < steps.len() ==> match #[trigger] steps[k] {
            Step::Accept { .. } => after_run(m, steps.take(k)).held() < after_run(
                m,
                steps.take(k),
            ).capacity,
            Step::Drain => true,
            _ => false,
        }
}

/// The datagrams are those of one stream: two that begin at the same sequence, on
/// whichever arms they come, carry equally many messages.
pub open spec fn of_one_stream(steps: Seq<Step>, counts: spec_fn(u64) -> u16) -> bool {
    forall|i: int|
        0 <= i < steps.len() ==> (#[trigger] steps[i] matches Step::Accept { header: Some(h), .. }
            ==> h.message_count == counts(h.first_sequence))
}

spec fn waiting_of_stream(m: ArbModel, counts: spec_fn(u64) -> u16) -> bool {
    forall|i: int|
        0 <= i < m.window.len() ==> (#[trigger] m.window[i] matches Some(w) ==> w.count == counts(
            w.first_sequence,
        ))
}

/// Forgetting what lies behind `end` loses nothing beyond it.
proof fn lemma_purged_holds(m: ArbModel, n: ArbModel, end: int, q: int)
    requires
        n.window == purged(m.window, end),
        holds(m, q),
        q >= end,
    ensures
        holds(n, q),
{
    let i = choose|i: int|
        0 <= i < m.window.len() && (#[trigger] m.window[i] matches Some(w) && w.first_sequence <= q
            < w.end());
    assert(n.window[i] == m.window[i]);
}

proof fn lemma_purged_stream(m: ArbModel, n: ArbModel, end: int, counts: spec_fn(u64) -> u16)
    requires
        n.window == purged(m.window, end),
        waiting_of_stream(m, counts),
    ensures
        waiting_of_stream(n, counts),
{
    assert forall|i: int| 0 <= i < n.window.len() implies (#[trigger] n.window[i] matches Some(w)
        ==> w.count == counts(w.first_sequence)) by {
        assert(m.window[i] is None || m.window[i] is Some);
    }
}

/// Handing out what is ready loses nothing beyond the frontier, and leaves nothing that is
/// ready.
proof fn lemma_drained_holds(m: ArbModel, fuel: nat, counts: spec_fn(u64) -> u16)
    requires
        m.wf(),
        m.held() <= fuel,
        waiting_of_stream(m, counts),
    ensures
        waiting_of_stream(m.drained(fuel), counts),
        find(m.drained(fuel).window, covers(m.drained(fuel).next_expected)) is None,
        forall|q: int|
            holds(m, q) && q >= m.drained(fuel).next_expected ==> #[trigger] holds(
                m.drained(fuel),
                q,
            ),
    decreases fuel,
{
    if find(m.window, covers(m.next_expected)) is Some {
        lemma_found(m.window, m.next_expected);
        let i = find(m.window, covers(m.next_expected))->0;
        let h = m.window[i]->0;
        let u = ArbModel { window: m.window.update(i, None), ..m };
        let n = m.released(i);
        let len = m.window.len() as int;
        lemma_taken_bounds(m.window, len);
        lemma_taken_update(m.window, i, None, len);
        lemma_taken_bounds(u.window, len);
        lemma_purged_taken(u.window, h.end(), len);
        lemma_released_wf(m, i);
        assert(n.window == purged(u.window, h.end()));
        assert(waiting_of_stream(u, counts)) by {
            assert forall|k: int| 0 <= k < u.window.len() implies (
            #[trigger] u.window[k] matches Some(w) ==> w.count == counts(w.first_sequence)) by {
                if k != i {
                    assert(u.window[k] == m.window[k]);
                }
            }
        }
        lemma_purged_stream(u, n, h.end(), counts);
        assert(fuel > 0);
        let f = (fuel - 1) as nat;
        lemma_drained_holds(n, f, counts);
        lemma_drained_wf(n, f);
        assert forall|q: int|
            holds(m, q) && q >= m.drained(fuel).next_expected implies #[trigger] holds(
            m.drained(fuel),
            q,
        ) by {
            let k = choose|k: int|
                0 <= k < m.window.len() && (#[trigger] m.window[k] matches Some(w)
                    && w.first_sequence <= q < w.end());
            assert(k != i);
            assert(u.window[k] == m.window[k]);
            assert(holds(u, q));
            lemma_purged_holds(u, n, h.end(), q);
        }
    }
}

/// What a datagram brings is behind the frontier or waits, and what waited beyond the
/// frontier waits still, as long as there is room.
proof fn lemma_accepted_holds(
    m: ArbModel,
    arm: u8,
    header: Option<PacketHeader>,
    bytes: Seq<u8>,
    counts: spec_fn(u64) -> u16,
)
    requires
        m.wf(),
        m.held() < m.capacity,
        waiting_of_stream(m, counts),
        header matches Some(h) ==> h.end() <= u64::MAX && h.message_count == counts(
            h.first_sequence,
        ),
    ensures
        ({
            let n = m.accepted(arm, header, bytes).0;
            &&& waiting_of_stream(n, counts)
            &&& n.gaps == m.gaps
            &&& n.messages_missed == m.messages_missed
            &&& n.capacity == m.capacity
            &&& n.window.len() == m.window.len()
            &&& forall|q: int|
                holds(m, q) && q >= n.next_expected ==> #[trigger] holds(n, q)
            &&& header matches Some(h) ==> forall|q: int|
                h.first_sequence <= q < h.end() && q >= n.next_expected ==> #[trigger] holds(n, q)
            &&& (header matches Some(h) && h.message_count > 0) ==> n.started
            &&& !(header matches Some(h) && h.message_count > 0) ==> n.started == m.started
        }),
{
    let n = m.accepted(arm, header, bytes).0;
    lemma_taken_bounds(m.window, m.window.len() as int);
    lemma_slot_free(m.window);
    if header is Some && header->0.message_count > 0 {
        let h = header->0;
        let q0 = m.noticed(h);
        assert(q0.window == m.window);
        match q0.outcome(h) {
            Accepted::Ready { .. } => {
                assert(n.window == purged(m.window, h.end()));
                lemma_purged_stream(m, n, h.end(), counts);
                assert forall|q: int| holds(m, q) && q >= n.next_expected implies #[trigger] holds(
                    n,
                    q,
                ) by {
                    lemma_purged_holds(m, n, h.end(), q);
                }
            },
            Accepted::Buffered => {
                let i = find(m.window, is_free())->0;
                assert(n.window[i] is Some);
                assert forall|k: int| 0 <= k < n.window.len() implies (
                #[trigger] n.window[k] matches Some(w) ==> w.count == counts(w.first_sequence)) by {
                    if k != i {
                        assert(n.window[k] == m.window[k]);
                    }
                }
                assert forall|q: int| holds(m, q) && q >= n.next_expected implies #[trigger] holds(
                    n,
                    q,
                ) by {
                    let k = choose|k: int|
                        0 <= k < m.window.len() && (#[trigger] m.window[k] matches Some(w)
                            && w.first_sequence <= q < w.end());
                    assert(k != i);
                    assert(n.window[k] == m.window[k]);
                }
            },
            _ => {
                assert(n.window == m.window);
                assert forall|q: int| holds(m, q) implies #[trigger] holds(n, q) by {
                    let k = choose|k: int|
                        0 <= k < m.window.len() && (#[trigger] m.window[k] matches Some(w)
                            && w.first_sequence <= q < w.end());
                    assert(n.window[k] == m.window[k]);
                }
                assert forall|q: int|
                    h.first_sequence <= q < h.end() && q >= n.next_expected implies #[trigger] holds(
                    n,
                    q,
                ) by {
                    let p = starts_at(h.first_sequence);
                    let k = choose|k: int| crate::arbitration::lowest_slot(m.window, p, k);
                    assert(crate::arbitration::lowest_slot(m.window, p, k));
                    assert(p(m.window[k]));
                    assert(n.window[k] == m.window[k]);
                }
            },
        }
    } else {
        assert(n.window == m.window);
        assert forall|q: int| holds(m, q) implies #[trigger] holds(n, q) by {
            let k = choose|k: int|
                0 <= k < m.window.len() && (#[trigger] m.window[k] matches Some(w)
                    && w.first_sequence <= q < w.end());
            assert(n.window[k] == m.window[k]);
        }
    }
}

/// The same of any step that gives up no hole.
proof fn lemma_step_holds(m: ArbModel, s: Step, counts: spec_fn(u64) -> u16)
    requires
        m.wf(),
        waiting_of_stream(m, counts),
        s.fits(),
        s matches Step::Accept { header: Some(h), .. } ==> h.message_count == counts(
            h.first_sequence,
        ),
        s is Accept ==> m.held() < m.capacity,
        !(s is Declare),
        !(s is Resync),
    ensures
        ({
            let n = stepped(m, s);
            &&& waiting_of_stream(n, counts)
            &&& n.gaps == m.gaps
            &&& n.messages_missed == m.messages_missed
            &&& forall|q: int|
                holds(m, q) && q >= n.next_expected ==> #[trigger] holds(n, q)
            &&& s matches Step::Accept { header: Some(h), .. } ==> forall|q: int|
                h.first_sequence <= q < h.end() && q >= n.next_expected ==> #[trigger] holds(n, q)
            &&& (s matches Step::Accept { header: Some(h), .. } && h.message_count > 0)
                ==> n.started
            &&& s is Drain ==> find(n.window, covers(n.next_expected)) is None
        }),
{
    reveal(stepped);
    match s {
        Step::Accept { arm, header, bytes } => {
            lemma_accepted_holds(m, arm, header, bytes, counts);
        },
        Step::Drain => {
            lemma_taken_bounds(m.window, m.window.len() as int);
            lemma_drained_holds(m, m.window.len(), counts);
            lemma_drained_keeps(m, m.window.len());
        },
        _ => {},
    }
}

/// A run without its last step finds room and is of the same stream.
proof fn lemma_shorter_run(m: ArbModel, steps: Seq<Step>, counts: spec_fn(u64) -> u16)
    requires
        steps.len() > 0,
        forall|i: int| 0 <= i < steps.len() ==> (#[trigger] steps[i]).fits(),
        finds_room(m, steps),
        of_one_stream(steps, counts),
    ensures
        forall|i: int|
            0 <= i < steps.drop_last().len() ==> (#[trigger] steps.drop_last()[i]).fits(),
        finds_room(m, steps.drop_last()),
        of_one_stream(steps.drop_last(), counts),
{
    let p = steps.drop_last();
    assert forall|i: int| 0 <= i < p.len() implies (#[trigger] p[i]).fits() by {
        assert(p[i] == steps[i]);
    }
    assert(finds_room(m, p)) by {
        assert forall|k: int| 0 <= k < p.len() implies match #[trigger] p[k] {
            Step::Accept { .. } => after_run(m, p.take(k)).held() < after_run(
                m,
                p.take(k),
            ).capacity,
            Step::Drain => true,
            _ => false,
        } by {
            assert(p[k] == steps[k]);
            assert(p.take(k) =~= steps.take(k));
        }
    }
    assert(of_one_stream(p, counts)) by {
        assert forall|i: int| 0 <= i < p.len() implies (
        #[trigger] p[i] matches Step::Accept { header: Some(h), .. } ==> h.message_count
            == counts(h.first_sequence)) by {
            assert(p[i] == steps[i]);
        }
    }
}

/// What a run offers was offered before its last step or is offered by it.
proof fn lemma_offered_last(steps: Seq<Step>)
    requires
        steps.len() > 0,
    ensures
        forall|q: int| #[trigger]
            offered(steps, q) ==> offered(steps.drop_last(), q) || (
            steps.last() matches Step::Accept { header: Some(h), .. } && h.first_sequence <= q
                < h.end()),
{
    let p = steps.drop_last();
    let s = steps.last();
    let last = steps.len() - 1;
    assert forall|q: int| #[trigger] offered(steps, q) implies offered(p, q) || (
    s matches Step::Accept { header: Some(h), .. } && h.first_sequence <= q < h.end()) by {
        let i = choose|i: int|
            0 <= i < steps.len() && (#[trigger] steps[i] matches Step::Accept {
                header: Some(h),
                ..
            } && h.first_sequence <= q < h.end());
        if i < last {
            assert(p[i] == steps[i]);
        }
    }
}

#[verifier::rlimit(40)]
proof fn lemma_run_holds(m: ArbModel, steps: Seq<Step>, counts: spec_fn(u64) -> u16)
    requires
        m.wf(),
        !m.started,
        forall|i: int| 0 <= i < steps.len() ==> (#[trigger] steps[i]).fits(),
        finds_room(m, steps),
        of_one_stream(steps, counts),
    ensures
        ({
            let n = after_run(m, steps);
            &&& n.wf()
            &&& n.resyncs == 0
            &&& waiting_of_stream(n, counts)
            &&& n.gaps.len() == 0
            &&& n.messages_missed == 0
            &&& !n.started ==> forall|q: int| !#[trigger] offered(steps, q)
            &&& n.started ==> forall|q: int|
                #[trigger] offered(steps, q) && q >= n.next_expected ==> holds(n, q)
        }),
    decreases steps.len(),
{
    if steps.len() == 0 {
        lemma_taken_bounds(m.window, m.window.len() as int);
    } else {
        let p = steps.drop_last();
        let s = steps.last();
        let last = steps.len() - 1;
        assert(steps[last] == s);
        assert(steps.take(last) =~= p);
        lemma_shorter_run(m, steps, counts);
        lemma_run_holds(m, p, counts);
        let a = after_run(m, p);
        let n = after_run(m, steps);
        lemma_step(a, s);
        lemma_step_holds(a, s, counts);
        lemma_offered_last(steps);
        if n.started {
            assert forall|q: int|
                #[trigger] offered(steps, q) && q >= n.next_expected implies holds(n, q) by {
                if offered(p, q) {
                    if a.started {
                        assert(holds(a, q));
                    }
                }
            }
        }
    }
}

/// What is lost on one arm and not on the other is not lost, nor is what comes late: if
/// every message from the first sequence to `to` came on one arm or the other, in
/// whatever order, and found room, all of them are delivered once what is ready is handed
/// out, and there is no gap.
pub proof fn law_loss_on_one_arm_costs_nothing(
    m: ArbModel,
    steps: Seq<Step>,
    counts: spec_fn(u64) -> u16,
    to: int,
)
    requires
        m.wf(),
        !m.started,
        forall|i: int| 0 <= i < steps.len() ==> (#[trigger] steps[i]).fits(),
        finds_room(m, steps),
        of_one_stream(steps, counts),
        forall|q: int|
            after_run(m, steps).first_sequence <= q < to ==> #[trigger] offered(steps, q),
        after_run(m, steps).first_sequence < to,
    ensures
        ({
            let n = after_run(m, steps.push(Step::Drain));
            &&& to <= n.next_expected
            &&& n.gaps.len() == 0
            &&& n.messages_missed == 0
            &&& n.messages_delivered == n.next_expected - n.first_sequence
        }),
{
    lemma_run_holds(m, steps, counts);
    let a = after_run(m, steps);
    assert(steps.push(Step::Drain).drop_last() =~= steps);
    let n = after_run(m, steps.push(Step::Drain));
    assert(n == stepped(a, Step::Drain));
    lemma_step(a, Step::Drain);
    lemma_step_holds(a, Step::Drain, counts);
    assert(offered(steps, a.first_sequence as int));
    assert(a.started);
    if n.next_expected < to {
        let q = n.next_expected as int;
        assert(n.first_sequence <= n.next_expected);
        assert(offered(steps, q));
        assert(holds(a, q));
        assert(holds(n, q));
        let i = choose|i: int|
            0 <= i < n.window.len() && (#[trigger] n.window[i] matches Some(w) && w.first_sequence
                <= q < w.end());
        assert(covers(n.next_expected)(n.window[i]));
        lemma_some_covers(n.window, n.next_expected, i);
    }
}

} // verus!
