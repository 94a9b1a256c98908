//! What the order path owes the strategies.
//!
//! An order that rests is followed until it is filled or cancelled: its owner is told of
//! every fill of it, and a reconciliation names it as it rests.

use crate::engine::{
    cancel_effect, matching_end, submit_effect, without_id, AggressorFill, Engine, Incoming,
    PassiveFill,
};
use crate::feed::FeedModel;
use crate::message::{Message, Side};
use crate::model::BookModel;
use crate::orderpath::{
    disowned, dispatched, filled, first_owned, holder, is_holder, pass_begun, reconciled, unwatched,
    ExecReport, ExecType, FilledOrder, OrderPathMessage, Owned, PathModel, RejectReason,
};
use crate::priority::traded;
use crate::trades::{law_trades_say_what_was_traded, submission_is_told, trade_is_told};
use vstd::prelude::*;
use vstd::wrapping::u64_specs::wrapping_add;

verus! {

/// No order is followed twice.
pub open spec fn followed_once(owned: Seq<Owned>) -> bool {
    forall|i: int, j: int|
        0 <= i < j < owned.len() ==> (#[trigger] owned[i]).exchange_order_id != (
        #[trigger] owned[j]).exchange_order_id
}

/// An order is followed.
pub open spec fn follows(owned: Seq<Owned>, id: u64) -> bool {
    exists|i: int| 0 <= i < owned.len() && (#[trigger] owned[i]).exchange_order_id == id
}

proof fn lemma_first_owned(owned: Seq<Owned>, o: Owned)
    requires
        followed_once(owned),
        owned.contains(o),
    ensures
        first_owned(owned, o.exchange_order_id) == Some(o),
    decreases owned.len(),
{
    let k = choose|k: int| 0 <= k < owned.len() && owned[k] == o;
    if k > 0 {
        let rest = owned.drop_first();
        assert(owned[0].exchange_order_id != owned[k].exchange_order_id);
        assert(rest[k - 1] == o);
        assert(followed_once(rest)) by {
            assert forall|i: int, j: int| 0 <= i < j < rest.len() implies (
            #[trigger] rest[i]).exchange_order_id != (#[trigger] rest[j]).exchange_order_id by {
                assert(rest[i] == owned[i + 1] && rest[j] == owned[j + 1]);
            }
        }
        lemma_first_owned(rest, o);
    }
}

proof fn lemma_first_owned_is(owned: Seq<Owned>, id: u64)
    ensures
        first_owned(owned, id) matches Some(o) ==> owned.contains(o) && o.exchange_order_id == id,
        first_owned(owned, id) is None ==> !follows(owned, id),
    decreases owned.len(),
{
    if owned.len() > 0 && owned[0].exchange_order_id != id {
        let rest = owned.drop_first();
        lemma_first_owned_is(rest, id);
        if first_owned(rest, id) is Some {
            let k = choose|k: int| 0 <= k < rest.len() && rest[k] == first_owned(rest, id)->0;
            assert(owned[k + 1] == rest[k]);
        } else if follows(owned, id) {
            let i = choose|i: int|
                0 <= i < owned.len() && (#[trigger] owned[i]).exchange_order_id == id;
            assert(rest[i - 1].exchange_order_id == id);
        }
    }
}

/// Forgetting an order keeps every other one, and only those.
proof fn lemma_disowned(owned: Seq<Owned>, id: u64)
    ensures
        forall|o: Owned| #[trigger]
            disowned(owned, id).contains(o) <==> owned.contains(o) && o.exchange_order_id != id,
        !follows(disowned(owned, id), id),
        followed_once(owned) ==> followed_once(disowned(owned, id)),
    decreases owned.len(),
{
    reveal(Seq::filter);
    let d = disowned(owned, id);
    if owned.len() > 0 {
        let rest = owned.drop_last();
        let l = owned.last();
        let e = disowned(rest, id);
        lemma_disowned(rest, id);
        assert(owned =~= rest.push(l));
        assert forall|o: Owned| #[trigger] d.contains(o) <==> owned.contains(o)
            && o.exchange_order_id != id by {
            if d.contains(o) {
                let k = choose|k: int| 0 <= k < d.len() && d[k] == o;
                if k < e.len() {
                    assert(e[k] == o);
                    assert(e.contains(o));
                    let j = choose|j: int| 0 <= j < rest.len() && rest[j] == o;
                    assert(owned[j] == o);
                } else {
                    assert(owned[owned.len() - 1] == o);
                }
            }
            if owned.contains(o) && o.exchange_order_id != id {
                let k = choose|k: int| 0 <= k < owned.len() && owned[k] == o;
                if k < rest.len() {
                    assert(rest[k] == o);
                    assert(e.contains(o));
                    let j = choose|j: int| 0 <= j < e.len() && e[j] == o;
                    assert(d[j] == o);
                } else {
                    assert(d[d.len() - 1] == o);
                }
            }
        }
        if followed_once(owned) {
            assert(followed_once(rest)) by {
                assert forall|i: int, j: int| 0 <= i < j < rest.len() implies (
                #[trigger] rest[i]).exchange_order_id != (
                #[trigger] rest[j]).exchange_order_id by {
                    assert(rest[i] == owned[i] && rest[j] == owned[j]);
                }
            }
            assert forall|i: int, j: int| 0 <= i < j < d.len() implies (
            #[trigger] d[i]).exchange_order_id != (#[trigger] d[j]).exchange_order_id by {
                if j < e.len() {
                    assert(d[i] == e[i] && d[j] == e[j]);
                } else {
                    assert(d[i] == e[i]);
                    assert(e.contains(e[i]));
                    let k = choose|k: int| 0 <= k < rest.len() && rest[k] == e[i];
                    assert(owned[k] == e[i]);
                    assert(owned[owned.len() - 1] == d[j]);
                }
            }
        }
    }
    assert(!follows(d, id)) by {
        if follows(d, id) {
            let i = choose|i: int| 0 <= i < d.len() && (#[trigger] d[i]).exchange_order_id == id;
            assert(d.contains(d[i]));
        }
    }
}

/// The owner of a resting order is told of a fill of it: which order and which trade it was,
/// how much was filled and how much is left.
pub open spec fn fill_is_reported(r: ExecReport, o: Owned, f: PassiveFill) -> bool {
    &&& r.client_order_id == o.client_order_id
    &&& r.exchange_order_id == o.exchange_order_id
    &&& r.exchange_order_id == f.resting_order_id
    &&& r.trade_id == f.trade_id
    &&& r.price == f.price
    &&& r.quantity == f.quantity
    &&& r.leaves_quantity == f.leaves
    &&& r.symbol_id == f.symbol_id
    &&& r.side == f.side
    &&& r.exec_type == (if f.leaves > 0 {
        ExecType::PartialFill
    } else {
        ExecType::Fill
    })
    &&& r.reject_reason == RejectReason::NotRejected
}

/// A fill of an order that is followed is reported to its owner, or counted as dropped where
/// there is no room. As long as something is left of the order it stays followed, with
/// everything else as it was; a fill that leaves nothing ends that, for this order alone.
pub proof fn law_fill_is_told_and_the_rest_is_followed(p: PathModel, f: PassiveFill, o: Owned)
    requires
        followed_once(p.owned),
        p.owned.contains(o),
        o.exchange_order_id == f.resting_order_id,
    ensures
        ({
            let q = p.passive_sent(f);
            &&& q.to_watch == p.to_watch
            &&& q.room == p.room
            &&& q.stats.fills_reported == wrapping_add(p.stats.fills_reported, 1)
            &&& if p.outbox.len() < p.room {
                &&& q.outbox.len() == p.outbox.len() + 1
                &&& q.outbox.drop_last() == p.outbox
                &&& fill_is_reported(q.outbox.last(), o, f)
                &&& q.stats.reports_dropped == p.stats.reports_dropped
            } else {
                &&& q.outbox == p.outbox
                &&& q.stats.reports_dropped == wrapping_add(p.stats.reports_dropped, 1)
            }
            &&& if f.leaves > 0 {
                &&& q.owned == p.owned
                &&& q.finished == p.finished
            } else {
                &&& !follows(q.owned, f.resting_order_id)
                &&& forall|x: Owned| #[trigger]
                    q.owned.contains(x) <==> p.owned.contains(x) && x != o
                &&& q.finished == p.finished.push(f.resting_order_id)
            }
            &&& followed_once(q.owned)
        }),
{
    lemma_first_owned(p.owned, o);
    lemma_disowned(p.owned, f.resting_order_id);
    let q = p.passive_sent(f);
    if p.outbox.len() < p.room {
        assert(q.outbox.drop_last() =~= p.outbox);
    }
    if f.leaves == 0 {
        assert forall|x: Owned| #[trigger]
            q.owned.contains(x) <==> p.owned.contains(x) && x != o by {
            if p.owned.contains(x) && x != o && x.exchange_order_id == o.exchange_order_id {
                lemma_first_owned(p.owned, x);
            }
        }
    }
}

/// A fill of an order that nobody here follows is counted, and nothing else.
pub proof fn law_unknown_fill_is_only_counted(p: PathModel, f: PassiveFill)
    requires
        !follows(p.owned, f.resting_order_id),
    ensures
        ({
            let q = p.passive_sent(f);
            &&& q.owned == p.owned
            &&& q.outbox == p.outbox
            &&& q.to_watch == p.to_watch
            &&& q.finished == p.finished
            &&& q.stats.fills_reported == p.stats.fills_reported
            &&& q.stats.reports_dropped == wrapping_add(p.stats.reports_dropped, 1)
        }),
{
    lemma_first_owned_is(p.owned, f.resting_order_id);
    if first_owned(p.owned, f.resting_order_id) is Some {
        let o = first_owned(p.owned, f.resting_order_id)->0;
        let k = choose|k: int| 0 <= k < p.owned.len() && p.owned[k] == o;
        assert(p.owned[k].exchange_order_id == f.resting_order_id);
    }
}

/// None of these fills leaves nothing of the order.
pub open spec fn none_is_last(fills: Seq<PassiveFill>, id: u64) -> bool {
    forall|i: int|
        0 <= i < fills.len() && (#[trigger] fills[i]).resting_order_id == id ==> fills[i].leaves > 0
}

/// One of the reports from `from` on tells the owner of a fill.
pub open spec fn is_reported(outbox: Seq<ExecReport>, from: int, o: Owned, f: PassiveFill) -> bool {
    exists|j: int| from <= j < outbox.len() && fill_is_reported(#[trigger] outbox[j], o, f)
}

proof fn lemma_passives(p: PathModel, fills: Seq<PassiveFill>, o: Owned)
    requires
        followed_once(p.owned),
        p.owned.contains(o),
        none_is_last(fills, o.exchange_order_id),
    ensures
        ({
            let q = p.passives_sent(fills);
            &&& q.owned.contains(o)
            &&& followed_once(q.owned)
            &&& q.to_watch == p.to_watch
            &&& q.room == p.room
            &&& q.finished.contains(o.exchange_order_id) ==> p.finished.contains(
                o.exchange_order_id,
            )
            &&& p.outbox.len() <= q.outbox.len() <= p.outbox.len() + fills.len()
            &&& q.outbox.take(p.outbox.len() as int) == p.outbox
            &&& p.outbox.len() + fills.len() <= p.room ==> forall|i: int|
                0 <= i < fills.len() && (#[trigger] fills[i]).resting_order_id
                    == o.exchange_order_id ==> is_reported(
                    q.outbox,
                    p.outbox.len() as int,
                    o,
                    fills[i],
                )
        }),
    decreases fills.len(),
{
    let from = p.outbox.len() as int;
    if fills.len() == 0 {
        assert(p.outbox.take(from) =~= p.outbox);
    } else {
        let c = fills.drop_last();
        let f = fills.last();
        assert(fills[fills.len() - 1] == f);
        assert(none_is_last(c, o.exchange_order_id)) by {
            assert forall|i: int|
                0 <= i < c.len() && (#[trigger] c[i]).resting_order_id
                    == o.exchange_order_id implies c[i].leaves > 0 by {
                assert(c[i] == fills[i]);
            }
        }
        lemma_passives(p, c, o);
        let a = p.passives_sent(c);
        let q = p.passives_sent(fills);
        lemma_first_owned_is(a.owned, f.resting_order_id);
        lemma_disowned(a.owned, f.resting_order_id);
        if f.resting_order_id == o.exchange_order_id {
            law_fill_is_told_and_the_rest_is_followed(a, f, o);
        }
        assert(a.outbox.len() <= q.outbox.len() <= a.outbox.len() + 1);
        assert forall|j: int| 0 <= j < a.outbox.len() implies q.outbox[j] == a.outbox[j] by {}
        assert(q.outbox.take(from) =~= p.outbox) by {
            assert forall|j: int| 0 <= j < from implies q.outbox[j] == p.outbox[j] by {
                assert(a.outbox.take(from)[j] == a.outbox[j]);
            }
        }
        assert(q.finished.contains(o.exchange_order_id) ==> a.finished.contains(
            o.exchange_order_id,
        )) by {
            if q.finished.contains(o.exchange_order_id) {
                let k = choose|k: int|
                    0 <= k < q.finished.len() && q.finished[k] == o.exchange_order_id;
                if k < a.finished.len() {
                    assert(a.finished[k] == o.exchange_order_id);
                }
            }
        }
        if from + fills.len() <= p.room {
            assert forall|i: int|
                0 <= i < fills.len() && (#[trigger] fills[i]).resting_order_id
                    == o.exchange_order_id implies is_reported(q.outbox, from, o, fills[i]) by {
                if i < c.len() {
                    assert(c[i] == fills[i]);
                    assert(is_reported(a.outbox, from, o, c[i]));
                    let j = choose|j: int|
                        from <= j < a.outbox.len() && fill_is_reported(
                            #[trigger] a.outbox[j],
                            o,
                            c[i],
                        );
                    assert(q.outbox[j] == a.outbox[j]);
                } else {
                    assert(q.outbox[q.outbox.len() - 1] == q.outbox.last());
                }
            }
        }
    }
}

proof fn lemma_unwatched(w: Seq<u64>, gone: Seq<u64>, id: u64)
    ensures
        unwatched(w, gone).contains(id) <==> w.contains(id) && !gone.contains(id),
    decreases gone.len(),
{
    if gone.len() > 0 {
        let rest = gone.drop_last();
        lemma_unwatched(w, rest, id);
        lemma_without_id(unwatched(w, rest), gone.last(), id);
        if rest.contains(id) {
            let k = choose|k: int| 0 <= k < rest.len() && rest[k] == id;
            assert(gone[k] == id);
        }
        if gone.contains(id) {
            let k = choose|k: int| 0 <= k < gone.len() && gone[k] == id;
            if k < rest.len() {
                assert(rest[k] == id);
            }
        } else {
            assert(gone[gone.len() - 1] == gone.last());
        }
        if id == gone.last() {
            assert(gone[gone.len() - 1] == id);
        }
    }
}

/// A list of ids without one holds every other one, and only those.
proof fn lemma_without_id(ids: Seq<u64>, gone: u64, id: u64)
    ensures
        without_id(ids, gone).contains(id) <==> ids.contains(id) && id != gone,
    decreases ids.len(),
{
    reveal(Seq::filter);
    let w = without_id(ids, gone);
    if ids.len() > 0 {
        let rest = ids.drop_last();
        let v = without_id(rest, gone);
        lemma_without_id(rest, gone, id);
        if w.contains(id) {
            let k = choose|k: int| 0 <= k < w.len() && w[k] == id;
            if k < v.len() {
                assert(v[k] == id);
                let j = choose|j: int| 0 <= j < rest.len() && rest[j] == id;
                assert(ids[j] == id);
            } else {
                assert(ids[ids.len() - 1] == id);
            }
        }
        if ids.contains(id) && id != gone {
            let k = choose|k: int| 0 <= k < ids.len() && ids[k] == id;
            if k < rest.len() {
                assert(rest[k] == id);
                let j = choose|j: int| 0 <= j < v.len() && v[j] == id;
                assert(w[j] == id);
            } else {
                assert(w[w.len() - 1] == id);
            }
        }
    }
}

/// A pass tells the owner of each fill of an order that rests, the first 32 of the pass,
/// and the order is followed and watched afterwards, unless one of them was its last.
pub proof fn law_followed_through_a_pass(
    p0: PathModel,
    e0: Engine,
    p1: PathModel,
    e1: Engine,
    o: Owned,
)
    requires
        pass_begun(p0, e0, p1, e1),
        followed_once(p0.owned),
        p0.owned.contains(o),
        e0.watching().contains(o.exchange_order_id) || p0.to_watch.contains(o.exchange_order_id),
        !p0.finished.contains(o.exchange_order_id),
        none_is_last(
            e0.passive_fills().take(
                if e0.passive_fills().len() < 32 {
                    e0.passive_fills().len() as int
                } else {
                    32
                },
            ),
            o.exchange_order_id,
        ),
    ensures
        p1.owned.contains(o),
        followed_once(p1.owned),
        !p1.finished.contains(o.exchange_order_id),
        e1.watching().contains(o.exchange_order_id),
        e1.model() == e0.model(),
        p0.outbox.len() + 32 <= p0.room ==> forall|i: int|
            0 <= i < e0.passive_fills().len() && i < 32 && (
            #[trigger] e0.passive_fills()[i]).resting_order_id == o.exchange_order_id
                ==> is_reported(
                p1.outbox,
                p0.outbox.len() as int,
                o,
                e0.passive_fills()[i],
            ),
{
    let fills = e0.passive_fills();
    let n = if fills.len() < 32 {
        fills.len() as int
    } else {
        32
    };
    let shown = fills.take(n);
    let start = PathModel { to_watch: Seq::empty(), finished: Seq::empty(), ..p0 };
    assert(fills.len() < 32 ==> shown =~= fills);
    lemma_passives(start, shown, o);
    let id = o.exchange_order_id;
    lemma_unwatched(e0.watching() + p0.to_watch, p0.finished, id);
    let w = e0.watching() + p0.to_watch;
    if e0.watching().contains(id) {
        let k = choose|k: int| 0 <= k < e0.watching().len() && e0.watching()[k] == id;
        assert(w[k] == id);
    } else {
        let k = choose|k: int| 0 <= k < p0.to_watch.len() && p0.to_watch[k] == id;
        assert(w[e0.watching().len() + k] == id);
    }
    assert forall|i: int|
        p0.outbox.len() + 32 <= p0.room && 0 <= i < fills.len() && i < 32 && (
        #[trigger] fills[i]).resting_order_id == id implies is_reported(
        p1.outbox,
        p0.outbox.len() as int,
        o,
        fills[i],
    ) by {
        assert(shown[i] == fills[i]);
    }
}

/// A pass has the engine stop watching what is finished, and watch what is to be watched.
pub proof fn law_pass_hands_over_what_is_watched(
    p0: PathModel,
    e0: Engine,
    p1: PathModel,
    e1: Engine,
    id: u64,
)
    requires
        pass_begun(p0, e0, p1, e1),
    ensures
        e1.watching().contains(id) <==> (e0.watching().contains(id) || p0.to_watch.contains(id))
            && !p0.finished.contains(id),
        e1.passive_fills().len() == 0,
{
    let w = e0.watching() + p0.to_watch;
    lemma_unwatched(w, p0.finished, id);
    if w.contains(id) {
        let k = choose|k: int| 0 <= k < w.len() && w[k] == id;
        if k < e0.watching().len() {
            assert(e0.watching()[k] == id);
        } else {
            assert(p0.to_watch[k - e0.watching().len()] == id);
        }
    }
    if e0.watching().contains(id) {
        let k = choose|k: int| 0 <= k < e0.watching().len() && e0.watching()[k] == id;
        assert(w[k] == id);
    }
    if p0.to_watch.contains(id) {
        let k = choose|k: int| 0 <= k < p0.to_watch.len() && p0.to_watch[k] == id;
        assert(w[e0.watching().len() + k] == id);
    }
}

/// An order rests on some book.
pub open spec fn rests(books: Map<u16, BookModel>, id: u64) -> bool {
    exists|s: u16| (#[trigger] books[s]).has(id)
}

proof fn lemma_holder_is(books: Map<u16, BookModel>, id: u64)
    ensures
        holder(books, id) is Some <==> rests(books, id),
        holder(books, id) matches Some(s) ==> books[s].has(id) && forall|t: u16|
            t < s ==> !(#[trigger] books[t]).has(id),
{
    if rests(books, id) {
        let s = choose|s: u16| (#[trigger] books[s]).has(id);
        lemma_lowest_holder(books, id, s);
        let t = choose|t: u16| is_holder(books, id, t);
        assert(is_holder(books, id, t));
    }
    if holder(books, id) is Some {
        let s = choose|s: u16| is_holder(books, id, s);
        assert(is_holder(books, id, s));
        assert(books[s].has(id));
    }
}

proof fn lemma_lowest_holder(books: Map<u16, BookModel>, id: u64, s: u16)
    requires
        books[s].has(id),
    ensures
        exists|t: u16| is_holder(books, id, t),
    decreases s,
{
    if forall|t: u16| t < s ==> !(#[trigger] books[t]).has(id) {
        assert(is_holder(books, id, s));
    } else {
        let t = choose|t: u16| t < s && (#[trigger] books[t]).has(id);
        lemma_lowest_holder(books, id, t);
    }
}

/// A report describes an order as it rests: on the book that holds it, at its price, with
/// all of it left.
pub open spec fn describes(r: ExecReport, o: Owned, books: Map<u16, BookModel>) -> bool {
    let resting = books[r.symbol_id].orders[o.exchange_order_id];
    &&& r.exec_type == ExecType::OrderStatus
    &&& r.reject_reason == RejectReason::NotRejected
    &&& r.client_order_id == o.client_order_id
    &&& r.exchange_order_id == o.exchange_order_id
    &&& r.trade_id == 0
    &&& books[r.symbol_id].has(o.exchange_order_id)
    &&& forall|t: u16| t < r.symbol_id ==> !(#[trigger] books[t]).has(o.exchange_order_id)
    &&& r.price == resting.price
    &&& r.side == resting.side
    &&& r.quantity == resting.quantity
    &&& r.leaves_quantity == resting.quantity
    &&& r.leaves_quantity > 0
}

/// The orders that rest, of those that are followed.
pub open spec fn resting_ones(owned: Seq<Owned>, books: Map<u16, BookModel>) -> Seq<Owned>
    decreases owned.len(),
{
    if owned.len() == 0 {
        Seq::empty()
    } else if rests(books, owned.last().exchange_order_id) {
        resting_ones(owned.drop_last(), books).push(owned.last())
    } else {
        resting_ones(owned.drop_last(), books)
    }
}

proof fn lemma_reconciled(p: PathModel, books: Map<u16, BookModel>, k: int)
    requires
        0 <= k <= p.owned.len(),
        forall|s: u16| (#[trigger] books[s]).wf(),
    ensures
        ({
            let r = reconciled(p, books, k);
            let kept = resting_ones(p.owned.take(k), books);
            let from = p.outbox.len() as int;
            &&& r.kept == kept
            &&& 0 <= r.named <= kept.len() <= k
            &&& r.dropped == kept.len() - r.named
            &&& r.outbox.len() == from + r.named
            &&& r.outbox.take(from) == p.outbox
            &&& r.dropped > 0 ==> r.outbox.len() >= p.room
            &&& r.named > 0 ==> r.outbox.len() <= p.room
            &&& forall|i: int|
                0 <= i < r.named ==> describes(#[trigger] r.outbox[from + i], kept[i], books)
        }),
    decreases k,
{
    let from = p.outbox.len() as int;
    if k <= 0 {
        assert(p.owned.take(0) =~= Seq::<Owned>::empty());
        assert(p.outbox.take(from) =~= p.outbox);
    } else {
        lemma_reconciled(p, books, k - 1);
        let a = reconciled(p, books, k - 1);
        let r = reconciled(p, books, k);
        let o = p.owned[k - 1];
        let before = resting_ones(p.owned.take(k - 1), books);
        let kept = resting_ones(p.owned.take(k), books);
        assert(p.owned.take(k).drop_last() =~= p.owned.take(k - 1));
        assert(p.owned.take(k).last() == o);
        lemma_holder_is(books, o.exchange_order_id);
        assert forall|j: int| 0 <= j < a.outbox.len() implies r.outbox[j] == a.outbox[j] by {}
        assert(r.outbox.take(from) =~= p.outbox) by {
            assert forall|j: int| 0 <= j < from implies r.outbox[j] == p.outbox[j] by {
                assert(a.outbox.take(from)[j] == a.outbox[j]);
            }
        }
        if holder(books, o.exchange_order_id) is Some {
            let s = holder(books, o.exchange_order_id)->0;
            assert(books[s].wf());
            assert(books[s].orders[o.exchange_order_id].quantity > 0);
        }
        assert forall|i: int| 0 <= i < r.named implies describes(
            #[trigger] r.outbox[from + i],
            kept[i],
            books,
        ) by {
            if i < a.named {
                assert(describes(a.outbox[from + i], before[i], books));
                assert(kept[i] == before[i]);
            }
        }
    }
}

/// A reconciliation tells the gateway what rests: every order that is followed and rests is
/// named, in order, as it rests, as far as there is room, and then how many were named.
/// What does not rest is forgotten, and nothing else.
pub proof fn law_reconciliation_names_what_rests(
    p: PathModel,
    request_id: u64,
    books: Map<u16, BookModel>,
)
    requires
        forall|s: u16| (#[trigger] books[s]).wf(),
        p.outbox.len() <= p.room,
        p.owned.len() <= u32::MAX,
    ensures
        ({
            let q = p.reconcile_answered(request_id, books);
            let still = resting_ones(p.owned, books);
            let from = p.outbox.len() as int;
            let named = if still.len() <= p.room - from {
                still.len() as int
            } else {
                p.room - from
            };
            let room_left = from + named < p.room;
            &&& q.owned == still
            &&& q.to_watch == p.to_watch
            &&& q.finished == p.finished
            &&& q.room == p.room
            &&& q.outbox.len() == from + named + (if room_left {
                1int
            } else {
                0
            })
            &&& q.outbox.take(from) == p.outbox
            &&& forall|i: int|
                0 <= i < named ==> describes(#[trigger] q.outbox[from + i], still[i], books)
            &&& room_left ==> {
                let last = q.outbox.last();
                &&& last.exec_type == ExecType::StatusComplete
                &&& last.client_order_id == request_id
                &&& last.quantity == named
                &&& last.exchange_order_id == 0
                &&& last.leaves_quantity == 0
                &&& last.reject_reason == RejectReason::NotRejected
            }
            &&& q.stats.reconciles_answered == wrapping_add(p.stats.reconciles_answered, 1)
            &&& q.stats.orders_named_in_reconciliation == wrapping_add(
                p.stats.orders_named_in_reconciliation,
                named as u64,
            )
            &&& room_left ==> q.stats.reports_dropped == p.stats.reports_dropped
        }),
{
    let n = p.owned.len() as int;
    lemma_reconciled(p, books, n);
    assert(p.owned.take(n) =~= p.owned);
    let r = reconciled(p, books, n);
    let q = p.reconcile_answered(request_id, books);
    let from = p.outbox.len() as int;
    assert forall|j: int| 0 <= j < r.outbox.len() implies q.outbox[j] == r.outbox[j] by {}
    assert(q.outbox.take(from) =~= p.outbox) by {
        assert forall|j: int| 0 <= j < from implies q.outbox[j] == p.outbox[j] by {
            assert(r.outbox.take(from)[j] == r.outbox[j]);
        }
    }
    assert forall|i: int| 0 <= i < r.named implies describes(
        #[trigger] q.outbox[from + i],
        resting_ones(p.owned, books)[i],
        books,
    ) by {
        assert(q.outbox[from + i] == r.outbox[from + i]);
    }
}

proof fn lemma_resting_ones(owned: Seq<Owned>, books: Map<u16, BookModel>)
    ensures
        forall|o: Owned| #[trigger]
            resting_ones(owned, books).contains(o) <==> owned.contains(o) && rests(
                books,
                o.exchange_order_id,
            ),
        followed_once(owned) ==> followed_once(resting_ones(owned, books)),
    decreases owned.len(),
{
    let d = resting_ones(owned, books);
    if owned.len() > 0 {
        let rest = owned.drop_last();
        let l = owned.last();
        let e = resting_ones(rest, books);
        lemma_resting_ones(rest, books);
        assert(owned =~= rest.push(l));
        assert forall|o: Owned| #[trigger] d.contains(o) <==> owned.contains(o) && rests(
            books,
            o.exchange_order_id,
        ) by {
            if d.contains(o) {
                let k = choose|k: int| 0 <= k < d.len() && d[k] == o;
                if k < e.len() {
                    assert(e[k] == o);
                    assert(e.contains(o));
                    let j = choose|j: int| 0 <= j < rest.len() && rest[j] == o;
                    assert(owned[j] == o);
                } else {
                    assert(owned[owned.len() - 1] == o);
                }
            }
            if owned.contains(o) && rests(books, o.exchange_order_id) {
                let k = choose|k: int| 0 <= k < owned.len() && owned[k] == o;
                if k < rest.len() {
                    assert(rest[k] == o);
                    assert(e.contains(o));
                    let j = choose|j: int| 0 <= j < e.len() && e[j] == o;
                    assert(d[j] == o);
                } else {
                    assert(d[d.len() - 1] == o);
                }
            }
        }
        if followed_once(owned) {
            assert(followed_once(rest)) by {
                assert forall|i: int, j: int| 0 <= i < j < rest.len() implies (
                #[trigger] rest[i]).exchange_order_id != (
                #[trigger] rest[j]).exchange_order_id by {
                    assert(rest[i] == owned[i] && rest[j] == owned[j]);
                }
            }
            assert forall|i: int, j: int| 0 <= i < j < d.len() implies (
            #[trigger] d[i]).exchange_order_id != (#[trigger] d[j]).exchange_order_id by {
                if j < e.len() {
                    assert(d[i] == e[i] && d[j] == e[j]);
                } else {
                    assert(d[i] == e[i]);
                    assert(e.contains(e[i]));
                    let k = choose|k: int| 0 <= k < rest.len() && rest[k] == e[i];
                    assert(owned[k] == e[i]);
                    assert(owned[owned.len() - 1] == d[j]);
                }
            }
        }
    }
}

/// Reporting the fills of a new order leaves alone what is followed.
proof fn lemma_fills_keep(m: PathModel, o: FilledOrder, k: int)
    ensures
        m.fills_sent(o, k).owned == m.owned,
        m.fills_sent(o, k).to_watch == m.to_watch,
        m.fills_sent(o, k).finished == m.finished,
        m.fills_sent(o, k).room == m.room,
        m.fills_sent(o, k).stats.acks_reported == m.stats.acks_reported,
        m.fills_sent(o, k).stats.rejects_reported == m.stats.rejects_reported,
        m.fills_sent(o, k).stats.cancels_reported == m.stats.cancels_reported,
        m.fills_sent(o, k).stats.orders_received == m.stats.orders_received,
    decreases k,
{
    if k > 0 {
        lemma_fills_keep(m, o, k - 1);
    }
}

/// The reports of the first fills, where there is room for them.
proof fn lemma_fills_reported(m: PathModel, o: FilledOrder, k: int)
    requires
        0 <= k,
        m.outbox.len() + k <= m.room,
    ensures
        m.fills_sent(o, k).outbox.len() == m.outbox.len() + k,
        m.fills_sent(o, k).outbox.take(m.outbox.len() as int) == m.outbox,
        forall|i: int|
            0 <= i < k ==> #[trigger] m.fills_sent(o, k).outbox[m.outbox.len() + i]
                == o.fill_report(i),
        m.fills_sent(o, k).stats.reports_dropped == m.stats.reports_dropped,
        m.fills_sent(o, k).stats.fills_reported == wrapping_add(
            m.stats.fills_reported,
            (k % 0x1_0000_0000_0000_0000) as u64,
        ),
    decreases k,
{
    let from = m.outbox.len() as int;
    if k == 0 {
        assert(m.outbox.take(from) =~= m.outbox);
    } else {
        lemma_fills_reported(m, o, k - 1);
        lemma_fills_keep(m, o, k - 1);
        let a = m.fills_sent(o, k - 1);
        let q = m.fills_sent(o, k);
        assert(q.outbox =~= a.outbox.push(o.fill_report(k - 1)));
        assert(q.outbox.take(from) =~= a.outbox.take(from));
        assert forall|i: int| 0 <= i < k implies #[trigger] q.outbox[from + i] == o.fill_report(
            i,
        ) by {
            if i < k - 1 {
                assert(q.outbox[from + i] == a.outbox[from + i]);
            }
        }
    }
}

/// A message cancels the order, which rests where the message says.
pub open spec fn cancels(msg: Option<OrderPathMessage>, e: Engine, id: u64) -> bool {
    msg matches Some(OrderPathMessage::CancelOrder { orig_client_order_id, symbol_id, .. })
        && orig_client_order_id == id && e.model()[symbol_id].has(id)
}

/// Whatever a strategy asks, every order that is followed is followed afterwards and
/// watched as it was, but for the one that it cancels, and for those that a reconciliation
/// finds on no book.
pub proof fn law_followed_through_a_message(
    p0: PathModel,
    e0: Engine,
    f0: FeedModel,
    p1: PathModel,
    e1: Engine,
    f1: FeedModel,
    msg: Option<OrderPathMessage>,
    o: Owned,
)
    requires
        dispatched(p0, e0, f0, p1, e1, f1, msg),
        p0.owned.contains(o),
        !cancels(msg, e0, o.exchange_order_id),
        msg matches Some(OrderPathMessage::ReconcileRequest { .. }) ==> rests(
            e0.model(),
            o.exchange_order_id,
        ),
        forall|s: u16| (#[trigger] e0.model()[s]).wf(),
    ensures
        p1.owned.contains(o),
        p1.finished.contains(o.exchange_order_id) ==> p0.finished.contains(o.exchange_order_id),
        p0.to_watch.contains(o.exchange_order_id) ==> p1.to_watch.contains(o.exchange_order_id),
        e1.watching() == e0.watching(),
{
    let id = o.exchange_order_id;
    match msg {
        Some(OrderPathMessage::NewOrder { client_order_id, symbol_id, side, price, quantity }) => {
            if let Some(side) = side {
                let x = filled(e0, client_order_id, symbol_id, side, price, quantity);
                let m = p0.order_received();
                lemma_fills_keep(m, x, x.reported());
                let k = choose|k: int| 0 <= k < p0.owned.len() && p0.owned[k] == o;
                assert(p1.owned[k] == o);
                if p0.to_watch.contains(id) {
                    let k = choose|k: int| 0 <= k < p0.to_watch.len() && p0.to_watch[k] == id;
                    assert(p1.to_watch[k] == id);
                }
                if p0.turns_away(x) {
                    let (e, f) = choose|e: Engine, f: FeedModel|
                        #[trigger] submit_effect(
                            e0,
                            f0,
                            e,
                            f,
                            symbol_id,
                            side,
                            price,
                            quantity,
                            false,
                        ) && cancel_effect(e, f, e1, f1, symbol_id, x.order_id);
                    assert(e.watching() == e0.watching());
                }
            }
        },
        Some(OrderPathMessage::CancelOrder { orig_client_order_id, symbol_id, .. }) => {
            lemma_disowned(p0.owned, orig_client_order_id);
            if e0.model()[symbol_id].has(orig_client_order_id) {
                assert(orig_client_order_id != id);
                if p1.finished.contains(id) {
                    let k = choose|k: int| 0 <= k < p1.finished.len() && p1.finished[k] == id;
                    assert(p0.finished[k] == id);
                }
            }
        },
        Some(OrderPathMessage::ReconcileRequest { .. }) => {
            lemma_reconciled(p0, e0.model(), p0.owned.len() as int);
            assert(p0.owned.take(p0.owned.len() as int) =~= p0.owned);
            lemma_resting_ones(p0.owned, e0.model());
        },
        _ => {},
    }
}

/// Every order that is followed has an id that was given out, and none is followed twice.
pub open spec fn follows_issued(p: PathModel, e: Engine) -> bool {
    &&& followed_once(p.owned)
    &&& forall|i: int|
        0 <= i < p.owned.len() ==> (#[trigger] p.owned[i]).exchange_order_id < e.order_ids()
}

/// No order comes to be followed twice.
pub proof fn law_each_order_is_followed_once(
    p0: PathModel,
    e0: Engine,
    f0: FeedModel,
    p1: PathModel,
    e1: Engine,
    f1: FeedModel,
    msg: Option<OrderPathMessage>,
)
    requires
        dispatched(p0, e0, f0, p1, e1, f1, msg),
        follows_issued(p0, e0),
        forall|s: u16| (#[trigger] e0.model()[s]).wf(),
    ensures
        follows_issued(p1, e1),
{
    match msg {
        Some(OrderPathMessage::NewOrder { client_order_id, symbol_id, side, price, quantity }) => {
            if let Some(side) = side {
                let x = filled(e0, client_order_id, symbol_id, side, price, quantity);
                lemma_fills_keep(p0.order_received(), x, x.reported());
                assert(e1.order_ids() >= e0.order_ids());
                if p0.turns_away(x) {
                    let (e, f) = choose|e: Engine, f: FeedModel|
                        #[trigger] submit_effect(
                            e0,
                            f0,
                            e,
                            f,
                            symbol_id,
                            side,
                            price,
                            quantity,
                            false,
                        ) && cancel_effect(e, f, e1, f1, symbol_id, x.order_id);
                    assert(e.order_ids() == e0.order_ids() + 1);
                } else {
                    assert(e1.order_ids() == e0.order_ids() + 1);
                }
            }
        },
        Some(OrderPathMessage::CancelOrder { orig_client_order_id, .. }) => {
            lemma_disowned(p0.owned, orig_client_order_id);
            assert forall|i: int| 0 <= i < p1.owned.len() implies (
            #[trigger] p1.owned[i]).exchange_order_id < e1.order_ids() by {
                assert(p1.owned.contains(p1.owned[i]));
                assert(p0.owned.contains(p1.owned[i]));
            }
        },
        Some(OrderPathMessage::ReconcileRequest { .. }) => {
            lemma_reconciled(p0, e0.model(), p0.owned.len() as int);
            assert(p0.owned.take(p0.owned.len() as int) =~= p0.owned);
            lemma_resting_ones(p0.owned, e0.model());
            assert forall|i: int| 0 <= i < p1.owned.len() implies (
            #[trigger] p1.owned[i]).exchange_order_id < e1.order_ids() by {
                assert(p1.owned.contains(p1.owned[i]));
                assert(p0.owned.contains(p1.owned[i]));
            }
        },
        _ => {},
    }
}

/// A strategy is told of a trade of its new order as it was published, and how much of the
/// order is left after it.
pub open spec fn trade_is_reported(
    r: ExecReport,
    client_order_id: u64,
    o: Incoming,
    msg: Message,
    left: int,
) -> bool {
    msg matches Message::Trade {
        trade_id,
        aggressor_order_id,
        price,
        quantity,
        symbol_id,
        ..
    } && {
        &&& r.client_order_id == client_order_id
        &&& r.exchange_order_id == aggressor_order_id
        &&& r.exchange_order_id == o.order_id
        &&& r.trade_id == trade_id
        &&& r.price == price
        &&& r.quantity == quantity
        &&& r.leaves_quantity == left
        &&& r.symbol_id == symbol_id
        &&& r.side == o.side
        &&& r.exec_type == (if left == 0 {
            ExecType::Fill
        } else {
            ExecType::PartialFill
        })
        &&& r.reject_reason == RejectReason::NotRejected
    }
}

proof fn lemma_traded_grows(fills: Seq<AggressorFill>, i: int, j: int)
    requires
        0 <= i <= j <= fills.len(),
    ensures
        traded(fills.take(i)) <= traded(fills.take(j)),
    decreases j - i,
{
    if i < j {
        lemma_traded_grows(fills, i, j - 1);
        assert(fills.take(j).drop_last() =~= fills.take(j - 1));
    }
}

/// Only the last fill of an order can leave nothing of it.
proof fn lemma_left_over(
    books: Map<u16, BookModel>,
    o: Incoming,
    quantity: u32,
    first_trade: u64,
    msgs: Seq<Message>,
    fills: Seq<AggressorFill>,
    resting: u32,
    i: int,
)
    requires
        submission_is_told(books, o, quantity, first_trade, msgs, fills, resting),
        0 <= i < fills.len(),
    ensures
        fills[i].leaves == quantity - traded(fills.take(i + 1)),
        i + 1 < fills.len() ==> fills[i].leaves > 0,
        msgs[2 * i] matches Message::Trade {
            trade_id,
            aggressor_order_id,
            price,
            quantity,
            symbol_id,
            ..
        } && fills[i].trade_id == trade_id && fills[i].price == price && fills[i].quantity
            == quantity && aggressor_order_id == o.order_id && symbol_id == o.symbol_id,
{
    assert(trade_is_told(books, o, quantity as int, first_trade as int, msgs, fills, i));
    reveal(trade_is_told);
    assert(fills.take(i + 1).drop_last() =~= fills.take(i));
    if i + 1 < fills.len() {
        assert(trade_is_told(books, o, quantity as int, first_trade as int, msgs, fills, i + 1));
    }
}

/// What a strategy was told of a new order, of which `msgs` were published and `resting` is
/// left, and which of its trades were shown.
pub open spec fn reported_as_it_went(
    p0: PathModel,
    e0: Engine,
    p1: PathModel,
    e1: Engine,
    o: Incoming,
    client_order_id: u64,
    quantity: u32,
    msgs: Seq<Message>,
    fills: Seq<AggressorFill>,
    resting: u32,
    shown: int,
) -> bool {
    let from = p0.outbox.len() as int;
    let owned = Owned { exchange_order_id: o.order_id, client_order_id };
    let book = e1.model()[o.symbol_id];
    let last = p1.outbox.last();
    &&& submission_is_told(e0.model(), o, quantity, e0.trade_ids(), msgs, fills, resting)
    &&& p1.stats.orders_received == wrapping_add(p0.stats.orders_received, 1)
    &&& p1.stats.reports_dropped == wrapping_add(
        p0.stats.reports_dropped,
        (fills.len() - shown) as u64,
    )
    &&& p1.finished == p0.finished
    &&& p1.outbox.take(from) == p0.outbox
    &&& forall|i: int|
        0 <= i < shown ==> trade_is_reported(
            #[trigger] p1.outbox[from + i],
            client_order_id,
            o,
            msgs[2 * i],
            quantity - traded(fills.take(i + 1)),
        )
    &&& if resting == 0 {
        &&& p1.outbox.len() == from + shown
        &&& p1.owned == p0.owned
        &&& p1.to_watch == p0.to_watch
    } else {
        &&& p1.outbox.len() == from + shown + 1
        &&& last.client_order_id == client_order_id
        &&& last.exchange_order_id == o.order_id
        &&& last.trade_id == 0
        &&& last.price == o.price
        &&& last.symbol_id == o.symbol_id
        &&& last.side == o.side
        &&& if p0.owned.len() < 4096 {
            &&& last.exec_type == ExecType::Acknowledged
            &&& last.reject_reason == RejectReason::NotRejected
            &&& last.quantity == quantity
            &&& book.has(o.order_id)
            &&& last.leaves_quantity == book.orders[o.order_id].quantity
            &&& p1.owned == p0.owned.push(owned)
            &&& p1.to_watch == p0.to_watch.push(o.order_id)
            &&& p1.stats.acks_reported == wrapping_add(p0.stats.acks_reported, 1)
        } else {
            &&& last.exec_type == ExecType::Rejected
            &&& last.reject_reason == RejectReason::TooManyOrders
            &&& last.quantity == resting
            &&& last.leaves_quantity == 0
            &&& !book.has(o.order_id)
            &&& p1.owned == p0.owned
            &&& p1.to_watch == p0.to_watch
            &&& p1.stats.rejects_reported == wrapping_add(p0.stats.rejects_reported, 1)
        }
    }
}

/// What a strategy is told of a new order: each of its first 32 trades as it was published,
/// and then, where something rests, that it rests, with as much left as is on the book, and
/// is followed from now on. Where no more orders can be followed, that what is left was
/// rejected, and it is on no book.
pub proof fn law_new_order_is_reported_as_it_went(
    p0: PathModel,
    e0: Engine,
    f0: FeedModel,
    p1: PathModel,
    e1: Engine,
    f1: FeedModel,
    client_order_id: u64,
    symbol_id: u16,
    side: Side,
    price: i64,
    quantity: u32,
)
    requires
        e0.wf(),
        e0.trade_ids() + quantity < u64::MAX,
        dispatched(
            p0,
            e0,
            f0,
            p1,
            e1,
            f1,
            Some(
                OrderPathMessage::NewOrder {
                    client_order_id,
                    symbol_id,
                    side: Some(side),
                    price,
                    quantity,
                },
            ),
        ),
        p0.outbox.len() + 33 <= p0.room,
    ensures
        ({
            let m = matching_end(e0, symbol_id, side, price, quantity);
            let n = m.fills.len() as int;
            let end = f0.log.len() + 2 * n + (if m.remaining > 0 {
                1int
            } else {
                0
            });
            reported_as_it_went(
                p0,
                e0,
                p1,
                e1,
                Incoming {
                    order_id: e0.order_ids(),
                    symbol_id,
                    side,
                    price,
                    watched: e0.watching(),
                },
                client_order_id,
                quantity,
                f1.log.subrange(f0.log.len() as int, end),
                m.fills,
                m.remaining,
                if n < 32 {
                    n
                } else {
                    32
                },
            )
        }),
{
    let o = Incoming { order_id: e0.order_ids(), symbol_id, side, price, watched: e0.watching() };
    let x = filled(e0, client_order_id, symbol_id, side, price, quantity);
    let m = matching_end(e0, symbol_id, side, price, quantity);
    let n = m.fills.len() as int;
    let start = p0.order_received();
    let from = p0.outbox.len() as int;
    let shown = x.reported();
    let (e, f) = if p0.turns_away(x) {
        choose|e: Engine, f: FeedModel|
            #[trigger] submit_effect(e0, f0, e, f, symbol_id, side, price, quantity, false)
                && cancel_effect(e, f, e1, f1, symbol_id, x.order_id)
    } else {
        (e1, f1)
    };
    assert(submit_effect(e0, f0, e, f, symbol_id, side, price, quantity, false));
    law_trades_say_what_was_traded(e0, f0, e, f, symbol_id, side, price, quantity, false);
    let all = f.log.skip(f0.log.len() as int);
    let msgs = f1.log.subrange(
        f0.log.len() as int,
        f0.log.len() + 2 * n + (if m.remaining > 0 {
            1int
        } else {
            0
        }),
    );
    assert(msgs =~= all);
    lemma_fills_keep(start, x, shown);
    lemma_fills_reported(start, x, shown);
    let sent = start.fills_sent(x, shown);
    assert forall|j: int| 0 <= j < sent.outbox.len() implies p1.outbox[j] == sent.outbox[j] by {}
    assert(p1.outbox.take(from) =~= p0.outbox) by {
        assert forall|j: int| 0 <= j < from implies p1.outbox[j] == p0.outbox[j] by {
            assert(sent.outbox.take(from)[j] == sent.outbox[j]);
        }
    }
    assert forall|i: int| 0 <= i < shown implies trade_is_reported(
        #[trigger] p1.outbox[from + i],
        client_order_id,
        o,
        msgs[2 * i],
        quantity - traded(m.fills.take(i + 1)),
    ) by {
        assert(sent.outbox[start.outbox.len() + i] == x.fill_report(i));
        lemma_left_over(
            e0.model(),
            o,
            quantity,
            e0.trade_ids(),
            msgs,
            m.fills,
            m.remaining,
            i,
        );
    }
    if p0.turns_away(x) {
        let b = e.model()[symbol_id];
        assert(b.has(x.order_id));
        assert(e1.model()[symbol_id] == b.removed(x.order_id));
        assert(p1.stats.rejects_reported == wrapping_add(p0.stats.rejects_reported, 1));
    }
    lemma_submitted_stats(start, x);
}

proof fn lemma_submitted_stats(m: PathModel, o: FilledOrder)
    requires
        m.outbox.len() + 33 <= m.room,
    ensures
        m.submitted(o).stats.orders_received == m.stats.orders_received,
        m.submitted(o).stats.reports_dropped == wrapping_add(
            m.stats.reports_dropped,
            (o.fills.len() - o.reported()) as u64,
        ),
{
    lemma_fills_keep(m, o, o.reported());
    lemma_fills_reported(m, o, o.reported());
}

/// What a strategy is told of a cancel: how much of the order was left on the book, of which
/// nothing is left now, and that it is followed no longer; or, where the order was not on
/// that book, that it was rejected, with everything as it was.
pub proof fn law_cancel_is_answered_as_it_went(
    p0: PathModel,
    e0: Engine,
    f0: FeedModel,
    p1: PathModel,
    e1: Engine,
    f1: FeedModel,
    client_order_id: u64,
    id: u64,
    symbol_id: u16,
    side: Option<Side>,
)
    requires
        dispatched(
            p0,
            e0,
            f0,
            p1,
            e1,
            f1,
            Some(
                OrderPathMessage::CancelOrder {
                    client_order_id,
                    orig_client_order_id: id,
                    symbol_id,
                    side,
                },
            ),
        ),
        p0.outbox.len() < p0.room,
    ensures
        ({
            let before = e0.model()[symbol_id];
            let after = e1.model()[symbol_id];
            let r = p1.outbox.last();
            &&& p1.outbox.len() == p0.outbox.len() + 1
            &&& p1.outbox.drop_last() == p0.outbox
            &&& r.client_order_id == client_order_id
            &&& r.exchange_order_id == id
            &&& r.symbol_id == symbol_id
            &&& r.side == (if side is Some {
                side->0
            } else {
                Side::Bid
            })
            &&& r.leaves_quantity == 0
            &&& p1.to_watch == p0.to_watch
            &&& p1.stats.cancels_received == wrapping_add(p0.stats.cancels_received, 1)
            &&& if before.has(id) {
                &&& r.exec_type == ExecType::Canceled
                &&& r.reject_reason == RejectReason::NotRejected
                &&& r.quantity == before.orders[id].quantity
                &&& !after.has(id)
                &&& f1.log == f0.log.push(
                    Message::DeleteOrder {
                        order_id: id,
                        symbol_id,
                        side: Some(before.orders[id].side),
                    },
                )
                &&& !follows(p1.owned, id)
                &&& forall|x: Owned| #[trigger]
                    p1.owned.contains(x) <==> p0.owned.contains(x) && x.exchange_order_id != id
                &&& p1.finished == p0.finished.push(id)
                &&& p1.stats.cancels_reported == wrapping_add(p0.stats.cancels_reported, 1)
            } else {
                &&& r.exec_type == ExecType::Rejected
                &&& r.reject_reason == RejectReason::UnknownOrder
                &&& r.quantity == 0
                &&& after == before
                &&& f1 == f0
                &&& p1.owned == p0.owned
                &&& p1.finished == p0.finished
                &&& p1.stats.rejects_reported == wrapping_add(p0.stats.rejects_reported, 1)
            }
            &&& forall|s: u16| s != symbol_id ==> #[trigger] e1.model()[s] == e0.model()[s]
        }),
{
    lemma_disowned(p0.owned, id);
    assert(p1.outbox.drop_last() =~= p0.outbox);
}

/// An order whose side is neither bid nor ask is rejected, and nothing comes of it.
pub proof fn law_order_without_a_side_is_rejected(
    p0: PathModel,
    e0: Engine,
    f0: FeedModel,
    p1: PathModel,
    e1: Engine,
    f1: FeedModel,
    client_order_id: u64,
    symbol_id: u16,
    price: i64,
    quantity: u32,
)
    requires
        dispatched(
            p0,
            e0,
            f0,
            p1,
            e1,
            f1,
            Some(
                OrderPathMessage::NewOrder {
                    client_order_id,
                    symbol_id,
                    side: None,
                    price,
                    quantity,
                },
            ),
        ),
        p0.outbox.len() < p0.room,
    ensures
        e1 == e0,
        f1 == f0,
        p1.owned == p0.owned,
        p1.to_watch == p0.to_watch,
        p1.finished == p0.finished,
        p1.outbox.len() == p0.outbox.len() + 1,
        p1.outbox.drop_last() == p0.outbox,
        p1.outbox.last().exec_type == ExecType::Rejected,
        p1.outbox.last().reject_reason == RejectReason::UnknownSymbol,
        p1.outbox.last().client_order_id == client_order_id,
        p1.outbox.last().symbol_id == symbol_id,
        p1.outbox.last().exchange_order_id == 0,
        p1.outbox.last().leaves_quantity == 0,
        p1.stats.orders_received == wrapping_add(p0.stats.orders_received, 1),
        p1.stats.rejects_reported == wrapping_add(p0.stats.rejects_reported, 1),
{
    assert(p1.outbox.drop_last() =~= p0.outbox);
}

proof fn lemma_passives_conserved(p: PathModel, fills: Seq<PassiveFill>)
    ensures
        ({
            let q = p.passives_sent(fills);
            let sent = q.outbox.len() - p.outbox.len();
            &&& 0 <= sent <= fills.len()
            &&& q.room == p.room
            &&& q.stats.reports_dropped as int == (p.stats.reports_dropped + fills.len() - sent)
                % 0x1_0000_0000_0000_0000
        }),
    decreases fills.len(),
{
    if fills.len() > 0 {
        lemma_passives_conserved(p, fills.drop_last());
    }
}

/// No fill of a pass is lost without a trace: each was put into the outbox as a report, or
/// is counted as dropped.
pub proof fn law_every_passive_fill_is_sent_or_counted(
    p0: PathModel,
    e0: Engine,
    p1: PathModel,
    e1: Engine,
)
    requires
        pass_begun(p0, e0, p1, e1),
        e0.passive_fills().len() <= u64::MAX,
    ensures
        ({
            let n = e0.passive_fills().len() as int;
            let sent = p1.outbox.len() - p0.outbox.len();
            &&& 0 <= sent <= n
            &&& sent <= 32
            &&& p1.stats.reports_dropped as int == (p0.stats.reports_dropped + n - sent)
                % 0x1_0000_0000_0000_0000
        }),
{
    let fills = e0.passive_fills();
    let start = PathModel { to_watch: Seq::empty(), finished: Seq::empty(), ..p0 };
    let shown = if fills.len() < 32 {
        fills
    } else {
        fills.take(32)
    };
    lemma_passives_conserved(start, shown);
}

/// A message that cannot be read is counted, and a report that comes the wrong way is
/// passed over; nothing else comes of either.
pub proof fn law_stray_messages_change_nothing(
    p0: PathModel,
    e0: Engine,
    f0: FeedModel,
    p1: PathModel,
    e1: Engine,
    f1: FeedModel,
    msg: Option<OrderPathMessage>,
)
    requires
        dispatched(p0, e0, f0, p1, e1, f1, msg),
        msg is None || msg == Some(OrderPathMessage::ExecReport),
    ensures
        e1 == e0,
        f1 == f0,
        p1.owned == p0.owned,
        p1.to_watch == p0.to_watch,
        p1.finished == p0.finished,
        p1.outbox == p0.outbox,
        p1.stats.reports_dropped == (if msg is None {
            wrapping_add(p0.stats.reports_dropped, 1)
        } else {
            p0.stats.reports_dropped
        }),
        p1.stats.orders_received == p0.stats.orders_received,
        p1.stats.rejects_reported == p0.stats.rejects_reported,
{
}

} // verus!
