//! What the books of this library owe one another: a snapshot gives the book back,
//! and two books that are told the same hold the same.

use crate::apply::{applied, fill, replay, resting_order, symbol_of, ApplyError, Filling};
use crate::digest::books_digest;
use crate::message::{Message, Side, SnapshotOrder};
use crate::model::{law_levels_exist, BookModel, Level, RestingOrder};
use crate::space::Space;
use crate::view::{models, BookSet};
use vstd::prelude::*;

verus! {

pub open spec fn snapshot_order(o: RestingOrder) -> SnapshotOrder {
    SnapshotOrder { order_id: o.order_id, price: o.price, quantity: o.quantity, side: Some(o.side) }
}

pub open spec fn as_snapshot(os: Seq<RestingOrder>) -> Seq<SnapshotOrder> {
    Seq::new(os.len(), |i: int| snapshot_order(os[i]))
}

/// The orders of a book as a snapshot carries them: the bids, then the asks, each
/// best price first and first to arrive first.
pub open spec fn snapshot_of(m: BookModel) -> Seq<SnapshotOrder> {
    as_snapshot(m.in_priority(Side::Bid)) + as_snapshot(m.in_priority(Side::Ask))
}

/// A book with orders added in turn.
pub open spec fn added_all(m: BookModel, os: Seq<SnapshotOrder>) -> BookModel
    decreases os.len(),
{
    if os.len() == 0 {
        m
    } else {
        added_all(m, os.drop_last()).added(resting_order(os.last()))
    }
}

/// The ids of those orders that belong to one queue, in order.
pub open spec fn ids_at(os: Seq<SnapshotOrder>, side: Side, price: i64) -> Seq<u64>
    decreases os.len(),
{
    if os.len() == 0 {
        Seq::empty()
    } else {
        let rest = ids_at(os.drop_last(), side, price);
        if resting_order(os.last()).side == side && os.last().price == price {
            rest.push(os.last().order_id)
        } else {
            rest
        }
    }
}

/// A run of snapshot orders that went in leaves the book with all of them added.
proof fn lemma_filled(m: BookModel, room: Space, symbol_id: u16, os: Seq<SnapshotOrder>)
    requires
        fill(m, room, symbol_id, os).result is Ok,
    ensures
        fill(m, room, symbol_id, os).model == added_all(m, os),
    decreases os.len(),
{
    if os.len() > 0 {
        let f = fill(m, room, symbol_id, os.drop_last());
        assert(f.result is Ok);
        lemma_filled(m, room, symbol_id, os.drop_last());
    }
}

proof fn lemma_queue_added(m: BookModel, os: Seq<SnapshotOrder>, side: Side, price: i64)
    ensures
        added_all(m, os).queue(side, price) == m.queue(side, price) + ids_at(os, side, price),
    decreases os.len(),
{
    if os.len() > 0 {
        lemma_queue_added(m, os.drop_last(), side, price);
        assert(added_all(m, os).queue(side, price) =~= m.queue(side, price) + ids_at(
            os,
            side,
            price,
        ));
    } else {
        assert(added_all(m, os).queue(side, price) =~= m.queue(side, price) + ids_at(
            os,
            side,
            price,
        ));
    }
}

proof fn lemma_ids_concat(a: Seq<SnapshotOrder>, b: Seq<SnapshotOrder>, side: Side, price: i64)
    ensures
        ids_at(a + b, side, price) == ids_at(a, side, price) + ids_at(b, side, price),
    decreases b.len(),
{
    if b.len() == 0 {
        assert(a + b =~= a);
        assert(ids_at(a, side, price) + ids_at(b, side, price) =~= ids_at(a, side, price));
    } else {
        assert((a + b).drop_last() =~= a + b.drop_last());
        assert((a + b).last() == b.last());
        lemma_ids_concat(a, b.drop_last(), side, price);
        assert(ids_at(a + b, side, price) =~= ids_at(a, side, price) + ids_at(b, side, price));
    }
}

/// Orders that all belong to one queue.
proof fn lemma_ids_of_queue(os: Seq<SnapshotOrder>, own: Side, at: i64, side: Side, price: i64)
    requires
        forall|i: int| 0 <= i < os.len() ==> resting_order(#[trigger] os[i]).side == own && os[i].price
            == at,
    ensures
        ids_at(os, side, price) == (if side == own && price == at {
            Seq::new(os.len(), |i: int| os[i].order_id)
        } else {
            Seq::empty()
        }),
    decreases os.len(),
{
    if os.len() > 0 {
        assert(os.last() == os[os.len() - 1]);
        assert forall|i: int| 0 <= i < os.drop_last().len() implies resting_order(
            #[trigger] os.drop_last()[i],
        ).side == own && os.drop_last()[i].price == at by {
            assert(os.drop_last()[i] == os[i]);
        }
        lemma_ids_of_queue(os.drop_last(), own, at, side, price);
    }
    let want = if side == own && price == at {
        Seq::new(os.len(), |i: int| os[i].order_id)
    } else {
        Seq::empty()
    };
    assert(ids_at(os, side, price) =~= want);
}

pub open spec fn has_price(levels: Seq<Level>, price: i64) -> bool {
    exists|i: int| 0 <= i < levels.len() && (#[trigger] levels[i]).price == price
}

/// The orders of some levels, seen from one queue.
proof fn lemma_ids_over(m: BookModel, own: Side, levels: Seq<Level>, side: Side, price: i64)
    requires
        m.wf(),
        forall|i: int, j: int|
            0 <= i < j < levels.len() ==> (#[trigger] levels[i]).price != (
            #[trigger] levels[j]).price,
    ensures
        ids_at(as_snapshot(m.orders_over(own, levels)), side, price) == (if side == own
            && has_price(levels, price) {
            m.queue(side, price)
        } else {
            Seq::empty()
        }),
    decreases levels.len(),
{
    let all = as_snapshot(m.orders_over(own, levels));
    if levels.len() == 0 {
        assert(!has_price(levels, price));
    } else {
        let rest = levels.drop_last();
        let at = levels.last().price;
        assert forall|i: int, j: int| 0 <= i < j < rest.len() implies (#[trigger] rest[i]).price
            != (#[trigger] rest[j]).price by {
            assert(rest[i] == levels[i] && rest[j] == levels[j]);
        }
        lemma_ids_over(m, own, rest, side, price);
        let head = as_snapshot(m.orders_over(own, rest));
        let tail = as_snapshot(m.orders_at(own, at));
        assert(all =~= head + tail);
        lemma_ids_concat(head, tail, side, price);
        assert forall|i: int| 0 <= i < tail.len() implies resting_order(#[trigger] tail[i]).side == own
            && tail[i].price == at by {
            let id = m.queue(own, at)[i];
            assert(m.has(id));
        }
        lemma_ids_of_queue(tail, own, at, side, price);
        assert(Seq::new(tail.len(), |i: int| tail[i].order_id) =~= m.queue(own, at)) by {
            assert forall|i: int| 0 <= i < tail.len() implies tail[i].order_id == #[trigger] m.queue(
                own,
                at,
            )[i] by {
                let id = m.queue(own, at)[i];
                assert(m.has(id));
            }
        }
        if price == at {
            assert(levels[levels.len() - 1].price == price);
            assert(!has_price(rest, price)) by {
                if has_price(rest, price) {
                    let i = choose|i: int| 0 <= i < rest.len() && (#[trigger] rest[i]).price
                        == price;
                    assert(levels[i].price == levels[levels.len() - 1].price);
                }
            }
            assert(Seq::<u64>::empty() + m.queue(side, price) =~= m.queue(side, price));
        } else {
            assert(has_price(levels, price) == has_price(rest, price)) by {
                if has_price(levels, price) {
                    let i = choose|i: int| 0 <= i < levels.len() && (#[trigger] levels[i]).price
                        == price;
                    assert(rest[i].price == price);
                }
                if has_price(rest, price) {
                    let i = choose|i: int| 0 <= i < rest.len() && (#[trigger] rest[i]).price
                        == price;
                    assert(levels[i].price == price);
                }
            }
        }
        let want = if side == own && has_price(levels, price) {
            m.queue(side, price)
        } else {
            Seq::empty()
        };
        assert(ids_at(all, side, price) =~= want);
    }
}

/// Every order that the levels give is one of the book.
proof fn lemma_orders_over_known(m: BookModel, side: Side, levels: Seq<Level>, i: int)
    requires
        m.wf(),
        0 <= i < m.orders_over(side, levels).len(),
    ensures
        ({
            let o = m.orders_over(side, levels)[i];
            m.has(o.order_id) && m.orders[o.order_id] == o
        }),
    decreases levels.len(),
{
    if levels.len() > 0 {
        let head = m.orders_over(side, levels.drop_last());
        if i < head.len() {
            lemma_orders_over_known(m, side, levels.drop_last(), i);
        } else {
            let id = m.queue(side, levels.last().price)[i - head.len()];
            assert(m.has(id));
        }
    }
}

/// What a snapshot of a book carries: every queue in order, and nothing that is not
/// on the book.
proof fn lemma_snapshot(m: BookModel)
    requires
        m.wf(),
    ensures
        forall|side: Side, price: i64| #[trigger]
            ids_at(snapshot_of(m), side, price) == m.queue(side, price),
        forall|i: int|
            0 <= i < snapshot_of(m).len() ==> {
                let o = #[trigger] snapshot_of(m)[i];
                m.has(o.order_id) && m.orders[o.order_id] == resting_order(o)
            },
{
    let bids = as_snapshot(m.in_priority(Side::Bid));
    let asks = as_snapshot(m.in_priority(Side::Ask));
    law_levels_exist(m, Side::Bid);
    law_levels_exist(m, Side::Ask);
    assert forall|side: Side, price: i64| #[trigger]
        ids_at(snapshot_of(m), side, price) == m.queue(side, price) by {
        lemma_ids_concat(bids, asks, side, price);
        lemma_ids_over(m, Side::Bid, m.levels(Side::Bid), side, price);
        lemma_ids_over(m, Side::Ask, m.levels(Side::Ask), side, price);
        assert(m.queue(side, price).len() > 0 ==> has_price(m.levels(side), price));
        assert(has_price(m.levels(side), price) ==> m.queue(side, price).len() > 0);
        assert(ids_at(snapshot_of(m), side, price) =~= m.queue(side, price));
    }
    assert forall|i: int| 0 <= i < snapshot_of(m).len() implies {
        let o = #[trigger] snapshot_of(m)[i];
        m.has(o.order_id) && m.orders[o.order_id] == resting_order(o)
    } by {
        if i < bids.len() {
            lemma_orders_over_known(m, Side::Bid, m.levels(Side::Bid), i);
        } else {
            lemma_orders_over_known(m, Side::Ask, m.levels(Side::Ask), i - bids.len());
        }
    }
}

/// The orders of a book made by adding are those that were added.
proof fn lemma_orders_added(os: Seq<SnapshotOrder>, id: u64)
    ensures
        added_all(BookModel::empty(), os).has(id) <==> exists|i: int|
            0 <= i < os.len() && (#[trigger] os[i]).order_id == id,
    decreases os.len(),
{
    if os.len() > 0 {
        let rest = os.drop_last();
        lemma_orders_added(rest, id);
        if exists|i: int| 0 <= i < rest.len() && (#[trigger] rest[i]).order_id == id {
            let i = choose|i: int| 0 <= i < rest.len() && (#[trigger] rest[i]).order_id == id;
            assert(os[i].order_id == id);
        }
        if os.last().order_id == id {
            assert(os[os.len() - 1].order_id == id);
        }
        if exists|i: int| 0 <= i < os.len() && (#[trigger] os[i]).order_id == id {
            let i = choose|i: int| 0 <= i < os.len() && (#[trigger] os[i]).order_id == id;
            if i < rest.len() {
                assert(rest[i].order_id == id);
            }
        }
    }
}

proof fn lemma_values_added(m: BookModel, os: Seq<SnapshotOrder>, id: u64)
    requires
        forall|i: int|
            0 <= i < os.len() ==> {
                let o = #[trigger] os[i];
                m.orders[o.order_id] == resting_order(o)
            },
        added_all(BookModel::empty(), os).has(id),
    ensures
        added_all(BookModel::empty(), os).orders[id] == m.orders[id],
    decreases os.len(),
{
    if os.len() > 0 {
        let rest = os.drop_last();
        assert(os.last() == os[os.len() - 1]);
        assert forall|i: int| 0 <= i < rest.len() implies {
            let o = #[trigger] rest[i];
            m.orders[o.order_id] == resting_order(o)
        } by {
            assert(rest[i] == os[i]);
        }
        if os.last().order_id != id {
            lemma_values_added(m, rest, id);
        }
    }
}

proof fn lemma_ids_member(os: Seq<SnapshotOrder>, i: int)
    requires
        0 <= i < os.len(),
    ensures
        ids_at(os, resting_order(os[i]).side, os[i].price).contains(os[i].order_id),
    decreases os.len(),
{
    let side = resting_order(os[i]).side;
    let price = os[i].price;
    let all = ids_at(os, side, price);
    if i == os.len() - 1 {
        assert(all[all.len() - 1] == os[i].order_id);
    } else {
        lemma_ids_member(os.drop_last(), i);
        let rest = ids_at(os.drop_last(), side, price);
        let k = choose|k: int| 0 <= k < rest.len() && rest[k] == os[i].order_id;
        assert(all[k] == os[i].order_id);
    }
}

proof fn lemma_ids_known(os: Seq<SnapshotOrder>, side: Side, price: i64, k: int)
    requires
        0 <= k < ids_at(os, side, price).len(),
    ensures
        exists|i: int|
            0 <= i < os.len() && (#[trigger] os[i]).order_id == ids_at(os, side, price)[k],
    decreases os.len(),
{
    if os.len() > 0 {
        let rest = os.drop_last();
        let a = ids_at(rest, side, price);
        if k < a.len() {
            lemma_ids_known(rest, side, price, k);
            let i = choose|i: int| 0 <= i < rest.len() && (#[trigger] rest[i]).order_id == a[k];
            assert(os[i].order_id == a[k]);
        } else {
            assert(os[os.len() - 1].order_id == ids_at(os, side, price)[k]);
        }
    }
}

/// A book made by adding what a snapshot of a book carries is that book.
proof fn lemma_added_back(m: BookModel)
    requires
        m.wf(),
    ensures
        added_all(BookModel::empty(), snapshot_of(m)) == m,
{
    let os = snapshot_of(m);
    let b = added_all(BookModel::empty(), os);
    lemma_snapshot(m);
    assert forall|side: Side, price: i64| #[trigger] (b.queues)(side, price) == (m.queues)(
        side,
        price,
    ) by {
        lemma_queue_added(BookModel::empty(), os, side, price);
        assert(ids_at(os, side, price) == m.queue(side, price));
        assert(b.queue(side, price) =~= m.queue(side, price));
    }
    assert forall|id: u64| b.orders.dom().contains(id) == m.orders.dom().contains(id) by {
        lemma_orders_added(os, id);
        if b.has(id) {
            let i = choose|i: int| 0 <= i < os.len() && (#[trigger] os[i]).order_id == id;
            assert(m.has(os[i].order_id));
        }
        if m.has(id) {
            let side = m.orders[id].side;
            let price = m.orders[id].price;
            let q = m.queue(side, price);
            assert(q.contains(id));
            let k = choose|k: int| 0 <= k < q.len() && q[k] == id;
            assert(ids_at(os, side, price) == q);
            lemma_ids_known(os, side, price, k);
        }
    }
    assert forall|id: u64| b.orders.dom().contains(id) implies b.orders[id] == m.orders[id] by {
        assert(b.has(id));
        lemma_values_added(m, os, id);
    }
    assert(b.orders =~= m.orders);
    assert(b.queues =~= m.queues);
}

/// The first orders of a snapshot all go into an empty book that has room.
proof fn lemma_fill_goes_in(m: BookModel, symbol_id: u16, k: int)
    requires
        m.wf(),
        0 <= k <= snapshot_of(m).len(),
    ensures
        fill(BookModel::empty(), Space::Unbounded, symbol_id, snapshot_of(m).take(k)) == (Filling {
            model: added_all(BookModel::empty(), snapshot_of(m).take(k)),
            room: Space::Unbounded,
            result: Ok(()),
        }),
    decreases k,
{
    let os = snapshot_of(m);
    if k > 0 {
        let a = os.take(k - 1);
        let o = os[k - 1];
        assert(os.take(k).drop_last() =~= a);
        assert(os.take(k).last() == o);
        lemma_fill_goes_in(m, symbol_id, k - 1);
        lemma_snapshot(m);
        assert(m.has(o.order_id) && m.orders[o.order_id] == resting_order(o));
        let p = added_all(BookModel::empty(), a);
        if p.has(o.order_id) {
            lemma_orders_added(a, o.order_id);
            let i = choose|i: int| 0 <= i < a.len() && (#[trigger] a[i]).order_id == o.order_id;
            assert(os[i] == a[i]);
            assert(resting_order(os[i]) == resting_order(o));
            lemma_ids_member(a, i);
            let before = ids_at(a, resting_order(o).side, o.price);
            let b = os.skip(k);
            assert(os =~= os.take(k) + b);
            lemma_ids_concat(os.take(k), b, resting_order(o).side, o.price);
            let q = m.queue(resting_order(o).side, o.price);
            assert(ids_at(os, resting_order(o).side, o.price) == q);
            assert(ids_at(os.take(k), resting_order(o).side, o.price) == before.push(o.order_id));
            let x = choose|x: int| 0 <= x < before.len() && before[x] == o.order_id;
            assert(q[x] == o.order_id);
            assert(q[before.len() as int] == o.order_id);
            assert(q.no_duplicates());
        }
        assert(o.quantity > 0);
    } else {
        assert(os.take(0) =~= Seq::<SnapshotOrder>::empty());
    }
}

/// A snapshot gives the book back: its orders go into an empty book without a
/// complaint, and leave it with the same orders in the same queues, in the same
/// order. A book with less room that takes them all comes to the same.
pub proof fn law_snapshot_restores_book(m: BookModel, room: Space, symbol_id: u16)
    requires
        m.wf(),
    ensures
        fill(BookModel::empty(), Space::Unbounded, symbol_id, snapshot_of(m)).result is Ok,
        fill(BookModel::empty(), Space::Unbounded, symbol_id, snapshot_of(m)).model == m,
        fill(BookModel::empty(), room, symbol_id, snapshot_of(m)).result is Ok ==> fill(
            BookModel::empty(),
            room,
            symbol_id,
            snapshot_of(m),
        ).model == m,
{
    let os = snapshot_of(m);
    lemma_fill_goes_in(m, symbol_id, os.len() as int);
    assert(os.take(os.len() as int) =~= os);
    lemma_added_back(m);
    if fill(BookModel::empty(), room, symbol_id, os).result is Ok {
        lemma_filled(BookModel::empty(), room, symbol_id, os);
    }
}

/// A snapshot that is cut into fragments comes to the same as one in one piece.
pub proof fn law_fragments_continue_the_cycle(
    m: BookModel,
    room: Space,
    symbol_id: u16,
    a: Seq<SnapshotOrder>,
    b: Seq<SnapshotOrder>,
)
    ensures
        ({
            let first = fill(m, room, symbol_id, a);
            let both = fill(m, room, symbol_id, a + b);
            &&& first.result is Ok ==> both == fill(first.model, first.room, symbol_id, b)
            &&& first.result is Err ==> both == first
        }),
    decreases b.len(),
{
    if b.len() == 0 {
        assert(a + b =~= a);
    } else {
        assert((a + b).drop_last() =~= a + b.drop_last());
        assert((a + b).last() == b.last());
        law_fragments_continue_the_cycle(m, room, symbol_id, a, b.drop_last());
    }
}

/// The refusal is for want of room, which another book may have.
pub open spec fn lacks_room(r: Result<(), ApplyError>) -> bool {
    r matches Err(ApplyError::Book { error, .. }) && (error is PriceOffGrid
        || error is PriceOutOfRange || error is SlabFull)
}

proof fn lemma_fills_agree(
    m: BookModel,
    room_a: Space,
    room_b: Space,
    symbol_id: u16,
    os: Seq<SnapshotOrder>,
)
    requires
        !lacks_room(fill(m, room_a, symbol_id, os).result),
        !lacks_room(fill(m, room_b, symbol_id, os).result),
    ensures
        fill(m, room_a, symbol_id, os).result == fill(m, room_b, symbol_id, os).result,
        fill(m, room_a, symbol_id, os).model == fill(m, room_b, symbol_id, os).model,
    decreases os.len(),
{
    if os.len() > 0 {
        lemma_fills_agree(m, room_a, room_b, symbol_id, os.drop_last());
    }
}

/// Two books that hold the same and are told the same hold the same again and give
/// the same answer, unless one of them lacks the room.
pub proof fn law_books_agree(
    msg: Message,
    before: BookModel,
    room_a: Space,
    room_b: Space,
    after_a: BookModel,
    after_b: BookModel,
    answer_a: Result<(), ApplyError>,
    answer_b: Result<(), ApplyError>,
)
    requires
        applied(msg, before, room_a, after_a, answer_a),
        applied(msg, before, room_b, after_b, answer_b),
        !lacks_room(answer_a),
        !lacks_room(answer_b),
    ensures
        after_a == after_b,
        answer_a == answer_b,
{
    match msg {
        Message::Snapshot(d) => {
            lemma_fills_agree(before, room_a, room_b, d.symbol_id, d.orders@);
        },
        _ => {},
    }
}

/// Replaying in two goes comes to the same as replaying at once.
pub proof fn law_replay_composes(start: Map<u16, BookModel>, a: Seq<Message>, b: Seq<Message>)
    ensures
        replay(start, a + b) == replay(replay(start, a), b),
    decreases b.len(),
{
    if b.len() == 0 {
        assert(a + b =~= a);
    } else {
        assert((a + b).drop_last() =~= a + b.drop_last());
        assert((a + b).last() == b.last());
        law_replay_composes(start, a, b.drop_last());
    }
}

/// A consumer that has what the log so far comes to, and applies the next message
/// without a complaint, has what the longer log comes to, and the publisher's digest.
pub proof fn law_consumer_follows_publisher<B: BookSet>(
    before: &B,
    after: &B,
    start: Map<u16, BookModel>,
    log: Seq<Message>,
    next: Message,
)
    requires
        models(before) == replay(start, log),
        symbol_of(next) is None ==> *after == *before,
        symbol_of(next) matches Some(s) ==> {
            &&& before.room_of(s) == Space::Unbounded
            &&& applied(next, before.model_of(s), before.room_of(s), after.model_of(s), Ok(()))
            &&& forall|t: u16| t != s ==> #[trigger] after.model_of(t) == before.model_of(t)
        },
    ensures
        models(after) == replay(start, log.push(next)),
        books_digest(models(after)) == books_digest(replay(start, log.push(next))),
{
    assert(log.push(next).drop_last() =~= log);
    crate::apply::lemma_replayed(before, after, next);
}

/// Every book as a snapshot of it gives it back.
pub open spec fn restored(books: Map<u16, BookModel>) -> Map<u16, BookModel> {
    Map::new(
        |s: u16| books.dom().contains(s),
        |s: u16| fill(BookModel::empty(), Space::Unbounded, s, snapshot_of(books[s])).model,
    )
}

/// A recovery gives the publisher's books back exactly: snapshots as of any sequence,
/// and then every message after it, come to what the whole log comes to.
pub proof fn law_recovery_restores_the_stream(
    start: Map<u16, BookModel>,
    log: Seq<Message>,
    last_sequence: int,
)
    requires
        0 <= last_sequence <= log.len(),
        forall|s: u16|
            #![trigger replay(start, log.take(last_sequence))[s]]
            replay(start, log.take(last_sequence)).dom().contains(s) ==> replay(
                start,
                log.take(last_sequence),
            )[s].wf(),
    ensures
        replay(restored(replay(start, log.take(last_sequence))), log.skip(last_sequence))
            == replay(start, log),
{
    let then = replay(start, log.take(last_sequence));
    assert forall|s: u16| then.dom().contains(s) implies #[trigger] restored(then)[s]
        == then[s] by {
        law_snapshot_restores_book(then[s], Space::Unbounded, s);
    }
    assert(restored(then) =~= then);
    law_replay_composes(start, log.take(last_sequence), log.skip(last_sequence));
    assert(log.take(last_sequence) + log.skip(last_sequence) =~= log);
}

} // verus!
