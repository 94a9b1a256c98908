//! What matching owes the orders it brings together.

use crate::apply::{applied, effect, replay, replay_one, symbol_of};
use crate::digest::books_digest;
use crate::engine::{
    amend_effect, amendment, cancel_effect, checkpoints_of, crosses, first_index, smaller,
    submit_messages, without_live, AggressorFill, Change, Engine, Incoming, Matching,
};
use crate::feed::{applies_at, FeedModel};
use crate::message::{Message, ModifyReason, Side};
use crate::model::{
    ahead, law_added_order_goes_last, law_added_wf, law_front_is_best, law_reduced_keeps_priority,
    law_reduced_order_is_only_smaller, law_removed_order_is_gone, law_removed_wf,
    law_replaced_loses_priority, law_replaced_order_is_elsewhere, BookModel, RestingOrder,
};
use crate::space::Space;
use vstd::prelude::*;
use vstd::wrapping::u64_specs::wrapping_add;

verus! {

/// Every bid is below every ask.
pub open spec fn uncrossed(m: BookModel) -> bool {
    forall|bid: i64, ask: i64|
        (#[trigger] m.queue(Side::Bid, bid)).len() > 0 && (#[trigger] m.queue(
            Side::Ask,
            ask,
        )).len() > 0 ==> bid < ask
}

/// A queue of the one book is no longer than that of the other wherever that of the
/// other is empty.
spec fn no_new_levels(a: BookModel, b: BookModel) -> bool {
    forall|side: Side, price: i64|
        a.queue(side, price).len() == 0 ==> (#[trigger] b.queue(side, price)).len() == 0
}

/// One trade keeps the book well-formed and opens no level.
proof fn lemma_step(m: Matching, o: Incoming)
    requires
        m.book.wf(),
        m.can_trade(o),
    ensures
        m.step(o).book.wf(),
        no_new_levels(m.book, m.step(o).book),
        m.step(o).remaining < m.remaining,
        forall|id: u64| #[trigger] m.step(o).book.has(id) ==> m.book.has(id),
{
    law_front_is_best(m.book, o.side.other());
    let (best, id) = m.book.front(o.side.other())->0;
    let r = m.book.orders[id];
    let fill = smaller(m.remaining, r.quantity);
    if fill == r.quantity {
        law_removed_wf(m.book, id);
        let q = m.book.queue(r.side, r.price);
        assert(q.contains(id));
        assert(m.book.removed(id).queue(r.side, r.price) == q.remove(q.index_of(id)));
    } else {
        law_reduced_keeps_priority(m.book, id, (r.quantity - fill) as u32);
    }
}

/// What is left once nothing can be traded.
proof fn lemma_matched(m: Matching, o: Incoming)
    requires
        m.book.wf(),
    ensures
        m.matched(o).book.wf(),
        !m.matched(o).can_trade(o),
        no_new_levels(m.book, m.matched(o).book),
        forall|id: u64| #[trigger] m.matched(o).book.has(id) ==> m.book.has(id),
    decreases m.remaining,
{
    if m.can_trade(o) {
        lemma_step(m, o);
        lemma_matched(m.step(o), o);
        assert forall|side: Side, price: i64| m.book.queue(side, price).len() == 0 implies (
        #[trigger] m.matched(o).book.queue(side, price)).len() == 0 by {
            assert(m.step(o).book.queue(side, price).len() == 0);
        }
        assert forall|id: u64| #[trigger] m.matched(o).book.has(id) implies m.book.has(id) by {
            assert(m.step(o).matched(o).book.has(id));
            assert(m.step(o).book.has(id));
        }
    }
}

/// The book after an order has been matched, and what is left of it rests.
pub open spec fn settled(m: Matching, o: Incoming) -> BookModel {
    if m.remaining > 0 {
        m.book.added(
            RestingOrder {
                order_id: o.order_id,
                price: o.price,
                quantity: m.remaining,
                side: o.side,
            },
        )
    } else {
        m.book
    }
}

/// A book that was not crossed is not crossed after an order was matched and put to
/// rest, whatever its price: nothing rests that could have traded.
pub proof fn law_book_is_never_crossed(m: Matching, o: Incoming)
    requires
        m.book.wf(),
        uncrossed(m.book),
    ensures
        uncrossed(settled(m.matched(o), o)),
{
    let e = m.matched(o);
    lemma_matched(m, o);
    assert(uncrossed(e.book)) by {
        assert forall|bid: i64, ask: i64|
            (#[trigger] e.book.queue(Side::Bid, bid)).len() > 0 && (#[trigger] e.book.queue(
                Side::Ask,
                ask,
            )).len() > 0 implies bid < ask by {
            assert(m.book.queue(Side::Bid, bid).len() > 0);
            assert(m.book.queue(Side::Ask, ask).len() > 0);
        }
    }
    if e.remaining > 0 {
        law_front_is_best(e.book, o.side.other());
        let s = settled(e, o);
        assert forall|bid: i64, ask: i64|
            (#[trigger] s.queue(Side::Bid, bid)).len() > 0 && (#[trigger] s.queue(
                Side::Ask,
                ask,
            )).len() > 0 implies bid < ask by {
            match o.side {
                Side::Bid => {
                    assert(s.queue(Side::Ask, ask) == e.book.queue(Side::Ask, ask));
                    if bid != o.price {
                        assert(s.queue(Side::Bid, bid) == e.book.queue(Side::Bid, bid));
                    }
                },
                Side::Ask => {
                    assert(s.queue(Side::Bid, bid) == e.book.queue(Side::Bid, bid));
                    if ask != o.price {
                        assert(s.queue(Side::Ask, ask) == e.book.queue(Side::Ask, ask));
                    }
                },
            }
        }
    }
}

/// The book stays well-formed through matching, provided that the order's id is new.
pub proof fn law_settled_book_is_well_formed(m: Matching, o: Incoming)
    requires
        m.book.wf(),
        !m.book.has(o.order_id),
    ensures
        settled(m.matched(o), o).wf(),
{
    lemma_matched(m, o);
    let e = m.matched(o);
    if e.remaining > 0 {
        law_added_wf(
            e.book,
            RestingOrder {
                order_id: o.order_id,
                price: o.price,
                quantity: e.remaining,
                side: o.side,
            },
        );
    }
}

pub open spec fn traded(fills: Seq<AggressorFill>) -> int
    decreases fills.len(),
{
    if fills.len() == 0 {
        0
    } else {
        traded(fills.drop_last()) + fills.last().quantity
    }
}

/// The fills of an order and what is left of it add up to what was submitted, and the
/// shares counted are those of the fills.
pub proof fn law_fills_add_up(m: Matching, o: Incoming)
    ensures
        traded(m.matched(o).fills) + m.matched(o).remaining == traded(m.fills) + m.remaining,
        m.matched(o).shares - traded(m.matched(o).fills) == m.shares - traded(m.fills),
    decreases m.remaining,
{
    if m.can_trade(o) {
        let n = m.step(o);
        assert(n.fills.drop_last() =~= m.fills);
        law_fills_add_up(n, o);
    }
}

/// No fill is at a price worse than the order's limit: each is at the price of the
/// order that rested, and that crossed.
pub proof fn law_no_trade_through(m: Matching, o: Incoming)
    requires
        forall|i: int|
            0 <= i < m.fills.len() ==> crosses(o.side, o.price, (#[trigger] m.fills[i]).price),
    ensures
        forall|i: int|
            0 <= i < m.matched(o).fills.len() ==> crosses(
                o.side,
                o.price,
                (#[trigger] m.matched(o).fills[i]).price,
            ),
    decreases m.remaining,
{
    let all = m.matched(o).fills;
    if m.can_trade(o) {
        law_no_trade_through(m.step(o), o);
        assert(all == m.step(o).matched(o).fills);
    } else {
        assert(all == m.fills);
    }
    assert forall|i: int| 0 <= i < all.len() implies crosses(
        o.side,
        o.price,
        (#[trigger] all[i]).price,
    ) by {}
}

/// Each trade is with the order that came first at the best price: no order on that
/// side has a better price, and none at that price came before it.
pub proof fn law_trades_by_price_then_time(m: Matching, o: Incoming)
    requires
        m.book.wf(),
        m.can_trade(o),
    ensures
        m.book.front(o.side.other()) matches Some((best, id)) && {
            &&& m.step(o).fills.last().price == best
            &&& m.book.queue(o.side.other(), best)[0] == id
            &&& forall|p: i64|
                (#[trigger] m.book.queue(o.side.other(), p)).len() > 0 ==> !ahead(
                    o.side.other(),
                    p as int,
                    best as int,
                )
        },
{
    law_front_is_best(m.book, o.side.other());
}

/// A trade is published before the change that it makes to the resting order, which
/// follows it at once.
pub proof fn law_trade_comes_before_its_change(m: Matching, o: Incoming)
    requires
        m.can_trade(o),
    ensures
        ({
            let n = m.step(o).messages;
            &&& n.len() == m.messages.len() + 2
            &&& n[n.len() - 2] is Trade
            &&& n[n.len() - 1] is DeleteOrder || n[n.len() - 1] is ModifyOrder
        }),
{
}

/// Every message applies to what those before it come to.
pub open spec fn all_apply(start: Map<u16, BookModel>, msgs: Seq<Message>) -> bool {
    forall|k: int| 0 <= k < msgs.len() ==> #[trigger] applies_at(start, msgs, k)
}

/// A message applies to some books, with the effect it has.
spec fn fits_on(books: Map<u16, BookModel>, msg: Message) -> bool {
    symbol_of(msg) matches Some(s) ==> applied(
        msg,
        books[s],
        Space::Unbounded,
        effect(msg, books[s]),
        Ok(()),
    )
}

proof fn lemma_one_more_applies(start: Map<u16, BookModel>, msgs: Seq<Message>, msg: Message)
    requires
        all_apply(start, msgs),
        fits_on(replay(start, msgs), msg),
    ensures
        all_apply(start, msgs.push(msg)),
        replay(start, msgs.push(msg)) == replay_one(replay(start, msgs), msg),
{
    let more = msgs.push(msg);
    assert(more.drop_last() =~= msgs);
    assert forall|k: int| 0 <= k < more.len() implies #[trigger] applies_at(start, more, k) by {
        if k < msgs.len() {
            assert(applies_at(start, msgs, k));
            assert(more.take(k) =~= msgs.take(k));
            assert(more.take(k + 1) =~= msgs.take(k + 1));
        } else {
            assert(more.take(k) =~= msgs);
            assert(more.take(k + 1) =~= more);
        }
    }
}

/// One trade publishes two messages that apply, and the books they come to hold the
/// book after the trade.
proof fn lemma_step_applies(start: Map<u16, BookModel>, m: Matching, o: Incoming)
    requires
        m.book.wf(),
        m.can_trade(o),
        all_apply(start, m.messages),
        replay(start, m.messages) == start.insert(o.symbol_id, m.book),
    ensures
        all_apply(start, m.step(o).messages),
        replay(start, m.step(o).messages) == start.insert(o.symbol_id, m.step(o).book),
{
    law_front_is_best(m.book, o.side.other());
    let (best, id) = m.book.front(o.side.other())->0;
    let r = m.book.orders[id];
    let fill = smaller(m.remaining, r.quantity);
    let trade = (Change::Trade {
        trade_id: m.next_trade,
        aggressor_order_id: o.order_id,
        resting_order_id: id,
        price: best,
        quantity: fill,
        aggressor_side: o.side,
    }).message(o.symbol_id);
    let change = m.change(o).message(o.symbol_id);
    let books = replay(start, m.messages);
    lemma_one_more_applies(start, m.messages, trade);
    assert(books[o.symbol_id] == m.book);
    assert(fits_on(books, change));
    lemma_one_more_applies(start, m.messages.push(trade), change);
    assert(start.insert(o.symbol_id, m.book).insert(o.symbol_id, m.step(o).book)
        =~= start.insert(o.symbol_id, m.step(o).book));
}

proof fn lemma_matched_applies(start: Map<u16, BookModel>, m: Matching, o: Incoming)
    requires
        m.book.wf(),
        all_apply(start, m.messages),
        replay(start, m.messages) == start.insert(o.symbol_id, m.book),
    ensures
        all_apply(start, m.matched(o).messages),
        replay(start, m.matched(o).messages) == start.insert(o.symbol_id, m.matched(o).book),
    decreases m.remaining,
{
    if m.can_trade(o) {
        lemma_step(m, o);
        lemma_step_applies(start, m, o);
        lemma_matched_applies(start, m.step(o), o);
    }
}

/// Everything that a submitted order publishes applies, in order, to the books as they
/// were, and comes to the books as they are after it: a consumer that had the one has
/// the other.
pub proof fn law_published_messages_apply(
    books: Map<u16, BookModel>,
    m: Matching,
    o: Incoming,
)
    requires
        books.dom().contains(o.symbol_id),
        m.book == books[o.symbol_id],
        m.book.wf(),
        m.messages.len() == 0,
        !m.book.has(o.order_id),
    ensures
        ({
            let msgs = submit_messages(m.matched(o), o);
            &&& all_apply(books, msgs)
            &&& replay(books, msgs) == books.insert(o.symbol_id, settled(m.matched(o), o))
        }),
{
    let e = m.matched(o);
    assert(m.messages =~= Seq::<Message>::empty());
    assert(books.insert(o.symbol_id, m.book) =~= books);
    lemma_matched(m, o);
    lemma_matched_applies(books, m, o);
    if e.remaining > 0 {
        let add = (Change::Add {
            order_id: o.order_id,
            side: o.side,
            price: o.price,
            quantity: e.remaining,
        }).message(o.symbol_id);
        lemma_one_more_applies(books, e.messages, add);
        assert(books.insert(o.symbol_id, e.book).insert(o.symbol_id, settled(e, o))
            =~= books.insert(o.symbol_id, settled(e, o)));
    }
}

/// An amendment that keeps an order's price and makes it smaller leaves every queue as it
/// was; any other puts the order last in the queue of its price.
pub proof fn law_amendment_keeps_priority_or_goes_last(
    m: BookModel,
    id: u64,
    new_price: Option<i64>,
    new_quantity: u32,
)
    requires
        m.wf(),
        m.has(id),
        new_quantity > 0,
    ensures
        ({
            let o = m.orders[id];
            let price = match new_price {
                Some(p) => p,
                None => o.price,
            };
            let msg = amendment(o, new_price, new_quantity).message(0);
            let after = effect(msg, m);
            if price == o.price && new_quantity < o.quantity {
                forall|side: Side, p: i64| #[trigger] after.queue(side, p) == m.queue(side, p)
            } else {
                after.queue(o.side, price).last() == id
            }
        }),
{
    law_replaced_loses_priority(
        m,
        id,
        match new_price {
            Some(p) => p,
            None => m.orders[id].price,
        },
        new_quantity,
    );
    law_reduced_keeps_priority(m, id, new_quantity);
}

/// A change that is published says what the book then holds: an add and a modify give the
/// order's id, side, price and quantity as they are afterwards, a delete the side of an
/// order that was there and is no longer.
pub proof fn law_published_change_says_what_is(books: Map<u16, BookModel>, s: u16, change: Change)
    requires
        books[s].wf(),
        change.outcome(books[s]) is Ok,
        change matches Change::Reduce { order_id, side, price, .. } ==> side
            == books[s].orders[order_id].side && price == books[s].orders[order_id].price,
        change matches Change::Replace { order_id, side, .. } ==> side
            == books[s].orders[order_id].side,
        change matches Change::Delete { order_id, side } ==> side
            == books[s].orders[order_id].side,
    ensures
        ({
            let before = books[s];
            let after = replay_one(books, change.message(s))[s];
            match change.message(s) {
                Message::AddOrder { order_id, price, quantity, symbol_id, side } => {
                    &&& change is Add
                    &&& symbol_id == s
                    &&& !before.has(order_id)
                    &&& after.has(order_id)
                    &&& after.orders[order_id].price == price
                    &&& after.orders[order_id].quantity == quantity
                    &&& side == Some(after.orders[order_id].side)
                },
                Message::ModifyOrder {
                    order_id,
                    new_price,
                    new_quantity,
                    symbol_id,
                    side,
                    reason,
                } => {
                    &&& symbol_id == s
                    &&& before.has(order_id)
                    &&& after.has(order_id)
                    &&& after.orders[order_id].price == new_price
                    &&& after.orders[order_id].quantity == new_quantity
                    &&& side == Some(after.orders[order_id].side)
                    &&& side == Some(before.orders[order_id].side)
                    &&& reason == Some(ModifyReason::Reduce) <==> change is Reduce
                    &&& reason == Some(ModifyReason::Replace) <==> change is Replace
                    &&& change is Reduce ==> after.queue(
                        before.orders[order_id].side,
                        new_price,
                    ) == before.queue(before.orders[order_id].side, new_price)
                    &&& change is Replace ==> after.queue(
                        before.orders[order_id].side,
                        new_price,
                    ).last() == order_id
                },
                Message::DeleteOrder { order_id, symbol_id, side } => {
                    &&& change is Delete
                    &&& symbol_id == s
                    &&& before.has(order_id)
                    &&& !after.has(order_id)
                    &&& side == Some(before.orders[order_id].side)
                },
                Message::Trade { symbol_id, .. } => {
                    &&& change is Trade
                    &&& symbol_id == s
                    &&& after == before
                },
                _ => false,
            }
        }),
{
    let before = books[s];
    match change {
        Change::Add { order_id, side, price, quantity } => {
            law_added_order_goes_last(before, RestingOrder { order_id, price, quantity, side });
        },
        Change::Reduce { order_id, new_quantity, .. } => {
            law_reduced_order_is_only_smaller(before, order_id, new_quantity);
        },
        Change::Replace { order_id, new_price, new_quantity, .. } => {
            law_replaced_order_is_elsewhere(before, order_id, new_price, new_quantity);
        },
        Change::Delete { order_id, .. } => {
            law_removed_order_is_gone(before, order_id);
        },
        Change::Trade { .. } => {},
    }
}

/// A cancel takes the order off its book and publishes that, once; every other order and
/// every other book is as it was. Of an order that is not there nothing comes.
pub proof fn law_cancel_takes_one_order_off(
    e0: Engine,
    f0: FeedModel,
    e1: Engine,
    f1: FeedModel,
    symbol_id: u16,
    id: u64,
)
    requires
        e0.wf(),
        cancel_effect(e0, f0, e1, f1, symbol_id, id),
    ensures
        ({
            let before = e0.model()[symbol_id];
            let after = e1.model()[symbol_id];
            &&& !after.has(id)
            &&& forall|x: u64| x != id ==> (#[trigger] after.has(x) <==> before.has(x))
            &&& forall|x: u64|
                x != id && before.has(x) ==> #[trigger] after.orders[x] == before.orders[x]
            &&& forall|s: u16| s != symbol_id ==> #[trigger] e1.model()[s] == e0.model()[s]
            &&& f1.log == (if before.has(id) {
                f0.log.push(
                    Message::DeleteOrder {
                        order_id: id,
                        symbol_id,
                        side: Some(before.orders[id].side),
                    },
                )
            } else {
                f0.log
            })
            &&& e1.counters().cancels == (if before.has(id) {
                wrapping_add(e0.counters().cancels, 1)
            } else {
                e0.counters().cancels
            })
            &&& e1.counters().trades == e0.counters().trades
            &&& e1.counters().orders_submitted == e0.counters().orders_submitted
            &&& e1.counters().modifies == e0.counters().modifies
            &&& e1.counters().shares_traded == e0.counters().shares_traded
            &&& e1.order_ids() == e0.order_ids()
        }),
{
    e0.lemma_model();
    let before = e0.model()[symbol_id];
    if before.has(id) {
        law_removed_order_is_gone(before, id);
    }
}

/// An amendment gives the order its new price, or leaves it the one it has, and its new
/// quantity, and publishes that, once; the order stays on its side, and every other order
/// and every other book is as it was. It keeps its place only if its price stays and it
/// gets smaller, and otherwise stands last.
pub proof fn law_amendment_changes_one_order(
    e0: Engine,
    f0: FeedModel,
    e1: Engine,
    f1: FeedModel,
    symbol_id: u16,
    id: u64,
    new_price: Option<i64>,
    new_quantity: u32,
)
    requires
        e0.wf(),
        new_quantity > 0,
        amend_effect(e0, f0, e1, f1, symbol_id, id, new_price, new_quantity),
    ensures
        ({
            let before = e0.model()[symbol_id];
            let after = e1.model()[symbol_id];
            let o = before.orders[id];
            let price = match new_price {
                Some(p) => p,
                None => o.price,
            };
            let keeps = price == o.price && new_quantity < o.quantity;
            &&& forall|x: u64| #[trigger] after.has(x) <==> before.has(x)
            &&& forall|x: u64|
                x != id && before.has(x) ==> #[trigger] after.orders[x] == before.orders[x]
            &&& forall|s: u16| s != symbol_id ==> #[trigger] e1.model()[s] == e0.model()[s]
            &&& if before.has(id) {
                &&& after.orders[id].price == price
                &&& after.orders[id].quantity == new_quantity
                &&& after.orders[id].side == o.side
                &&& keeps ==> after.queue(o.side, price) == before.queue(o.side, price)
                &&& !keeps ==> after.queue(o.side, price).last() == id
                &&& f1.log == f0.log.push(
                    Message::ModifyOrder {
                        order_id: id,
                        new_price: price,
                        new_quantity,
                        symbol_id,
                        side: Some(o.side),
                        reason: Some(
                            if keeps {
                                ModifyReason::Reduce
                            } else {
                                ModifyReason::Replace
                            },
                        ),
                    },
                )
                &&& e1.counters().modifies == wrapping_add(e0.counters().modifies, 1)
            } else {
                &&& f1.log == f0.log
                &&& e1.counters().modifies == e0.counters().modifies
            }
            &&& e1.counters().cancels == e0.counters().cancels
            &&& e1.counters().trades == e0.counters().trades
            &&& e1.counters().orders_submitted == e0.counters().orders_submitted
        }),
{
    e0.lemma_model();
    let before = e0.model()[symbol_id];
    if before.has(id) {
        let price = match new_price {
            Some(p) => p,
            None => before.orders[id].price,
        };
        assert(before.orders[id].order_id == id);
        law_reduced_order_is_only_smaller(before, id, new_quantity);
        law_replaced_order_is_elsewhere(before, id, price, new_quantity);
    }
}

/// A checkpoint falls on every sequence that is a multiple of the interval and on no other,
/// in order, and is the digest of the books as they were when that message was published.
pub proof fn law_checkpoints_fall_on_multiples(
    books: Map<u16, BookModel>,
    from: int,
    msgs: Seq<Message>,
    every: u64,
)
    requires
        every > 0,
        0 <= from,
        from + msgs.len() <= u64::MAX,
    ensures
        ({
            let c = checkpoints_of(books, from, msgs, every);
            &&& forall|i: int|
                0 <= i < c.len() ==> {
                    let n = (#[trigger] c[i]).sequence - from;
                    &&& 1 <= n <= msgs.len()
                    &&& c[i].sequence as int % (every as int) == 0
                    &&& c[i].digest == books_digest(replay(books, msgs.take(n)))
                }
            &&& forall|n: int|
                1 <= n <= msgs.len() && #[trigger] ((from + n) % (every as int)) == 0
                    ==> exists|i: int|
                    0 <= i < c.len() && (#[trigger] c[i]).sequence == from + n
            &&& forall|i: int, j: int|
                0 <= i < j < c.len() ==> (#[trigger] c[i]).sequence < (#[trigger] c[j]).sequence
        }),
    decreases msgs.len(),
{
    let c = checkpoints_of(books, from, msgs, every);
    if msgs.len() > 0 {
        let p = msgs.drop_last();
        let b = checkpoints_of(books, from, p, every);
        law_checkpoints_fall_on_multiples(books, from, p, every);
        assert(msgs.take(msgs.len() as int) =~= msgs);
        assert forall|i: int| 0 <= i < c.len() implies {
            let n = (#[trigger] c[i]).sequence - from;
            &&& 1 <= n <= msgs.len()
            &&& c[i].sequence as int % (every as int) == 0
            &&& c[i].digest == books_digest(replay(books, msgs.take(n)))
        } by {
            if i < b.len() {
                assert(c[i] == b[i]);
                let n = b[i].sequence - from;
                assert(msgs.take(n) =~= p.take(n));
            }
        }
        assert forall|n: int|
            1 <= n <= msgs.len() && #[trigger] ((from + n) % (every as int)) == 0 implies exists|
            i: int,
        | 0 <= i < c.len() && (#[trigger] c[i]).sequence == from + n by {
            if n <= p.len() {
                let i = choose|i: int|
                    0 <= i < b.len() && (#[trigger] b[i]).sequence == from + n;
                assert(c[i] == b[i]);
            } else {
                assert(c[c.len() - 1].sequence == from + n);
            }
        }
        assert forall|i: int, j: int| 0 <= i < j < c.len() implies (#[trigger] c[i]).sequence < (
        #[trigger] c[j]).sequence by {
            assert(c[i] == b[i]);
            if j < b.len() {
                assert(c[j] == b[j]);
            }
        }
    }
}

/// Taking an order off a list takes off that one and keeps the others.
pub proof fn law_live_list_loses_one(live: Seq<u64>, id: u64)
    requires
        live.no_duplicates(),
    ensures
        without_live(live, id).no_duplicates(),
        forall|x: u64| #[trigger]
            without_live(live, id).contains(x) <==> live.contains(x) && x != id,
{
    let w = without_live(live, id);
    if live.contains(id) {
        let k = choose|k: int| 0 <= k < live.len() && live[k] == id;
        assert forall|j: int| 0 <= j < k implies live[j] != id by {}
        let i = first_index(live, id);
        assert(0 <= i < live.len() && live[i] == id);
        let n = live.len() - 1;
        assert(w.len() == n);
        assert forall|j: int| 0 <= j < n implies w[j] == (if j == i {
            live[n]
        } else {
            live[j]
        }) by {}
        assert forall|x: u64| #[trigger] w.contains(x) <==> live.contains(x) && x != id by {
            if w.contains(x) {
                let j = choose|j: int| 0 <= j < w.len() && w[j] == x;
                if j == i {
                    assert(live[n] == x);
                    assert(n != i);
                } else {
                    assert(live[j] == x);
                }
            }
            if live.contains(x) && x != id {
                let j = choose|j: int| 0 <= j < live.len() && live[j] == x;
                if j == n {
                    assert(w[i] == x);
                } else {
                    assert(w[j] == x);
                }
            }
        }
        assert forall|a: int, b: int| 0 <= a < w.len() && 0 <= b < w.len() && a != b implies w[a]
            != w[b] by {}
    }
}

/// Every order on the list rests on the book, and none is on it twice.
pub open spec fn list_rests(live: Seq<u64>, m: BookModel) -> bool {
    &&& live.no_duplicates()
    &&& forall|i: int| 0 <= i < live.len() ==> m.has(#[trigger] live[i])
}

proof fn lemma_step_list_rests(m: Matching, o: Incoming)
    requires
        m.book.wf(),
        m.can_trade(o),
        list_rests(m.live, m.book),
    ensures
        list_rests(m.step(o).live, m.step(o).book),
{
    law_front_is_best(m.book, o.side.other());
    let (best, id) = m.book.front(o.side.other())->0;
    let r = m.book.orders[id];
    let n = m.step(o);
    if m.remaining >= r.quantity {
        law_removed_order_is_gone(m.book, id);
        law_live_list_loses_one(m.live, id);
        assert forall|i: int| 0 <= i < n.live.len() implies n.book.has(#[trigger] n.live[i]) by {
            assert(n.live.contains(n.live[i]));
            assert(m.live.contains(n.live[i]));
            let k = choose|k: int| 0 <= k < m.live.len() && m.live[k] == n.live[i];
            assert(m.book.has(m.live[k]));
        }
    } else {
        law_reduced_order_is_only_smaller(m.book, id, (r.quantity - m.remaining) as u32);
    }
}

/// The background orders of a symbol are orders that rest, through whatever is matched: an
/// order that trades away comes off the list, and a background order that rests comes onto
/// it.
pub proof fn law_background_orders_rest(m: Matching, o: Incoming)
    requires
        m.book.wf(),
        list_rests(m.live, m.book),
        !m.book.has(o.order_id),
    ensures
        list_rests(m.matched(o).live, m.matched(o).book),
        m.matched(o).remaining > 0 ==> list_rests(
            m.matched(o).live.push(o.order_id),
            settled(m.matched(o), o),
        ),
    decreases m.remaining,
{
    if m.can_trade(o) {
        lemma_step(m, o);
        lemma_step_list_rests(m, o);
        law_background_orders_rest(m.step(o), o);
    } else if m.remaining > 0 {
        let live = m.live.push(o.order_id);
        assert forall|i: int| 0 <= i < live.len() implies settled(m, o).has(
            #[trigger] live[i],
        ) by {
            if i < m.live.len() {
                assert(m.book.has(m.live[i]));
            }
        }
        assert forall|a: int, b: int|
            0 <= a < live.len() && 0 <= b < live.len() && a != b implies live[a] != live[b] by {
            if a < m.live.len() {
                assert(m.book.has(m.live[a]));
            }
            if b < m.live.len() {
                assert(m.book.has(m.live[b]));
            }
        }
    }
}

} // verus!
