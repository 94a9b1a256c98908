//! What the messages of a submitted order say of its trades.
//!
//! Each trade is told three times: in the message that is published, in the fill that the
//! aggressor is told of, and in the change to the resting order that follows. The laws
//! here hold the three against each other and against the book that the order met.

use crate::apply::{replay, replay_one, symbol_of};
use crate::engine::{
    checkpoints_of, incoming, is_symbol, lemma_same_symbols, live_of, matching_end,
    matching_start, partway, stopped_at, submit_effect, submit_messages, submit_stopped,
    AggressorFill, Checkpoint, Engine, EngineError, Incoming, Matching, PassiveFill,
};
use crate::feed::FeedModel;
use crate::message::{Message, ModifyReason, Side};
use crate::model::{
    law_front_is_best, law_reduced_keeps_priority, law_removed_wf, lemma_index_of, BookModel,
};
use crate::priority::{
    law_background_orders_rest, law_published_messages_apply, list_rests, settled, traded,
};
use vstd::prelude::*;
use vstd::wrapping::u64_specs::wrapping_add;

verus! {

/// A limit of `price` on `side` reaches `at`.
pub open spec fn within_limit(side: Side, price: i64, at: i64) -> bool {
    (side == Side::Bid && at <= price) || (side == Side::Ask && at >= price)
}

/// `a` is no better than `b` for someone who trades against the resting `side`.
pub open spec fn no_better(side: Side, a: i64, b: i64) -> bool {
    (side == Side::Bid && a <= b) || (side == Side::Ask && a >= b)
}

/// What a trade and the change after it do to a book: the first `taken` of the order at the
/// front of the queue at `price` are gone, with the order where that is all of it, and
/// everything else is as it was.
pub open spec fn taken_from(
    before: BookModel,
    after: BookModel,
    side: Side,
    price: i64,
    id: u64,
    taken: u32,
) -> bool {
    &&& forall|x: u64| x != id ==> (#[trigger] after.has(x) <==> before.has(x))
    &&& forall|x: u64| x != id && before.has(x) ==> #[trigger] after.orders[x] == before.orders[x]
    &&& forall|s: Side, p: i64|
        !(s == side && p == price) ==> #[trigger] after.queue(s, p) == before.queue(s, p)
    &&& if taken < before.orders[id].quantity {
        &&& after.has(id)
        &&& after.orders[id].quantity == before.orders[id].quantity - taken
        &&& after.orders[id].price == price
        &&& after.orders[id].side == side
        &&& after.queue(side, price) == before.queue(side, price)
    } else {
        &&& !after.has(id)
        &&& after.queue(side, price) == before.queue(side, price).drop_first()
    }
}

/// One trade is told right: `msg` and `change` were published of it, and `fill` was told to
/// the aggressor, who still wanted so much.
pub open spec fn told_right(
    before: BookModel,
    after: BookModel,
    o: Incoming,
    wanted: int,
    number: int,
    msg: Message,
    change: Message,
    fill: AggressorFill,
) -> bool {
    let other = if o.side == Side::Bid {
        Side::Ask
    } else {
        Side::Bid
    };
    msg matches Message::Trade {
        trade_id,
        aggressor_order_id,
        resting_order_id,
        price,
        quantity: taken,
        symbol_id,
        aggressor_side,
    } && {
        let rested = before.orders[resting_order_id];
        // Whose trade it is.
        &&& aggressor_order_id == o.order_id
        &&& symbol_id == o.symbol_id
        &&& aggressor_side == Some(o.side)
        &&& trade_id == number
        // It takes what there is of what is wanted, and no more.
        &&& 0 < taken
        &&& taken <= rested.quantity
        &&& taken <= wanted
        &&& taken == rested.quantity || taken == wanted
        // The aggressor is told the same.
        &&& fill.trade_id == trade_id
        &&& fill.price == price
        &&& fill.quantity == taken
        &&& fill.leaves == wanted - taken
        // It is with the order that came first at the best price, at its price, which the
        // limit reaches.
        &&& before.has(resting_order_id)
        &&& rested.side == other
        &&& rested.price == price
        &&& within_limit(o.side, o.price, price)
        &&& before.queue(other, price).len() > 0
        &&& before.queue(other, price)[0] == resting_order_id
        &&& forall|p: i64|
            (#[trigger] before.queue(other, p)).len() > 0 ==> no_better(other, p, price)
        // The change that follows takes the resting order down by as much.
        &&& taken_from(before, after, other, price, resting_order_id, taken)
        &&& if taken < rested.quantity {
            change == (Message::ModifyOrder {
                order_id: resting_order_id,
                new_price: price,
                new_quantity: (rested.quantity - taken) as u32,
                symbol_id: o.symbol_id,
                side: Some(other),
                reason: Some(ModifyReason::Reduce),
            })
        } else {
            change == (Message::DeleteOrder {
                order_id: resting_order_id,
                symbol_id: o.symbol_id,
                side: Some(other),
            })
        }
    }
}

/// The trade at `i` of an order is told right. `books` are the books that the order met,
/// and `msgs` what it published: a trade and a change for each fill.
#[verifier::opaque]
pub open spec fn trade_is_told(
    books: Map<u16, BookModel>,
    o: Incoming,
    quantity: int,
    first_trade: int,
    msgs: Seq<Message>,
    fills: Seq<AggressorFill>,
    i: int,
) -> bool {
    told_right(
        replay(books, msgs.take(2 * i))[o.symbol_id],
        replay(books, msgs.take(2 * i + 2))[o.symbol_id],
        o,
        quantity - traded(fills.take(i)),
        first_trade + i,
        msgs[2 * i],
        msgs[2 * i + 1],
        fills[i],
    )
}

/// `f` tells the owner of a resting order of a trade.
pub open spec fn owner_told_right(
    before: BookModel,
    symbol_id: u16,
    msg: Message,
    f: PassiveFill,
) -> bool {
    msg matches Message::Trade {
        trade_id,
        resting_order_id,
        price,
        quantity: taken,
        ..
    } && {
        &&& f.resting_order_id == resting_order_id
        &&& f.trade_id == trade_id
        &&& f.price == price
        &&& f.quantity == taken
        &&& f.leaves == before.orders[resting_order_id].quantity - taken
        &&& f.symbol_id == symbol_id
        &&& f.side == before.orders[resting_order_id].side
    }
}

/// `f` tells the owner of the resting order of the trade at `i`.
#[verifier::opaque]
pub open spec fn owner_is_told(
    books: Map<u16, BookModel>,
    symbol_id: u16,
    msgs: Seq<Message>,
    f: PassiveFill,
    i: int,
) -> bool {
    owner_told_right(replay(books, msgs.take(2 * i))[symbol_id], symbol_id, msgs[2 * i], f)
}

/// The resting order of a trade.
pub open spec fn rested_in(msg: Message) -> u64 {
    msg->Trade_resting_order_id
}

/// Someone is told of the trade at `i`.
pub open spec fn is_told_of(
    books: Map<u16, BookModel>,
    symbol_id: u16,
    msgs: Seq<Message>,
    passive: Seq<PassiveFill>,
    i: int,
) -> bool {
    exists|j: int|
        0 <= j < passive.len() && owner_is_told(books, symbol_id, msgs, #[trigger] passive[j], i)
}

/// `f` tells of one of the first `n` trades.
pub open spec fn tells_of_one(
    books: Map<u16, BookModel>,
    symbol_id: u16,
    msgs: Seq<Message>,
    f: PassiveFill,
    n: int,
) -> bool {
    exists|i: int| 0 <= i < n && #[trigger] owner_is_told(books, symbol_id, msgs, f, i)
}

/// The owners who asked for it are told of the first `n` trades, in order, and nobody is
/// told of anything else.
pub open spec fn owners_are_told(
    books: Map<u16, BookModel>,
    o: Incoming,
    msgs: Seq<Message>,
    passive: Seq<PassiveFill>,
    n: int,
) -> bool {
    &&& forall|i: int|
        0 <= i < n && o.watched.contains(rested_in(msgs[2 * i])) ==> #[trigger] is_told_of(
            books,
            o.symbol_id,
            msgs,
            passive,
            i,
        )
    &&& forall|j: int|
        0 <= j < passive.len() ==> o.watched.contains((#[trigger] passive[j]).resting_order_id)
            && tells_of_one(books, o.symbol_id, msgs, passive[j], n)
    &&& forall|j: int, k: int|
        0 <= j < k < passive.len() ==> (#[trigger] passive[j]).trade_id < (
        #[trigger] passive[k]).trade_id
}

/// What holds of an order on its way through the book, which it met with `books`.
spec fn under_way(
    books: Map<u16, BookModel>,
    o: Incoming,
    quantity: int,
    first_trade: int,
    m: Matching,
) -> bool {
    &&& m.book.wf()
    &&& replay(books, m.messages) == books.insert(o.symbol_id, m.book)
    &&& m.messages.len() == 2 * m.fills.len()
    &&& traded(m.fills) + m.remaining == quantity
    &&& m.fills.len() <= traded(m.fills)
    &&& m.next_trade == first_trade + m.fills.len()
    &&& m.shares == traded(m.fills)
    &&& forall|i: int|
        0 <= i < m.fills.len() ==> #[trigger] trade_is_told(
            books,
            o,
            quantity,
            first_trade,
            m.messages,
            m.fills,
            i,
        )
    &&& owners_are_told(books, o, m.messages, m.passive, m.fills.len() as int)
    &&& forall|j: int|
        0 <= j < m.passive.len() ==> (#[trigger] m.passive[j]).trade_id < m.next_trade
}

/// What was told of an earlier trade is still told when more has been published.
proof fn lemma_still_told(
    books: Map<u16, BookModel>,
    o: Incoming,
    quantity: int,
    first_trade: int,
    a: Seq<Message>,
    b: Seq<Message>,
    f: Seq<AggressorFill>,
    g: Seq<AggressorFill>,
    i: int,
)
    requires
        0 <= i < f.len(),
        a.len() == 2 * f.len(),
        a.len() <= b.len(),
        f.len() <= g.len(),
        b.take(a.len() as int) == a,
        g.take(f.len() as int) == f,
    ensures
        trade_is_told(books, o, quantity, first_trade, a, f, i) == trade_is_told(
            books,
            o,
            quantity,
            first_trade,
            b,
            g,
            i,
        ),
        forall|p: PassiveFill|
            owner_is_told(books, o.symbol_id, a, p, i) == #[trigger] owner_is_told(
                books,
                o.symbol_id,
                b,
                p,
                i,
            ),
        a[2 * i] == b[2 * i],
{
    reveal(trade_is_told);
    reveal(owner_is_told);
    assert(b.take(2 * i) =~= a.take(2 * i));
    assert(b.take(2 * i + 2) =~= a.take(2 * i + 2));
    assert(b.take(a.len() as int)[2 * i] == b[2 * i]);
    assert(b.take(a.len() as int)[2 * i + 1] == b[2 * i + 1]);
    assert(g.take(i) =~= f.take(i));
    assert(g.take(f.len() as int)[i] == g[i]);
}

/// One trade with the front of a book.
proof fn lemma_front_taken(m: Matching, o: Incoming)
    requires
        m.book.wf(),
        m.can_trade(o),
    ensures
        m.book.front(o.side.other()) matches Some((best, id)) && {
            &&& m.step(o).book.wf()
            &&& taken_from(
                m.book,
                m.step(o).book,
                o.side.other(),
                best,
                id,
                m.step(o).fills.last().quantity,
            )
        },
{
    let other = o.side.other();
    law_front_is_best(m.book, other);
    let (best, id) = m.book.front(other)->0;
    let r = m.book.orders[id];
    let n = m.step(o);
    let q = m.book.queue(other, best);
    if m.remaining < r.quantity {
        law_reduced_keeps_priority(m.book, id, (r.quantity - m.remaining) as u32);
    } else {
        law_removed_wf(m.book, id);
        lemma_index_of(q, 0);
        assert(q.remove(0) =~= q.drop_first());
    }
}

/// One more trade is told right.
proof fn lemma_step_told(
    books: Map<u16, BookModel>,
    o: Incoming,
    quantity: int,
    first_trade: int,
    m: Matching,
)
    requires
        books.dom().contains(o.symbol_id),
        under_way(books, o, quantity, first_trade, m),
        m.can_trade(o),
        first_trade + quantity < u64::MAX,
    ensures
        trade_is_told(
            books,
            o,
            quantity,
            first_trade,
            m.step(o).messages,
            m.step(o).fills,
            m.fills.len() as int,
        ),
        replay(books, m.step(o).messages) == books.insert(o.symbol_id, m.step(o).book),
        m.step(o).book.wf(),
        m.step(o).messages.take(m.messages.len() as int) == m.messages,
        m.step(o).fills.take(m.fills.len() as int) == m.fills,
        traded(m.step(o).fills) == traded(m.fills) + m.step(o).fills.last().quantity,
        0 < m.step(o).fills.last().quantity,
        m.step(o).passive == m.passive || (m.step(o).passive.len() == m.passive.len() + 1
            && m.step(o).passive.drop_last() == m.passive && owner_is_told(
            books,
            o.symbol_id,
            m.step(o).messages,
            m.step(o).passive.last(),
            m.fills.len() as int,
        ) && m.step(o).passive.last().trade_id == m.next_trade && o.watched.contains(
            m.step(o).passive.last().resting_order_id,
        )),
        o.watched.contains(rested_in(m.step(o).messages[2 * (m.fills.len() as int)])) ==> m.step(
            o,
        ).passive.len() > m.passive.len(),
{
    reveal(owner_is_told);
    reveal(trade_is_told);
    let other = o.side.other();
    let k = m.fills.len() as int;
    let n = m.step(o);
    let all = n.messages;
    law_front_is_best(m.book, other);
    lemma_front_taken(m, o);
    let (best, id) = m.book.front(other)->0;
    let r = m.book.orders[id];
    let one = m.messages.push(all[2 * k]);
    assert(all.take(2 * k) =~= m.messages);
    assert(all.take(2 * k + 2) =~= all);
    assert(all.drop_last() =~= one);
    assert(one.drop_last() =~= m.messages);
    assert(replay(books, one) == replay_one(replay(books, m.messages), all[2 * k]));
    assert(symbol_of(all[2 * k]) is None);
    assert(replay(books, all) == replay_one(replay(books, one), all[2 * k + 1]));
    assert(books.insert(o.symbol_id, m.book).insert(o.symbol_id, n.book) =~= books.insert(
        o.symbol_id,
        n.book,
    ));
    assert(n.fills.take(k) =~= m.fills);
    assert(n.fills.drop_last() =~= m.fills);
    if o.watched.contains(id) {
        assert(n.passive.drop_last() =~= m.passive);
    }
    let before = replay(books, all.take(2 * k))[o.symbol_id];
    assert(before == m.book);
    assert forall|p: i64| (#[trigger] before.queue(other, p)).len() > 0 implies no_better(
        other,
        p,
        best,
    ) by {
        assert(m.book.queue(other, p).len() > 0);
    }
}

proof fn lemma_step_under_way(
    books: Map<u16, BookModel>,
    o: Incoming,
    quantity: int,
    first_trade: int,
    m: Matching,
)
    requires
        books.dom().contains(o.symbol_id),
        under_way(books, o, quantity, first_trade, m),
        m.can_trade(o),
        first_trade + quantity < u64::MAX,
    ensures
        under_way(books, o, quantity, first_trade, m.step(o)),
{
    let n = m.step(o);
    let k = m.fills.len() as int;
    lemma_step_told(books, o, quantity, first_trade, m);
    law_front_is_best(m.book, o.side.other());
    if n.passive != m.passive {
        assert(n.passive =~= m.passive.push(n.passive.last()));
    }
    assert forall|i: int| 0 <= i < n.fills.len() implies #[trigger] trade_is_told(
        books,
        o,
        quantity,
        first_trade,
        n.messages,
        n.fills,
        i,
    ) by {
        if i < k {
            assert(trade_is_told(books, o, quantity, first_trade, m.messages, m.fills, i));
            lemma_still_told(
                books,
                o,
                quantity,
                first_trade,
                m.messages,
                n.messages,
                m.fills,
                n.fills,
                i,
            );
        }
    }
    assert forall|i: int|
        0 <= i < n.fills.len() && o.watched.contains(
            rested_in(n.messages[2 * i]),
        ) implies #[trigger] is_told_of(books, o.symbol_id, n.messages, n.passive, i) by {
        if i < k {
            lemma_still_told(
                books,
                o,
                quantity,
                first_trade,
                m.messages,
                n.messages,
                m.fills,
                n.fills,
                i,
            );
            assert(is_told_of(books, o.symbol_id, m.messages, m.passive, i));
            let j = choose|j: int|
                0 <= j < m.passive.len() && owner_is_told(
                    books,
                    o.symbol_id,
                    m.messages,
                    #[trigger] m.passive[j],
                    i,
                );
            assert(n.passive[j] == m.passive[j]);
            assert(owner_is_told(books, o.symbol_id, n.messages, n.passive[j], i));
        } else {
            assert(owner_is_told(books, o.symbol_id, n.messages, n.passive.last(), i));
            assert(n.passive[n.passive.len() - 1] == n.passive.last());
        }
    }
    assert forall|j: int| 0 <= j < n.passive.len() implies o.watched.contains(
        (#[trigger] n.passive[j]).resting_order_id,
    ) && tells_of_one(books, o.symbol_id, n.messages, n.passive[j], n.fills.len() as int) by {
        if j < m.passive.len() {
            assert(n.passive[j] == m.passive[j]);
            assert(tells_of_one(books, o.symbol_id, m.messages, m.passive[j], k));
            let i = choose|i: int|
                0 <= i < k && #[trigger] owner_is_told(
                    books,
                    o.symbol_id,
                    m.messages,
                    m.passive[j],
                    i,
                );
            lemma_still_told(
                books,
                o,
                quantity,
                first_trade,
                m.messages,
                n.messages,
                m.fills,
                n.fills,
                i,
            );
            assert(owner_is_told(books, o.symbol_id, n.messages, n.passive[j], i));
        } else {
            assert(owner_is_told(books, o.symbol_id, n.messages, n.passive[j], k));
        }
    }
    assert forall|j: int, l: int| 0 <= j < l < n.passive.len() implies (
    #[trigger] n.passive[j]).trade_id < (#[trigger] n.passive[l]).trade_id by {
        assert(n.passive[j] == m.passive[j]);
        if l < m.passive.len() {
            assert(n.passive[l] == m.passive[l]);
        }
    }
    assert forall|j: int| 0 <= j < n.passive.len() implies (#[trigger] n.passive[j]).trade_id
        < n.next_trade by {
        if j < m.passive.len() {
            assert(n.passive[j] == m.passive[j]);
        }
    }
}

proof fn lemma_matched_under_way(
    books: Map<u16, BookModel>,
    o: Incoming,
    quantity: int,
    first_trade: int,
    m: Matching,
)
    requires
        books.dom().contains(o.symbol_id),
        under_way(books, o, quantity, first_trade, m),
        first_trade + quantity < u64::MAX,
    ensures
        under_way(books, o, quantity, first_trade, m.matched(o)),
        !m.matched(o).can_trade(o),
    decreases m.remaining,
{
    if m.can_trade(o) {
        law_front_is_best(m.book, o.side.other());
        lemma_step_under_way(books, o, quantity, first_trade, m);
        lemma_matched_under_way(books, o, quantity, first_trade, m.step(o));
    }
}

/// The owners are still told when more has been published.
proof fn lemma_owners_still_told(
    books: Map<u16, BookModel>,
    o: Incoming,
    q: int,
    t: int,
    m: Matching,
    msgs: Seq<Message>,
)
    requires
        under_way(books, o, q, t, m),
        m.messages.len() <= msgs.len(),
        msgs.take(m.messages.len() as int) == m.messages,
    ensures
        owners_are_told(books, o, msgs, m.passive, m.fills.len() as int),
{
    let n = m.fills.len() as int;
    assert(m.fills.take(n) =~= m.fills);
    assert forall|i: int|
        0 <= i < n && o.watched.contains(
            rested_in(msgs[2 * i]),
        ) implies #[trigger] is_told_of(books, o.symbol_id, msgs, m.passive, i) by {
        lemma_still_told(books, o, q, t, m.messages, msgs, m.fills, m.fills, i);
        assert(is_told_of(books, o.symbol_id, m.messages, m.passive, i));
        let j = choose|j: int|
            0 <= j < m.passive.len() && owner_is_told(
                books,
                o.symbol_id,
                m.messages,
                #[trigger] m.passive[j],
                i,
            );
        assert(owner_is_told(books, o.symbol_id, msgs, m.passive[j], i));
    }
    assert forall|j: int| 0 <= j < m.passive.len() implies o.watched.contains(
        (#[trigger] m.passive[j]).resting_order_id,
    ) && tells_of_one(books, o.symbol_id, msgs, m.passive[j], n) by {
        assert(tells_of_one(books, o.symbol_id, m.messages, m.passive[j], n));
        let i = choose|i: int|
            0 <= i < n && #[trigger] owner_is_told(
                books,
                o.symbol_id,
                m.messages,
                m.passive[j],
                i,
            );
        lemma_still_told(books, o, q, t, m.messages, msgs, m.fills, m.fills, i);
        assert(owner_is_told(books, o.symbol_id, msgs, m.passive[j], i));
    }
}

/// How much the trades among some messages come to.
pub open spec fn shares_in(msgs: Seq<Message>) -> int
    decreases msgs.len(),
{
    if msgs.len() == 0 {
        0
    } else {
        shares_in(msgs.drop_last()) + match msgs.last() {
            Message::Trade { quantity, .. } => quantity as int,
            _ => 0,
        }
    }
}

proof fn lemma_shares(
    books: Map<u16, BookModel>,
    o: Incoming,
    quantity: int,
    first_trade: int,
    msgs: Seq<Message>,
    fills: Seq<AggressorFill>,
    k: int,
)
    requires
        0 <= k <= fills.len(),
        2 * fills.len() <= msgs.len(),
        forall|i: int|
            0 <= i < fills.len() ==> #[trigger] trade_is_told(
                books,
                o,
                quantity,
                first_trade,
                msgs,
                fills,
                i,
            ),
    ensures
        shares_in(msgs.take(2 * k)) == traded(fills.take(k)),
    decreases k,
{
    if k > 0 {
        lemma_shares(books, o, quantity, first_trade, msgs, fills, k - 1);
        assert(trade_is_told(books, o, quantity, first_trade, msgs, fills, k - 1));
        reveal(trade_is_told);
        let two = msgs.take(2 * k);
        assert(two.drop_last() =~= msgs.take(2 * k - 1));
        assert(two.drop_last().drop_last() =~= msgs.take(2 * k - 2));
        assert(two.last() == msgs[2 * (k - 1) + 1]);
        assert(two.drop_last().last() == msgs[2 * (k - 1)]);
        assert(shares_in(two) == shares_in(two.drop_last()));
        assert(fills.take(k).drop_last() =~= fills.take(k - 1));
    } else {
        assert(msgs.take(0) =~= Seq::<Message>::empty());
        assert(fills.take(0) =~= Seq::<AggressorFill>::empty());
    }
}

/// What the messages, the fills and what is left of a submitted order have to do with one
/// another and with the books it met.
pub open spec fn submission_is_told(
    books: Map<u16, BookModel>,
    o: Incoming,
    quantity: u32,
    first_trade: u64,
    msgs: Seq<Message>,
    fills: Seq<AggressorFill>,
    resting: u32,
) -> bool {
    let n = fills.len() as int;
    let after = replay(books, msgs)[o.symbol_id];
    // A trade and a change for each fill, and an add if anything rests.
    &&& msgs.len() == 2 * n + (if resting > 0 {
        1int
    } else {
        0
    })
    &&& forall|i: int|
        0 <= i < n ==> #[trigger] trade_is_told(
            books,
            o,
            quantity as int,
            first_trade as int,
            msgs,
            fills,
            i,
        )
    // The trades that were published and what rests make up what was submitted.
    &&& shares_in(msgs) + resting == quantity
    &&& traded(fills) + resting == quantity
    // What rests is the rest of the order, at its own price, behind all there.
    &&& resting > 0 ==> {
        &&& msgs.last() == (Message::AddOrder {
            order_id: o.order_id,
            price: o.price,
            quantity: resting,
            symbol_id: o.symbol_id,
            side: Some(o.side),
        })
        &&& after.has(o.order_id)
        &&& after.orders[o.order_id].order_id == o.order_id
        &&& after.orders[o.order_id].side == o.side
        &&& after.orders[o.order_id].price == o.price
        &&& after.orders[o.order_id].quantity == resting
        &&& after.queue(o.side, o.price).len() > 0
        &&& after.queue(o.side, o.price).last() == o.order_id
    }
    // It rests only where there is nothing left that it could have traded with.
    &&& resting > 0 ==> forall|s: Side, p: i64|
        s != o.side && (#[trigger] after.queue(s, p)).len() > 0 ==> !within_limit(
            o.side,
            o.price,
            p,
        )
}

proof fn lemma_submission_told(
    books: Map<u16, BookModel>,
    o: Incoming,
    quantity: u32,
    first_trade: u64,
    m: Matching,
)
    requires
        under_way(books, o, quantity as int, first_trade as int, m),
        !m.can_trade(o),
    ensures
        submission_is_told(
            books,
            o,
            quantity,
            first_trade,
            submit_messages(m, o),
            m.fills,
            m.remaining,
        ),
        shares_in(submit_messages(m, o)) == m.shares,
{
    let q = quantity as int;
    let t = first_trade as int;
    let msgs = submit_messages(m, o);
    let n = m.fills.len() as int;
    assert(msgs.take(2 * n) =~= m.messages);
    assert(m.fills.take(n) =~= m.fills);
    assert forall|i: int| 0 <= i < n implies #[trigger] trade_is_told(
        books,
        o,
        q,
        t,
        msgs,
        m.fills,
        i,
    ) by {
        assert(trade_is_told(books, o, q, t, m.messages, m.fills, i));
        lemma_still_told(books, o, q, t, m.messages, msgs, m.fills, m.fills, i);
    }
    lemma_shares(books, o, q, t, msgs, m.fills, n);
    law_front_is_best(m.book, o.side.other());
    let after = replay(books, msgs)[o.symbol_id];
    if m.remaining > 0 {
        assert(msgs.drop_last() =~= m.messages);
        assert forall|s: Side, p: i64|
            s != o.side && (#[trigger] after.queue(s, p)).len() > 0 implies !within_limit(
            o.side,
            o.price,
            p,
        ) by {
            assert(s == o.side.other());
            assert(after.queue(s, p) == m.book.queue(s, p));
        }
    } else {
        assert(msgs =~= m.messages);
    }
}

/// Every trade of a submitted order is told as it was: the message that is published, the
/// fill that the aggressor is told of and the change to the resting order all say the same
/// quantity, which is no more than either side had, and the quantities that were published
/// and what rests add up to what was submitted. Whoever watches a resting order is told of
/// each trade of it, and of nothing else. The engine counts what was published.
pub proof fn law_trades_say_what_was_traded(
    e0: Engine,
    f0: FeedModel,
    e1: Engine,
    f1: FeedModel,
    symbol_id: u16,
    side: Side,
    price: i64,
    quantity: u32,
    background: bool,
)
    requires
        e0.wf(),
        e0.trade_ids() + quantity < u64::MAX,
        submit_effect(e0, f0, e1, f1, symbol_id, side, price, quantity, background),
    ensures
        ({
            let o = Incoming {
                order_id: e0.order_ids(),
                symbol_id,
                side,
                price,
                watched: e0.watching(),
            };
            let m = matching_end(e0, symbol_id, side, price, quantity);
            let msgs = f1.log.skip(f0.log.len() as int);
            let told = e1.passive_fills().skip(e0.passive_fills().len() as int);
            let trades = m.fills.len() as int;
            &&& submission_is_told(
                e0.model(),
                o,
                quantity,
                e0.trade_ids(),
                msgs,
                m.fills,
                m.remaining,
            )
            &&& owners_are_told(e0.model(), o, msgs, told, trades)
            &&& e1.model() == replay(e0.model(), msgs)
            &&& forall|s: u16| s != symbol_id ==> #[trigger] e1.model()[s] == e0.model()[s]
            &&& e1.trade_ids() == e0.trade_ids() + trades
            &&& e1.counters().trades == wrapping_add(e0.counters().trades, trades as u64)
            &&& e1.counters().shares_traded == wrapping_add(
                e0.counters().shares_traded,
                shares_in(msgs) as u64,
            )
            &&& e1.counters().orders_submitted == wrapping_add(e0.counters().orders_submitted, 1)
            &&& e1.counters().aggressive_fills == (if trades > 0 {
                wrapping_add(e0.counters().aggressive_fills, 1)
            } else {
                e0.counters().aggressive_fills
            })
            &&& e1.counters().cancels == e0.counters().cancels
            &&& e1.counters().modifies == e0.counters().modifies
            &&& e1.order_ids() == e0.order_ids() + 1
        }),
{
    let books = e0.model();
    let o = incoming(e0, symbol_id, side, price);
    let s = matching_start(e0, symbol_id, quantity);
    let m = matching_end(e0, symbol_id, side, price, quantity);
    let q = quantity as int;
    let t = e0.trade_ids() as int;
    e0.lemma_model();
    assert(books.insert(symbol_id, s.book) =~= books);
    assert(s.fills.len() == 0 && s.passive.len() == 0 && s.messages.len() == 0);
    assert(under_way(books, o, q, t, s));
    lemma_matched_under_way(books, o, q, t, s);
    lemma_submission_told(books, o, quantity, e0.trade_ids(), m);
    let msgs = submit_messages(m, o);
    let n = m.fills.len() as int;
    assert(f1.log.skip(f0.log.len() as int) =~= msgs);
    assert(e1.passive_fills().skip(e0.passive_fills().len() as int) =~= m.passive);
    if m.remaining > 0 {
        assert(msgs.drop_last() =~= m.messages);
    }
    assert(msgs.take(2 * n) =~= m.messages);
    lemma_owners_still_told(books, o, q, t, m, msgs);
    assert forall|x: u16| x != symbol_id implies #[trigger] e1.model()[x] == books[x] by {}
}

/// An order that was stopped on its way had published a beginning of what it would have
/// published: the books are those that the beginning comes to, or with the one message that
/// did not fit a datagram, and nothing of another symbol has changed.
pub proof fn law_stopped_order_published_a_beginning(
    e0: Engine,
    f0: FeedModel,
    e1: Engine,
    f1: FeedModel,
    symbol_id: u16,
    side: Side,
    price: i64,
    quantity: u32,
    every: u64,
    error: EngineError,
    checkpoints: Seq<Checkpoint>,
)
    requires
        submit_stopped(
            e0,
            f0,
            e1,
            f1,
            symbol_id,
            side,
            price,
            quantity,
            every,
            error,
            checkpoints,
        ),
    ensures
        ({
            let all = submit_messages(
                matching_end(e0, symbol_id, side, price, quantity),
                incoming(e0, symbol_id, side, price),
            );
            let n = f1.log.len() - f0.log.len();
            &&& 0 <= n < all.len()
            &&& f1.log == f0.log + all.take(n)
            &&& error is Feed ==> e1.model() == replay(e0.model(), all.take(n + 1))
                && f0.sizes.packet_header + f0.sizes.of(all[n]) > f0.max_bytes
            &&& error is Book ==> e1.model() == replay(e0.model(), all.take(n)) && all[n] is AddOrder
            &&& e1.order_ids() == e0.order_ids() + 1
            &&& e1.watching() == e0.watching()
            &&& checkpoints == checkpoints_of(
                e0.model(),
                f0.log.len() as int,
                all.take(n),
                every,
            )
        }),
{
    let all = submit_messages(
        matching_end(e0, symbol_id, side, price, quantity),
        incoming(e0, symbol_id, side, price),
    );
    let (k, c) = choose|k: int, c: Matching|
        {
            &&& #[trigger] stopped_at(e0.model(), f0, all, k, e1.model(), f1, error)
            &&& #[trigger] partway(e0, e1, symbol_id, side, price, quantity, c)
            &&& c.messages.len() <= k <= c.messages.len() + 1
            &&& checkpoints == checkpoints_of(
                e0.model(),
                f0.log.len() as int,
                all.take(k),
                every,
            )
        };
    assert(stopped_at(e0.model(), f0, all, k, e1.model(), f1, error));
    assert(f1.log.len() - f0.log.len() == k);
}

/// The background flow of a symbol knows the orders it may cancel or amend: they all rest,
/// an order of the flow that comes to rest is among them, and one of a strategy is not.
pub proof fn law_background_flow_knows_its_orders(
    e0: Engine,
    f0: FeedModel,
    e1: Engine,
    f1: FeedModel,
    symbol_id: u16,
    side: Side,
    price: i64,
    quantity: u32,
    background: bool,
)
    requires
        e0.wf(),
        e0.ids_issued(),
        exists|i: int| is_symbol(e0.symbol_list(), symbol_id, i),
        list_rests(live_of(e0.symbol_list(), symbol_id), e0.model()[symbol_id]),
        submit_effect(e0, f0, e1, f1, symbol_id, side, price, quantity, background),
        e0.trade_ids() + quantity < u64::MAX,
    ensures
        ({
            let live = live_of(e1.symbol_list(), symbol_id);
            let book = e1.model()[symbol_id];
            &&& list_rests(live, book)
            &&& book.has(e0.order_ids()) && background <==> live.contains(e0.order_ids())
        }),
{
    let o = incoming(e0, symbol_id, side, price);
    let s = matching_start(e0, symbol_id, quantity);
    let m = matching_end(e0, symbol_id, side, price, quantity);
    e0.lemma_model();
    assert(!e0.model()[symbol_id].has(o.order_id));
    law_background_orders_rest(s, o);
    law_trades_say_what_was_traded(e0, f0, e1, f1, symbol_id, side, price, quantity, background);
    law_published_messages_apply(e0.model(), s, o);
    let msgs = submit_messages(m, o);
    assert(e1.model()[symbol_id] == settled(m, o));
    let live = if background && m.remaining > 0 {
        m.live.push(o.order_id)
    } else {
        m.live
    };
    lemma_same_symbols(e0.symbol_list(), e1.symbol_list(), symbol_id, live);
    lemma_matched_book_is_older(s, o);
    assert(!m.book.has(o.order_id));
    if m.remaining > 0 {
        assert forall|i: int| 0 <= i < m.live.len() implies settled(m, o).has(
            #[trigger] m.live[i],
        ) by {
            assert(m.book.has(m.live[i]));
        }
    }
    assert(!m.live.contains(o.order_id)) by {
        if m.live.contains(o.order_id) {
            let k = choose|k: int| 0 <= k < m.live.len() && m.live[k] == o.order_id;
            assert(m.book.has(m.live[k]));
        }
    }
    if background && m.remaining > 0 {
        assert(live[live.len() - 1] == o.order_id);
    }
}

/// Matching brings no order onto the book.
proof fn lemma_matched_book_is_older(m: Matching, o: Incoming)
    requires
        m.book.wf(),
    ensures
        forall|id: u64| #[trigger] m.matched(o).book.has(id) ==> m.book.has(id),
    decreases m.remaining,
{
    if m.can_trade(o) {
        law_front_is_best(m.book, o.side.other());
        lemma_front_taken(m, o);
        lemma_matched_book_is_older(m.step(o), o);
        assert forall|id: u64| #[trigger] m.matched(o).book.has(id) implies m.book.has(id) by {
            assert(m.step(o).matched(o).book.has(id));
            assert(m.step(o).book.has(id));
        }
    }
}

} // verus!
