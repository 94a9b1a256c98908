//! Applying the feed to a set of books.

use crate::message::{Message, ModifyReason, Side, Snapshot, SnapshotOrder};
use crate::model::{
    add_outcome, delete_outcome, law_added_order_goes_last, law_added_wf,
    law_reduced_order_is_only_smaller, law_removed_order_is_gone, law_replaced_order_is_elsewhere,
    reduce_outcome, replace_outcome, BookError, BookModel, RestingOrder,
};
use crate::space::Space;
use crate::view::{models, BookSet, OrderBook};
use vstd::prelude::*;

verus! {

/// A field of a message holds a value that is not defined.
#[derive(Debug, Clone, Copy, PartialEq, Eq, Structural)]
pub enum WireError {
    UndefinedSide,
    UndefinedReason,
}

/// Why a message could not be applied.
#[derive(Debug, Clone, Copy, PartialEq, Eq, Structural)]
pub enum ApplyError {
    /// The book refused it.
    Book { symbol_id: u16, error: BookError },
    /// What it says is not defined.
    Wire(WireError),
    /// A snapshot fragment holds an order that is on the book already: the cycle was
    /// not begun by emptying the book.
    SnapshotOverlap { symbol_id: u16, order_id: u64 },
}

/// A book's answer, as that of its symbol.
pub open spec fn answer(symbol_id: u16, r: Result<(), BookError>) -> Result<(), ApplyError> {
    match r {
        Ok(()) => Ok(()),
        Err(error) => Err(ApplyError::Book { symbol_id, error }),
    }
}

pub open spec fn resting_order(o: SnapshotOrder) -> RestingOrder {
    RestingOrder { order_id: o.order_id, price: o.price, quantity: o.quantity, side: o.side->0 }
}

/// A book, its room, and whether all went well so far.
pub struct Filling {
    pub model: BookModel,
    pub room: Space,
    pub result: Result<(), ApplyError>,
}

/// What one more order of a snapshot does to a book. One on an undefined side is refused
/// like one that the book refuses.
pub open spec fn fill_one(f: Filling, symbol_id: u16, o: SnapshotOrder) -> Filling {
    let r = add_outcome(
        f.model,
        f.room.add_refusal(f.model, o.order_id, o.price),
        o.order_id,
        o.quantity,
    );
    if f.result is Err {
        f
    } else if o.side is None {
        Filling { result: Err(ApplyError::Wire(WireError::UndefinedSide)), ..f }
    } else {
        Filling {
            model: if r is Ok {
                f.model.added(resting_order(o))
            } else {
                f.model
            },
            room: if o.quantity > 0 && !f.model.has(o.order_id) {
                f.room.placed(f.model, o.price)
            } else {
                f.room
            },
            result: match r {
                Ok(()) => Ok(()),
                Err(BookError::DuplicateOrderId(order_id)) => Err(
                    ApplyError::SnapshotOverlap { symbol_id, order_id },
                ),
                Err(error) => Err(ApplyError::Book { symbol_id, error }),
            },
        }
    }
}

/// What a run of snapshot orders does to a book: each is added in turn, up to the
/// first that is refused.
pub open spec fn fill(
    model: BookModel,
    room: Space,
    symbol_id: u16,
    orders: Seq<SnapshotOrder>,
) -> Filling
    decreases orders.len(),
{
    if orders.len() == 0 {
        Filling { model, room, result: Ok(()) }
    } else {
        fill_one(
            fill(model, room, symbol_id, orders.drop_last()),
            symbol_id,
            orders.last(),
        )
    }
}

/// Nothing happens after a refusal.
pub proof fn lemma_fill_stops(
    model: BookModel,
    room: Space,
    symbol_id: u16,
    orders: Seq<SnapshotOrder>,
    k: int,
)
    requires
        0 <= k <= orders.len(),
        fill(model, room, symbol_id, orders.take(k)).result is Err,
    ensures
        fill(model, room, symbol_id, orders) == fill(model, room, symbol_id, orders.take(k)),
    decreases orders.len(),
{
    if k < orders.len() {
        assert(orders.drop_last().take(k) =~= orders.take(k));
        lemma_fill_stops(model, room, symbol_id, orders.drop_last(), k);
    } else {
        assert(orders.take(k) =~= orders);
    }
}

/// What a message does to the book of its symbol, and what comes back.
pub open spec fn applied(
    msg: Message,
    before: BookModel,
    room: Space,
    after: BookModel,
    r: Result<(), ApplyError>,
) -> bool {
    match msg {
        Message::AddOrder { side: None, .. } => {
            &&& r == Err::<(), ApplyError>(ApplyError::Wire(WireError::UndefinedSide))
            &&& after == before
        },
        Message::AddOrder { order_id, price, quantity, symbol_id, side: Some(side) } => {
            &&& r == answer(
                symbol_id,
                add_outcome(before, room.add_refusal(before, order_id, price), order_id, quantity),
            )
            &&& after == (if r is Ok {
                before.added(RestingOrder { order_id, price, quantity, side })
            } else {
                before
            })
        },
        Message::ModifyOrder { reason: None, .. } => {
            &&& r == Err::<(), ApplyError>(ApplyError::Wire(WireError::UndefinedReason))
            &&& after == before
        },
        Message::ModifyOrder {
            order_id,
            new_price,
            new_quantity,
            symbol_id,
            side,
            reason: Some(ModifyReason::Reduce),
        } => {
            &&& r == answer(symbol_id, reduce_outcome(before, order_id, new_quantity))
            &&& after == (if r is Ok {
                before.reduced(order_id, new_quantity)
            } else {
                before
            })
        },
        Message::ModifyOrder {
            order_id,
            new_price,
            new_quantity,
            symbol_id,
            side,
            reason: Some(ModifyReason::Replace),
        } => {
            &&& r == answer(
                symbol_id,
                replace_outcome(
                    before,
                    room.price_refusal(before, order_id, new_price),
                    order_id,
                    new_quantity,
                ),
            )
            &&& after == (if r is Ok {
                before.replaced(order_id, new_price, new_quantity)
            } else {
                before
            })
        },
        Message::DeleteOrder { order_id, symbol_id, side } => {
            &&& r == answer(
                symbol_id,
                match delete_outcome(before, order_id) {
                    Ok(_) => Ok(()),
                    Err(e) => Err(e),
                },
            )
            &&& after == (if r is Ok {
                before.removed(order_id)
            } else {
                before
            })
        },
        Message::Snapshot(d) => {
            let f = fill(before, room, d.symbol_id, d.orders@);
            r == f.result && after == f.model
        },
        _ => r == Ok::<(), ApplyError>(()) && after == before,
    }
}

/// The symbol a message is about, if it is about one.
pub open spec fn symbol_of(msg: Message) -> Option<u16> {
    match msg {
        Message::AddOrder { symbol_id, .. } => Some(symbol_id),
        Message::ModifyOrder { symbol_id, .. } => Some(symbol_id),
        Message::DeleteOrder { symbol_id, .. } => Some(symbol_id),
        Message::Snapshot(d) => Some(d.symbol_id),
        _ => None,
    }
}

/// A message opens the book of its symbol, where there is none yet, unless it is an order
/// on an undefined side.
pub open spec fn opens_book(msg: Message) -> bool {
    !(msg matches Message::AddOrder { side: None, .. })
}

/// Applies one message.
///
/// An order on an undefined side and a modify for an undefined reason are refused. The side
/// of any other message is not looked at.
///
/// Trades, heartbeats and sequence resets leave the books alone: what a trade did
/// to the book is said by the delete or the modify that follows it. A snapshot
/// fragment adds its orders to what is there.
pub fn apply_message<B: BookSet>(books: &mut B, msg: &Message) -> (r: Result<(), ApplyError>)
    requires
        old(books).valid(),
    ensures
        final(books).valid(),
        symbol_of(*msg) is None ==> r is Ok && *final(books) == *old(books),
        symbol_of(*msg) matches Some(symbol_id) ==> {
            &&& applied(
                *msg,
                old(books).model_of(symbol_id),
                old(books).room_of(symbol_id),
                final(books).model_of(symbol_id),
                r,
            )
            &&& forall|s: u16|
                s != symbol_id ==> #[trigger] final(books).model_of(s) == old(books).model_of(s)
            &&& forall|s: u16| #[trigger]
                final(books).symbol_ids().contains(s) <==> old(books).symbol_ids().contains(s) || (
                s == symbol_id && opens_book(*msg))
        },
{
    match msg {
        Message::AddOrder { order_id, price, quantity, symbol_id, side } => {
            let side: Side = match side {
                None => return Err(ApplyError::Wire(WireError::UndefinedSide)),
                Some(side) => *side,
            };
            let book = books.get_or_create(*symbol_id);
            match book.add(*order_id, side, *price, *quantity) {
                Ok(()) => Ok(()),
                Err(error) => Err(ApplyError::Book { symbol_id: *symbol_id, error }),
            }
        },
        Message::ModifyOrder {
            order_id,
            new_price,
            new_quantity,
            symbol_id,
            side,
            reason,
        } => {
            let book = books.get_or_create(*symbol_id);
            match reason {
                None => Err(ApplyError::Wire(WireError::UndefinedReason)),
                Some(ModifyReason::Reduce) => {
                    match book.reduce(*order_id, *new_quantity) {
                        Ok(()) => Ok(()),
                        Err(error) => Err(ApplyError::Book { symbol_id: *symbol_id, error }),
                    }
                },
                Some(ModifyReason::Replace) => {
                    match book.replace(*order_id, *new_price, *new_quantity) {
                        Ok(()) => Ok(()),
                        Err(error) => Err(ApplyError::Book { symbol_id: *symbol_id, error }),
                    }
                },
            }
        },
        Message::DeleteOrder { order_id, symbol_id, side } => {
            let book = books.get_or_create(*symbol_id);
            match book.delete(*order_id) {
                Ok(_) => Ok(()),
                Err(error) => Err(ApplyError::Book { symbol_id: *symbol_id, error }),
            }
        },
        Message::Snapshot(d) => apply_snapshot_orders(books, d),
        Message::Trade { .. } => Ok(()),
        Message::Heartbeat { .. } => Ok(()),
        Message::SequenceReset { .. } => Ok(()),
    }
}

/// Begins a symbol anew from the first fragment of a snapshot.
pub fn apply_snapshot<B: BookSet>(books: &mut B, d: &Snapshot) -> (r: Result<(), ApplyError>)
    requires
        old(books).valid(),
    ensures
        final(books).valid(),
        ({
            let f = fill(
                BookModel::empty(),
                old(books).room_of(d.symbol_id),
                d.symbol_id,
                d.orders@,
            );
            r == f.result && final(books).model_of(d.symbol_id) == f.model
        }),
        forall|s: u16|
            s != d.symbol_id ==> #[trigger] final(books).model_of(s) == old(books).model_of(s),
        forall|s: u16| #[trigger]
            final(books).symbol_ids().contains(s) <==> old(books).symbol_ids().contains(s) || s
                == d.symbol_id,
{
    books.clear_symbol(d.symbol_id);
    apply_snapshot_orders(books, d)
}

/// Adds the orders of a fragment in turn.
fn apply_snapshot_orders<B: BookSet>(books: &mut B, d: &Snapshot) -> (r: Result<(), ApplyError>)
    requires
        old(books).valid(),
    ensures
        final(books).valid(),
        ({
            let f = fill(
                old(books).model_of(d.symbol_id),
                old(books).room_of(d.symbol_id),
                d.symbol_id,
                d.orders@,
            );
            &&& r == f.result
            &&& final(books).model_of(d.symbol_id) == f.model
            &&& final(books).room_of(d.symbol_id) == f.room
        }),
        forall|s: u16|
            s != d.symbol_id ==> #[trigger] final(books).model_of(s) == old(books).model_of(s),
        forall|s: u16| #[trigger]
            final(books).symbol_ids().contains(s) <==> old(books).symbol_ids().contains(s) || s
                == d.symbol_id,
{
    let symbol_id: u16 = d.symbol_id;
    let ghost m = books.model_of(symbol_id);
    let ghost room = books.room_of(symbol_id);
    let book = books.get_or_create(symbol_id);
    fill_book(book, d, Ghost(m), Ghost(room))
}

fn fill_book<K: OrderBook>(
    book: &mut K,
    d: &Snapshot,
    Ghost(m): Ghost<BookModel>,
    Ghost(room): Ghost<Space>,
) -> (r: Result<(), ApplyError>)
    requires
        old(book).valid(),
        old(book).model() == m,
        old(book).room() == room,
    ensures
        final(book).valid(),
        ({
            let f = fill(m, room, d.symbol_id, d.orders@);
            r == f.result && final(book).model() == f.model && final(book).room() == f.room
        }),
{
    let symbol_id: u16 = d.symbol_id;
    let mut i: usize = 0;
    assert(d.orders@.take(0) =~= Seq::<SnapshotOrder>::empty());
    while i < d.orders.len()
        invariant
            i <= d.orders@.len(),
            symbol_id == d.symbol_id,
            book.valid(),
            ({
                let f = fill(m, room, symbol_id, d.orders@.take(i as int));
                f.result is Ok && book.model() == f.model && book.room() == f.room
            }),
        decreases d.orders@.len() - i,
    {
        let o = d.orders[i];
        let ghost next = d.orders@.take(i as int + 1);
        proof {
            assert(next.drop_last() =~= d.orders@.take(i as int));
            assert(next.last() == o);
        }
        let side: Side = match o.side {
            None => {
                proof {
                    assert(fill(m, room, symbol_id, next).result is Err);
                    lemma_fill_stops(m, room, symbol_id, d.orders@, i as int + 1);
                }
                return Err(ApplyError::Wire(WireError::UndefinedSide));
            },
            Some(side) => side,
        };
        match book.add(o.order_id, side, o.price, o.quantity) {
            Ok(()) => {},
            Err(error) => {
                let out: ApplyError = match error {
                    BookError::DuplicateOrderId(order_id) => ApplyError::SnapshotOverlap {
                        symbol_id,
                        order_id,
                    },
                    _ => ApplyError::Book { symbol_id, error },
                };
                proof {
                    assert(fill(m, room, symbol_id, next).result is Err);
                    lemma_fill_stops(m, room, symbol_id, d.orders@, i as int + 1);
                }
                return Err(out);
            },
        }
        i = i + 1;
    }
    assert(d.orders@.take(i as int) =~= d.orders@);
    Ok(())
}

/// What a message that applies does to a book with all the room there is.
pub open spec fn effect(msg: Message, before: BookModel) -> BookModel {
    match msg {
        Message::AddOrder { order_id, price, quantity, symbol_id, side: Some(side) } => before.added(
            RestingOrder { order_id, price, quantity, side },
        ),
        Message::ModifyOrder { order_id, new_quantity, reason: Some(ModifyReason::Reduce), .. } =>
            before.reduced(order_id, new_quantity),
        Message::ModifyOrder {
            order_id,
            new_price,
            new_quantity,
            reason: Some(ModifyReason::Replace),
            ..
        } => before.replaced(order_id, new_price, new_quantity),
        Message::DeleteOrder { order_id, .. } => before.removed(order_id),
        Message::Snapshot(d) => fill(before, Space::Unbounded, d.symbol_id, d.orders@).model,
        _ => before,
    }
}

/// The books after one more message.
pub open spec fn replay_one(books: Map<u16, BookModel>, msg: Message) -> Map<u16, BookModel> {
    match symbol_of(msg) {
        Some(s) => books.insert(s, effect(msg, books[s])),
        None => books,
    }
}

/// The books after a run of messages.
pub open spec fn replay(books: Map<u16, BookModel>, msgs: Seq<Message>) -> Map<u16, BookModel>
    decreases msgs.len(),
{
    if msgs.len() == 0 {
        books
    } else {
        replay_one(replay(books, msgs.drop_last()), msgs.last())
    }
}

/// A message that was applied leaves the books as its effect says.
pub proof fn lemma_replayed<B: BookSet>(before: &B, after: &B, msg: Message)
    requires
        symbol_of(msg) is None ==> *after == *before,
        symbol_of(msg) matches Some(s) ==> {
            &&& before.room_of(s) == Space::Unbounded
            &&& applied(msg, before.model_of(s), before.room_of(s), after.model_of(s), Ok(()))
            &&& forall|t: u16|
                t != s ==> #[trigger] after.model_of(t) == before.model_of(t)
        },
    ensures
        models(after) == replay_one(models(before), msg),
{
    let a = models(after);
    let b = replay_one(models(before), msg);
    if symbol_of(msg) is Some {
        let s = symbol_of(msg)->0;
        assert forall|t: u16| #[trigger] a[t] == b[t] by {
            assert(a[t] == after.model_of(t));
            assert(models(before)[t] == before.model_of(t));
        }
    }
    assert(a =~= b);
}

/// What a message that applies leaves on the book: an add the order that it gives, a reduce
/// the order with the quantity it gives and all else of it as it was, a replace the order
/// with the price and the quantity it gives, a delete no such order. Orders that it does not
/// name are as they were, and a trade, a heartbeat and a reset leave everything so.
pub proof fn law_applied_message_is_what_the_book_says(
    msg: Message,
    before: BookModel,
    room: Space,
    after: BookModel,
)
    requires
        before.wf(),
        applied(msg, before, room, after, Ok(())),
    ensures
        match msg {
            Message::AddOrder { order_id, price, quantity, side, .. } => {
                &&& !before.has(order_id)
                &&& after.has(order_id)
                &&& after.orders[order_id].price == price
                &&& after.orders[order_id].quantity == quantity
                &&& side == Some(after.orders[order_id].side)
                &&& after.queue(after.orders[order_id].side, price).last() == order_id
                &&& others_as_they_were(before, after, order_id)
            },
            Message::ModifyOrder { order_id, new_price, new_quantity, reason, .. } => {
                &&& before.has(order_id)
                &&& after.has(order_id)
                &&& after.orders[order_id].quantity == new_quantity
                &&& after.orders[order_id].side == before.orders[order_id].side
                &&& reason == Some(ModifyReason::Reduce) ==> {
                    &&& new_quantity <= before.orders[order_id].quantity
                    &&& after.orders[order_id].price == before.orders[order_id].price
                    &&& forall|s: Side, p: i64| #[trigger] after.queue(s, p) == before.queue(s, p)
                }
                &&& reason == Some(ModifyReason::Replace) ==> {
                    &&& after.orders[order_id].price == new_price
                    &&& after.queue(after.orders[order_id].side, new_price).last() == order_id
                }
                &&& reason is Some
                &&& others_as_they_were(before, after, order_id)
            },
            Message::DeleteOrder { order_id, .. } => {
                &&& before.has(order_id)
                &&& !after.has(order_id)
                &&& others_as_they_were(before, after, order_id)
            },
            Message::Snapshot(_) => true,
            _ => after == before,
        },
{
    match msg {
        Message::AddOrder { order_id, price, quantity, side, .. } => {
            let o = RestingOrder { order_id, price, quantity, side: side->0 };
            law_added_order_goes_last(before, o);
        },
        Message::ModifyOrder { order_id, new_price, new_quantity, .. } => {
            law_reduced_order_is_only_smaller(before, order_id, new_quantity);
            law_replaced_order_is_elsewhere(before, order_id, new_price, new_quantity);
        },
        Message::DeleteOrder { order_id, .. } => {
            law_removed_order_is_gone(before, order_id);
        },
        _ => {},
    }
}

/// Every order but one is as it was.
pub open spec fn others_as_they_were(before: BookModel, after: BookModel, id: u64) -> bool {
    &&& forall|x: u64| x != id ==> (#[trigger] after.has(x) <==> before.has(x))
    &&& forall|x: u64| x != id && before.has(x) ==> #[trigger] after.orders[x] == before.orders[x]
}

/// A message that does not apply leaves the book as it was, unless it is a snapshot, and the
/// complaint names the symbol of the message.
pub proof fn law_refused_message_changes_nothing(
    msg: Message,
    before: BookModel,
    room: Space,
    after: BookModel,
    e: ApplyError,
)
    requires
        applied(msg, before, room, after, Err(e)),
    ensures
        !(msg is Snapshot) ==> after == before,
        !(msg is Snapshot) ==> !(e is SnapshotOverlap),
        e matches ApplyError::Book { symbol_id, .. } ==> msg is Snapshot || Some(symbol_id)
            == symbol_of(msg),
        !(msg is Trade || msg is Heartbeat || msg is SequenceReset),
{
}

/// The orders of a snapshot that went into an empty book are all there as they were given,
/// and there is nothing else.
pub proof fn law_snapshot_adds_every_order(
    room: Space,
    symbol_id: u16,
    os: Seq<SnapshotOrder>,
)
    requires
        fill(BookModel::empty(), room, symbol_id, os).result is Ok,
    ensures
        ({
            let m = fill(BookModel::empty(), room, symbol_id, os).model;
            &&& m.wf()
            &&& m.len() == os.len()
            &&& forall|i: int|
                0 <= i < os.len() ==> {
                    let o = #[trigger] os[i];
                    &&& m.has(o.order_id)
                    &&& m.orders[o.order_id].order_id == o.order_id
                    &&& m.orders[o.order_id].price == o.price
                    &&& m.orders[o.order_id].quantity == o.quantity
                    &&& o.side == Some(m.orders[o.order_id].side)
                }
        }),
    decreases os.len(),
{
    let none = BookModel::empty();
    if os.len() == 0 {
        assert(none.orders.dom() =~= Set::<u64>::empty());
    } else {
        let rest = os.drop_last();
        let f = fill(none, room, symbol_id, rest);
        let l = os.last();
        assert(f.result is Ok);
        law_snapshot_adds_every_order(room, symbol_id, rest);
        law_added_wf(f.model, resting_order(l));
        law_added_order_goes_last(f.model, resting_order(l));
        let m = fill(none, room, symbol_id, os).model;
        assert forall|i: int| 0 <= i < os.len() implies {
            let o = #[trigger] os[i];
            &&& m.has(o.order_id)
            &&& m.orders[o.order_id].order_id == o.order_id
            &&& m.orders[o.order_id].price == o.price
            &&& m.orders[o.order_id].quantity == o.quantity
            &&& o.side == Some(m.orders[o.order_id].side)
        } by {
            if i < rest.len() {
                assert(rest[i] == os[i]);
                assert(f.model.has(rest[i].order_id));
            }
        }
    }
}

/// A snapshot fragment that names an order which is there already is refused for that, with
/// the order and the symbol, and an order on an undefined side for that; what came before
/// stays.
pub proof fn law_snapshot_stops_at_what_is_wrong(
    m: BookModel,
    room: Space,
    symbol_id: u16,
    os: Seq<SnapshotOrder>,
    o: SnapshotOrder,
)
    requires
        fill(m, room, symbol_id, os).result is Ok,
    ensures
        ({
            let f = fill(m, room, symbol_id, os);
            let g = fill(m, room, symbol_id, os.push(o));
            &&& o.side is None ==> g.result == Err::<(), ApplyError>(
                ApplyError::Wire(WireError::UndefinedSide),
            )
            &&& o.side is Some && o.quantity > 0 && f.model.has(o.order_id) ==> g.result == Err::<
                (),
                ApplyError,
            >(ApplyError::SnapshotOverlap { symbol_id, order_id: o.order_id })
            &&& g.result is Err ==> g.model == f.model
        }),
{
    assert(os.push(o).drop_last() =~= os);
}

} // verus!
