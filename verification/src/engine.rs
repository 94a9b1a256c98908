//! The matching engine: price-time priority, and a feed that says everything it
//! does.
//!
//! Every change of a book is applied and then published as one message, so the
//! books after sequence `S` are the result of the messages one through `S`.

use crate::apply::{effect, replay, replay_one, symbol_of};
use crate::books::Books;
use crate::config::Symbol;
use crate::digest::{books_digest, counts_one_more, lemma_total_insert, total, BookDigest};
use crate::feed::{lemma_emitted_push, FeedError, FeedModel, FeedPublisher};
use crate::message::{Message, ModifyReason, Side};
use crate::model::{
    add_outcome, delete_outcome, law_added_wf, law_reduced_keeps_priority, law_removed_wf,
    reduce_outcome, replace_outcome, BookError, BookModel, RestingOrder,
};
use crate::reference::ReferenceBook;
use crate::view::{models, BookSet};
use vstd::prelude::*;
use vstd::wrapping::u64_specs::wrapping_add;

verus! {

/// One change of a book, or a trade.
#[derive(Debug, Clone, Copy, PartialEq, Eq, Structural)]
pub enum Change {
    Add { order_id: u64, side: Side, price: i64, quantity: u32 },
    Reduce { order_id: u64, side: Side, price: i64, new_quantity: u32 },
    Replace { order_id: u64, side: Side, new_price: i64, new_quantity: u32 },
    Delete { order_id: u64, side: Side },
    Trade {
        trade_id: u64,
        aggressor_order_id: u64,
        resting_order_id: u64,
        price: i64,
        quantity: u32,
        aggressor_side: Side,
    },
}

impl Change {
    /// The message that says it.
    pub open spec fn message(self, symbol_id: u16) -> Message {
        match self {
            Change::Add { order_id, side, price, quantity } => Message::AddOrder {
                order_id,
                price,
                quantity,
                symbol_id,
                side: Some(side),
            },
            Change::Reduce { order_id, side, price, new_quantity } => Message::ModifyOrder {
                order_id,
                new_price: price,
                new_quantity,
                symbol_id,
                side: Some(side),
                reason: Some(ModifyReason::Reduce),
            },
            Change::Replace { order_id, side, new_price, new_quantity } => Message::ModifyOrder {
                order_id,
                new_price,
                new_quantity,
                symbol_id,
                side: Some(side),
                reason: Some(ModifyReason::Replace),
            },
            Change::Delete { order_id, side } => Message::DeleteOrder {
                order_id,
                symbol_id,
                side: Some(side),
            },
            Change::Trade {
                trade_id,
                aggressor_order_id,
                resting_order_id,
                price,
                quantity,
                aggressor_side,
            } => Message::Trade {
                trade_id,
                aggressor_order_id,
                resting_order_id,
                price,
                quantity,
                symbol_id,
                aggressor_side: Some(aggressor_side),
            },
        }
    }

    /// What a book says to it.
    pub open spec fn outcome(self, m: BookModel) -> Result<(), BookError> {
        match self {
            Change::Add { order_id, side, price, quantity } => add_outcome(
                m,
                None,
                order_id,
                quantity,
            ),
            Change::Reduce { order_id, side, price, new_quantity } => reduce_outcome(
                m,
                order_id,
                new_quantity,
            ),
            Change::Replace { order_id, side, new_price, new_quantity } => replace_outcome(
                m,
                None,
                order_id,
                new_quantity,
            ),
            Change::Delete { order_id, side } => match delete_outcome(m, order_id) {
                Ok(_) => Ok(()),
                Err(e) => Err(e),
            },
            Change::Trade { .. } => Ok(()),
        }
    }
}

/// Why the engine could not do something.
#[derive(Debug, Clone, Copy, PartialEq, Eq, Structural)]
pub enum EngineError {
    Book(BookError),
    Feed(FeedError),
}

/// A symbol that is traded, and what its background flow goes by.
#[derive(Debug)]
pub struct SymbolState {
    pub id: u16,
    pub tick_size: i64,
    pub mid: i64,
    /// The orders that the background flow has resting.
    pub live: Vec<u64>,
}

/// What has been done. The counters wrap.
#[derive(Debug, Clone, Copy, PartialEq, Eq, Structural)]
pub struct EngineStats {
    pub orders_submitted: u64,
    pub trades: u64,
    pub shares_traded: u64,
    pub cancels: u64,
    pub modifies: u64,
    pub aggressive_fills: u64,
}

impl EngineStats {
    pub open spec fn zero() -> EngineStats {
        EngineStats {
            orders_submitted: 0,
            trades: 0,
            shares_traded: 0,
            cancels: 0,
            modifies: 0,
            aggressive_fills: 0,
        }
    }
}

impl Default for EngineStats {
    fn default() -> (r: Self)
        ensures
            r == EngineStats::zero(),
    {
        EngineStats {
            orders_submitted: 0,
            trades: 0,
            shares_traded: 0,
            cancels: 0,
            modifies: 0,
            aggressive_fills: 0,
        }
    }
}

/// A fill as the aggressor sees it.
#[derive(Debug, Clone, Copy, PartialEq, Eq, Structural)]
pub struct AggressorFill {
    pub trade_id: u64,
    pub price: i64,
    pub quantity: u32,
    /// What is left of the aggressor.
    pub leaves: u32,
}

/// A fill as the owner of a resting order sees it.
#[derive(Debug, Clone, Copy, PartialEq, Eq, Structural)]
pub struct PassiveFill {
    pub resting_order_id: u64,
    pub trade_id: u64,
    pub price: i64,
    pub quantity: u32,
    /// What is left of the resting order.
    pub leaves: u32,
    pub symbol_id: u16,
    pub side: Side,
}

/// The digest of the books after a sequence.
#[derive(Debug, Clone, Copy, PartialEq, Eq, Structural)]
pub struct Checkpoint {
    pub sequence: u64,
    pub digest: BookDigest,
}

/// What became of a submitted order.
#[derive(Debug)]
pub struct SubmitReport {
    pub order_id: u64,
    /// How much of it rests.
    pub resting: u32,
    pub fills: Vec<AggressorFill>,
    pub checkpoints: Vec<Checkpoint>,
}

/// Something that was stopped on its way: why, and the checkpoints that fell on what had
/// been published by then.
#[derive(Debug, PartialEq, Eq)]
pub struct Stopped {
    pub error: EngineError,
    pub checkpoints: Vec<Checkpoint>,
}

/// The side that an order of `side` trades against.
pub fn opposite(side: Side) -> (r: Side)
    ensures
        r == side.other(),
{
    match side {
        Side::Bid => Side::Ask,
        Side::Ask => Side::Bid,
    }
}

/// A limit of `price` on `side` trades at `best`.
pub open spec fn crosses(side: Side, price: i64, best: i64) -> bool {
    match side {
        Side::Bid => price >= best,
        Side::Ask => price <= best,
    }
}

pub open spec fn smaller(a: u32, b: u32) -> u32 {
    if a < b {
        a
    } else {
        b
    }
}

/// The `live` list without an order: the last one takes its place.
pub open spec fn without_live(live: Seq<u64>, order_id: u64) -> Seq<u64> {
    if live.contains(order_id) {
        let i = first_index(live, order_id);
        live.update(i, live.last()).drop_last()
    } else {
        live
    }
}

/// A list of ids but for one.
pub open spec fn without_id(ids: Seq<u64>, id: u64) -> Seq<u64> {
    ids.filter(|x: u64| x != id)
}

/// Where an element stands first.
pub open spec fn first_index(live: Seq<u64>, order_id: u64) -> int {
    choose|i: int|
        0 <= i < live.len() && live[i] == order_id && forall|j: int|
            0 <= j < i ==> live[j] != order_id
}

/// An order on its way through the book.
#[verifier::ext_equal]
pub struct Matching {
    pub book: BookModel,
    pub live: Seq<u64>,
    pub remaining: u32,
    pub next_trade: u64,
    pub messages: Seq<Message>,
    pub fills: Seq<AggressorFill>,
    pub passive: Seq<PassiveFill>,
    pub shares: int,
}

/// An order as it was submitted.
pub struct Incoming {
    pub order_id: u64,
    pub symbol_id: u16,
    pub side: Side,
    pub price: i64,
    pub watched: Seq<u64>,
}

impl Matching {
    /// There is something on the other side that the order trades with.
    pub open spec fn can_trade(self, o: Incoming) -> bool {
        &&& self.remaining > 0
        &&& self.book.front(o.side.other()) matches Some((best, id)) && crosses(
            o.side,
            o.price,
            best,
        ) && self.book.orders[id].quantity > 0
    }

    /// The change that a trade of `quantity` makes to the resting order.
    pub open spec fn change(self, o: Incoming) -> Change {
        let (best, id) = self.book.front(o.side.other())->0;
        let resting = self.book.orders[id];
        if self.remaining >= resting.quantity {
            Change::Delete { order_id: id, side: o.side.other() }
        } else {
            Change::Reduce {
                order_id: id,
                side: o.side.other(),
                price: resting.price,
                new_quantity: (resting.quantity - self.remaining) as u32,
            }
        }
    }

    /// After one trade: at the best price of the other side, with the order that
    /// came first there, at its price.
    pub open spec fn step(self, o: Incoming) -> Matching {
        let (best, id) = self.book.front(o.side.other())->0;
        let resting = self.book.orders[id];
        let fill = smaller(self.remaining, resting.quantity);
        let trade = Change::Trade {
            trade_id: self.next_trade,
            aggressor_order_id: o.order_id,
            resting_order_id: id,
            price: best,
            quantity: fill,
            aggressor_side: o.side,
        };
        Matching {
            book: if fill == resting.quantity {
                self.book.removed(id)
            } else {
                self.book.reduced(id, (resting.quantity - fill) as u32)
            },
            live: if fill == resting.quantity {
                without_live(self.live, id)
            } else {
                self.live
            },
            remaining: (self.remaining - fill) as u32,
            next_trade: (self.next_trade + 1) as u64,
            messages: self.messages.push(trade.message(o.symbol_id)).push(
                self.change(o).message(o.symbol_id),
            ),
            fills: self.fills.push(
                AggressorFill {
                    trade_id: self.next_trade,
                    price: best,
                    quantity: fill,
                    leaves: (self.remaining - fill) as u32,
                },
            ),
            passive: if o.watched.contains(id) {
                self.passive.push(
                    PassiveFill {
                        resting_order_id: id,
                        trade_id: self.next_trade,
                        price: best,
                        quantity: fill,
                        leaves: (resting.quantity - fill) as u32,
                        symbol_id: o.symbol_id,
                        side: o.side.other(),
                    },
                )
            } else {
                self.passive
            },
            shares: self.shares + fill,
        }
    }

    /// After every trade that can be made.
    pub open spec fn matched(self, o: Incoming) -> Matching
        decreases self.remaining,
    {
        if self.can_trade(o) {
            self.step(o).matched(o)
        } else {
            self
        }
    }
}

/// The checkpoints that fall on the given messages, the first of which has the
/// sequence `from + 1`.
pub open spec fn checkpoints_of(
    books: Map<u16, BookModel>,
    from: int,
    msgs: Seq<Message>,
    every: u64,
) -> Seq<Checkpoint>
    decreases msgs.len(),
{
    if msgs.len() == 0 || every == 0 {
        Seq::empty()
    } else {
        let before = checkpoints_of(books, from, msgs.drop_last(), every);
        if (from + msgs.len()) % (every as int) == 0 {
            before.push(
                Checkpoint {
                    sequence: (from + msgs.len()) as u64,
                    digest: books_digest(replay(books, msgs)),
                },
            )
        } else {
            before
        }
    }
}

/// The books leave room to count `more` orders than rest now.
pub open spec fn countable(books: Map<u16, BookModel>, more: int) -> bool {
    &&& forall|s: u16| (#[trigger] books[s]).len() + more <= u32::MAX
    &&& total(books) + more <= usize::MAX
}

pub struct Engine {
    books: Books,
    symbols: Vec<SymbolState>,
    next_order_id: u64,
    next_trade_id: u64,
    stats: EngineStats,
    watched: Vec<u64>,
    passive: Vec<PassiveFill>,
}

/// `i` is where `symbol_id` stands first among the symbols.
pub open spec fn is_symbol(symbols: Seq<SymbolState>, symbol_id: u16, i: int) -> bool {
    &&& 0 <= i < symbols.len()
    &&& symbols[i].id == symbol_id
    &&& forall|j: int| 0 <= j < i ==> (#[trigger] symbols[j]).id != symbol_id
}

/// The background orders of a symbol, none where it is not traded.
pub open spec fn live_of(symbols: Seq<SymbolState>, symbol_id: u16) -> Seq<u64> {
    if exists|i: int| is_symbol(symbols, symbol_id, i) {
        symbols[choose|i: int| is_symbol(symbols, symbol_id, i)].live@
    } else {
        Seq::empty()
    }
}

/// Only the `live` list of one symbol has changed.
pub open spec fn only_live_changed(
    a: Seq<SymbolState>,
    b: Seq<SymbolState>,
    symbol_id: u16,
    live: Seq<u64>,
) -> bool {
    &&& a.len() == b.len()
    &&& forall|i: int|
        0 <= i < a.len() ==> {
            &&& (#[trigger] b[i]).id == a[i].id
            &&& b[i].tick_size == a[i].tick_size
            &&& b[i].mid == a[i].mid
            &&& b[i].live@ == (if is_symbol(a, symbol_id, i) {
                live
            } else {
                a[i].live@
            })
        }
}

impl Engine {
    pub closed spec fn wf(self) -> bool {
        self.books.valid()
    }

    /// The books of all symbols.
    pub closed spec fn model(self) -> Map<u16, BookModel> {
        models(&self.books)
    }

    /// The symbols that a book was opened for.
    pub closed spec fn with_book(self) -> Set<u16> {
        self.books.symbol_ids().to_set()
    }

    /// The symbols that are traded.
    pub closed spec fn symbol_list(self) -> Seq<SymbolState> {
        self.symbols@
    }

    pub closed spec fn order_ids(self) -> u64 {
        self.next_order_id
    }

    pub closed spec fn trade_ids(self) -> u64 {
        self.next_trade_id
    }

    pub closed spec fn counters(self) -> EngineStats {
        self.stats
    }

    pub closed spec fn watching(self) -> Seq<u64> {
        self.watched@
    }

    pub closed spec fn passive_fills(self) -> Seq<PassiveFill> {
        self.passive@
    }

    /// Every order on a book has an id that was given out.
    pub open spec fn ids_issued(self) -> bool {
        forall|s: u16, id: u64| #[trigger] self.model()[s].has(id) ==> id < self.order_ids()
    }

    pub proof fn lemma_model(&self)
        requires
            self.wf(),
        ensures
            forall|s: u16| #[trigger] self.model().dom().contains(s),
            forall|s: u16| (#[trigger] self.model()[s]).wf(),
    {
        self.books.lemma_valid();
        assert forall|s: u16| (#[trigger] self.model()[s]).wf() by {
            assert(self.model()[s] == self.books.model_of(s));
        }
    }

    pub fn new(symbols: &Vec<Symbol>) -> (r: Self)
        ensures
            r.wf(),
            forall|s: u16| #[trigger] r.model()[s] == BookModel::empty(),
            r.with_book() == Set::<u16>::empty(),
            r.order_ids() == 1,
            r.trade_ids() == 1,
            r.counters() == EngineStats::zero(),
            r.watching() == Seq::<u64>::empty(),
            r.passive_fills() == Seq::<PassiveFill>::empty(),
            r.symbol_list().len() == symbols@.len(),
            forall|i: int|
                0 <= i < symbols@.len() ==> {
                    &&& (#[trigger] r.symbol_list()[i]).id == symbols@[i].id
                    &&& r.symbol_list()[i].tick_size == symbols@[i].tick_size
                    &&& r.symbol_list()[i].mid == symbols@[i].reference_price
                    &&& r.symbol_list()[i].live@.len() == 0
                },
            r.ids_issued(),
    {
        let mut out: Vec<SymbolState> = Vec::new();
        let mut i: usize = 0;
        while i < symbols.len()
            invariant
                i <= symbols@.len(),
                out@.len() == i,
                forall|k: int|
                    0 <= k < i ==> {
                        &&& (#[trigger] out@[k]).id == symbols@[k].id
                        &&& out@[k].tick_size == symbols@[k].tick_size
                        &&& out@[k].mid == symbols@[k].reference_price
                        &&& out@[k].live@.len() == 0
                    },
            decreases symbols@.len() - i,
        {
            out.push(
                SymbolState {
                    id: symbols[i].id,
                    tick_size: symbols[i].tick_size,
                    mid: symbols[i].reference_price,
                    live: Vec::new(),
                },
            );
            i = i + 1;
        }
        let r = Engine {
            books: Books::new(),
            symbols: out,
            next_order_id: 1,
            next_trade_id: 1,
            stats: EngineStats::default(),
            watched: Vec::new(),
            passive: Vec::new(),
        };
        proof {
            assert forall|s: u16| #[trigger] r.model()[s] == BookModel::empty() by {
                assert(r.model()[s] == r.books.model_of(s));
            }
            assert(r.with_book() =~= Set::<u16>::empty());
            assert(r.watching() =~= Seq::<u64>::empty());
            assert(r.passive_fills() =~= Seq::<PassiveFill>::empty());
        }
        r
    }

    pub fn books(&self) -> (r: &Books)
        requires
            self.wf(),
        ensures
            r.valid(),
            models(r) == self.model(),
            r.symbol_ids().to_set() == self.with_book(),
    {
        &self.books
    }

    /// The symbols that are traded.
    pub fn symbols(&self) -> (r: &Vec<SymbolState>)
        ensures
            r@ == self.symbol_list(),
    {
        &self.symbols
    }

    /// Moves the price that the background flow of a symbol goes by.
    pub fn set_mid(&mut self, index: usize, mid: i64)
        requires
            index < old(self).symbol_list().len(),
        ensures
            final(self).wf() == old(self).wf(),
            final(self).symbol_list() == old(self).symbol_list().update(
                index as int,
                (SymbolState { mid, ..old(self).symbol_list()[index as int] }),
            ),
            final(self).model() == old(self).model(),
            final(self).with_book() == old(self).with_book(),
            final(self).order_ids() == old(self).order_ids(),
            final(self).trade_ids() == old(self).trade_ids(),
            final(self).counters() == old(self).counters(),
            final(self).watching() == old(self).watching(),
            final(self).passive_fills() == old(self).passive_fills(),
    {
        self.symbols[index].mid = mid;
    }

    pub fn stats(&self) -> (r: EngineStats)
        ensures
            r == self.counters(),
    {
        self.stats
    }

    pub fn digest(&self) -> (r: BookDigest)
        requires
            self.wf(),
            countable(self.model(), 0),
        ensures
            r == books_digest(self.model()),
    {
        proof {
            assert forall|s: u16| (#[trigger] self.books.model_of(s)).len() <= u32::MAX by {
                assert(self.model()[s] == self.books.model_of(s));
            }
        }
        BookDigest::of(&self.books)
    }

    /// Has the fills of a resting order collected.
    pub fn watch_order(&mut self, order_id: u64)
        ensures
            final(self).watching() == old(self).watching().push(order_id),
            final(self).wf() == old(self).wf(),
            same_but_watch(*old(self), *final(self)),
    {
        self.watched.push(order_id);
    }

    /// No longer has the fills of an order collected.
    pub fn unwatch_order(&mut self, order_id: u64)
        ensures
            final(self).watching() == without_id(old(self).watching(), order_id),
            final(self).wf() == old(self).wf(),
            same_but_watch(*old(self), *final(self)),
    {
        let mut kept: Vec<u64> = Vec::new();
        let mut i: usize = 0;
        let ghost w = self.watched@;
        proof {
            reveal(Seq::filter);
            assert(w.take(0) =~= Seq::<u64>::empty());
        }
        while i < self.watched.len()
            invariant
                *self == *old(self),
                w == self.watched@,
                i <= w.len(),
                kept@ == without_id(w.take(i as int), order_id),
            decreases w.len() - i,
        {
            proof {
                reveal(Seq::filter);
                assert(w.take(i as int + 1).drop_last() =~= w.take(i as int));
            }
            if self.watched[i] != order_id {
                kept.push(self.watched[i]);
            }
            i = i + 1;
        }
        assert(w.take(i as int) =~= w);
        self.watched = kept;
    }

    /// Takes the fills of watched orders, oldest first.
    pub fn take_passive_fills(&mut self) -> (r: Vec<PassiveFill>)
        ensures
            r@ == old(self).passive_fills(),
            final(self).passive_fills() == Seq::<PassiveFill>::empty(),
            final(self).watching() == old(self).watching(),
            final(self).wf() == old(self).wf(),
            final(self).model() == old(self).model(),
            final(self).with_book() == old(self).with_book(),
            final(self).order_ids() == old(self).order_ids(),
            final(self).trade_ids() == old(self).trade_ids(),
            final(self).counters() == old(self).counters(),
            final(self).symbol_list() == old(self).symbol_list(),
    {
        let mut out: Vec<PassiveFill> = Vec::new();
        out.append(&mut self.passive);
        assert(self.passive_fills() =~= Seq::<PassiveFill>::empty());
        assert(out@ =~= old(self).passive_fills());
        out
    }

    fn is_watched(&self, order_id: u64) -> (r: bool)
        ensures
            r == self.watching().contains(order_id),
    {
        let mut i: usize = 0;
        while i < self.watched.len()
            invariant
                i <= self.watched@.len(),
                forall|k: int| 0 <= k < i ==> self.watched@[k] != order_id,
            decreases self.watched@.len() - i,
        {
            if self.watched[i] == order_id {
                assert(self.watched@[i as int] == order_id);
                return true;
            }
            i = i + 1;
        }
        false
    }

    fn symbol_index(&self, symbol_id: u16) -> (r: Option<usize>)
        ensures
            r is Some <==> exists|i: int| is_symbol(self.symbols@, symbol_id, i),
            r matches Some(i) ==> is_symbol(self.symbols@, symbol_id, i as int),
    {
        let mut i: usize = 0;
        while i < self.symbols.len()
            invariant
                i <= self.symbols@.len(),
                forall|j: int| 0 <= j < i ==> (#[trigger] self.symbols@[j]).id != symbol_id,
            decreases self.symbols@.len() - i,
        {
            if self.symbols[i].id == symbol_id {
                assert(is_symbol(self.symbols@, symbol_id, i as int));
                return Some(i);
            }
            i = i + 1;
        }
        None
    }

    /// Applies a change to the book of a symbol and publishes it.
    pub fn publish(&mut self, feed: &mut FeedPublisher, symbol_id: u16, change: Change) -> (r:
        Result<u64, EngineError>)
        requires
            old(self).wf(),
            old(feed).wf(),
            old(feed)@.log.len() + 1 < u64::MAX,
        ensures
            final(self).wf(),
            final(feed).wf(),
            same_but_books(*old(self), *final(self)),
            final(self).with_book() == old(self).with_book().insert(symbol_id),
            final(feed)@.sizes == old(feed)@.sizes,
            final(feed)@.max_bytes == old(feed)@.max_bytes,
            ({
                let msg = change.message(symbol_id);
                let fits = old(feed)@.sizes.packet_header + old(feed)@.sizes.of(msg)
                    <= old(feed)@.max_bytes;
                let m = old(self).model()[symbol_id];
                match change.outcome(m) {
                    Err(e) => {
                        &&& r == Err::<u64, EngineError>(EngineError::Book(e))
                        &&& final(self).model() == old(self).model()
                        &&& final(feed)@ == old(feed)@
                    },
                    Ok(()) => {
                        &&& final(self).model() == replay_one(old(self).model(), msg)
                        &&& final(feed)@ == old(feed)@.emitted(msg)
                        &&& fits ==> r == Ok::<u64, EngineError>(
                            old(feed)@.next_sequence() as u64,
                        ) && final(feed)@.log == old(feed)@.log.push(msg)
                        &&& !fits ==> r == Err::<u64, EngineError>(
                            EngineError::Feed(
                                FeedError::MessageTooLarge {
                                    max_datagram_bytes: old(feed)@.max_bytes as usize,
                                },
                            ),
                        ) && final(feed)@.log == old(feed)@.log
                    },
                }
            }),
    {
        let ghost b0 = self.books;
        let ghost m = b0.model_of(symbol_id);
        let ghost msg = change.message(symbol_id);
        assert(self.model()[symbol_id] == m);
        let applied: Result<(), BookError> = {
            let book = self.books.get_or_create(symbol_id);
            match change {
                Change::Add { order_id, side, price, quantity } => ReferenceBook::add(
                    book,
                    order_id,
                    side,
                    price,
                    quantity,
                ),
                Change::Reduce { order_id, side, price, new_quantity } => ReferenceBook::reduce(
                    book,
                    order_id,
                    new_quantity,
                ),
                Change::Replace { order_id, side, new_price, new_quantity } =>
                    ReferenceBook::replace(book, order_id, new_price, new_quantity),
                Change::Delete { order_id, side } => match ReferenceBook::delete(book, order_id) {
                    Ok(_) => Ok(()),
                    Err(e) => Err(e),
                },
                Change::Trade { .. } => Ok(()),
            }
        };
        proof {
            let after = self.model();
            let expected = if applied is Ok {
                replay_one(old(self).model(), msg)
            } else {
                old(self).model()
            };
            assert forall|s: u16| #[trigger] after[s] == expected[s] by {
                assert(after[s] == self.books.model_of(s));
                assert(old(self).model()[s] == b0.model_of(s));
            }
            assert(after =~= expected);
            assert(self.with_book() =~= old(self).with_book().insert(symbol_id));
        }
        match applied {
            Err(e) => return Err(EngineError::Book(e)),
            Ok(()) => {},
        }
        let sent: Result<u64, FeedError> = match change {
            Change::Add { order_id, side, price, quantity } => feed.add_order(
                order_id,
                price,
                quantity,
                symbol_id,
                side,
            ),
            Change::Reduce { order_id, side, price, new_quantity } => feed.modify_order(
                order_id,
                price,
                new_quantity,
                symbol_id,
                side,
                ModifyReason::Reduce,
            ),
            Change::Replace { order_id, side, new_price, new_quantity } => feed.modify_order(
                order_id,
                new_price,
                new_quantity,
                symbol_id,
                side,
                ModifyReason::Replace,
            ),
            Change::Delete { order_id, side } => feed.delete_order(order_id, symbol_id, side),
            Change::Trade {
                trade_id,
                aggressor_order_id,
                resting_order_id,
                price,
                quantity,
                aggressor_side,
            } => feed.trade(
                trade_id,
                aggressor_order_id,
                resting_order_id,
                price,
                quantity,
                symbol_id,
                aggressor_side,
            ),
        };
        match sent {
            Ok(seq) => Ok(seq),
            Err(e) => Err(EngineError::Feed(e)),
        }
    }
}

/// Opening the book of a symbol again opens nothing.
proof fn lemma_opened_twice(open: Set<u16>, symbol_id: u16)
    ensures
        open.insert(symbol_id).insert(symbol_id) == open.insert(symbol_id),
{
    assert(open.insert(symbol_id).insert(symbol_id) =~= open.insert(symbol_id));
}

/// Only what is watched differs.
pub open spec fn same_but_watch(a: Engine, b: Engine) -> bool {
    &&& b.model() == a.model()
    &&& b.with_book() == a.with_book()
    &&& b.order_ids() == a.order_ids()
    &&& b.trade_ids() == a.trade_ids()
    &&& b.counters() == a.counters()
    &&& b.passive_fills() == a.passive_fills()
    &&& b.symbol_list() == a.symbol_list()
}

/// Only the books differ.
pub open spec fn same_but_books(a: Engine, b: Engine) -> bool {
    &&& b.order_ids() == a.order_ids()
    &&& b.trade_ids() == a.trade_ids()
    &&& b.counters() == a.counters()
    &&& b.watching() == a.watching()
    &&& b.passive_fills() == a.passive_fills()
    &&& b.symbol_list() == a.symbol_list()
}

/// A symbol stands first at one place.
proof fn lemma_symbol(symbols: Seq<SymbolState>, symbol_id: u16, i: int)
    requires
        is_symbol(symbols, symbol_id, i),
    ensures
        live_of(symbols, symbol_id) == symbols[i].live@,
        forall|j: int| is_symbol(symbols, symbol_id, j) ==> j == i,
{
    let k = choose|k: int| is_symbol(symbols, symbol_id, k);
    assert(is_symbol(symbols, symbol_id, k));
    assert forall|j: int| is_symbol(symbols, symbol_id, j) implies j == i by {
        if j < i {
            assert(symbols[j].id != symbol_id);
        }
        if i < j {
            assert(symbols[i].id != symbol_id);
        }
    }
}

/// The symbols stand where they stood.
pub proof fn lemma_same_symbols(a: Seq<SymbolState>, b: Seq<SymbolState>, symbol_id: u16, live: Seq<u64>)
    requires
        only_live_changed(a, b, symbol_id, live),
    ensures
        forall|i: int| #[trigger] is_symbol(b, symbol_id, i) <==> is_symbol(a, symbol_id, i),
        (exists|i: int| is_symbol(a, symbol_id, i)) ==> live_of(b, symbol_id) == live,
{
    assert forall|i: int| #[trigger] is_symbol(b, symbol_id, i) <==> is_symbol(
        a,
        symbol_id,
        i,
    ) by {
        if is_symbol(b, symbol_id, i) {
            assert(b[i].id == a[i].id);
            assert forall|j: int| 0 <= j < i implies (#[trigger] a[j]).id != symbol_id by {
                assert(b[j].id == a[j].id);
            }
        }
        if is_symbol(a, symbol_id, i) {
            assert(b[i].id == a[i].id);
            assert forall|j: int| 0 <= j < i implies (#[trigger] b[j]).id != symbol_id by {
                assert(b[j].id == a[j].id);
            }
        }
    }
    if exists|i: int| is_symbol(a, symbol_id, i) {
        let i = choose|i: int| is_symbol(a, symbol_id, i);
        assert(is_symbol(b, symbol_id, i));
        lemma_symbol(b, symbol_id, i);
    }
}

/// Nothing having changed is a change to what was there.
proof fn lemma_live_unchanged(a: Seq<SymbolState>, symbol_id: u16)
    ensures
        only_live_changed(a, a, symbol_id, live_of(a, symbol_id)),
{
    assert forall|i: int| 0 <= i < a.len() implies (#[trigger] a[i]).live@ == (if is_symbol(
        a,
        symbol_id,
        i,
    ) {
        live_of(a, symbol_id)
    } else {
        a[i].live@
    }) by {
        if is_symbol(a, symbol_id, i) {
            lemma_symbol(a, symbol_id, i);
        }
    }
}

/// Two changes of one list come to the second.
proof fn lemma_live_twice(
    a: Seq<SymbolState>,
    b: Seq<SymbolState>,
    c: Seq<SymbolState>,
    symbol_id: u16,
    x: Seq<u64>,
    y: Seq<u64>,
)
    requires
        only_live_changed(a, b, symbol_id, x),
        only_live_changed(b, c, symbol_id, y),
    ensures
        only_live_changed(a, c, symbol_id, y),
{
    lemma_same_symbols(a, b, symbol_id, x);
    assert forall|i: int| 0 <= i < a.len() implies {
        &&& (#[trigger] c[i]).id == a[i].id
        &&& c[i].tick_size == a[i].tick_size
        &&& c[i].mid == a[i].mid
        &&& c[i].live@ == (if is_symbol(a, symbol_id, i) {
            y
        } else {
            a[i].live@
        })
    } by {
        assert(b[i].id == a[i].id);
        assert(is_symbol(b, symbol_id, i) <==> is_symbol(a, symbol_id, i));
    }
}

/// The first place of an element is where a search from the front finds it.
proof fn lemma_first_index(live: Seq<u64>, order_id: u64, i: int)
    requires
        0 <= i < live.len(),
        live[i] == order_id,
        forall|j: int| 0 <= j < i ==> live[j] != order_id,
    ensures
        live.contains(order_id),
        first_index(live, order_id) == i,
{
    let k = first_index(live, order_id);
    assert(0 <= k < live.len() && live[k] == order_id && forall|j: int|
        0 <= j < k ==> live[j] != order_id);
}

/// What a step does to the book is what its messages say.
proof fn lemma_step(m: Matching, o: Incoming)
    requires
        m.book.wf(),
        m.can_trade(o),
    ensures
        m.step(o).book.wf(),
        m.step(o).book == effect(m.change(o).message(o.symbol_id), m.book),
        m.change(o).outcome(m.book) is Ok,
        m.step(o).book.len() <= m.book.len(),
        m.step(o).remaining < m.remaining,
        forall|id: u64| #[trigger] m.step(o).book.has(id) ==> m.book.has(id),
{
    crate::model::law_front_is_best(m.book, o.side.other());
    let (best, id) = m.book.front(o.side.other())->0;
    let resting = m.book.orders[id];
    if m.remaining >= resting.quantity {
        law_removed_wf(m.book, id);
    } else {
        law_reduced_keeps_priority(m.book, id, (resting.quantity - m.remaining) as u32);
    }
}

/// One more message after a run of them.
proof fn lemma_replay_push(books: Map<u16, BookModel>, msgs: Seq<Message>, msg: Message)
    ensures
        replay(books, msgs.push(msg)) == replay_one(replay(books, msgs), msg),
{
    assert(msgs.push(msg).drop_last() =~= msgs);
}

proof fn lemma_checkpoint_push(
    books: Map<u16, BookModel>,
    from: int,
    msgs: Seq<Message>,
    msg: Message,
    every: u64,
)
    ensures
        checkpoints_of(books, from, msgs.push(msg), every) == (if every != 0 && (from + msgs.len()
            + 1) % (every as int) == 0 {
            checkpoints_of(books, from, msgs, every).push(
                Checkpoint {
                    sequence: (from + msgs.len() + 1) as u64,
                    digest: books_digest(replay(books, msgs.push(msg))),
                },
            )
        } else {
            checkpoints_of(books, from, msgs, every)
        }),
{
    assert(msgs.push(msg).drop_last() =~= msgs);
    if every == 0 {
        assert(checkpoints_of(books, from, msgs, every) =~= Seq::<Checkpoint>::empty());
    }
}

/// Putting back what is there changes nothing.
proof fn lemma_insert_same(books: Map<u16, BookModel>, s: u16)
    requires
        books.dom().contains(s),
    ensures
        books.insert(s, books[s]) == books,
{
    assert(books.insert(s, books[s]) =~= books);
}

/// A book that does not grow leaves the books as countable as they were.
proof fn lemma_countable(books: Map<u16, BookModel>, s: u16, m: BookModel, a: int, b: int)
    requires
        books.dom().contains(s),
        countable(books, a),
        m.len() + b <= books[s].len() + a,
        b <= a,
    ensures
        countable(books.insert(s, m), b),
{
    lemma_total_insert(books, s, m);
    let n = books.insert(s, m);
    assert forall|t: u16| (#[trigger] n[t]).len() + b <= u32::MAX by {
        assert(books[t].len() + a <= u32::MAX);
    }
}

/// The order that was submitted, and the state of matching it begins with.
pub open spec fn incoming(
    e: Engine,
    symbol_id: u16,
    side: Side,
    price: i64,
) -> Incoming {
    Incoming { order_id: e.order_ids(), symbol_id, side, price, watched: e.watching() }
}

pub open spec fn matching_start(e: Engine, symbol_id: u16, quantity: u32) -> Matching {
    Matching {
        book: e.model()[symbol_id],
        live: live_of(e.symbol_list(), symbol_id),
        remaining: quantity,
        next_trade: e.trade_ids(),
        messages: Seq::empty(),
        fills: Seq::empty(),
        passive: Seq::empty(),
        shares: 0,
    }
}

/// What matching an order comes to.
pub open spec fn matching_end(
    e: Engine,
    symbol_id: u16,
    side: Side,
    price: i64,
    quantity: u32,
) -> Matching {
    matching_start(e, symbol_id, quantity).matched(incoming(e, symbol_id, side, price))
}

/// The messages that a submitted order leads to: two per trade, and an add if
/// something is left to rest.
pub open spec fn submit_messages(m: Matching, o: Incoming) -> Seq<Message> {
    if m.remaining > 0 {
        m.messages.push(
            (Change::Add {
                order_id: o.order_id,
                side: o.side,
                price: o.price,
                quantity: m.remaining,
            }).message(o.symbol_id),
        )
    } else {
        m.messages
    }
}

/// What a submitted order does to the engine and to what is published.
pub open spec fn submit_effect(
    e0: Engine,
    f0: FeedModel,
    e1: Engine,
    f1: FeedModel,
    symbol_id: u16,
    side: Side,
    price: i64,
    quantity: u32,
    background: bool,
) -> bool {
    let o = incoming(e0, symbol_id, side, price);
    let m = matching_end(e0, symbol_id, side, price, quantity);
    let msgs = submit_messages(m, o);
    &&& f1 == f0.emitted_all(msgs)
    &&& f1.log == f0.log + msgs
    &&& e1.with_book() == (if quantity > 0 {
        e0.with_book().insert(symbol_id)
    } else {
        e0.with_book()
    })
    &&& e1.model() == replay(e0.model(), msgs)
    &&& e1.order_ids() == e0.order_ids() + 1
    &&& e1.trade_ids() == m.next_trade
    &&& e1.watching() == e0.watching()
    &&& e1.passive_fills() == e0.passive_fills() + m.passive
    &&& only_live_changed(
        e0.symbol_list(),
        e1.symbol_list(),
        symbol_id,
        if background && m.remaining > 0 {
            m.live.push(o.order_id)
        } else {
            m.live
        },
    )
    &&& e1.counters() == (EngineStats {
        orders_submitted: wrapping_add(e0.counters().orders_submitted, 1),
        trades: wrapping_add(e0.counters().trades, m.fills.len() as u64),
        shares_traded: wrapping_add(e0.counters().shares_traded, m.shares as u64),
        aggressive_fills: if m.fills.len() > 0 {
            wrapping_add(e0.counters().aggressive_fills, 1)
        } else {
            e0.counters().aggressive_fills
        },
        ..e0.counters()
    })
}

/// A message fits a datagram of its own.
pub open spec fn fits_alone(f: FeedModel, msg: Message) -> bool {
    f.sizes.packet_header + f.sizes.of(msg) <= f.max_bytes
}

pub open spec fn all_fit(f: FeedModel, msgs: Seq<Message>) -> bool {
    forall|j: int| 0 <= j < msgs.len() ==> fits_alone(f, #[trigger] msgs[j])
}

/// One message, to be published alone, did not fit a datagram: the book has changed, and
/// nothing else has.
pub open spec fn one_stopped(
    e0: Engine,
    f: FeedModel,
    e1: Engine,
    f1: FeedModel,
    msg: Message,
    error: EngineError,
) -> bool {
    &&& !fits_alone(f, msg)
    &&& error == EngineError::Feed(
        FeedError::MessageTooLarge { max_datagram_bytes: f.max_bytes as usize },
    )
    &&& f1 == f.emitted(msg)
    &&& f1.log == f.log
    &&& e1.model() == replay_one(e0.model(), msg)
    &&& symbol_of(msg) matches Some(s) ==> e1.with_book() == e0.with_book().insert(s)
    &&& same_but_books(e0, e1)
}

/// A run of messages was stopped at the message at `k`: those before it fit and were
/// published. One that does not fit a datagram has changed the book all the same; an
/// add that the book refused has not.
pub open spec fn stopped_at(
    books: Map<u16, BookModel>,
    f: FeedModel,
    msgs: Seq<Message>,
    k: int,
    books1: Map<u16, BookModel>,
    f1: FeedModel,
    error: EngineError,
) -> bool {
    &&& 0 <= k < msgs.len()
    &&& forall|j: int| 0 <= j < k ==> fits_alone(f, #[trigger] msgs[j])
    &&& f1.log == f.log + msgs.take(k)
    &&& match error {
        EngineError::Feed(FeedError::MessageTooLarge { max_datagram_bytes }) => {
            &&& max_datagram_bytes == f.max_bytes as usize
            &&& !fits_alone(f, msgs[k])
            &&& f1 == f.emitted_all(msgs.take(k + 1))
            &&& books1 == replay(books, msgs.take(k + 1))
        },
        EngineError::Book(e) => {
            &&& msgs[k] matches Message::AddOrder { order_id, .. } && e
                == BookError::DuplicateOrderId(order_id)
            &&& f1 == f.emitted_all(msgs.take(k))
            &&& books1 == replay(books, msgs.take(k))
        },
    }
}

/// The engine has come as far as `c` with an order. A trade that is under way has its
/// number already.
pub open spec fn partway(
    e0: Engine,
    e1: Engine,
    symbol_id: u16,
    side: Side,
    price: i64,
    quantity: u32,
    c: Matching,
) -> bool {
    let o = incoming(e0, symbol_id, side, price);
    &&& c.matched(o) == matching_end(e0, symbol_id, side, price, quantity)
    &&& e1.with_book() == e0.with_book().insert(symbol_id)
    &&& e1.order_ids() == e0.order_ids() + 1
    &&& e1.trade_ids() == c.next_trade + (if c.can_trade(o) {
        1int
    } else {
        0
    })
    &&& e1.watching() == e0.watching()
    &&& e1.passive_fills() == e0.passive_fills() + c.passive
    &&& only_live_changed(e0.symbol_list(), e1.symbol_list(), symbol_id, c.live)
    &&& e1.counters() == (EngineStats {
        orders_submitted: wrapping_add(e0.counters().orders_submitted, 1),
        trades: wrapping_add(e0.counters().trades, c.fills.len() as u64),
        shares_traded: wrapping_add(e0.counters().shares_traded, c.shares as u64),
        aggressive_fills: if c.fills.len() > 0 && !c.can_trade(o) {
            wrapping_add(e0.counters().aggressive_fills, 1)
        } else {
            e0.counters().aggressive_fills
        },
        ..e0.counters()
    })
}

/// A submission failed at one of its messages: at one of the two of the trade that `c`
/// would make next, or at the add where it can make none.
pub open spec fn submit_stopped(
    e0: Engine,
    f: FeedModel,
    e1: Engine,
    f1: FeedModel,
    symbol_id: u16,
    side: Side,
    price: i64,
    quantity: u32,
    every: u64,
    error: EngineError,
    checkpoints: Seq<Checkpoint>,
) -> bool {
    let msgs = submit_messages(
        matching_end(e0, symbol_id, side, price, quantity),
        incoming(e0, symbol_id, side, price),
    );
    exists|k: int, c: Matching|
        {
            &&& #[trigger] stopped_at(e0.model(), f, msgs, k, e1.model(), f1, error)
            &&& #[trigger] partway(e0, e1, symbol_id, side, price, quantity, c)
            &&& c.messages.len() <= k <= c.messages.len() + 1
            &&& checkpoints == checkpoints_of(e0.model(), f.log.len() as int, msgs.take(k), every)
        }
}

/// The messages of a matching begin with those it has.
proof fn lemma_messages_kept(m: Matching, o: Incoming)
    ensures
        m.messages.len() <= m.matched(o).messages.len(),
        m.matched(o).messages.take(m.messages.len() as int) == m.messages,
    decreases m.remaining,
{
    let all = m.matched(o).messages;
    if m.can_trade(o) {
        let n = m.step(o);
        lemma_messages_kept(n, o);
        assert(n.messages.take(m.messages.len() as int) =~= m.messages);
        assert(all.take(m.messages.len() as int) =~= all.take(n.messages.len() as int).take(
            m.messages.len() as int,
        ));
    } else {
        assert(all.take(m.messages.len() as int) =~= m.messages);
    }
}

/// Once matched, nothing more can be traded.
proof fn lemma_matched_stops(m: Matching, o: Incoming)
    ensures
        !m.matched(o).can_trade(o),
        m.matched(o).matched(o) == m.matched(o),
    decreases m.remaining,
{
    if m.can_trade(o) {
        lemma_matched_stops(m.step(o), o);
    }
}

/// Where the next trade's messages stand among all that a submission leads to.
proof fn lemma_next_messages(m: Matching, o: Incoming)
    requires
        m.can_trade(o),
    ensures
        ({
            let all = submit_messages(m.matched(o), o);
            let n = m.messages.len() as int;
            let two = m.step(o).messages;
            &&& n + 2 <= all.len()
            &&& all.take(n) == m.messages
            &&& all.take(n + 1) == two.drop_last()
            &&& all.take(n + 2) == two
            &&& all[n] == two[n]
            &&& all[n + 1] == two[n + 1]
        }),
{
    let n = m.messages.len() as int;
    let two = m.step(o).messages;
    let traded = m.matched(o).messages;
    let all = submit_messages(m.matched(o), o);
    lemma_messages_kept(m.step(o), o);
    assert(traded.take(n + 2) == two);
    assert(all.take(n + 2) =~= two);
    assert(all.take(n) =~= m.messages);
    assert(all.take(n + 1) =~= two.drop_last());
    assert(all.take(n + 2)[n] == all[n]);
    assert(all.take(n + 2)[n + 1] == all[n + 1]);
}

/// What a cancel does to the engine and to what is published.
pub open spec fn cancel_effect(
    e0: Engine,
    f0: FeedModel,
    e1: Engine,
    f1: FeedModel,
    symbol_id: u16,
    order_id: u64,
) -> bool {
    let m = e0.model()[symbol_id];
    let msg = (Change::Delete { order_id, side: m.orders[order_id].side }).message(symbol_id);
    &&& e1.with_book() == e0.with_book().insert(symbol_id)
    &&& e1.order_ids() == e0.order_ids()
    &&& e1.trade_ids() == e0.trade_ids()
    &&& e1.watching() == e0.watching()
    &&& e1.passive_fills() == e0.passive_fills()
    &&& if !m.has(order_id) {
        &&& f1 == f0
        &&& e1.model() == e0.model()
        &&& e1.symbol_list() == e0.symbol_list()
        &&& e1.counters() == e0.counters()
    } else {
        &&& f1 == f0.emitted(msg)
        &&& f1.log == f0.log.push(msg)
        &&& e1.model() == replay_one(e0.model(), msg)
        &&& only_live_changed(
            e0.symbol_list(),
            e1.symbol_list(),
            symbol_id,
            without_live(live_of(e0.symbol_list(), symbol_id), order_id),
        )
        &&& e1.counters() == (EngineStats {
            cancels: wrapping_add(e0.counters().cancels, 1),
            ..e0.counters()
        })
    }
}

/// What an amendment to a quantity above zero does to the engine and to what is
/// published.
pub open spec fn amend_effect(
    e0: Engine,
    f0: FeedModel,
    e1: Engine,
    f1: FeedModel,
    symbol_id: u16,
    order_id: u64,
    new_price: Option<i64>,
    new_quantity: u32,
) -> bool {
    let m = e0.model()[symbol_id];
    let msg = amendment(m.orders[order_id], new_price, new_quantity).message(symbol_id);
    &&& e1.with_book() == e0.with_book().insert(symbol_id)
    &&& e1.order_ids() == e0.order_ids()
    &&& e1.trade_ids() == e0.trade_ids()
    &&& e1.watching() == e0.watching()
    &&& e1.passive_fills() == e0.passive_fills()
    &&& e1.symbol_list() == e0.symbol_list()
    &&& if !m.has(order_id) {
        &&& f1 == f0
        &&& e1.model() == e0.model()
        &&& e1.counters() == e0.counters()
    } else {
        &&& f1 == f0.emitted(msg)
        &&& f1.log == f0.log.push(msg)
        &&& e1.model() == replay_one(e0.model(), msg)
        &&& e1.counters() == (EngineStats {
            modifies: wrapping_add(e0.counters().modifies, 1),
            ..e0.counters()
        })
    }
}

/// There are numbers left for one more order of any size, and the books can count it.
pub open spec fn can_go_on(e: Engine, feed: FeedPublisher) -> bool {
    &&& e.order_ids() < u64::MAX
    &&& e.trade_ids() + 0x1_0000_0000 < u64::MAX
    &&& feed@.log.len() + 0x2_0000_0002 < u64::MAX
    &&& countable(e.model(), 1)
}

impl Engine {
    /// The id that the next order gets.
    pub fn next_order_id(&self) -> (r: u64)
        ensures
            r == self.order_ids(),
    {
        self.next_order_id
    }

    /// The id that the next trade gets.
    pub fn next_trade_id(&self) -> (r: u64)
        ensures
            r == self.trade_ids(),
    {
        self.next_trade_id
    }

    /// Whether there are numbers left for one more order of any size.
    pub fn goes_on(&self, feed: &FeedPublisher) -> (r: bool)
        requires
            self.wf(),
            feed.wf(),
        ensures
            r == can_go_on(*self, *feed),
    {
        let far: u64 = u64::MAX - 0x2_0000_0002;
        self.next_order_id < u64::MAX && self.next_trade_id < u64::MAX - 0x1_0000_0000
            && feed.last_sequence() < far && counts_one_more(&self.books)
    }

    /// Takes a checkpoint where the sequence is a multiple of `every`.
    fn note(&self, sequence: u64, every: u64, out: &mut Vec<Checkpoint>)
        requires
            self.wf(),
            every != 0 ==> countable(self.model(), 0),
        ensures
            final(out)@ == (if every != 0 && sequence as int % (every as int) == 0 {
                old(out)@.push(Checkpoint { sequence, digest: books_digest(self.model()) })
            } else {
                old(out)@
            }),
    {
        if every != 0 && sequence % every == 0 {
            out.push(Checkpoint { sequence, digest: self.digest() });
        }
    }

    /// Takes an order off the background list of a symbol.
    fn drop_live(&mut self, symbol_id: u16, order_id: u64)
        requires
            old(self).wf(),
        ensures
            final(self).wf(),
            same_but_list(*old(self), *final(self)),
            only_live_changed(
                old(self).symbol_list(),
                final(self).symbol_list(),
                symbol_id,
                without_live(live_of(old(self).symbol_list(), symbol_id), order_id),
            ),
    {
        let ghost list = self.symbols@;
        proof {
            lemma_live_unchanged(list, symbol_id);
        }
        match self.symbol_index(symbol_id) {
            None => {
                assert(only_live_changed(
                    list,
                    list,
                    symbol_id,
                    without_live(live_of(list, symbol_id), order_id),
                ));
            },
            Some(idx) => {
                let ghost live = list[idx as int].live@;
                proof {
                    lemma_symbol(list, symbol_id, idx as int);
                }
                let n: usize = self.symbols[idx].live.len();
                let mut pos: usize = 0;
                while pos < n && self.symbols[idx].live[pos] != order_id
                    invariant
                        *self == *old(self),
                        list == self.symbols@,
                        idx < list.len(),
                        live == list[idx as int].live@,
                        n == live.len(),
                        pos <= n,
                        forall|j: int| 0 <= j < pos ==> live[j] != order_id,
                    decreases n - pos,
                {
                    pos = pos + 1;
                }
                if pos < n {
                    proof {
                        lemma_first_index(live, order_id, pos as int);
                    }
                    self.symbols[idx].live.swap_remove(pos);
                    assert(self.symbols@[idx as int].live@ =~= without_live(live, order_id));
                } else {
                    assert(!live.contains(order_id));
                }
                proof {
                    let now = self.symbols@;
                    assert forall|i: int| 0 <= i < list.len() implies {
                        &&& (#[trigger] now[i]).id == list[i].id
                        &&& now[i].tick_size == list[i].tick_size
                        &&& now[i].mid == list[i].mid
                        &&& now[i].live@ == (if is_symbol(list, symbol_id, i) {
                            without_live(live, order_id)
                        } else {
                            list[i].live@
                        })
                    } by {
                        if is_symbol(list, symbol_id, i) {
                            assert(i == idx);
                        }
                    }
                }
            },
        }
    }

    /// Puts an order on the background list of a symbol.
    fn push_live(&mut self, symbol_id: u16, order_id: u64)
        requires
            old(self).wf(),
        ensures
            final(self).wf(),
            same_but_list(*old(self), *final(self)),
            only_live_changed(
                old(self).symbol_list(),
                final(self).symbol_list(),
                symbol_id,
                live_of(old(self).symbol_list(), symbol_id).push(order_id),
            ),
    {
        let ghost list = self.symbols@;
        match self.symbol_index(symbol_id) {
            None => {},
            Some(idx) => {
                proof {
                    lemma_symbol(list, symbol_id, idx as int);
                }
                self.symbols[idx].live.push(order_id);
                proof {
                    let now = self.symbols@;
                    assert forall|i: int| 0 <= i < list.len() implies {
                        &&& (#[trigger] now[i]).id == list[i].id
                        &&& now[i].tick_size == list[i].tick_size
                        &&& now[i].mid == list[i].mid
                        &&& now[i].live@ == (if is_symbol(list, symbol_id, i) {
                            live_of(list, symbol_id).push(order_id)
                        } else {
                            list[i].live@
                        })
                    } by {
                        if is_symbol(list, symbol_id, i) {
                            assert(i == idx);
                        }
                    }
                }
            },
        }
    }

    /// What stands first on a side of a symbol's book.
    fn front_of(&mut self, symbol_id: u16, side: Side) -> (r: Option<RestingOrder>)
        requires
            old(self).wf(),
        ensures
            final(self).wf(),
            final(self).model() == old(self).model(),
            same_but_books(*old(self), *final(self)),
            final(self).with_book() == old(self).with_book().insert(symbol_id),
            ({
                let m = old(self).model()[symbol_id];
                &&& r is Some <==> m.front(side) is Some
                &&& r matches Some(o) ==> m.front(side) == Some((o.price, o.order_id))
                    && m.orders[o.order_id] == o && m.has(o.order_id) && o.quantity > 0 && o.side
                    == side
            }),
    {
        let ghost b0 = self.books;
        let ghost m = b0.model_of(symbol_id);
        proof {
            assert(self.model()[symbol_id] == m);
            self.lemma_model();
            crate::model::law_front_is_best(m, side);
        }
        let r = {
            let book = self.books.get_or_create(symbol_id);
            match ReferenceBook::front(book, side) {
                None => None,
                Some((best, id)) => match ReferenceBook::get(book, id) {
                    Some(o) => {
                        assert(m.orders[id].order_id == id);
                        Some(*o)
                    },
                    None => None,
                },
            }
        };
        proof {
            let after = self.model();
            assert forall|s: u16| #[trigger] after[s] == old(self).model()[s] by {
                assert(after[s] == self.books.model_of(s));
                assert(old(self).model()[s] == b0.model_of(s));
            }
            assert(after =~= old(self).model());
            assert(self.with_book() =~= old(self).with_book().insert(symbol_id));
        }
        r
    }

    /// Submits an order, and says what became of it.
    ///
    /// It trades with the other side as long as the prices cross, best price first
    /// and first come first, each time at the price of the resting order. What is
    /// left rests. A `background` order joins the flow of its symbol. A checkpoint is
    /// taken after every message whose sequence is a multiple of `every`.
    #[verifier::rlimit(100)]
    pub fn submit_reported(
        &mut self,
        feed: &mut FeedPublisher,
        symbol_id: u16,
        side: Side,
        price: i64,
        quantity: u32,
        background: bool,
        every: u64,
    ) -> (r: Result<SubmitReport, Stopped>)
        requires
            old(self).wf(),
            old(feed).wf(),
            old(self).order_ids() < u64::MAX,
            old(self).trade_ids() + quantity < u64::MAX,
            old(feed)@.log.len() + 2 * quantity + 2 < u64::MAX,
            every != 0 ==> countable(old(self).model(), 1),
        ensures
            final(self).wf(),
            final(feed).wf(),
            old(feed)@.sizes.fit(old(feed)@.max_bytes as int) && old(self).ids_issued() ==> r is Ok,
            old(self).ids_issued() ==> final(self).ids_issued(),
            final(self).order_ids() == old(self).order_ids() + 1,
            final(self).trade_ids() <= old(self).trade_ids() + quantity,
            final(feed)@.log.len() <= old(feed)@.log.len() + 2 * quantity + 1,
            final(feed)@.sizes == old(feed)@.sizes,
            final(feed)@.max_bytes == old(feed)@.max_bytes,
            r matches Err(e) ==> submit_stopped(
                *old(self),
                old(feed)@,
                *final(self),
                final(feed)@,
                symbol_id,
                side,
                price,
                quantity,
                every,
                e.error,
                e.checkpoints@,
            ),
            r is Ok ==> all_fit(
                old(feed)@,
                submit_messages(
                    matching_end(*old(self), symbol_id, side, price, quantity),
                    incoming(*old(self), symbol_id, side, price),
                ),
            ),
            r matches Ok(report) ==> {
                let o = incoming(*old(self), symbol_id, side, price);
                let m = matching_end(*old(self), symbol_id, side, price, quantity);
                let msgs = submit_messages(m, o);
                &&& report.order_id == o.order_id
                &&& report.resting == m.remaining
                &&& report.fills@ == m.fills
                &&& report.checkpoints@ == checkpoints_of(
                    old(self).model(),
                    old(feed)@.log.len() as int,
                    msgs,
                    every,
                )
                &&& final(feed)@ == old(feed)@.emitted_all(msgs)
                &&& final(feed)@.log == old(feed)@.log + msgs
                &&& final(self).with_book() == (if quantity > 0 {
                    old(self).with_book().insert(symbol_id)
                } else {
                    old(self).with_book()
                })
                &&& final(self).model() == replay(old(self).model(), msgs)
                &&& final(self).model() == old(self).model().insert(
                    symbol_id,
                    if m.remaining > 0 {
                        m.book.added(
                            RestingOrder {
                                order_id: o.order_id,
                                price,
                                quantity: m.remaining,
                                side,
                            },
                        )
                    } else {
                        m.book
                    },
                )
                &&& final(self).order_ids() == old(self).order_ids() + 1
                &&& final(self).trade_ids() == m.next_trade
                &&& final(self).watching() == old(self).watching()
                &&& final(self).passive_fills() == old(self).passive_fills() + m.passive
                &&& only_live_changed(
                    old(self).symbol_list(),
                    final(self).symbol_list(),
                    symbol_id,
                    if background && m.remaining > 0 {
                        m.live.push(o.order_id)
                    } else {
                        m.live
                    },
                )
                &&& final(self).counters() == (EngineStats {
                    orders_submitted: wrapping_add(old(self).counters().orders_submitted, 1),
                    trades: wrapping_add(old(self).counters().trades, m.fills.len() as u64),
                    shares_traded: wrapping_add(
                        old(self).counters().shares_traded,
                        m.shares as u64,
                    ),
                    aggressive_fills: if m.fills.len() > 0 {
                        wrapping_add(old(self).counters().aggressive_fills, 1)
                    } else {
                        old(self).counters().aggressive_fills
                    },
                    ..old(self).counters()
                })
            },
    {
        let order_id: u64 = self.next_order_id;
        self.next_order_id = self.next_order_id + 1;
        self.stats.orders_submitted = self.stats.orders_submitted.wrapping_add(1);
        let other: Side = opposite(side);
        let mut remaining: u32 = quantity;
        let mut fills: Vec<AggressorFill> = Vec::new();
        let mut checkpoints: Vec<Checkpoint> = Vec::new();
        let ghost o = incoming(*old(self), symbol_id, side, price);
        let ghost s0 = matching_start(*old(self), symbol_id, quantity);
        let ghost mut cur = s0;
        let ghost books0 = old(self).model();
        let ghost log0 = old(feed)@.log;
        let ghost fits = old(feed)@.sizes.fit(old(feed)@.max_bytes as int);
        proof {
            old(self).lemma_model();
            lemma_insert_same(books0, symbol_id);
            lemma_live_unchanged(self.symbols@, symbol_id);
            assert(log0 + cur.messages =~= log0);
            lemma_opened_twice(old(self).with_book(), symbol_id);
            assert(old(self).passive_fills() + cur.passive =~= old(self).passive_fills());
        }
        while remaining > 0
            invariant_except_break
                cur.matched(o) == s0.matched(o),
                self.with_book() == (if cur.remaining < quantity {
                    old(self).with_book().insert(symbol_id)
                } else {
                    old(self).with_book()
                }),
            invariant
                self.wf(),
                feed.wf(),
                o == incoming(*old(self), symbol_id, side, price),
                s0 == matching_start(*old(self), symbol_id, quantity),
                books0 == old(self).model(),
                log0 == old(feed)@.log,
                feed@ == old(feed)@.emitted_all(cur.messages),
                fits == old(feed)@.sizes.fit(old(feed)@.max_bytes as int),
                books0.dom().contains(symbol_id),
                other == side.other(),
                order_id == o.order_id,
                self.next_order_id == order_id + 1,
                old(self).trade_ids() + quantity < u64::MAX,
                old(feed)@.log.len() + 2 * quantity + 2 < u64::MAX,
                cur.book.wf(),
                self.model() == books0.insert(symbol_id, cur.book),
                self.model() == replay(books0, cur.messages),
                feed@.log == log0 + cur.messages,
                feed@.sizes == old(feed)@.sizes,
                feed@.max_bytes == old(feed)@.max_bytes,
                self.next_trade_id == cur.next_trade,
                remaining == cur.remaining,
                fills@ == cur.fills,
                self.passive@ == old(self).passive_fills() + cur.passive,
                self.watched@ == old(self).watching(),
                only_live_changed(old(self).symbol_list(), self.symbols@, symbol_id, cur.live),
                checkpoints@ == checkpoints_of(
                    books0,
                    log0.len() as int,
                    cur.messages,
                    every,
                ),
                self.stats == (EngineStats {
                    orders_submitted: wrapping_add(old(self).counters().orders_submitted, 1),
                    trades: wrapping_add(old(self).counters().trades, cur.fills.len() as u64),
                    shares_traded: wrapping_add(
                        old(self).counters().shares_traded,
                        cur.shares as u64,
                    ),
                    ..old(self).counters()
                }),
                cur.fills.len() + cur.remaining <= quantity,
                cur.next_trade == old(self).trade_ids() + cur.fills.len(),
                cur.messages.len() == 2 * cur.fills.len(),
                forall|j: int|
                    0 <= j < cur.messages.len() ==> fits_alone(
                        old(feed)@,
                        #[trigger] cur.messages[j],
                    ),
                cur.shares + cur.remaining == quantity,
                0 <= cur.shares,
                every != 0 ==> countable(self.model(), 1),
                old(self).ids_issued() ==> forall|id: u64| #[trigger]
                    cur.book.has(id) ==> id < order_id,
            ensures
                cur == s0.matched(o),
                quantity > 0 ==> self.with_book() == old(self).with_book().insert(symbol_id),
                quantity == 0 ==> self.with_book() == old(self).with_book(),
            decreases remaining,
        {
            assert(self.model()[symbol_id] == cur.book);
            proof {
                lemma_opened_twice(old(self).with_book(), symbol_id);
            }
            let resting: RestingOrder = match self.front_of(symbol_id, other) {
                None => break,
                Some(o) => o,
            };
            let best: i64 = resting.price;
            let crossing: bool = match side {
                Side::Bid => price >= best,
                Side::Ask => price <= best,
            };
            if !crossing {
                break;
            }
            let resting_id: u64 = resting.order_id;
            let fill: u32 = if remaining < resting.quantity {
                remaining
            } else {
                resting.quantity
            };
            let trade_id: u64 = self.next_trade_id;
            self.next_trade_id = self.next_trade_id + 1;
            let trade = Change::Trade {
                trade_id,
                aggressor_order_id: order_id,
                resting_order_id: resting_id,
                price: best,
                quantity: fill,
                aggressor_side: side,
            };
            let ghost next = cur.step(o);
            let ghost msg1 = trade.message(symbol_id);
            let ghost msgs1 = cur.messages.push(msg1);
            let ghost all = submit_messages(s0.matched(o), o);
            let ghost n = cur.messages.len() as int;
            proof {
                assert(cur.can_trade(o));
                lemma_step(cur, o);
                lemma_next_messages(cur, o);
                assert(next.messages.drop_last() =~= msgs1);
                assert(next.messages[n] == msg1);
                assert forall|j: int| 0 <= j < n implies fits_alone(
                    old(feed)@,
                    #[trigger] all[j],
                ) by {
                    assert(all.take(n)[j] == all[j]);
                }
                lemma_replay_push(books0, cur.messages, msg1);
                lemma_emitted_push(old(feed)@, cur.messages, msg1);
                lemma_checkpoint_push(books0, log0.len() as int, cur.messages, msg1, every);
                assert((log0 + cur.messages).push(msg1) =~= log0 + msgs1);
            }
            let seq: u64 = match self.publish(feed, symbol_id, trade) {
                Err(e) => {
                    proof {
                        if old(self).ids_issued() {
                            lemma_issued(*old(self), *self, symbol_id, cur.book);
                        }
                        assert(stopped_at(
                            books0,
                            old(feed)@,
                            all,
                            n,
                            self.model(),
                            feed@,
                            e,
                        ));
                        assert(partway(*old(self), *self, symbol_id, side, price, quantity, cur));
                    }
                    return Err(Stopped { error: e, checkpoints });
                },
                Ok(seq) => seq,
            };
            proof {
                assert(self.model() == books0.insert(symbol_id, cur.book));
            }
            self.note(seq, every, &mut checkpoints);
            let whole: bool = fill == resting.quantity;
            let change: Change = if whole {
                Change::Delete { order_id: resting_id, side: other }
            } else {
                Change::Reduce {
                    order_id: resting_id,
                    side: other,
                    price: resting.price,
                    new_quantity: resting.quantity - fill,
                }
            };
            let ghost msg2 = change.message(symbol_id);
            proof {
                assert(change == cur.change(o));
                assert(next.messages[n + 1] == msg2);
                lemma_replay_push(books0, msgs1, msg2);
                lemma_emitted_push(old(feed)@, msgs1, msg2);
                assert(msgs1.push(msg2) =~= next.messages);
                lemma_checkpoint_push(books0, log0.len() as int, msgs1, msg2, every);
                assert((log0 + msgs1).push(msg2) =~= log0 + next.messages);
                if every != 0 {
                    lemma_countable(self.model(), symbol_id, next.book, 1, 1);
                }
            }
            let seq: u64 = match self.publish(feed, symbol_id, change) {
                Err(e) => {
                    proof {
                        assert(self.model() =~= books0.insert(symbol_id, next.book));
                        if old(self).ids_issued() {
                            lemma_issued(*old(self), *self, symbol_id, next.book);
                        }
                        assert(stopped_at(
                            books0,
                            old(feed)@,
                            all,
                            n + 1,
                            self.model(),
                            feed@,
                            e,
                        ));
                        assert(partway(*old(self), *self, symbol_id, side, price, quantity, cur));
                    }
                    return Err(Stopped { error: e, checkpoints });
                },
                Ok(seq) => seq,
            };
            proof {
                assert(self.model() =~= books0.insert(symbol_id, next.book));
            }
            self.note(seq, every, &mut checkpoints);
            let ghost list = self.symbols@;
            if whole {
                self.drop_live(symbol_id, resting_id);
                proof {
                    lemma_same_symbols(old(self).symbol_list(), list, symbol_id, cur.live);
                    if exists|i: int| is_symbol(old(self).symbol_list(), symbol_id, i) {
                        lemma_live_twice(
                            old(self).symbol_list(),
                            list,
                            self.symbols@,
                            symbol_id,
                            cur.live,
                            next.live,
                        );
                    } else {
                        lemma_no_symbol(
                            old(self).symbol_list(),
                            list,
                            self.symbols@,
                            symbol_id,
                            cur.live,
                            without_live(live_of(list, symbol_id), resting_id),
                            next.live,
                        );
                    }
                }
            }
            if self.is_watched(resting_id) {
                self.passive.push(
                    PassiveFill {
                        resting_order_id: resting_id,
                        trade_id,
                        price: best,
                        quantity: fill,
                        leaves: resting.quantity - fill,
                        symbol_id,
                        side: other,
                    },
                );
            }
            remaining = remaining - fill;
            fills.push(AggressorFill { trade_id, price: best, quantity: fill, leaves: remaining });
            self.stats.trades = self.stats.trades.wrapping_add(1);
            self.stats.shares_traded = self.stats.shares_traded.wrapping_add(fill as u64);
            proof {
                assert(self.passive@ =~= old(self).passive_fills() + next.passive);
                assert(fills@ =~= next.fills);
                cur = next;
            }
        }
        if fills.len() > 0 {
            self.stats.aggressive_fills = self.stats.aggressive_fills.wrapping_add(1);
        }
        if remaining > 0 {
            let change = Change::Add { order_id, side, price, quantity: remaining };
            let ghost msg = change.message(symbol_id);
            let ghost added = cur.book.added(
                RestingOrder { order_id, price, quantity: remaining, side },
            );
            proof {
                assert(self.model()[symbol_id] == cur.book);
                lemma_replay_push(books0, cur.messages, msg);
                lemma_emitted_push(old(feed)@, cur.messages, msg);
                lemma_checkpoint_push(books0, log0.len() as int, cur.messages, msg, every);
                assert((log0 + cur.messages).push(msg) =~= log0 + cur.messages.push(msg));
                if !cur.book.has(order_id) {
                    law_added_wf(
                        cur.book,
                        RestingOrder { order_id, price, quantity: remaining, side },
                    );
                    if every != 0 {
                        lemma_countable(self.model(), symbol_id, added, 1, 0);
                    }
                }
                if old(self).ids_issued() {
                    assert(!cur.book.has(order_id));
                }
            }
            let ghost all = submit_messages(s0.matched(o), o);
            let ghost n = cur.messages.len() as int;
            proof {
                assert(all == cur.messages.push(msg));
                assert(all.take(n) =~= cur.messages);
                assert(all.take(n + 1) =~= all);
                assert forall|j: int| 0 <= j < n implies fits_alone(
                    old(feed)@,
                    #[trigger] all[j],
                ) by {
                    assert(all[j] == cur.messages[j]);
                }
            }
            let seq: u64 = match self.publish(feed, symbol_id, change) {
                Err(e) => {
                    proof {
                        assert(stopped_at(
                            books0,
                            old(feed)@,
                            all,
                            n,
                            self.model(),
                            feed@,
                            e,
                        ));
                        lemma_matched_stops(s0, o);
                        assert(partway(*old(self), *self, symbol_id, side, price, quantity, cur));
                        if old(self).ids_issued() {
                            assert(self.model() =~= books0.insert(symbol_id, added));
                            assert forall|id: u64| #[trigger] added.has(id) implies id
                                < self.order_ids() by {
                                if id != order_id {
                                    assert(cur.book.has(id));
                                }
                            }
                            lemma_issued(*old(self), *self, symbol_id, added);
                        }
                    }
                    return Err(Stopped { error: e, checkpoints });
                },
                Ok(seq) => seq,
            };
            proof {
                assert(self.model() =~= books0.insert(symbol_id, added));
            }
            self.note(seq, every, &mut checkpoints);
            if background {
                let ghost list = self.symbols@;
                self.push_live(symbol_id, order_id);
                proof {
                    lemma_same_symbols(old(self).symbol_list(), list, symbol_id, cur.live);
                    if exists|i: int| is_symbol(old(self).symbol_list(), symbol_id, i) {
                        lemma_live_twice(
                            old(self).symbol_list(),
                            list,
                            self.symbols@,
                            symbol_id,
                            cur.live,
                            cur.live.push(order_id),
                        );
                    } else {
                        lemma_no_symbol(
                            old(self).symbol_list(),
                            list,
                            self.symbols@,
                            symbol_id,
                            cur.live,
                            live_of(list, symbol_id).push(order_id),
                            cur.live.push(order_id),
                        );
                    }
                }
            }
        }
        proof {
            if old(self).ids_issued() {
                let book = self.model()[symbol_id];
                assert forall|id: u64| #[trigger] book.has(id) implies id < self.order_ids() by {
                    if id != order_id {
                        assert(cur.book.has(id));
                    }
                }
                lemma_issued(*old(self), *self, symbol_id, book);
            }
        }
        Ok(SubmitReport { order_id, resting: remaining, fills, checkpoints })
    }
}

/// Ids stay given out when one book changes to ids that were given out.
proof fn lemma_issued(a: Engine, b: Engine, symbol_id: u16, book: BookModel)
    requires
        a.ids_issued(),
        a.order_ids() <= b.order_ids(),
        b.model() == a.model().insert(symbol_id, book),
        forall|id: u64| #[trigger] book.has(id) ==> id < b.order_ids(),
    ensures
        b.ids_issued(),
{
    assert forall|s: u16, id: u64| #[trigger] b.model()[s].has(id) implies id < b.order_ids() by {
        if s == symbol_id {
            assert(book.has(id));
        } else {
            assert(a.model()[s].has(id));
        }
    }
}

/// Where a symbol is not traded, its list is whatever one likes.
proof fn lemma_no_symbol(
    a: Seq<SymbolState>,
    b: Seq<SymbolState>,
    c: Seq<SymbolState>,
    symbol_id: u16,
    x: Seq<u64>,
    y: Seq<u64>,
    z: Seq<u64>,
)
    requires
        only_live_changed(a, b, symbol_id, x),
        only_live_changed(b, c, symbol_id, y),
        !exists|i: int| is_symbol(a, symbol_id, i),
    ensures
        only_live_changed(a, c, symbol_id, z),
{
    lemma_live_twice(a, b, c, symbol_id, x, y);
    assert forall|i: int| 0 <= i < a.len() implies !#[trigger] is_symbol(a, symbol_id, i) by {}
}

impl Engine {
    /// Submits a background order.
    pub fn submit(
        &mut self,
        feed: &mut FeedPublisher,
        symbol_id: u16,
        side: Side,
        price: i64,
        quantity: u32,
        every: u64,
    ) -> (r: Result<Vec<Checkpoint>, Stopped>)
        requires
            old(self).wf(),
            old(feed).wf(),
            old(self).order_ids() < u64::MAX,
            old(self).trade_ids() + quantity < u64::MAX,
            old(feed)@.log.len() + 2 * quantity + 2 < u64::MAX,
            every != 0 ==> countable(old(self).model(), 1),
        ensures
            final(self).wf(),
            final(feed).wf(),
            old(feed)@.sizes.fit(old(feed)@.max_bytes as int) && old(self).ids_issued() ==> r is Ok,
            old(self).ids_issued() ==> final(self).ids_issued(),
            final(self).order_ids() == old(self).order_ids() + 1,
            final(self).trade_ids() <= old(self).trade_ids() + quantity,
            final(feed)@.log.len() <= old(feed)@.log.len() + 2 * quantity + 1,
            final(feed)@.sizes == old(feed)@.sizes,
            final(feed)@.max_bytes == old(feed)@.max_bytes,
            r matches Err(e) ==> submit_stopped(
                *old(self),
                old(feed)@,
                *final(self),
                final(feed)@,
                symbol_id,
                side,
                price,
                quantity,
                every,
                e.error,
                e.checkpoints@,
            ),
            r matches Ok(checkpoints) ==> {
                &&& checkpoints@ == checkpoints_of(
                    old(self).model(),
                    old(feed)@.log.len() as int,
                    submit_messages(
                        matching_end(*old(self), symbol_id, side, price, quantity),
                        incoming(*old(self), symbol_id, side, price),
                    ),
                    every,
                )
                &&& submit_effect(
                    *old(self),
                    old(feed)@,
                    *final(self),
                    final(feed)@,
                    symbol_id,
                    side,
                    price,
                    quantity,
                    true,
                )
            },
    {
        match self.submit_reported(feed, symbol_id, side, price, quantity, true, every) {
            Err(e) => Err(e),
            Ok(report) => Ok(report.checkpoints),
        }
    }

    /// The order of this id on a symbol's book.
    fn resting_of(&mut self, symbol_id: u16, order_id: u64) -> (r: Option<RestingOrder>)
        requires
            old(self).wf(),
        ensures
            final(self).wf(),
            final(self).model() == old(self).model(),
            same_but_books(*old(self), *final(self)),
            final(self).with_book() == old(self).with_book().insert(symbol_id),
            r == (if old(self).model()[symbol_id].has(order_id) {
                Some(old(self).model()[symbol_id].orders[order_id])
            } else {
                None
            }),
    {
        let ghost b0 = self.books;
        assert(self.model()[symbol_id] == b0.model_of(symbol_id));
        let r = {
            let book = self.books.get_or_create(symbol_id);
            match ReferenceBook::get(book, order_id) {
                Some(o) => Some(*o),
                None => None,
            }
        };
        proof {
            let after = self.model();
            assert forall|s: u16| #[trigger] after[s] == old(self).model()[s] by {
                assert(after[s] == self.books.model_of(s));
                assert(old(self).model()[s] == b0.model_of(s));
            }
            assert(after =~= old(self).model());
            assert(self.with_book() =~= old(self).with_book().insert(symbol_id));
        }
        r
    }

    /// Cancels an order, and says how much of it was left. An order that is not
    /// there is nothing to cancel, and nothing is published.
    pub fn cancel_reported(
        &mut self,
        feed: &mut FeedPublisher,
        symbol_id: u16,
        order_id: u64,
        every: u64,
    ) -> (r: Result<(Option<u32>, Vec<Checkpoint>), EngineError>)
        requires
            old(self).wf(),
            old(feed).wf(),
            old(feed)@.log.len() + 1 < u64::MAX,
            every != 0 ==> countable(old(self).model(), 0),
        ensures
            final(self).wf(),
            final(feed).wf(),
            final(self).with_book() == old(self).with_book().insert(symbol_id),
            final(self).order_ids() == old(self).order_ids(),
            final(self).trade_ids() == old(self).trade_ids(),
            final(self).watching() == old(self).watching(),
            final(self).passive_fills() == old(self).passive_fills(),
            final(feed)@.log.len() <= old(feed)@.log.len() + 1,
            final(feed)@.sizes == old(feed)@.sizes,
            final(feed)@.max_bytes == old(feed)@.max_bytes,
            old(self).ids_issued() ==> final(self).ids_issued(),
            ({
                let m = old(self).model()[symbol_id];
                if !m.has(order_id) {
                    &&& r matches Ok((None, c)) && c@.len() == 0
                    &&& final(self).model() == old(self).model()
                    &&& final(self).symbol_list() == old(self).symbol_list()
                    &&& final(self).counters() == old(self).counters()
                    &&& final(feed)@ == old(feed)@
                } else {
                    let o = m.orders[order_id];
                    let msg = (Change::Delete { order_id, side: o.side }).message(symbol_id);
                    &&& r is Ok <==> old(feed)@.sizes.packet_header + old(feed)@.sizes.of(msg)
                        <= old(feed)@.max_bytes
                    &&& final(self).model() == replay_one(old(self).model(), msg)
                    &&& r matches Err(e) ==> one_stopped(
                        *old(self),
                        old(feed)@,
                        *final(self),
                        final(feed)@,
                        msg,
                        e,
                    )
                    &&& r matches Ok((left, c)) ==> {
                        &&& left == Some(o.quantity)
                        &&& c@ == checkpoints_of(
                            old(self).model(),
                            old(feed)@.log.len() as int,
                            seq![msg],
                            every,
                        )
                        &&& final(feed)@ == old(feed)@.emitted(msg)
                        &&& final(feed)@.log == old(feed)@.log.push(msg)
                        &&& only_live_changed(
                            old(self).symbol_list(),
                            final(self).symbol_list(),
                            symbol_id,
                            without_live(live_of(old(self).symbol_list(), symbol_id), order_id),
                        )
                        &&& final(self).counters() == (EngineStats {
                            cancels: wrapping_add(old(self).counters().cancels, 1),
                            ..old(self).counters()
                        })
                    }
                }
            }),
    {
        let mut checkpoints: Vec<Checkpoint> = Vec::new();
        proof {
            self.lemma_model();
            lemma_opened_twice(self.with_book(), symbol_id);
        }
        let resting: RestingOrder = match self.resting_of(symbol_id, order_id) {
            None => return Ok((None, checkpoints)),
            Some(o) => o,
        };
        let change = Change::Delete { order_id, side: resting.side };
        let ghost books0 = self.model();
        let ghost msg = change.message(symbol_id);
        let ghost m = books0[symbol_id];
        proof {
            law_removed_wf(m, order_id);
            if every != 0 {
                lemma_countable(books0, symbol_id, m.removed(order_id), 0, 0);
            }
            lemma_one_message(books0, feed@.log.len() as int, msg, every);
        }
        let sent = self.publish(feed, symbol_id, change);
        proof {
            if old(self).ids_issued() {
                assert forall|id: u64| #[trigger] m.removed(order_id).has(id) implies id
                    < self.order_ids() by {
                    assert(old(self).model()[symbol_id].has(id));
                }
                lemma_issued(*old(self), *self, symbol_id, m.removed(order_id));
            }
        }
        let seq: u64 = match sent {
            Err(e) => return Err(e),
            Ok(seq) => seq,
        };
        self.note(seq, every, &mut checkpoints);
        self.drop_live(symbol_id, order_id);
        self.stats.cancels = self.stats.cancels.wrapping_add(1);
        Ok((Some(resting.quantity), checkpoints))
    }

    /// Cancels an order.
    pub fn cancel(
        &mut self,
        feed: &mut FeedPublisher,
        symbol_id: u16,
        order_id: u64,
        every: u64,
    ) -> (r: Result<Vec<Checkpoint>, EngineError>)
        requires
            old(self).wf(),
            old(feed).wf(),
            old(feed)@.log.len() + 1 < u64::MAX,
            every != 0 ==> countable(old(self).model(), 0),
        ensures
            final(self).wf(),
            final(feed).wf(),
            old(self).ids_issued() ==> final(self).ids_issued(),
            final(feed)@.log.len() <= old(feed)@.log.len() + 1,
            final(feed)@.sizes == old(feed)@.sizes,
            final(feed)@.max_bytes == old(feed)@.max_bytes,
            final(self).with_book() == old(self).with_book().insert(symbol_id),
            final(self).order_ids() == old(self).order_ids(),
            final(self).trade_ids() == old(self).trade_ids(),
            final(self).watching() == old(self).watching(),
            final(self).passive_fills() == old(self).passive_fills(),
            ({
                let m = old(self).model()[symbol_id];
                if !m.has(order_id) {
                    &&& r matches Ok(c) && c@.len() == 0
                    &&& final(self).model() == old(self).model()
                    &&& final(self).symbol_list() == old(self).symbol_list()
                    &&& final(self).counters() == old(self).counters()
                    &&& final(feed)@ == old(feed)@
                } else {
                    let msg = (Change::Delete {
                        order_id,
                        side: m.orders[order_id].side,
                    }).message(symbol_id);
                    &&& r is Ok <==> old(feed)@.sizes.packet_header + old(feed)@.sizes.of(msg)
                        <= old(feed)@.max_bytes
                    &&& final(self).model() == replay_one(old(self).model(), msg)
                    &&& r matches Err(e) ==> one_stopped(
                        *old(self),
                        old(feed)@,
                        *final(self),
                        final(feed)@,
                        msg,
                        e,
                    )
                    &&& r matches Ok(c) ==> {
                        &&& c@ == checkpoints_of(
                            old(self).model(),
                            old(feed)@.log.len() as int,
                            seq![msg],
                            every,
                        )
                        &&& final(feed)@ == old(feed)@.emitted(msg)
                        &&& final(feed)@.log == old(feed)@.log.push(msg)
                        &&& only_live_changed(
                            old(self).symbol_list(),
                            final(self).symbol_list(),
                            symbol_id,
                            without_live(live_of(old(self).symbol_list(), symbol_id), order_id),
                        )
                        &&& final(self).counters() == (EngineStats {
                            cancels: wrapping_add(old(self).counters().cancels, 1),
                            ..old(self).counters()
                        })
                    }
                }
            }),
    {
        match self.cancel_reported(feed, symbol_id, order_id, every) {
            Err(e) => Err(e),
            Ok((_, checkpoints)) => Ok(checkpoints),
        }
    }

    /// Changes an order's price, quantity or both. It keeps its place in the queue
    /// only if the price stays and the quantity goes down.
    pub fn amend(
        &mut self,
        feed: &mut FeedPublisher,
        symbol_id: u16,
        order_id: u64,
        new_price: Option<i64>,
        new_quantity: u32,
        every: u64,
    ) -> (r: Result<Vec<Checkpoint>, EngineError>)
        requires
            old(self).wf(),
            old(feed).wf(),
            old(feed)@.log.len() + 1 < u64::MAX,
            every != 0 ==> countable(old(self).model(), 0),
        ensures
            final(self).wf(),
            final(feed).wf(),
            old(self).ids_issued() ==> final(self).ids_issued(),
            final(feed)@.log.len() <= old(feed)@.log.len() + 1,
            final(feed)@.sizes == old(feed)@.sizes,
            final(feed)@.max_bytes == old(feed)@.max_bytes,
            final(self).with_book() == old(self).with_book().insert(symbol_id),
            final(self).order_ids() == old(self).order_ids(),
            final(self).trade_ids() == old(self).trade_ids(),
            final(self).watching() == old(self).watching(),
            final(self).passive_fills() == old(self).passive_fills(),
            final(self).symbol_list() == old(self).symbol_list(),
            ({
                let m = old(self).model()[symbol_id];
                if !m.has(order_id) {
                    &&& r matches Ok(c) && c@.len() == 0
                    &&& final(self).model() == old(self).model()
                    &&& final(self).counters() == old(self).counters()
                    &&& final(feed)@ == old(feed)@
                } else {
                    let change = amendment(m.orders[order_id], new_price, new_quantity);
                    let msg = change.message(symbol_id);
                    if new_quantity == 0 {
                        &&& r matches Err(e) && e == EngineError::Book(
                            BookError::ZeroQuantity(order_id),
                        )
                        &&& final(self).model() == old(self).model()
                        &&& final(self).counters() == old(self).counters()
                        &&& final(feed)@ == old(feed)@
                    } else {
                        &&& r is Ok <==> old(feed)@.sizes.packet_header + old(feed)@.sizes.of(msg)
                            <= old(feed)@.max_bytes
                        &&& final(self).model() == replay_one(old(self).model(), msg)
                        &&& r matches Err(e) ==> one_stopped(
                            *old(self),
                            old(feed)@,
                            *final(self),
                            final(feed)@,
                            msg,
                            e,
                        )
                        &&& r matches Ok(c) ==> {
                            &&& c@ == checkpoints_of(
                                old(self).model(),
                                old(feed)@.log.len() as int,
                                seq![msg],
                                every,
                            )
                            &&& final(feed)@ == old(feed)@.emitted(msg)
                            &&& final(feed)@.log == old(feed)@.log.push(msg)
                            &&& final(self).counters() == (EngineStats {
                                modifies: wrapping_add(old(self).counters().modifies, 1),
                                ..old(self).counters()
                            })
                        }
                    }
                }
            }),
    {
        let mut checkpoints: Vec<Checkpoint> = Vec::new();
        proof {
            self.lemma_model();
            lemma_opened_twice(self.with_book(), symbol_id);
        }
        let resting: RestingOrder = match self.resting_of(symbol_id, order_id) {
            None => return Ok(checkpoints),
            Some(o) => o,
        };
        let price: i64 = match new_price {
            Some(p) => p,
            None => resting.price,
        };
        let change: Change = if price == resting.price && new_quantity < resting.quantity {
            Change::Reduce { order_id, side: resting.side, price: resting.price, new_quantity }
        } else {
            Change::Replace { order_id, side: resting.side, new_price: price, new_quantity }
        };
        let ghost books0 = self.model();
        let ghost msg = change.message(symbol_id);
        let ghost m = books0[symbol_id];
        let ghost after = effect(msg, m);
        proof {
            assert(m.orders[order_id].order_id == order_id);
            if new_quantity > 0 {
                law_reduced_keeps_priority(m, order_id, new_quantity);
                crate::model::law_replaced_loses_priority(m, order_id, price, new_quantity);
                if every != 0 {
                    lemma_countable(books0, symbol_id, after, 0, 0);
                }
            }
            lemma_one_message(books0, feed@.log.len() as int, msg, every);
        }
        let sent = self.publish(feed, symbol_id, change);
        proof {
            if old(self).ids_issued() {
                if new_quantity > 0 {
                    assert forall|id: u64| #[trigger] after.has(id) implies id
                        < self.order_ids() by {
                        assert(old(self).model()[symbol_id].has(id));
                    }
                    lemma_issued(*old(self), *self, symbol_id, after);
                } else {
                    lemma_insert_same(books0, symbol_id);
                    assert forall|id: u64| #[trigger] m.has(id) implies id < self.order_ids() by {
                        assert(old(self).model()[symbol_id].has(id));
                    }
                    lemma_issued(*old(self), *self, symbol_id, m);
                }
            }
        }
        let seq: u64 = match sent {
            Err(e) => return Err(e),
            Ok(seq) => seq,
        };
        self.note(seq, every, &mut checkpoints);
        self.stats.modifies = self.stats.modifies.wrapping_add(1);
        Ok(checkpoints)
    }
}

/// The change that amending an order is.
pub open spec fn amendment(o: RestingOrder, new_price: Option<i64>, new_quantity: u32) -> Change {
    let price = match new_price {
        Some(p) => p,
        None => o.price,
    };
    if price == o.price && new_quantity < o.quantity {
        Change::Reduce { order_id: o.order_id, side: o.side, price: o.price, new_quantity }
    } else {
        Change::Replace { order_id: o.order_id, side: o.side, new_price: price, new_quantity }
    }
}

/// A run of one message.
proof fn lemma_one_message(books: Map<u16, BookModel>, from: int, msg: Message, every: u64)
    ensures
        replay(books, seq![msg]) == replay_one(books, msg),
        checkpoints_of(books, from, seq![msg], every) == (if every != 0 && (from + 1) % (
        every as int) == 0 {
            seq![Checkpoint {
                sequence: (from + 1) as u64,
                digest: books_digest(replay_one(books, msg)),
            }]
        } else {
            Seq::<Checkpoint>::empty()
        }),
{
    let e = Seq::<Message>::empty();
    assert(e.push(msg) =~= seq![msg]);
    lemma_replay_push(books, e, msg);
    lemma_checkpoint_push(books, from, e, msg, every);
    assert(checkpoints_of(books, from, e, every) =~= Seq::<Checkpoint>::empty());
    assert(Seq::<Checkpoint>::empty().push(
        Checkpoint { sequence: (from + 1) as u64, digest: books_digest(replay_one(books, msg)) },
    ) =~= seq![Checkpoint {
        sequence: (from + 1) as u64,
        digest: books_digest(replay_one(books, msg)),
    }]);
}

/// Only the lists of the symbols differ.
pub open spec fn same_but_list(a: Engine, b: Engine) -> bool {
    &&& b.model() == a.model()
    &&& b.with_book() == a.with_book()
    &&& b.order_ids() == a.order_ids()
    &&& b.trade_ids() == a.trade_ids()
    &&& b.counters() == a.counters()
    &&& b.watching() == a.watching()
    &&& b.passive_fills() == a.passive_fills()
}

} // verus!
