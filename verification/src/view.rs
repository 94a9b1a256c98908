//! What any book, and any set of books by symbol, can do.

use crate::mbo::MboBook;
use crate::message::Side;
use crate::model::{
    add_outcome, delete_outcome, reduce_outcome, replace_outcome, take_depth, BookError, BookModel,
    Fault, Level, RestingOrder,
};
use crate::reference::ReferenceBook;
use crate::space::Space;
use vstd::prelude::*;

verus! {

/// A book of one symbol.
pub trait OrderBook: Sized {
    spec fn model(&self) -> BookModel;

    spec fn room(&self) -> Space;

    spec fn valid(&self) -> bool;

    /// The book is at least such that it can be walked.
    spec fn auditable(&self) -> bool;

    /// The first thing that an audit of the book finds.
    spec fn first_fault(&self) -> Option<Fault>;

    /// A valid book has a well-formed model, can be audited and passes.
    proof fn lemma_valid(&self)
        requires
            self.valid(),
        ensures
            self.model().wf(),
            self.auditable(),
            self.first_fault() is None,
    ;

    fn add(&mut self, order_id: u64, side: Side, price: i64, quantity: u32) -> (r: Result<
        (),
        BookError,
    >)
        requires
            old(self).valid(),
        ensures
            final(self).valid(),
            r == add_outcome(
                old(self).model(),
                old(self).room().add_refusal(old(self).model(), order_id, price),
                order_id,
                quantity,
            ),
            final(self).model() == (if r is Ok {
                old(self).model().added(RestingOrder { order_id, price, quantity, side })
            } else {
                old(self).model()
            }),
            final(self).room() == (if quantity > 0 && !old(self).model().has(order_id) {
                old(self).room().placed(old(self).model(), price)
            } else {
                old(self).room()
            }),
    ;

    fn delete(&mut self, order_id: u64) -> (r: Result<RestingOrder, BookError>)
        requires
            old(self).valid(),
        ensures
            final(self).valid(),
            r == delete_outcome(old(self).model(), order_id),
            final(self).model() == (if r is Ok {
                old(self).model().removed(order_id)
            } else {
                old(self).model()
            }),
            final(self).room() == old(self).room(),
    ;

    fn reduce(&mut self, order_id: u64, new_quantity: u32) -> (r: Result<(), BookError>)
        requires
            old(self).valid(),
        ensures
            final(self).valid(),
            r == reduce_outcome(old(self).model(), order_id, new_quantity),
            final(self).model() == (if r is Ok {
                old(self).model().reduced(order_id, new_quantity)
            } else {
                old(self).model()
            }),
            final(self).room() == old(self).room(),
    ;

    fn replace(&mut self, order_id: u64, new_price: i64, new_quantity: u32) -> (r: Result<
        (),
        BookError,
    >)
        requires
            old(self).valid(),
        ensures
            final(self).valid(),
            r == replace_outcome(
                old(self).model(),
                old(self).room().price_refusal(old(self).model(), order_id, new_price),
                order_id,
                new_quantity,
            ),
            final(self).model() == (if r is Ok {
                old(self).model().replaced(order_id, new_price, new_quantity)
            } else {
                old(self).model()
            }),
            final(self).room() == (if r is Ok {
                old(self).room().placed(old(self).model(), new_price)
            } else {
                old(self).room()
            }),
    ;

    fn get(&self, order_id: u64) -> (r: Option<RestingOrder>)
        requires
            self.valid(),
        ensures
            r == (if self.model().has(order_id) {
                Some(self.model().orders[order_id])
            } else {
                None
            }),
    ;

    fn len(&self) -> (r: usize)
        requires
            self.valid(),
        ensures
            r == self.model().len(),
    ;

    fn is_empty(&self) -> (r: bool)
        requires
            self.valid(),
        ensures
            r == (self.model().len() == 0),
    ;

    fn level_count(&self, side: Side, depth: usize) -> (r: usize)
        requires
            self.valid(),
            self.model().len() <= u32::MAX,
        ensures
            r == take_depth(self.model().levels(side), depth as int).len(),
    ;

    fn for_each_level(&self, side: Side, depth: usize) -> (out: Vec<Level>)
        requires
            self.valid(),
            self.model().len() <= u32::MAX,
        ensures
            out@ == take_depth(self.model().levels(side), depth as int),
    ;

    fn for_each_order(&self, side: Side) -> (out: Vec<RestingOrder>)
        requires
            self.valid(),
        ensures
            out@ == self.model().in_priority(side),
    ;

    fn clear(&mut self)
        requires
            old(self).valid(),
        ensures
            final(self).valid(),
            final(self).model() == BookModel::empty(),
            final(self).room() == old(self).room(),
    ;

    /// Audits the book, and names the first thing that is wrong.
    fn check_invariants(&self) -> (r: Result<(), Fault>)
        requires
            self.auditable(),
        ensures
            r == (match self.first_fault() {
                None => Ok(()),
                Some(fault) => Err(fault),
            }),
    ;
}

/// The model of every symbol's book.
pub open spec fn models<B: BookSet>(b: &B) -> Map<u16, BookModel> {
    Map::new(|s: u16| true, |s: u16| b.model_of(s))
}

/// How many orders rest in the books of the given symbols.
pub open spec fn resting(books: Map<u16, BookModel>, symbols: Seq<u16>) -> int
    decreases symbols.len(),
{
    if symbols.len() == 0 {
        0
    } else {
        resting(books, symbols.drop_last()) + books[symbols.last()].len()
    }
}

/// Books by symbol.
pub trait BookSet: Sized {
    type Book: OrderBook;

    spec fn valid(&self) -> bool;

    /// The symbols that have a book, in ascending order.
    spec fn symbol_ids(&self) -> Seq<u16>;

    /// The book of a symbol, empty where it has none yet.
    spec fn model_of(&self, symbol_id: u16) -> BookModel;

    /// The room of a symbol's book, or what a new one would get.
    spec fn room_of(&self, symbol_id: u16) -> Space;

    /// Every book is at least such that it can be walked.
    spec fn auditable(&self) -> bool;

    /// The first thing that an audit of the books finds, and on which symbol: the books
    /// are looked at in order.
    spec fn first_fault(&self) -> Option<(u16, Fault)>;

    /// The symbols ascend, a symbol without a book reads as an empty one, and the books can
    /// be audited and pass.
    proof fn lemma_valid(&self)
        requires
            self.valid(),
        ensures
            forall|i: int, j: int|
                0 <= i < j < self.symbol_ids().len() ==> (#[trigger] self.symbol_ids()[i]) < (
                #[trigger] self.symbol_ids()[j]),
            forall|s: u16|
                !self.symbol_ids().contains(s) ==> #[trigger] self.model_of(s) == BookModel::empty(),
            forall|s: u16| (#[trigger] self.model_of(s)).wf(),
            self.auditable(),
            self.first_fault() is None,
    ;

    /// The book of a symbol, made on first use.
    fn get_or_create(&mut self, symbol_id: u16) -> (r: &mut Self::Book)
        requires
            old(self).valid(),
        ensures
            r.valid(),
            r.model() == old(self).model_of(symbol_id),
            r.room() == old(self).room_of(symbol_id),
            final(r).valid() ==> final(self).valid(),
            forall|s: u16| #[trigger]
                final(self).model_of(s) == (if s == symbol_id {
                    final(r).model()
                } else {
                    old(self).model_of(s)
                }),
            forall|s: u16| #[trigger]
                final(self).room_of(s) == (if s == symbol_id {
                    final(r).room()
                } else {
                    old(self).room_of(s)
                }),
            forall|s: u16| #[trigger]
                final(self).symbol_ids().contains(s) <==> old(self).symbol_ids().contains(s) || s
                    == symbol_id,
    ;

    fn get(&self, symbol_id: u16) -> (r: Option<&Self::Book>)
        requires
            self.valid(),
        ensures
            r is Some <==> self.symbol_ids().contains(symbol_id),
            r matches Some(b) ==> b.valid() && b.model() == self.model_of(symbol_id) && b.room()
                == self.room_of(symbol_id),
    ;

    /// The symbols that have a book, in ascending order.
    fn for_each_symbol(&self) -> (r: Vec<u16>)
        requires
            self.valid(),
        ensures
            r@ == self.symbol_ids(),
    ;

    fn clear_all(&mut self)
        requires
            old(self).valid(),
        ensures
            final(self).valid(),
            final(self).symbol_ids() == old(self).symbol_ids(),
            forall|s: u16| #[trigger] final(self).model_of(s) == BookModel::empty(),
            forall|s: u16| #[trigger] final(self).room_of(s) == old(self).room_of(s),
    ;

    fn clear_symbol(&mut self, symbol_id: u16)
        requires
            old(self).valid(),
        ensures
            final(self).valid(),
            final(self).symbol_ids() == old(self).symbol_ids(),
            forall|s: u16| #[trigger]
                final(self).model_of(s) == (if s == symbol_id {
                    BookModel::empty()
                } else {
                    old(self).model_of(s)
                }),
            forall|s: u16| #[trigger] final(self).room_of(s) == old(self).room_of(s),
    ;

    /// How many orders rest over all symbols.
    fn total_orders(&self) -> (r: usize)
        requires
            self.valid(),
            resting(Map::new(|s: u16| true, |s: u16| self.model_of(s)), self.symbol_ids())
                <= usize::MAX,
        ensures
            r == resting(Map::new(|s: u16| true, |s: u16| self.model_of(s)), self.symbol_ids()),
    ;

    /// Audits every book, and names the first thing that is wrong, with its symbol.
    fn check_invariants(&self) -> (r: Result<(), (u16, Fault)>)
        requires
            self.auditable(),
        ensures
            r == (match self.first_fault() {
                None => Ok(()),
                Some((symbol_id, fault)) => Err((symbol_id, fault)),
            }),
    ;
}

impl OrderBook for ReferenceBook {
    open spec fn model(&self) -> BookModel {
        self@
    }

    open spec fn room(&self) -> Space {
        Space::Unbounded
    }

    open spec fn valid(&self) -> bool {
        self.wf()
    }

    /// There is nothing in it that could not be walked.
    open spec fn auditable(&self) -> bool {
        true
    }

    open spec fn first_fault(&self) -> Option<Fault> {
        ReferenceBook::first_fault(self)
    }

    proof fn lemma_valid(&self) {
        self.lemma_model_wf();
        self.law_wf_is_filed();
    }

    fn add(&mut self, order_id: u64, side: Side, price: i64, quantity: u32) -> (r: Result<
        (),
        BookError,
    >) {
        ReferenceBook::add(self, order_id, side, price, quantity)
    }

    fn delete(&mut self, order_id: u64) -> (r: Result<RestingOrder, BookError>) {
        ReferenceBook::delete(self, order_id)
    }

    fn reduce(&mut self, order_id: u64, new_quantity: u32) -> (r: Result<(), BookError>) {
        ReferenceBook::reduce(self, order_id, new_quantity)
    }

    fn replace(&mut self, order_id: u64, new_price: i64, new_quantity: u32) -> (r: Result<
        (),
        BookError,
    >) {
        ReferenceBook::replace(self, order_id, new_price, new_quantity)
    }

    fn get(&self, order_id: u64) -> (r: Option<RestingOrder>) {
        match ReferenceBook::get(self, order_id) {
            Some(o) => Some(*o),
            None => None,
        }
    }

    fn len(&self) -> (r: usize) {
        ReferenceBook::len(self)
    }

    fn is_empty(&self) -> (r: bool) {
        ReferenceBook::is_empty(self)
    }

    fn level_count(&self, side: Side, depth: usize) -> (r: usize) {
        ReferenceBook::levels(self, side, depth).len()
    }

    fn for_each_level(&self, side: Side, depth: usize) -> (out: Vec<Level>) {
        ReferenceBook::levels(self, side, depth)
    }

    fn for_each_order(&self, side: Side) -> (out: Vec<RestingOrder>) {
        ReferenceBook::orders_in_queue_order(self, side)
    }

    fn clear(&mut self) {
        ReferenceBook::clear(self)
    }

    fn check_invariants(&self) -> (r: Result<(), Fault>) {
        ReferenceBook::check_invariants(self)
    }
}

impl OrderBook for MboBook {
    open spec fn model(&self) -> BookModel {
        self@
    }

    open spec fn room(&self) -> Space {
        self.space()
    }

    open spec fn valid(&self) -> bool {
        self.wf()
    }

    open spec fn auditable(&self) -> bool {
        MboBook::auditable(self)
    }

    open spec fn first_fault(&self) -> Option<Fault> {
        MboBook::first_fault(self)
    }

    proof fn lemma_valid(&self) {
        self.lemma_model_wf();
        self.law_wf_is_sound();
    }

    fn add(&mut self, order_id: u64, side: Side, price: i64, quantity: u32) -> (r: Result<
        (),
        BookError,
    >) {
        MboBook::add(self, order_id, side, price, quantity)
    }

    fn delete(&mut self, order_id: u64) -> (r: Result<RestingOrder, BookError>) {
        MboBook::delete(self, order_id)
    }

    fn reduce(&mut self, order_id: u64, new_quantity: u32) -> (r: Result<(), BookError>) {
        MboBook::reduce(self, order_id, new_quantity)
    }

    fn replace(&mut self, order_id: u64, new_price: i64, new_quantity: u32) -> (r: Result<
        (),
        BookError,
    >) {
        MboBook::replace(self, order_id, new_price, new_quantity)
    }

    fn get(&self, order_id: u64) -> (r: Option<RestingOrder>) {
        MboBook::get(self, order_id)
    }

    fn len(&self) -> (r: usize) {
        MboBook::len(self)
    }

    fn is_empty(&self) -> (r: bool) {
        MboBook::is_empty(self)
    }

    fn level_count(&self, side: Side, depth: usize) -> (r: usize) {
        MboBook::level_count(self, side, depth)
    }

    fn for_each_level(&self, side: Side, depth: usize) -> (out: Vec<Level>) {
        MboBook::for_each_level(self, side, depth)
    }

    fn for_each_order(&self, side: Side) -> (out: Vec<RestingOrder>) {
        MboBook::for_each_order(self, side)
    }

    fn clear(&mut self) {
        MboBook::clear(self)
    }

    fn check_invariants(&self) -> (r: Result<(), Fault>) {
        MboBook::check_invariants(self)
    }
}

} // verus!
