//! The reference books of all symbols.

use crate::model::{BookModel, Fault};
use crate::reference::ReferenceBook;
use crate::shelf::{
    all_auditable, all_valid, audit_books, changed, clear_book, clear_books, count_orders,
    find_symbol, first_fault_in, in_order, lemma_book_changed, lemma_book_in, lemma_book_inserted,
    lemma_listed, lemma_passes, list_symbols, model_in,
    room_in, symbols_of, SymbolBook,
};
use crate::space::Space;
use crate::view::{BookSet, OrderBook};
use vstd::prelude::*;

verus! {

pub struct Books {
    books: Vec<SymbolBook<ReferenceBook>>,
}

impl Books {
    pub closed spec fn entries(&self) -> Seq<SymbolBook<ReferenceBook>> {
        self.books@
    }

    /// A reference book has all the room there is.
    pub proof fn lemma_unbounded(&self)
        ensures
            forall|s: u16| #[trigger] self.room_of(s) == Space::Unbounded,
    {
    }

    pub fn new() -> (r: Self)
        ensures
            r.valid(),
            r.symbol_ids() == Seq::<u16>::empty(),
            forall|s: u16| #[trigger] r.model_of(s) == BookModel::empty(),
    {
        let r = Books { books: Vec::new() };
        assert(r.symbol_ids() =~= Seq::<u16>::empty());
        r
    }
}

impl BookSet for Books {
    type Book = ReferenceBook;

    open spec fn valid(&self) -> bool {
        in_order(self.entries()) && all_valid(self.entries())
    }

    open spec fn symbol_ids(&self) -> Seq<u16> {
        symbols_of(self.entries())
    }

    open spec fn model_of(&self, symbol_id: u16) -> BookModel {
        model_in(self.entries(), symbol_id)
    }

    open spec fn room_of(&self, symbol_id: u16) -> Space {
        room_in(self.entries(), symbol_id, Space::Unbounded)
    }

    open spec fn auditable(&self) -> bool {
        all_auditable(self.entries())
    }

    open spec fn first_fault(&self) -> Option<(u16, Fault)> {
        first_fault_in(self.entries(), 0)
    }

    proof fn lemma_valid(&self) {
        lemma_listed(self.entries());
        lemma_passes(self.entries(), 0);
        assert forall|s: u16| (#[trigger] self.model_of(s)).wf() by {
            crate::shelf::lemma_model_in_wf(self.entries(), s);
        }
    }

    fn get_or_create(&mut self, symbol_id: u16) -> (r: &mut ReferenceBook) {
        let ghost a = self.books@;
        let i: usize = match find_symbol(&self.books, symbol_id) {
            Ok(i) => i,
            Err(i) => {
                let entry = SymbolBook { symbol_id, book: ReferenceBook::new() };
                self.books.insert(i, entry);
                proof {
                    lemma_book_inserted(a, self.books@, i as int, entry);
                }
                i
            },
        };
        proof {
            let b = self.books@;
            lemma_book_in(b, i as int);
            lemma_listed(a);
            lemma_listed(b);
            assert forall|book: ReferenceBook| true implies #[trigger] changed(
                b,
                i as int,
                book,
            ) by {
                let c = b.update(i as int, SymbolBook { symbol_id, book });
                lemma_book_changed(b, c, i as int, book);
                lemma_listed(c);
            }
        }
        let ghost b = self.books@;
        let r = &mut self.books[i].book;
        assert(changed(b, i as int, *final(r)));
        r
    }

    fn get(&self, symbol_id: u16) -> (r: Option<&ReferenceBook>) {
        proof {
            lemma_listed(self.books@);
        }
        match find_symbol(&self.books, symbol_id) {
            Ok(i) => {
                proof {
                    lemma_book_in(self.books@, i as int);
                    assert(self.entries()[i as int].book.valid());
                }
                Some(&self.books[i].book)
            },
            Err(_) => None,
        }
    }

    fn for_each_symbol(&self) -> (r: Vec<u16>) {
        list_symbols(&self.books)
    }

    fn clear_all(&mut self) {
        clear_books(&mut self.books)
    }

    fn clear_symbol(&mut self, symbol_id: u16) {
        clear_book(&mut self.books, symbol_id)
    }

    fn total_orders(&self) -> (r: usize) {
        count_orders(
            &self.books,
            Ghost(Map::new(|s: u16| true, |s: u16| self.model_of(s))),
        )
    }

    fn check_invariants(&self) -> (r: Result<(), (u16, Fault)>) {
        audit_books(&self.books)
    }
}

} // verus!
