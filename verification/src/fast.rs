//! The fast books of all symbols.

use crate::model::{BookModel, Fault};
use crate::mbo::{MboBook, MboCapacity, MboStats};
use crate::shelf::{
    all_auditable, all_valid, audit_books, changed, clear_book, clear_books, count_orders,
    find_symbol, first_fault_in, in_order, lemma_book_changed, lemma_book_in, lemma_book_inserted,
    lemma_listed, lemma_passes, list_symbols, model_in,
    room_in, symbols_of, SymbolBook,
};
use crate::space::Space;
use crate::view::{BookSet, OrderBook};
use vstd::prelude::*;

verus! {

pub struct FastBooks {
    books: Vec<SymbolBook<MboBook>>,
    fallback: MboCapacity,
}

/// The capacity of a book for which none is configured.
pub fn default_capacity() -> (r: MboCapacity)
    ensures
        r == (MboCapacity {
            levels: 4096,
            orders: 65536,
            reference_price: 1_000_000,
            tick: 100,
        }),
        r.valid(),
{
    let capacity = MboCapacity::new(1_000_000, 100);
    proof {
        crate::order_map::lemma_power_above(4 * capacity.order_slots());
        let w = capacity.window();
        assert((4096int / 2) * 100 == 204_800) by (nonlinear_arith);
        assert((w.capacity - 1) * w.tick == 409_500) by (nonlinear_arith)
            requires
                w.capacity == 4096,
                w.tick == 100,
        ;
    }
    capacity
}

/// The room of a new book of this capacity.
pub open spec fn fresh_space(capacity: MboCapacity) -> Space {
    Space::Bounded { window: capacity.window(), orders: capacity.order_slots() as nat }
}

/// The counters of the first `k` books: sums that wrap, and the highest peak.
pub open spec fn stats_over(entries: Seq<SymbolBook<MboBook>>, k: int) -> MboStats
    decreases k,
{
    if k <= 0 {
        MboStats { rebases: 0, extra_probes: 0, lookups: 0, peak_orders: 0 }
    } else {
        let a = stats_over(entries, k - 1);
        let b = entries[k - 1].book.counters();
        MboStats {
            rebases: vstd::wrapping::u64_specs::wrapping_add(a.rebases, b.rebases),
            extra_probes: vstd::wrapping::u64_specs::wrapping_add(a.extra_probes, b.extra_probes),
            lookups: vstd::wrapping::u64_specs::wrapping_add(a.lookups, b.lookups),
            peak_orders: if b.peak_orders > a.peak_orders {
                b.peak_orders
            } else {
                a.peak_orders
            },
        }
    }
}

/// The capacity given first for a symbol among the first `k`.
pub open spec fn first_capacity(
    symbols: Seq<(u16, MboCapacity)>,
    symbol_id: u16,
    k: int,
) -> Option<MboCapacity>
    decreases k,
{
    if k <= 0 {
        None
    } else if first_capacity(symbols, symbol_id, k - 1) is Some {
        first_capacity(symbols, symbol_id, k - 1)
    } else if symbols[k - 1].0 == symbol_id {
        Some(symbols[k - 1].1)
    } else {
        None
    }
}

impl FastBooks {
    pub closed spec fn entries(&self) -> Seq<SymbolBook<MboBook>> {
        self.books@
    }

    /// The capacity of a book that is made on first use.
    pub closed spec fn fallback(&self) -> MboCapacity {
        self.fallback
    }

    pub fn new(fallback: MboCapacity) -> (r: Self)
        requires
            fallback.valid(),
        ensures
            r.valid(),
            r.fallback() == fallback,
            r.symbol_ids() == Seq::<u16>::empty(),
            forall|s: u16| #[trigger] r.model_of(s) == BookModel::empty(),
            forall|s: u16| #[trigger] r.room_of(s) == fresh_space(fallback),
    {
        let r = FastBooks { books: Vec::with_capacity(16), fallback };
        assert(r.symbol_ids() =~= Seq::<u16>::empty());
        r
    }

    /// Books for the given symbols, each of its own capacity. Of a symbol that is
    /// given twice the first counts.
    pub fn with_symbols(symbols: &Vec<(u16, MboCapacity)>, fallback: MboCapacity) -> (r: Self)
        requires
            fallback.valid(),
            forall|i: int| 0 <= i < symbols@.len() ==> (#[trigger] symbols@[i]).1.valid(),
        ensures
            r.valid(),
            r.fallback() == fallback,
            forall|s: u16| #[trigger] r.model_of(s) == BookModel::empty(),
            forall|s: u16| #[trigger]
                r.symbol_ids().contains(s) <==> first_capacity(
                    symbols@,
                    s,
                    symbols@.len() as int,
                ) is Some,
            forall|s: u16| #[trigger]
                r.room_of(s) == (match first_capacity(symbols@, s, symbols@.len() as int) {
                    Some(c) => fresh_space(c),
                    None => fresh_space(fallback),
                }),
    {
        let mut set = Self::new(fallback);
        let mut i: usize = 0;
        while i < symbols.len()
            invariant
                forall|i: int| 0 <= i < symbols@.len() ==> (#[trigger] symbols@[i]).1.valid(),
                i <= symbols@.len(),
                set.valid(),
                set.fallback() == fallback,
                forall|s: u16| #[trigger] set.model_of(s) == BookModel::empty(),
                forall|s: u16| #[trigger]
                    set.symbol_ids().contains(s) <==> first_capacity(symbols@, s, i as int) is Some,
                forall|s: u16| #[trigger]
                    set.room_of(s) == (match first_capacity(symbols@, s, i as int) {
                        Some(c) => fresh_space(c),
                        None => fresh_space(fallback),
                    }),
            decreases symbols@.len() - i,
        {
            let (symbol_id, capacity) = symbols[i];
            let ghost before = set;
            let ghost a = set.books@;
            assert(symbols@[i as int].1.valid());
            proof {
                lemma_listed(a);
                assert(set.symbol_ids() == symbols_of(a));
            }
            match find_symbol(&set.books, symbol_id) {
                Ok(_) => {
                    assert(set.symbol_ids().contains(symbol_id));
                },
                Err(at) => {
                    let entry = SymbolBook { symbol_id, book: MboBook::new(capacity) };
                    set.books.insert(at, entry);
                    proof {
                        lemma_book_inserted(a, set.books@, at as int, entry);
                        lemma_listed(set.books@);
                        assert(!symbols_of(a).contains(symbol_id));
                        assert forall|k: int| 0 <= k < set.books@.len() implies (
                        #[trigger] set.books@[k]).book.valid() by {
                            if k < at {
                                assert(set.books@[k] == a[k]);
                            } else if k > at {
                                assert(set.books@[k] == a[k - 1]);
                            }
                        }
                    }
                },
            }
            i = i + 1;
            proof {
                assert forall|s: u16| #[trigger] set.model_of(s) == BookModel::empty() by {
                    assert(before.model_of(s) == BookModel::empty());
                }
                assert forall|s: u16| #[trigger]
                    set.symbol_ids().contains(s) <==> first_capacity(symbols@, s, i as int) is Some by {
                    assert(before.symbol_ids().contains(s) <==> first_capacity(symbols@, s, i - 1) is Some);
                }
                assert forall|s: u16| #[trigger]
                    set.room_of(s) == (match first_capacity(symbols@, s, i as int) {
                        Some(c) => fresh_space(c),
                        None => fresh_space(fallback),
                    }) by {
                    assert(before.symbol_ids().contains(s) <==> first_capacity(symbols@, s, i - 1) is Some);
                    assert(before.room_of(s) == (match first_capacity(symbols@, s, i - 1) {
                        Some(c) => fresh_space(c),
                        None => fresh_space(fallback),
                    }));
                }
            }
        }
        set
    }

    /// Books for the given symbols, all of one capacity.
    pub fn uniform(symbols: &Vec<u16>, capacity: MboCapacity) -> (r: Self)
        requires
            capacity.valid(),
        ensures
            r.valid(),
            r.fallback() == capacity,
            forall|s: u16| #[trigger] r.model_of(s) == BookModel::empty(),
            forall|s: u16| #[trigger] r.symbol_ids().contains(s) <==> symbols@.contains(s),
            forall|s: u16| #[trigger] r.room_of(s) == fresh_space(capacity),
    {
        let mut set = Self::new(capacity);
        let mut i: usize = 0;
        while i < symbols.len()
            invariant
                i <= symbols@.len(),
                set.valid(),
                set.fallback() == capacity,
                forall|s: u16| #[trigger] set.model_of(s) == BookModel::empty(),
                forall|s: u16| #[trigger]
                    set.symbol_ids().contains(s) <==> symbols@.take(i as int).contains(s),
                forall|s: u16| #[trigger] set.room_of(s) == fresh_space(capacity),
            decreases symbols@.len() - i,
        {
            let ghost before = set;
            let _ = set.get_or_create(symbols[i]);
            proof {
                let a = symbols@.take(i as int);
                let b = symbols@.take(i as int + 1);
                assert(b =~= a.push(symbols@[i as int]));
                assert forall|s: u16| #[trigger] set.symbol_ids().contains(s) <==> b.contains(s) by {
                    assert(before.symbol_ids().contains(s) <==> a.contains(s));
                    if b.contains(s) {
                        let k = choose|k: int| 0 <= k < b.len() && b[k] == s;
                        if k < a.len() {
                            assert(a[k] == s);
                        }
                    }
                    if a.contains(s) {
                        let k = choose|k: int| 0 <= k < a.len() && a[k] == s;
                        assert(b[k] == s);
                    }
                    assert(b[i as int] == symbols@[i as int]);
                }
            }
            i = i + 1;
        }
        assert(symbols@.take(i as int) =~= symbols@);
        set
    }

    pub fn fallback_capacity(&self) -> (r: MboCapacity)
        ensures
            r == self.fallback(),
    {
        self.fallback
    }

    /// How many symbols have a book.
    pub fn symbols(&self) -> (r: usize)
        ensures
            r == self.symbol_ids().len(),
    {
        self.books.len()
    }

    /// The books, in order of their symbol.
    pub fn iter(&self) -> (r: &Vec<SymbolBook<MboBook>>)
        ensures
            r@ == self.entries(),
    {
        &self.books
    }

    /// The counters of all books together.
    pub fn stats(&self) -> (r: MboStats)
        ensures
            r == stats_over(self.entries(), self.entries().len() as int),
    {
        let mut out = MboStats::default();
        let mut i: usize = 0;
        while i < self.books.len()
            invariant
                i <= self.books@.len(),
                out == stats_over(self.books@, i as int),
            decreases self.books@.len() - i,
        {
            let s = self.books[i].book.stats();
            out.rebases = out.rebases.wrapping_add(s.rebases);
            out.extra_probes = out.extra_probes.wrapping_add(s.extra_probes);
            out.lookups = out.lookups.wrapping_add(s.lookups);
            if s.peak_orders > out.peak_orders {
                out.peak_orders = s.peak_orders;
            }
            i = i + 1;
        }
        out
    }
}

impl BookSet for FastBooks {
    type Book = MboBook;

    open spec fn valid(&self) -> bool {
        in_order(self.entries()) && all_valid(self.entries()) && self.fallback().valid()
    }

    open spec fn symbol_ids(&self) -> Seq<u16> {
        symbols_of(self.entries())
    }

    open spec fn model_of(&self, symbol_id: u16) -> BookModel {
        model_in(self.entries(), symbol_id)
    }

    open spec fn room_of(&self, symbol_id: u16) -> Space {
        room_in(self.entries(), symbol_id, fresh_space(self.fallback()))
    }

    open spec fn auditable(&self) -> bool {
        all_auditable(self.entries())
    }

    open spec fn first_fault(&self) -> Option<(u16, Fault)> {
        first_fault_in(self.entries(), 0)
    }

    proof fn lemma_valid(&self) {
        lemma_listed(self.entries());
        lemma_passes(self.entries(), 0);
        assert forall|s: u16| (#[trigger] self.model_of(s)).wf() by {
            crate::shelf::lemma_model_in_wf(self.entries(), s);
        }
    }

    fn get_or_create(&mut self, symbol_id: u16) -> (r: &mut MboBook)
        ensures
            final(self).fallback() == old(self).fallback(),
    {
        let ghost a = self.books@;
        let i: usize = match find_symbol(&self.books, symbol_id) {
            Ok(i) => i,
            Err(i) => {
                let entry = SymbolBook { symbol_id, book: MboBook::new(self.fallback) };
                self.books.insert(i, entry);
                proof {
                    lemma_book_inserted(a, self.books@, i as int, entry);
                }
                i
            },
        };
        proof {
            let b = self.books@;
            lemma_book_in(b, i as int);
            lemma_listed(a);
            lemma_listed(b);
            assert forall|book: MboBook| true implies #[trigger] changed(
                b,
                i as int,
                book,
            ) by {
                let c = b.update(i as int, SymbolBook { symbol_id, book });
                lemma_book_changed(b, c, i as int, book);
                lemma_listed(c);
            }
        }
        let ghost b = self.books@;
        let r = &mut self.books[i].book;
        assert(changed(b, i as int, *final(r)));
        r
    }

    fn get(&self, symbol_id: u16) -> (r: Option<&MboBook>) {
        proof {
            lemma_listed(self.books@);
        }
        match find_symbol(&self.books, symbol_id) {
            Ok(i) => {
                proof {
                    lemma_book_in(self.books@, i as int);
                    assert(self.entries()[i as int].book.valid());
                }
                Some(&self.books[i].book)
            },
            Err(_) => None,
        }
    }

    fn for_each_symbol(&self) -> (r: Vec<u16>) {
        list_symbols(&self.books)
    }

    fn clear_all(&mut self) {
        clear_books(&mut self.books)
    }

    fn clear_symbol(&mut self, symbol_id: u16) {
        clear_book(&mut self.books, symbol_id)
    }

    fn total_orders(&self) -> (r: usize) {
        count_orders(
            &self.books,
            Ghost(Map::new(|s: u16| true, |s: u16| self.model_of(s))),
        )
    }

    fn check_invariants(&self) -> (r: Result<(), (u16, Fault)>) {
        audit_books(&self.books)
    }
}

} // verus!
