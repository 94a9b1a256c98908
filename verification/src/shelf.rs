//! Books kept in order of their symbol.

use crate::model::{BookModel, Fault};
use crate::space::Space;
use crate::view::{resting, OrderBook};
use vstd::prelude::*;

verus! {

pub struct SymbolBook<B> {
    pub symbol_id: u16,
    pub book: B,
}

/// Symbols ascend.
pub open spec fn in_order<B>(entries: Seq<SymbolBook<B>>) -> bool {
    forall|i: int, j: int|
        0 <= i < j < entries.len() ==> (#[trigger] entries[i]).symbol_id < (
        #[trigger] entries[j]).symbol_id
}

pub open spec fn all_valid<B: OrderBook>(entries: Seq<SymbolBook<B>>) -> bool {
    forall|i: int| 0 <= i < entries.len() ==> (#[trigger] entries[i]).book.valid()
}

pub open spec fn is_entry<B>(entries: Seq<SymbolBook<B>>, symbol_id: u16, i: int) -> bool {
    0 <= i < entries.len() && entries[i].symbol_id == symbol_id
}

/// The book of a symbol.
pub open spec fn book_in<B>(entries: Seq<SymbolBook<B>>, symbol_id: u16) -> Option<B> {
    if exists|i: int| is_entry(entries, symbol_id, i) {
        Some(entries[choose|i: int| is_entry(entries, symbol_id, i)].book)
    } else {
        None
    }
}

pub open spec fn symbols_of<B>(entries: Seq<SymbolBook<B>>) -> Seq<u16> {
    Seq::new(entries.len(), |i: int| entries[i].symbol_id)
}

pub open spec fn model_in<B: OrderBook>(
    entries: Seq<SymbolBook<B>>,
    symbol_id: u16,
) -> BookModel {
    match book_in(entries, symbol_id) {
        Some(b) => b.model(),
        None => BookModel::empty(),
    }
}

pub open spec fn room_in<B: OrderBook>(
    entries: Seq<SymbolBook<B>>,
    symbol_id: u16,
    fresh: Space,
) -> Space {
    match book_in(entries, symbol_id) {
        Some(b) => b.room(),
        None => fresh,
    }
}

pub proof fn lemma_book_in<B>(entries: Seq<SymbolBook<B>>, i: int)
    requires
        in_order(entries),
        0 <= i < entries.len(),
    ensures
        book_in(entries, entries[i].symbol_id) == Some(entries[i].book),
{
    let s = entries[i].symbol_id;
    assert(is_entry(entries, s, i));
    let k = choose|k: int| is_entry(entries, s, k);
    if k < i {
        assert(entries[k].symbol_id < entries[i].symbol_id);
    }
    if i < k {
        assert(entries[i].symbol_id < entries[k].symbol_id);
    }
}

/// A symbol is listed if and only if it has a book.
pub proof fn lemma_listed<B>(entries: Seq<SymbolBook<B>>)
    requires
        in_order(entries),
    ensures
        forall|s: u16| #[trigger]
            symbols_of(entries).contains(s) <==> book_in(entries, s) is Some,
        forall|i: int, j: int|
            0 <= i < j < symbols_of(entries).len() ==> (#[trigger] symbols_of(entries)[i]) < (
            #[trigger] symbols_of(entries)[j]),
{
    let ss = symbols_of(entries);
    assert forall|s: u16| #[trigger] ss.contains(s) <==> book_in(entries, s) is Some by {
        if ss.contains(s) {
            let i = choose|i: int| 0 <= i < ss.len() && ss[i] == s;
            assert(is_entry(entries, s, i));
        }
        if exists|i: int| is_entry(entries, s, i) {
            let i = choose|i: int| is_entry(entries, s, i);
            assert(ss[i] == s);
        }
    }
    assert forall|i: int, j: int| 0 <= i < j < ss.len() implies (#[trigger] ss[i]) < (
    #[trigger] ss[j]) by {
        assert(entries[i].symbol_id < entries[j].symbol_id);
    }
}

/// Replacing one book changes what its symbol has, and nothing else.
pub proof fn lemma_book_changed<B>(
    a: Seq<SymbolBook<B>>,
    b: Seq<SymbolBook<B>>,
    i: int,
    book: B,
)
    requires
        in_order(a),
        0 <= i < a.len(),
        b == a.update(i, (SymbolBook { symbol_id: a[i].symbol_id, book })),
    ensures
        in_order(b),
        symbols_of(b) == symbols_of(a),
        forall|s: u16| #[trigger]
            book_in(b, s) == (if s == a[i].symbol_id {
                Some(book)
            } else {
                book_in(a, s)
            }),
{
    assert(in_order(b)) by {
        assert forall|k: int, l: int| 0 <= k < l < b.len() implies (#[trigger] b[k]).symbol_id < (
        #[trigger] b[l]).symbol_id by {
            assert(a[k].symbol_id < a[l].symbol_id);
        }
    }
    assert(symbols_of(b) =~= symbols_of(a));
    assert forall|s: u16| #[trigger]
        book_in(b, s) == (if s == a[i].symbol_id {
            Some(book)
        } else {
            book_in(a, s)
        }) by {
        if s == a[i].symbol_id {
            lemma_book_in(b, i);
        } else if exists|k: int| is_entry(a, s, k) {
            let k = choose|k: int| is_entry(a, s, k);
            lemma_book_in(a, k);
            assert(b[k] == a[k]);
            lemma_book_in(b, k);
        } else if exists|k: int| is_entry(b, s, k) {
            let k = choose|k: int| is_entry(b, s, k);
            assert(is_entry(a, s, k));
        }
    }
}

/// Inserting a book gives its symbol that book, and changes nothing else.
pub proof fn lemma_book_inserted<B>(
    a: Seq<SymbolBook<B>>,
    b: Seq<SymbolBook<B>>,
    i: int,
    entry: SymbolBook<B>,
)
    requires
        in_order(a),
        0 <= i <= a.len(),
        b == a.insert(i, entry),
        forall|k: int| 0 <= k < i ==> (#[trigger] a[k]).symbol_id < entry.symbol_id,
        forall|k: int| i <= k < a.len() ==> entry.symbol_id < (#[trigger] a[k]).symbol_id,
    ensures
        in_order(b),
        b[i] == entry,
        book_in(a, entry.symbol_id) is None,
        forall|s: u16| #[trigger]
            book_in(b, s) == (if s == entry.symbol_id {
                Some(entry.book)
            } else {
                book_in(a, s)
            }),
{
    assert(in_order(b)) by {
        assert forall|k: int, l: int| 0 <= k < l < b.len() implies (#[trigger] b[k]).symbol_id < (
        #[trigger] b[l]).symbol_id by {
            let k0 = if k < i { k } else { k - 1 };
            let l0 = if l < i { l } else { l - 1 };
            if k != i && l != i {
                assert(a[k0].symbol_id < a[l0].symbol_id);
            }
        }
    }
    if exists|k: int| is_entry(a, entry.symbol_id, k) {
        let k = choose|k: int| is_entry(a, entry.symbol_id, k);
        assert(a[k].symbol_id == entry.symbol_id);
    }
    assert forall|s: u16| #[trigger]
        book_in(b, s) == (if s == entry.symbol_id {
            Some(entry.book)
        } else {
            book_in(a, s)
        }) by {
        if s == entry.symbol_id {
            lemma_book_in(b, i);
        } else if exists|k: int| is_entry(a, s, k) {
            let k = choose|k: int| is_entry(a, s, k);
            let l = if k < i { k } else { k + 1 };
            assert(b[l] == a[k]);
            lemma_book_in(a, k);
            lemma_book_in(b, l);
        } else if exists|l: int| is_entry(b, s, l) {
            let l = choose|l: int| is_entry(b, s, l);
            let k = if l < i { l } else { l - 1 };
            assert(b[l] == a[k]);
            assert(is_entry(a, s, k));
        }
    }
}

/// Where a symbol is, or where it would go.
pub fn find_symbol<B>(entries: &Vec<SymbolBook<B>>, symbol_id: u16) -> (r: Result<usize, usize>)
    requires
        in_order(entries@),
    ensures
        r matches Ok(i) ==> i < entries@.len() && entries@[i as int].symbol_id == symbol_id,
        r matches Err(i) ==> {
            &&& i <= entries@.len()
            &&& forall|k: int| 0 <= k < i ==> (#[trigger] entries@[k]).symbol_id < symbol_id
            &&& forall|k: int|
                i <= k < entries@.len() ==> symbol_id < (#[trigger] entries@[k]).symbol_id
        },
        r is Ok <==> book_in(entries@, symbol_id) is Some,
{
    let mut lo: usize = 0;
    let mut hi: usize = entries.len();
    while lo < hi
        invariant
            in_order(entries@),
            lo <= hi <= entries@.len(),
            forall|k: int| 0 <= k < lo ==> (#[trigger] entries@[k]).symbol_id < symbol_id,
            forall|k: int|
                hi <= k < entries@.len() ==> symbol_id < (#[trigger] entries@[k]).symbol_id,
        decreases hi - lo,
    {
        let mid: usize = lo + (hi - lo) / 2;
        let s: u16 = entries[mid].symbol_id;
        if s == symbol_id {
            assert(is_entry(entries@, symbol_id, mid as int));
            return Ok(mid);
        }
        if s < symbol_id {
            lo = mid + 1;
        } else {
            hi = mid;
        }
    }
    proof {
        if exists|k: int| is_entry(entries@, symbol_id, k) {
            let k = choose|k: int| is_entry(entries@, symbol_id, k);
            assert(entries@[k].symbol_id == symbol_id);
        }
    }
    Err(lo)
}

/// The symbols that have a book, in order.
pub fn list_symbols<B>(entries: &Vec<SymbolBook<B>>) -> (r: Vec<u16>)
    ensures
        r@ == symbols_of(entries@),
{
    let mut out: Vec<u16> = Vec::new();
    let mut i: usize = 0;
    while i < entries.len()
        invariant
            i <= entries@.len(),
            out@ == symbols_of(entries@).take(i as int),
        decreases entries@.len() - i,
    {
        out.push(entries[i].symbol_id);
        assert(symbols_of(entries@).take(i as int + 1) =~= symbols_of(entries@).take(
            i as int,
        ).push(entries@[i as int].symbol_id));
        i = i + 1;
    }
    assert(symbols_of(entries@).take(i as int) =~= symbols_of(entries@));
    out
}

/// More symbols, no fewer orders.
pub proof fn lemma_resting_grows(books: Map<u16, BookModel>, symbols: Seq<u16>, k: int)
    requires
        0 <= k <= symbols.len(),
    ensures
        0 <= resting(books, symbols.take(k)) <= resting(books, symbols),
    decreases symbols.len(),
{
    if k < symbols.len() {
        lemma_resting_grows(books, symbols.drop_last(), k);
        assert(symbols.drop_last().take(k) =~= symbols.take(k));
    } else {
        assert(symbols.take(k) =~= symbols);
        if symbols.len() > 0 {
            lemma_resting_grows(books, symbols.drop_last(), symbols.len() - 1);
        }
    }
}

/// How many orders rest over all books.
pub fn count_orders<B: OrderBook>(
    entries: &Vec<SymbolBook<B>>,
    Ghost(books): Ghost<Map<u16, BookModel>>,
) -> (r: usize)
    requires
        in_order(entries@),
        all_valid(entries@),
        forall|s: u16| #[trigger] books[s] == model_in(entries@, s),
        resting(books, symbols_of(entries@)) <= usize::MAX,
    ensures
        r == resting(books, symbols_of(entries@)),
{
    let ghost ss = symbols_of(entries@);
    let mut total: usize = 0;
    let mut i: usize = 0;
    while i < entries.len()
        invariant
            in_order(entries@),
            all_valid(entries@),
            forall|s: u16| #[trigger] books[s] == model_in(entries@, s),
            ss == symbols_of(entries@),
            resting(books, ss) <= usize::MAX,
            i <= entries@.len(),
            total == resting(books, ss.take(i as int)),
        decreases entries@.len() - i,
    {
        proof {
            assert(entries@[i as int].book.valid());
            lemma_book_in(entries@, i as int);
            lemma_resting_grows(books, ss, i as int + 1);
            assert(ss.take(i as int + 1).drop_last() =~= ss.take(i as int));
            assert(ss.take(i as int + 1).last() == entries@[i as int].symbol_id);
            assert(books[entries@[i as int].symbol_id] == entries@[i as int].book.model());
        }
        total = total + entries[i].book.len();
        i = i + 1;
    }
    assert(ss.take(i as int) =~= ss);
    total
}

/// Empties every book.
pub fn clear_books<B: OrderBook>(entries: &mut Vec<SymbolBook<B>>)
    requires
        in_order(old(entries)@),
        all_valid(old(entries)@),
    ensures
        in_order(final(entries)@),
        all_valid(final(entries)@),
        symbols_of(final(entries)@) == symbols_of(old(entries)@),
        forall|s: u16| #[trigger] model_in(final(entries)@, s) == BookModel::empty(),
        forall|s: u16, fresh: Space| #[trigger]
            room_in(final(entries)@, s, fresh) == room_in(old(entries)@, s, fresh),
{
    let ghost a = entries@;
    let n: usize = entries.len();
    let mut i: usize = 0;
    while i < n
        invariant
            i <= n,
            n == entries@.len(),
            n == a.len(),
            all_valid(a),
            forall|k: int| 0 <= k < n ==> (#[trigger] entries@[k]).symbol_id == a[k].symbol_id,
            forall|k: int| 0 <= k < n ==> (#[trigger] entries@[k]).book.valid(),
            forall|k: int|
                0 <= k < n ==> (#[trigger] entries@[k]).book.room() == a[k].book.room(),
            forall|k: int|
                0 <= k < i ==> (#[trigger] entries@[k]).book.model() == BookModel::empty(),
        decreases n - i,
    {
        entries[i].book.clear();
        i = i + 1;
    }
    proof {
        let b = entries@;
        assert(in_order(b)) by {
            assert forall|k: int, l: int| 0 <= k < l < b.len() implies (
            #[trigger] b[k]).symbol_id < (#[trigger] b[l]).symbol_id by {
                assert(a[k].symbol_id < a[l].symbol_id);
            }
        }
        assert(symbols_of(b) =~= symbols_of(a));
        assert forall|s: u16| #[trigger] model_in(b, s) == BookModel::empty() by {
            if exists|k: int| is_entry(b, s, k) {
                let k = choose|k: int| is_entry(b, s, k);
                lemma_book_in(b, k);
            }
        }
        assert forall|s: u16, fresh: Space| #[trigger]
            room_in(b, s, fresh) == room_in(a, s, fresh) by {
            if exists|k: int| is_entry(b, s, k) {
                let k = choose|k: int| is_entry(b, s, k);
                lemma_book_in(b, k);
                lemma_book_in(a, k);
            } else if exists|k: int| is_entry(a, s, k) {
                let k = choose|k: int| is_entry(a, s, k);
                assert(is_entry(b, s, k));
            }
        }
    }
}

/// Empties the book of one symbol, if it has one.
pub fn clear_book<B: OrderBook>(entries: &mut Vec<SymbolBook<B>>, symbol_id: u16)
    requires
        in_order(old(entries)@),
        all_valid(old(entries)@),
    ensures
        in_order(final(entries)@),
        all_valid(final(entries)@),
        symbols_of(final(entries)@) == symbols_of(old(entries)@),
        forall|s: u16| #[trigger]
            model_in(final(entries)@, s) == (if s == symbol_id {
                BookModel::empty()
            } else {
                model_in(old(entries)@, s)
            }),
        forall|s: u16, fresh: Space| #[trigger]
            room_in(final(entries)@, s, fresh) == room_in(old(entries)@, s, fresh),
{
    let ghost a = entries@;
    match find_symbol(entries, symbol_id) {
        Ok(i) => {
            assert(a[i as int].book.valid());
            entries[i].book.clear();
            proof {
                let b = entries@;
                assert(b =~= a.update(
                    i as int,
                    SymbolBook { symbol_id: a[i as int].symbol_id, book: b[i as int].book },
                ));
                lemma_book_changed(a, b, i as int, b[i as int].book);
                lemma_book_in(a, i as int);
            }
        },
        Err(_) => {},
    }
}

/// Every book is at least such that it can be walked.
pub open spec fn all_auditable<B: OrderBook>(entries: Seq<SymbolBook<B>>) -> bool {
    forall|i: int| 0 <= i < entries.len() ==> (#[trigger] entries[i]).book.auditable()
}

/// The first thing that an audit of the books from `k` on finds, and on which symbol.
pub open spec fn first_fault_in<B: OrderBook>(entries: Seq<SymbolBook<B>>, k: int) -> Option<
    (u16, Fault),
>
    decreases entries.len() - k,
{
    if k >= entries.len() {
        None
    } else {
        match entries[k].book.first_fault() {
            Some(fault) => Some((entries[k].symbol_id, fault)),
            None => first_fault_in(entries, k + 1),
        }
    }
}

/// Valid books can be audited, and pass.
pub proof fn lemma_passes<B: OrderBook>(entries: Seq<SymbolBook<B>>, k: int)
    requires
        all_valid(entries),
        0 <= k <= entries.len(),
    ensures
        all_auditable(entries),
        first_fault_in(entries, k) is None,
    decreases entries.len() - k,
{
    assert forall|i: int| 0 <= i < entries.len() implies (
    #[trigger] entries[i]).book.auditable() by {
        entries[i].book.lemma_valid();
    }
    if k < entries.len() {
        assert(entries[k].book.valid());
        entries[k].book.lemma_valid();
        lemma_passes(entries, k + 1);
    }
}

/// Audits the books in order, up to the first that does not pass.
pub fn audit_books<B: OrderBook>(entries: &Vec<SymbolBook<B>>) -> (r: Result<(), (u16, Fault)>)
    requires
        all_auditable(entries@),
    ensures
        r == (match first_fault_in(entries@, 0) {
            None => Ok(()),
            Some((symbol_id, fault)) => Err((symbol_id, fault)),
        }),
{
    let mut i: usize = 0;
    while i < entries.len()
        invariant
            all_auditable(entries@),
            i <= entries@.len(),
            first_fault_in(entries@, i as int) == first_fault_in(entries@, 0),
        decreases entries@.len() - i,
    {
        assert(entries@[i as int].book.auditable());
        match entries[i].book.check_invariants() {
            Ok(()) => {},
            Err(fault) => return Err((entries[i].symbol_id, fault)),
        }
        i = i + 1;
    }
    Ok(())
}

/// Every symbol has a well-formed model.
pub proof fn lemma_model_in_wf<B: OrderBook>(entries: Seq<SymbolBook<B>>, s: u16)
    requires
        in_order(entries),
        all_valid(entries),
    ensures
        model_in(entries, s).wf(),
{
    if exists|i: int| is_entry(entries, s, i) {
        let i = choose|i: int| is_entry(entries, s, i);
        lemma_book_in(entries, i);
        assert(entries[i].book.valid());
        entries[i].book.lemma_valid();
    }
}

/// With another book at `i`, its symbol has that book, and the others what they
/// had.
pub open spec fn changed<B>(a: Seq<SymbolBook<B>>, i: int, book: B) -> bool {
    let b = a.update(i, SymbolBook { symbol_id: a[i].symbol_id, book });
    &&& in_order(b)
    &&& symbols_of(b) == symbols_of(a)
    &&& forall|s: u16| #[trigger]
        book_in(b, s) == (if s == a[i].symbol_id {
            Some(book)
        } else {
            book_in(a, s)
        })
}

} // verus!
