//! A digest of the books, for comparing two processes that should agree.
//!
//! The hash is FNV-1a over every symbol that has something resting, in order of
//! symbol: the bids, then the asks, each as its number of levels and then price,
//! quantity and order count of each, all little-endian.

use crate::bytes::le_bytes;
use crate::message::Side;
use crate::model::{law_levels_count_every_order, take_depth, BookModel, Level};
use crate::text::{
    chars_of, decimal, hex16, law_decimal_round_trips, law_hex_round_trips, lemma_white_added,
    lemma_word_added, number, parse_number, push_decimal, push_hex16, split_words, words,
};
use crate::view::{models, resting, BookSet, OrderBook};
use vstd::prelude::*;

verus! {

/// How many levels per side the short digest covers.
pub const DIGEST_DEPTH: usize = 10;

pub const FNV_OFFSET: u64 = 0xcbf2_9ce4_8422_2325;

pub const FNV_PRIME: u64 = 0x0000_0100_0000_01b3;

/// One step of FNV-1a.
pub open spec fn fnv_step(h: u64, b: u8) -> u64 {
    vstd::wrapping::u64_specs::wrapping_mul(h ^ (b as u64), FNV_PRIME)
}

/// FNV-1a over bytes, from a given state.
pub open spec fn fnv(h: u64, bytes: Seq<u8>) -> u64
    decreases bytes.len(),
{
    if bytes.len() == 0 {
        h
    } else {
        fnv_step(fnv(h, bytes.drop_last()), bytes.last())
    }
}

pub open spec fn hash_level(h: u64, l: Level) -> u64 {
    fnv(
        fnv(fnv(h, le_bytes(l.price as u64, 8)), le_bytes(l.quantity, 8)),
        le_bytes(l.order_count as u64, 4),
    )
}

pub open spec fn hash_levels(h: u64, levels: Seq<Level>) -> u64
    decreases levels.len(),
{
    if levels.len() == 0 {
        h
    } else {
        hash_level(hash_levels(h, levels.drop_last()), levels.last())
    }
}

pub open spec fn hash_side(h: u64, m: BookModel, side: Side, depth: int) -> u64 {
    let levels = take_depth(m.levels(side), depth);
    hash_levels(
        fnv(fnv(h, le_bytes(side.code() as u64, 1)), le_bytes(levels.len() as u32 as u64, 4)),
        levels,
    )
}

/// The hash after one more symbol. An empty book leaves no trace.
pub open spec fn hash_book(h: u64, symbol_id: u16, m: BookModel, depth: int) -> u64 {
    if m.len() == 0 {
        h
    } else {
        hash_side(
            hash_side(fnv(h, le_bytes(symbol_id as u64, 2)), m, Side::Bid, depth),
            m,
            Side::Ask,
            depth,
        )
    }
}

pub open spec fn hash_symbols(books: Map<u16, BookModel>, symbols: Seq<u16>, depth: int) -> u64
    decreases symbols.len(),
{
    if symbols.len() == 0 {
        FNV_OFFSET
    } else {
        hash_book(
            hash_symbols(books, symbols.drop_last(), depth),
            symbols.last(),
            books[symbols.last()],
            depth,
        )
    }
}

/// A running FNV-1a hash.
#[derive(Debug, Clone, Copy)]
struct Fnv1a(u64);

impl Fnv1a {
    fn new() -> (r: Self)
        ensures
            r.0 == FNV_OFFSET,
    {
        Fnv1a(FNV_OFFSET)
    }

    /// Takes in the first `n` bytes of `v`, least significant first.
    fn write(&mut self, v: u64, n: u32)
        requires
            n <= 8,
        ensures
            final(self).0 == fnv(old(self).0, le_bytes(v, n as int)),
    {
        let mut i: u32 = 0;
        assert(le_bytes(v, 0) =~= Seq::<u8>::empty());
        while i < n
            invariant
                i <= n <= 8,
                self.0 == fnv(old(self).0, le_bytes(v, i as int)),
            decreases n - i,
        {
            let shift: u64 = (8 * i) as u64;
            let b: u8 = #[verifier::truncate] ((v >> shift) as u8);
            proof {
                assert(le_bytes(v, i as int + 1).drop_last() =~= le_bytes(v, i as int));
                assert(le_bytes(v, i as int + 1).last() == b);
            }
            self.0 = (self.0 ^ (b as u64)).wrapping_mul(FNV_PRIME);
            i = i + 1;
        }
    }

    fn write_side<K: OrderBook>(&mut self, book: &K, side: Side, depth: usize)
        requires
            book.valid(),
            book.model().len() <= u32::MAX,
        ensures
            final(self).0 == hash_side(old(self).0, book.model(), side, depth as int),
    {
        let code: u8 = match side {
            Side::Bid => 0,
            Side::Ask => 1,
        };
        self.write(code as u64, 1);
        let count: u32 = #[verifier::truncate] (book.level_count(side, depth) as u32);
        self.write(count as u64, 4);
        let levels = book.for_each_level(side, depth);
        let ghost h0 = self.0;
        let mut i: usize = 0;
        assert(levels@.take(0) =~= Seq::<Level>::empty());
        while i < levels.len()
            invariant
                i <= levels@.len(),
                self.0 == hash_levels(h0, levels@.take(i as int)),
            decreases levels@.len() - i,
        {
            let l = levels[i];
            let price: u64 = #[verifier::truncate] (l.price as u64);
            self.write(price, 8);
            self.write(l.quantity, 8);
            self.write(l.order_count as u64, 4);
            proof {
                assert(levels@.take(i as int + 1).drop_last() =~= levels@.take(i as int));
            }
            i = i + 1;
        }
        assert(levels@.take(i as int) =~= levels@);
    }
}

/// A digest of all books.
#[derive(Debug, Clone, Copy, PartialEq, Eq, Structural)]
pub struct BookDigest {
    /// Over the best levels of each side.
    pub top: u64,
    /// Over all levels.
    pub full: u64,
    /// How many orders rest.
    pub orders: u64,
}

/// What the digest of a set of books is.
pub open spec fn digest_of(books: Map<u16, BookModel>, symbols: Seq<u16>) -> BookDigest {
    BookDigest {
        top: hash_symbols(books, symbols, DIGEST_DEPTH as int),
        full: hash_symbols(books, symbols, 0),
        orders: resting(books, symbols) as u64,
    }
}

impl BookDigest {
    pub fn of<B: BookSet>(books: &B) -> (r: Self)
        requires
            books.valid(),
            forall|s: u16| (#[trigger] books.model_of(s)).len() <= u32::MAX,
            total(models(books)) <= usize::MAX,
        ensures
            r == books_digest(models(books)),
    {
        assert(models(books) =~= Map::new(|s: u16| true, |s: u16| books.model_of(s)));
        proof {
            lemma_canonical(books);
        }
        BookDigest {
            top: hash_books(books, DIGEST_DEPTH),
            full: hash_books(books, 0),
            orders: books.total_orders() as u64,
        }
    }
}

fn hash_books<B: BookSet>(books: &B, depth: usize) -> (r: u64)
    requires
        books.valid(),
        forall|s: u16| (#[trigger] books.model_of(s)).len() <= u32::MAX,
    ensures
        r == hash_symbols(models(books), books.symbol_ids(), depth as int),
{
    let symbols = books.for_each_symbol();
    let mut h = Fnv1a::new();
    let mut i: usize = 0;
    assert(symbols@.take(0) =~= Seq::<u16>::empty());
    while i < symbols.len()
        invariant
            books.valid(),
            forall|s: u16| (#[trigger] books.model_of(s)).len() <= u32::MAX,
            symbols@ == books.symbol_ids(),
            i <= symbols@.len(),
            h.0 == hash_symbols(models(books), symbols@.take(i as int), depth as int),
        decreases symbols@.len() - i,
    {
        let symbol_id: u16 = symbols[i];
        proof {
            assert(symbols@.take(i as int + 1).drop_last() =~= symbols@.take(i as int));
            assert(books.symbol_ids().contains(symbol_id));
            assert(books.model_of(symbol_id).len() <= u32::MAX);
            assert(models(books)[symbol_id] == books.model_of(symbol_id));
        }
        match books.get(symbol_id) {
            Some(book) => {
                if !book.is_empty() {
                    h.write(symbol_id as u64, 2);
                    h.write_side(book, Side::Bid, depth);
                    h.write_side(book, Side::Ask, depth);
                }
            },
            None => {
                assert(false);
            },
        }
        i = i + 1;
    }
    assert(symbols@.take(i as int) =~= symbols@);
    h.0
}

/// The symbols that have something resting.
pub open spec fn live_symbols(books: Map<u16, BookModel>, symbols: Seq<u16>) -> Seq<u16>
    decreases symbols.len(),
{
    if symbols.len() == 0 {
        Seq::empty()
    } else if books[symbols.last()].len() == 0 {
        live_symbols(books, symbols.drop_last())
    } else {
        live_symbols(books, symbols.drop_last()).push(symbols.last())
    }
}

pub open spec fn symbols_ascend(symbols: Seq<u16>) -> bool {
    forall|i: int, j: int|
        0 <= i < j < symbols.len() ==> (#[trigger] symbols[i]) < (#[trigger] symbols[j])
}

/// Empty books leave no trace in a digest.
proof fn lemma_live(books: Map<u16, BookModel>, symbols: Seq<u16>, depth: int)
    requires
        symbols_ascend(symbols),
    ensures
        hash_symbols(books, symbols, depth) == hash_symbols(
            books,
            live_symbols(books, symbols),
            depth,
        ),
        resting(books, symbols) == resting(books, live_symbols(books, symbols)),
        symbols_ascend(live_symbols(books, symbols)),
        forall|s: u16| #[trigger]
            live_symbols(books, symbols).contains(s) <==> symbols.contains(s) && books[s].len()
                != 0,
    decreases symbols.len(),
{
    if symbols.len() > 0 {
        let a = symbols.drop_last();
        let l = symbols.last();
        assert(symbols_ascend(a)) by {
            assert forall|i: int, j: int| 0 <= i < j < a.len() implies (#[trigger] a[i]) < (
            #[trigger] a[j]) by {
                assert(symbols[i] < symbols[j]);
            }
        }
        lemma_live(books, a, depth);
        let la = live_symbols(books, a);
        let ls = live_symbols(books, symbols);
        assert forall|s: u16| #[trigger] symbols.contains(s) <==> a.contains(s) || s == l by {
            if symbols.contains(s) {
                let k = choose|k: int| 0 <= k < symbols.len() && symbols[k] == s;
                if k < a.len() {
                    assert(a[k] == s);
                }
            }
            if a.contains(s) {
                let k = choose|k: int| 0 <= k < a.len() && a[k] == s;
                assert(symbols[k] == s);
            }
            assert(symbols[symbols.len() - 1] == l);
        }
        if books[l].len() != 0 {
            assert(ls == la.push(l));
            assert(ls.drop_last() =~= la);
            assert forall|s: u16| #[trigger] ls.contains(s) <==> la.contains(s) || s == l by {
                if ls.contains(s) {
                    let k = choose|k: int| 0 <= k < ls.len() && ls[k] == s;
                    if k < la.len() {
                        assert(la[k] == s);
                    }
                }
                if la.contains(s) {
                    let k = choose|k: int| 0 <= k < la.len() && la[k] == s;
                    assert(ls[k] == s);
                }
                assert(ls[la.len() as int] == l);
            }
            assert(symbols_ascend(ls)) by {
                assert forall|i: int, j: int| 0 <= i < j < ls.len() implies (#[trigger] ls[i]) < (
                #[trigger] ls[j]) by {
                    if j < la.len() {
                        assert(la[i] < la[j]);
                    } else {
                        assert(la.contains(la[i]));
                        assert(a.contains(la[i]));
                        let k = choose|k: int| 0 <= k < a.len() && a[k] == la[i];
                        assert(symbols[k] < symbols[symbols.len() - 1]);
                    }
                }
            }
        }
    }
}

/// Ascending lists of the same symbols are equal.
proof fn lemma_ascending_unique(a: Seq<u16>, b: Seq<u16>)
    requires
        symbols_ascend(a),
        symbols_ascend(b),
        forall|s: u16| a.contains(s) <==> b.contains(s),
    ensures
        a == b,
    decreases a.len(),
{
    if a.len() == 0 {
        if b.len() > 0 {
            assert(b.contains(b[0]));
        }
    } else {
        assert(a.contains(a.last()));
        assert(b.len() > 0);
        assert(b.contains(b.last()));
        let i = choose|i: int| 0 <= i < b.len() && b[i] == a.last();
        let j = choose|j: int| 0 <= j < a.len() && a[j] == b.last();
        if i < b.len() - 1 {
            assert(b[i] < b[b.len() - 1]);
        }
        if j < a.len() - 1 {
            assert(a[j] < a[a.len() - 1]);
        }
        assert(a.last() == b.last());
        let x = a.drop_last();
        let y = b.drop_last();
        assert(symbols_ascend(x)) by {
            assert forall|i: int, j: int| 0 <= i < j < x.len() implies (#[trigger] x[i]) < (
            #[trigger] x[j]) by {
                assert(a[i] < a[j]);
            }
        }
        assert(symbols_ascend(y)) by {
            assert forall|i: int, j: int| 0 <= i < j < y.len() implies (#[trigger] y[i]) < (
            #[trigger] y[j]) by {
                assert(b[i] < b[j]);
            }
        }
        assert forall|s: u16| x.contains(s) <==> y.contains(s) by {
            if x.contains(s) {
                let k = choose|k: int| 0 <= k < x.len() && x[k] == s;
                assert(a[k] < a[a.len() - 1]);
                assert(a.contains(s));
                let t = choose|t: int| 0 <= t < b.len() && b[t] == s;
                assert(y[t] == s);
            }
            if y.contains(s) {
                let k = choose|k: int| 0 <= k < y.len() && y[k] == s;
                assert(b[k] < b[b.len() - 1]);
                assert(b.contains(s));
                let t = choose|t: int| 0 <= t < a.len() && a[t] == s;
                assert(x[t] == s);
            }
        }
        lemma_ascending_unique(x, y);
        assert(a =~= x.push(a.last()));
        assert(b =~= y.push(b.last()));
    }
}

/// Every symbol there can be.
pub open spec fn all_symbols() -> Seq<u16> {
    Seq::new(65536, |i: int| i as u16)
}

/// The digest of books, whichever symbols have one.
pub open spec fn books_digest(books: Map<u16, BookModel>) -> BookDigest {
    digest_of(books, all_symbols())
}

/// How many orders rest over all symbols.
pub open spec fn total(books: Map<u16, BookModel>) -> int {
    resting(books, all_symbols())
}

/// The symbols of a set, and all symbols there are, come to the same: a symbol
/// without a book, or with an empty one, counts for nothing.
proof fn lemma_canonical<B: BookSet>(b: &B)
    requires
        b.valid(),
    ensures
        digest_of(models(b), b.symbol_ids()) == books_digest(models(b)),
        resting(models(b), b.symbol_ids()) == total(models(b)),
{
    b.lemma_valid();
    let m = models(b);
    let all = all_symbols();
    assert(symbols_ascend(all));
    lemma_live(m, b.symbol_ids(), DIGEST_DEPTH as int);
    lemma_live(m, b.symbol_ids(), 0);
    lemma_live(m, all, DIGEST_DEPTH as int);
    lemma_live(m, all, 0);
    let x = live_symbols(m, b.symbol_ids());
    let y = live_symbols(m, all);
    assert forall|s: u16| x.contains(s) <==> y.contains(s) by {
        assert(all[s as int] == s);
        assert(m[s] == b.model_of(s));
        if !b.symbol_ids().contains(s) {
            assert(b.model_of(s) == BookModel::empty());
            assert(BookModel::empty().len() == 0);
        }
    }
    lemma_ascending_unique(x, y);
}

/// There is room to count one order more, in each book and over all of them.
pub open spec fn can_count_one_more(books: Map<u16, BookModel>) -> bool {
    &&& forall|s: u16| (#[trigger] books[s]).len() + 1 <= u32::MAX
    &&& total(books) + 1 <= usize::MAX
}

/// Whether there is room to count one order more.
pub fn counts_one_more<B: BookSet>(books: &B) -> (r: bool)
    requires
        books.valid(),
    ensures
        r == can_count_one_more(models(books)),
{
    let ids: Vec<u16> = books.for_each_symbol();
    let ghost m = models(books);
    proof {
        books.lemma_valid();
        lemma_canonical(books);
        lemma_resting_parts(m, ids@, 0);
        assert(ids@.take(0) =~= Seq::<u16>::empty());
    }
    let mut sum: usize = 0;
    let mut i: usize = 0;
    while i < ids.len()
        invariant
            books.valid(),
            m == models(books),
            ids@ == books.symbol_ids(),
            resting(m, ids@) == total(m),
            i <= ids@.len(),
            sum == resting(m, ids@.take(i as int)),
            forall|k: int| 0 <= k < i ==> m[#[trigger] ids@[k]].len() + 1 <= u32::MAX,
        decreases ids@.len() - i,
    {
        let id: u16 = ids[i];
        proof {
            assert(books.symbol_ids().contains(ids@[i as int]));
            assert(m[id] == books.model_of(id));
            assert(ids@.take(i as int + 1).drop_last() =~= ids@.take(i as int));
            lemma_resting_parts(m, ids@, i as int + 1);
        }
        let n: usize = match books.get(id) {
            Some(b) => b.len(),
            None => 0,
        };
        if n >= u32::MAX as usize {
            assert(!(m[id].len() + 1 <= u32::MAX));
            return false;
        }
        if n > usize::MAX - sum {
            return false;
        }
        sum = sum + n;
        i = i + 1;
    }
    proof {
        assert(ids@.take(i as int) =~= ids@);
        assert forall|s: u16| (#[trigger] m[s]).len() + 1 <= u32::MAX by {
            assert(m[s] == books.model_of(s));
            if books.symbol_ids().contains(s) {
                let k = choose|k: int| 0 <= k < ids@.len() && ids@[k] == s;
                assert(m[ids@[k]].len() + 1 <= u32::MAX);
            } else {
                assert(books.model_of(s) == BookModel::empty());
                assert(BookModel::empty().len() == 0);
            }
        }
    }
    sum < usize::MAX
}

/// The first symbols hold no more than all of them.
proof fn lemma_resting_parts(books: Map<u16, BookModel>, symbols: Seq<u16>, k: int)
    requires
        0 <= k <= symbols.len(),
    ensures
        0 <= resting(books, symbols.take(k)) <= resting(books, symbols),
    decreases symbols.len(),
{
    if k == symbols.len() {
        assert(symbols.take(k) =~= symbols);
        if k > 0 {
            lemma_resting_parts(books, symbols.drop_last(), k - 1);
            assert(symbols.drop_last().take(k - 1) =~= symbols.drop_last());
        }
    } else {
        lemma_resting_parts(books, symbols.drop_last(), k);
        assert(symbols.drop_last().take(k) =~= symbols.take(k));
    }
}

/// Changing the book of one symbol changes the total by as much.
pub proof fn lemma_total_insert(books: Map<u16, BookModel>, s: u16, m: BookModel)
    requires
        books.dom().contains(s),
    ensures
        total(books.insert(s, m)) == total(books) - books[s].len() + m.len(),
        0 <= total(books),
        books[s].len() <= total(books),
{
    lemma_resting_insert(books, all_symbols(), s, m);
    assert(all_symbols()[s as int] == s);
}

proof fn lemma_resting_insert(
    books: Map<u16, BookModel>,
    symbols: Seq<u16>,
    s: u16,
    m: BookModel,
)
    requires
        symbols_ascend(symbols),
    ensures
        resting(books.insert(s, m), symbols) == resting(books, symbols) + (if symbols.contains(s) {
            m.len() - books[s].len()
        } else {
            0
        }),
        0 <= resting(books, symbols),
        symbols.contains(s) ==> books[s].len() <= resting(books, symbols),
    decreases symbols.len(),
{
    if symbols.len() > 0 {
        let a = symbols.drop_last();
        assert(symbols_ascend(a)) by {
            assert forall|i: int, j: int| 0 <= i < j < a.len() implies (#[trigger] a[i]) < (
            #[trigger] a[j]) by {
                assert(symbols[i] < symbols[j]);
            }
        }
        lemma_resting_insert(books, a, s, m);
        if symbols.contains(s) {
            let k = choose|k: int| 0 <= k < symbols.len() && symbols[k] == s;
            if k < a.len() {
                assert(a[k] == s);
                assert(symbols[k] < symbols[symbols.len() - 1]);
            }
        }
        if a.contains(s) {
            let k = choose|k: int| 0 <= k < a.len() && a[k] == s;
            assert(symbols[k] == s);
            assert(symbols[k] < symbols[symbols.len() - 1]);
        }
    }
}

/// The levels of two books are the same on both sides.
pub open spec fn same_levels(a: BookModel, b: BookModel) -> bool {
    a.levels(Side::Bid) == b.levels(Side::Bid) && a.levels(Side::Ask) == b.levels(Side::Ask)
}

proof fn lemma_same_levels(
    a: Map<u16, BookModel>,
    b: Map<u16, BookModel>,
    symbols: Seq<u16>,
    depth: int,
)
    requires
        forall|s: u16| #[trigger] same_levels(a[s], b[s]) && a[s].len() == b[s].len(),
    ensures
        hash_symbols(a, symbols, depth) == hash_symbols(b, symbols, depth),
        resting(a, symbols) == resting(b, symbols),
    decreases symbols.len(),
{
    if symbols.len() > 0 {
        lemma_same_levels(a, b, symbols.drop_last(), depth);
        assert(same_levels(a[symbols.last()], b[symbols.last()]));
    }
}

/// Books whose levels are the same have the same digest, whatever orders the levels are
/// made of and however the books came about.
pub proof fn law_equal_levels_equal_digests(a: Map<u16, BookModel>, b: Map<u16, BookModel>)
    requires
        forall|s: u16| (#[trigger] a[s]).wf() && a[s].len() <= u32::MAX,
        forall|s: u16| (#[trigger] b[s]).wf() && b[s].len() <= u32::MAX,
        forall|s: u16| #[trigger] same_levels(a[s], b[s]),
    ensures
        books_digest(a) == books_digest(b),
{
    assert forall|s: u16| #[trigger] same_levels(a[s], b[s]) && a[s].len() == b[s].len() by {
        assert(a[s].wf() && b[s].wf());
        assert(same_levels(a[s], b[s]));
        law_levels_count_every_order(a[s]);
        law_levels_count_every_order(b[s]);
    }
    lemma_same_levels(a, b, all_symbols(), DIGEST_DEPTH as int);
    lemma_same_levels(a, b, all_symbols(), 0);
}

/// Two sets of books that hold the same orders in the same queues have one digest,
/// whatever kind of book they are made of, however they came about, and whichever
/// further symbols have an empty book.
pub proof fn law_same_books_same_digest<A: BookSet, B: BookSet>(a: &A, b: &B)
    requires
        a.valid(),
        b.valid(),
        forall|s: u16| #[trigger] a.model_of(s) == b.model_of(s),
    ensures
        digest_of(models(a), a.symbol_ids()) == digest_of(models(b), b.symbol_ids()),
        books_digest(models(a)) == books_digest(models(b)),
{
    let ma = models(a);
    let mb = models(b);
    assert(ma =~= mb) by {
        assert forall|s: u16| #[trigger] ma[s] == mb[s] by {
            assert(a.model_of(s) == b.model_of(s));
        }
    }
    lemma_canonical(a);
    lemma_canonical(b);
}

/// The digest as one line: two hashes in hexadecimal and the order count.
pub open spec fn digest_fields(d: BookDigest) -> Seq<char> {
    (hex16(d.top).push(' ') + hex16(d.full)).push(' ') + decimal(d.orders as int)
}

/// The digest that a line says.
pub open spec fn digest_from(s: Seq<char>) -> Option<BookDigest> {
    let w = words(s);
    if w.len() != 3 {
        None
    } else {
        match (number(w[0], 16), number(w[1], 16), number(w[2], 10)) {
            (Some(top), Some(full), Some(orders)) => Some(BookDigest { top, full, orders }),
            _ => None,
        }
    }
}

impl BookDigest {
    /// The digest as one line.
    pub fn to_fields(self) -> (r: String)
        ensures
            r@ == digest_fields(self),
    {
        let mut s = String::new();
        push_hex16(&mut s, self.top);
        s.push(' ');
        push_hex16(&mut s, self.full);
        s.push(' ');
        push_decimal(&mut s, self.orders);
        assert(s@ =~= digest_fields(self));
        s
    }

    /// The digest that a line says, if it says one.
    pub fn from_fields(s: &str) -> (r: Option<Self>)
        ensures
            r == digest_from(s@),
    {
        let chars = chars_of(s);
        let w = split_words(&chars);
        if w.len() != 3 {
            return None;
        }
        let top: Option<u64> = parse_number(&w[0], 16);
        let full: Option<u64> = parse_number(&w[1], 16);
        let orders: Option<u64> = parse_number(&w[2], 10);
        match (top, full, orders) {
            (Some(top), Some(full), Some(orders)) => Some(BookDigest { top, full, orders }),
            _ => None,
        }
    }
}

/// A digest reads back from its line.
pub proof fn law_fields_round_trip(d: BookDigest)
    ensures
        digest_from(digest_fields(d)) == Some(d),
{
    let a = hex16(d.top);
    let b = hex16(d.full);
    let c = decimal(d.orders as int);
    law_hex_round_trips(d.top);
    law_hex_round_trips(d.full);
    law_decimal_round_trips(d.orders as int);
    let e = Seq::<char>::empty();
    assert(e + a =~= a);
    lemma_word_added(e, a);
    lemma_white_added(a, ' ');
    let x = a.push(' ');
    lemma_word_added(x, b);
    lemma_white_added(x + b, ' ');
    let y = (x + b).push(' ');
    lemma_word_added(y, c);
    assert(words(e) =~= Seq::<Seq<char>>::empty());
    let w = words(digest_fields(d));
    assert(w =~= seq![a, b, c]);
}

} // verus!
