//! What a digest of the books covers.
//!
//! The hash of a digest is that of one string of bytes, and the string says everything
//! about the levels: from it every level of every symbol can be read back. Books whose
//! strings differ are told apart as far as the hash tells strings apart.

use crate::bytes::{law_number_round_trips, le_bytes, le_value};
use crate::digest::{
    all_symbols, books_digest, fnv, fnv_step, hash_book, hash_levels, hash_side, hash_symbols,
    lemma_total_insert, total,
};
use crate::message::Side;
use crate::model::{
    law_levels_are_exact, law_levels_count_every_order, orders_in, take_depth, BookModel, Level,
};
use crate::view::resting;
use vstd::prelude::*;

verus! {

/// A level as bytes: price, quantity and order count.
pub open spec fn level_bytes(l: Level) -> Seq<u8> {
    le_bytes(l.price as u64, 8) + le_bytes(l.quantity, 8) + le_bytes(l.order_count as u64, 4)
}

/// The levels one after the other.
pub open spec fn levels_bytes(levels: Seq<Level>) -> Seq<u8>
    decreases levels.len(),
{
    if levels.len() == 0 {
        Seq::empty()
    } else {
        levels_bytes(levels.drop_last()) + level_bytes(levels.last())
    }
}

/// A side: which one it is, how many levels it has, and the levels.
pub open spec fn side_bytes(side: Side, levels: Seq<Level>) -> Seq<u8> {
    le_bytes(
        if side == Side::Bid {
            0
        } else {
            1
        },
        1,
    ) + le_bytes(levels.len() as u64, 4) + levels_bytes(levels)
}

/// A book that something rests on: its symbol, its bids and its asks, each as deep as
/// `depth`. An empty one leaves no trace.
pub open spec fn book_bytes(symbol_id: u16, m: BookModel, depth: int) -> Seq<u8> {
    if m.len() == 0 {
        Seq::empty()
    } else {
        le_bytes(symbol_id as u64, 2) + side_bytes(
            Side::Bid,
            take_depth(m.levels(Side::Bid), depth),
        ) + side_bytes(Side::Ask, take_depth(m.levels(Side::Ask), depth))
    }
}

/// The books of the symbols from `k` on.
pub open spec fn bytes_from(books: Map<u16, BookModel>, depth: int, k: int) -> Seq<u8>
    decreases 65536 - k,
{
    if k >= 65536 {
        Seq::empty()
    } else {
        book_bytes(k as u16, books[k as u16], depth) + bytes_from(books, depth, k + 1)
    }
}

/// The string of bytes that says what rests, each side as deep as `depth`, or all of it
/// where that is zero.
pub open spec fn fingerprint(books: Map<u16, BookModel>, depth: int) -> Seq<u8> {
    bytes_from(books, depth, 0)
}

proof fn lemma_fnv_concat(h: u64, a: Seq<u8>, b: Seq<u8>)
    ensures
        fnv(h, a + b) == fnv(fnv(h, a), b),
    decreases b.len(),
{
    if b.len() == 0 {
        assert(a + b =~= a);
    } else {
        assert((a + b).drop_last() =~= a + b.drop_last());
        lemma_fnv_concat(h, a, b.drop_last());
    }
}

proof fn lemma_hash_levels(h: u64, levels: Seq<Level>)
    ensures
        hash_levels(h, levels) == fnv(h, levels_bytes(levels)),
    decreases levels.len(),
{
    if levels.len() > 0 {
        let p = levels_bytes(levels.drop_last());
        let l = levels.last();
        lemma_hash_levels(h, levels.drop_last());
        let a = le_bytes(l.price as u64, 8);
        let b = le_bytes(l.quantity, 8);
        let c = le_bytes(l.order_count as u64, 4);
        lemma_fnv_concat(h, p, a + b + c);
        lemma_fnv_concat(fnv(h, p), a + b, c);
        lemma_fnv_concat(fnv(h, p), a, b);
    }
}

proof fn lemma_hash_side(h: u64, m: BookModel, side: Side, depth: int)
    requires
        take_depth(m.levels(side), depth).len() <= u32::MAX,
    ensures
        hash_side(h, m, side, depth) == fnv(
            h,
            side_bytes(side, take_depth(m.levels(side), depth)),
        ),
{
    let levels = take_depth(m.levels(side), depth);
    let a = le_bytes(
        if side == Side::Bid {
            0
        } else {
            1
        },
        1,
    );
    let b = le_bytes(levels.len() as u64, 4);
    let c = levels_bytes(levels);
    lemma_fnv_concat(h, a + b, c);
    lemma_fnv_concat(h, a, b);
    lemma_hash_levels(fnv(fnv(h, a), b), levels);
    assert(levels.len() as u32 as u64 == levels.len() as u64);
}

/// The levels of a book are no more than its orders.
proof fn lemma_few_levels(m: BookModel, side: Side, depth: int)
    requires
        m.wf(),
        m.len() <= u32::MAX,
        0 <= depth,
    ensures
        take_depth(m.levels(side), depth).len() <= u32::MAX,
{
    law_levels_are_exact(m, Side::Bid);
    law_levels_are_exact(m, Side::Ask);
    law_levels_count_every_order(m);
    lemma_orders_in(m.levels(Side::Bid));
    lemma_orders_in(m.levels(Side::Ask));
}

proof fn lemma_orders_in(levels: Seq<Level>)
    requires
        forall|i: int| 0 <= i < levels.len() ==> (#[trigger] levels[i]).order_count > 0,
    ensures
        levels.len() <= orders_in(levels),
    decreases levels.len(),
{
    if levels.len() > 0 {
        assert(levels.last() == levels[levels.len() - 1]);
        assert forall|i: int| 0 <= i < levels.drop_last().len() implies (
        #[trigger] levels.drop_last()[i]).order_count > 0 by {
            assert(levels.drop_last()[i] == levels[i]);
        }
        lemma_orders_in(levels.drop_last());
    }
}

proof fn lemma_hash_book(h: u64, symbol_id: u16, m: BookModel, depth: int)
    requires
        m.wf(),
        m.len() <= u32::MAX,
        0 <= depth,
    ensures
        hash_book(h, symbol_id, m, depth) == fnv(h, book_bytes(symbol_id, m, depth)),
{
    if m.len() > 0 {
        let a = le_bytes(symbol_id as u64, 2);
        let b = side_bytes(Side::Bid, take_depth(m.levels(Side::Bid), depth));
        let c = side_bytes(Side::Ask, take_depth(m.levels(Side::Ask), depth));
        lemma_few_levels(m, Side::Bid, depth);
        lemma_few_levels(m, Side::Ask, depth);
        lemma_fnv_concat(h, a + b, c);
        lemma_fnv_concat(h, a, b);
        lemma_hash_side(fnv(h, a), m, Side::Bid, depth);
        lemma_hash_side(fnv(h, a + b), m, Side::Ask, depth);
    }
}

/// The books can be counted.
pub open spec fn small_books(books: Map<u16, BookModel>) -> bool {
    forall|s: u16| (#[trigger] books[s]).wf() && books[s].len() <= u32::MAX
}

proof fn lemma_hash_symbols(books: Map<u16, BookModel>, depth: int, k: int)
    requires
        small_books(books),
        0 <= depth,
        0 <= k <= 65536,
    ensures
        fnv(hash_symbols(books, all_symbols().take(k), depth), bytes_from(books, depth, k))
            == hash_symbols(books, all_symbols(), depth),
    decreases 65536 - k,
{
    let all = all_symbols();
    if k >= 65536 {
        assert(all.take(k) =~= all);
    } else {
        let s = k as u16;
        let before = hash_symbols(books, all.take(k), depth);
        assert(all.take(k + 1).drop_last() =~= all.take(k));
        assert(all.take(k + 1).last() == s);
        assert(books[s].wf());
        lemma_hash_book(before, s, books[s], depth);
        lemma_hash_symbols(books, depth, k + 1);
        lemma_fnv_concat(before, book_bytes(s, books[s], depth), bytes_from(books, depth, k + 1));
    }
}

proof fn lemma_levels_len(levels: Seq<Level>)
    ensures
        levels_bytes(levels).len() == 20 * levels.len(),
    decreases levels.len(),
{
    if levels.len() > 0 {
        lemma_levels_len(levels.drop_last());
    }
}

/// Where a level stands in the string.
proof fn lemma_level_at(levels: Seq<Level>, i: int)
    requires
        0 <= i < levels.len(),
    ensures
        levels_bytes(levels).subrange(20 * i, 20 * i + 20) == level_bytes(levels[i]),
        levels_bytes(levels).len() == 20 * levels.len(),
    decreases levels.len(),
{
    let p = levels_bytes(levels.drop_last());
    let all = levels_bytes(levels);
    lemma_levels_len(levels.drop_last());
    lemma_levels_len(levels);
    if i < levels.len() - 1 {
        lemma_level_at(levels.drop_last(), i);
        assert(all.subrange(20 * i, 20 * i + 20) =~= p.subrange(20 * i, 20 * i + 20));
    } else {
        assert(all.subrange(20 * i, 20 * i + 20) =~= level_bytes(levels[i]));
    }
}

/// Two prices with the same bits are the same.
proof fn lemma_price_bits(a: i64, b: i64)
    requires
        a as u64 == b as u64,
    ensures
        a == b,
{
    assert(a as u64 == b as u64 ==> a == b) by (bit_vector);
}

/// A level reads back from its bytes.
proof fn lemma_level_reads_back(a: Level, b: Level)
    requires
        level_bytes(a) == level_bytes(b),
    ensures
        a == b,
{
    let s = level_bytes(a);
    assert(s.subrange(0, 8) =~= le_bytes(a.price as u64, 8));
    assert(s.subrange(8, 16) =~= le_bytes(a.quantity, 8));
    assert(s.subrange(16, 20) =~= le_bytes(a.order_count as u64, 4));
    let t = level_bytes(b);
    assert(t.subrange(0, 8) =~= le_bytes(b.price as u64, 8));
    assert(t.subrange(8, 16) =~= le_bytes(b.quantity, 8));
    assert(t.subrange(16, 20) =~= le_bytes(b.order_count as u64, 4));
    law_number_round_trips(s, 0, a.price as u64, 8);
    law_number_round_trips(s, 8, a.quantity, 8);
    law_number_round_trips(s, 16, a.order_count as u64, 4);
    law_number_round_trips(s, 0, b.price as u64, 8);
    law_number_round_trips(s, 8, b.quantity, 8);
    law_number_round_trips(s, 16, b.order_count as u64, 4);
    lemma_price_bits(a.price, b.price);
}

/// The levels of a side read back from the front of a string, whatever follows them.
proof fn lemma_side_reads_back(
    side: Side,
    a: Seq<Level>,
    b: Seq<Level>,
    x: Seq<u8>,
    y: Seq<u8>,
)
    requires
        a.len() <= u32::MAX,
        b.len() <= u32::MAX,
        side_bytes(side, a) + x == side_bytes(side, b) + y,
    ensures
        a == b,
        x == y,
{
    let s = side_bytes(side, a) + x;
    let t = side_bytes(side, b) + y;
    assert(s.subrange(1, 5) =~= le_bytes(a.len() as u64, 4));
    assert(t.subrange(1, 5) =~= le_bytes(b.len() as u64, 4));
    law_number_round_trips(s, 1, a.len() as u64, 4);
    law_number_round_trips(s, 1, b.len() as u64, 4);
    lemma_levels_len(a);
    lemma_levels_len(b);
    assert forall|i: int| 0 <= i < a.len() implies a[i] == b[i] by {
        lemma_level_at(a, i);
        lemma_level_at(b, i);
        assert(s.subrange(5 + 20 * i, 5 + 20 * i + 20) =~= level_bytes(a[i]));
        assert(t.subrange(5 + 20 * i, 5 + 20 * i + 20) =~= level_bytes(b[i]));
        lemma_level_reads_back(a[i], b[i]);
    }
    assert(a =~= b);
    let n = side_bytes(side, a).len() as int;
    assert(s.skip(n) =~= x);
    assert(t.skip(n) =~= y);
}

/// A string that is not empty begins with the number of a symbol from `k` on.
proof fn lemma_first_symbol(books: Map<u16, BookModel>, depth: int, k: int)
    requires
        0 <= k <= 65536,
        bytes_from(books, depth, k).len() > 0,
    ensures
        bytes_from(books, depth, k).len() >= 2,
        le_value(bytes_from(books, depth, k), 0, 2) >= k,
    decreases 65536 - k,
{
    let s = bytes_from(books, depth, k);
    if k < 65536 {
        if books[k as u16].len() == 0 {
            assert(s =~= bytes_from(books, depth, k + 1));
            lemma_first_symbol(books, depth, k + 1);
        } else {
            assert(s.subrange(0, 2) =~= le_bytes(k as u16 as u64, 2));
            law_number_round_trips(s, 0, k as u16 as u64, 2);
        }
    }
}

/// Two books say the same, as deep as `depth`.
pub open spec fn equal_to_depth(a: BookModel, b: BookModel, depth: int) -> bool {
    &&& take_depth(a.levels(Side::Bid), depth) == take_depth(b.levels(Side::Bid), depth)
    &&& take_depth(a.levels(Side::Ask), depth) == take_depth(b.levels(Side::Ask), depth)
}

proof fn lemma_no_levels(m: BookModel)
    requires
        m.wf(),
        m.len() == 0,
    ensures
        m.levels(Side::Bid).len() == 0,
        m.levels(Side::Ask).len() == 0,
{
    law_levels_are_exact(m, Side::Bid);
    law_levels_are_exact(m, Side::Ask);
    law_levels_count_every_order(m);
    lemma_orders_in(m.levels(Side::Bid));
    lemma_orders_in(m.levels(Side::Ask));
}

proof fn lemma_books_read_back(
    a: Map<u16, BookModel>,
    b: Map<u16, BookModel>,
    depth: int,
    k: int,
)
    requires
        small_books(a),
        small_books(b),
        0 <= depth,
        0 <= k <= 65536,
        bytes_from(a, depth, k) == bytes_from(b, depth, k),
    ensures
        forall|s: u16| s >= k ==> #[trigger] equal_to_depth(a[s], b[s], depth),
        forall|s: u16| s >= k ==> ((#[trigger] a[s]).len() == 0 <==> b[s].len() == 0),
    decreases 65536 - k,
{
    if k < 65536 {
        let s = k as u16;
        let x = bytes_from(a, depth, k + 1);
        let y = bytes_from(b, depth, k + 1);
        let all = bytes_from(a, depth, k);
        assert(a[s].wf() && b[s].wf());
        if a[s].len() == 0 && b[s].len() == 0 {
            assert(all =~= x);
            assert(bytes_from(b, depth, k) =~= y);
            lemma_no_levels(a[s]);
            lemma_no_levels(b[s]);
            assert(a[s].levels(Side::Bid) =~= b[s].levels(Side::Bid));
            assert(a[s].levels(Side::Ask) =~= b[s].levels(Side::Ask));
        } else if a[s].len() == 0 {
            assert(all =~= x);
            assert(all.subrange(0, 2) =~= le_bytes(s as u64, 2));
            law_number_round_trips(all, 0, s as u64, 2);
            lemma_first_symbol(a, depth, k + 1);
        } else if b[s].len() == 0 {
            assert(bytes_from(b, depth, k) =~= y);
            assert(all.subrange(0, 2) =~= le_bytes(s as u64, 2));
            law_number_round_trips(all, 0, s as u64, 2);
            lemma_first_symbol(b, depth, k + 1);
        } else {
            let ab = take_depth(a[s].levels(Side::Bid), depth);
            let aa = take_depth(a[s].levels(Side::Ask), depth);
            let bb = take_depth(b[s].levels(Side::Bid), depth);
            let ba = take_depth(b[s].levels(Side::Ask), depth);
            lemma_few_levels(a[s], Side::Bid, depth);
            lemma_few_levels(a[s], Side::Ask, depth);
            lemma_few_levels(b[s], Side::Bid, depth);
            lemma_few_levels(b[s], Side::Ask, depth);
            assert(all.skip(2) =~= side_bytes(Side::Bid, ab) + (side_bytes(Side::Ask, aa) + x));
            assert(bytes_from(b, depth, k).skip(2) =~= side_bytes(Side::Bid, bb) + (side_bytes(
                Side::Ask,
                ba,
            ) + y));
            lemma_side_reads_back(
                Side::Bid,
                ab,
                bb,
                side_bytes(Side::Ask, aa) + x,
                side_bytes(Side::Ask, ba) + y,
            );
            lemma_side_reads_back(Side::Ask, aa, ba, x, y);
        }
        lemma_books_read_back(a, b, depth, k + 1);
    }
}

/// The digest is FNV-1a over one string of bytes per set of books.
pub proof fn law_digest_is_hash_of_fingerprint(books: Map<u16, BookModel>)
    requires
        small_books(books),
    ensures
        books_digest(books).full == fnv(0xcbf2_9ce4_8422_2325, fingerprint(books, 0)),
        books_digest(books).top == fnv(0xcbf2_9ce4_8422_2325, fingerprint(books, 10)),
{
    assert(all_symbols().take(0) =~= Seq::<u16>::empty());
    lemma_hash_symbols(books, 0, 0);
    lemma_hash_symbols(books, 10, 0);
}

/// The string of bytes determines the levels: where two sets of books have one string, each
/// symbol has the same levels on both sides, with the same prices, quantities and order
/// counts, as deep as the string goes.
pub proof fn law_fingerprint_tells_every_level(
    a: Map<u16, BookModel>,
    b: Map<u16, BookModel>,
    depth: int,
)
    requires
        small_books(a),
        small_books(b),
        0 <= depth,
        fingerprint(a, depth) == fingerprint(b, depth),
    ensures
        forall|s: u16| #[trigger] equal_to_depth(a[s], b[s], depth),
        depth == 0 ==> forall|s: u16, side: Side| #[trigger]
            a[s].levels(side) == b[s].levels(side),
        forall|s: u16| (#[trigger] a[s]).len() == 0 <==> b[s].len() == 0,
{
    lemma_books_read_back(a, b, depth, 0);
    assert forall|s: u16| #[trigger] equal_to_depth(a[s], b[s], depth) by {}
    if depth == 0 {
        assert forall|s: u16, side: Side| #[trigger] a[s].levels(side) == b[s].levels(side) by {
            assert(equal_to_depth(a[s], b[s], depth));
            match side {
                Side::Bid => {},
                Side::Ask => {},
            }
        }
    }
}

/// One step of the hash takes the byte in by exclusive or, and multiplies by the prime.
pub proof fn law_hash_step(h: u64, b: u8)
    ensures
        fnv_step(h, b) as int == ((h ^ (b as u64)) as int * 0x100_0000_01b3)
            % 0x1_0000_0000_0000_0000,
{
}

/// One step of the hash loses nothing: from the byte and the state after it the state before
/// it follows, and from the two states the byte.
pub proof fn law_hash_step_loses_nothing(g: u64, h: u64, b: u8, c: u8)
    ensures
        fnv_step(g, b) == fnv_step(h, b) ==> g == h,
        fnv_step(h, b) == fnv_step(h, c) ==> b == c,
{
    law_hash_step(g, b);
    law_hash_step(h, b);
    law_hash_step(h, c);
    if fnv_step(g, b) == fnv_step(h, b) {
        lemma_prime_is_odd(g ^ (b as u64), h ^ (b as u64));
    }
    if fnv_step(h, b) == fnv_step(h, c) {
        lemma_prime_is_odd(h ^ (b as u64), h ^ (c as u64));
    }
    assert(g ^ (b as u64) == h ^ (b as u64) ==> g == h) by (bit_vector);
    assert(h ^ (b as u64) == h ^ (c as u64) ==> b == c) by (bit_vector);
}

/// Multiplying by the prime can be undone.
pub proof fn lemma_prime_is_odd(x: u64, y: u64)
    requires
        (x as int * 0x100_0000_01b3) % 0x1_0000_0000_0000_0000 == (y as int * 0x100_0000_01b3)
            % 0x1_0000_0000_0000_0000,
    ensures
        x == y,
{
    let p: int = 0x100_0000_01b3;
    let q: int = 0xce96_5057_aff6_957b;
    let n: int = 0x1_0000_0000_0000_0000;
    let a = x as int;
    let b = y as int;
    vstd::arithmetic::div_mod::lemma_fundamental_div_mod(a * p, n);
    vstd::arithmetic::div_mod::lemma_fundamental_div_mod(b * p, n);
    let k = a * p / n - b * p / n;
    assert((a - b) * p == k * n) by (nonlinear_arith)
        requires
            a * p == n * (a * p / n) + (a * p) % n,
            b * p == n * (b * p / n) + (b * p) % n,
            (a * p) % n == (b * p) % n,
            k == a * p / n - b * p / n,
    ;
    let c: int = 887_285_111_055;
    assert(p * q == c * n + 1);
    let d = a - b;
    let e = k * q - d * c;
    assert(d == e * n) by (nonlinear_arith)
        requires
            d * p == k * n,
            p * q == c * n + 1,
            e == k * q - d * c,
    ;
    assert(e == 0) by (nonlinear_arith)
        requires
            d == e * n,
            -n < d < n,
            n > 0,
    ;
}

/// Two strings of one length that differ in one byte have different hashes.
pub proof fn law_one_byte_changes_the_hash(h: u64, s: Seq<u8>, t: Seq<u8>, i: int)
    requires
        s.len() == t.len(),
        0 <= i < s.len(),
        s[i] != t[i],
        forall|j: int| 0 <= j < s.len() && j != i ==> s[j] == t[j],
    ensures
        fnv(h, s) != fnv(h, t),
    decreases s.len(),
{
    let a = s.drop_last();
    let b = t.drop_last();
    if i == s.len() - 1 {
        assert(a =~= b);
        law_hash_step_loses_nothing(fnv(h, a), fnv(h, a), s.last(), t.last());
        law_hash_step_loses_nothing(fnv(h, a), fnv(h, a), t.last(), s.last());
    } else {
        law_one_byte_changes_the_hash(h, a, b, i);
        law_hash_step_loses_nothing(fnv(h, a), fnv(h, b), s.last(), s.last());
    }
}

/// The digest counts every order of every book: none where all books are empty, and as many
/// more or fewer as one book has.
pub proof fn law_digest_counts_every_order(books: Map<u16, BookModel>, s: u16, m: BookModel)
    requires
        books.dom().contains(s),
        total(books) <= u64::MAX,
        total(books) + m.len() <= u64::MAX,
    ensures
        books_digest(books).orders == total(books),
        books_digest(books.insert(s, m)).orders == books_digest(books).orders - books[s].len()
            + m.len(),
{
    lemma_total_insert(books, s, m);
}

/// Where nothing rests there is nothing to count.
pub proof fn law_digest_of_nothing_counts_nothing(books: Map<u16, BookModel>)
    requires
        forall|s: u16| (#[trigger] books[s]).len() == 0,
    ensures
        books_digest(books).orders == 0,
        fingerprint(books, 0).len() == 0,
        fingerprint(books, 10).len() == 0,
{
    lemma_none_rest(books, all_symbols());
    lemma_no_bytes(books, 0, 0);
    lemma_no_bytes(books, 10, 0);
}

proof fn lemma_none_rest(books: Map<u16, BookModel>, symbols: Seq<u16>)
    requires
        forall|s: u16| (#[trigger] books[s]).len() == 0,
    ensures
        resting(books, symbols) == 0,
    decreases symbols.len(),
{
    if symbols.len() > 0 {
        lemma_none_rest(books, symbols.drop_last());
        assert(books[symbols.last()].len() == 0);
    }
}

proof fn lemma_no_bytes(books: Map<u16, BookModel>, depth: int, k: int)
    requires
        forall|s: u16| (#[trigger] books[s]).len() == 0,
        0 <= k <= 65536,
    ensures
        bytes_from(books, depth, k).len() == 0,
    decreases 65536 - k,
{
    if k < 65536 {
        assert(books[k as u16].len() == 0);
        lemma_no_bytes(books, depth, k + 1);
    }
}

} // verus!
