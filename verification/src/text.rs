//! Writing and reading plain text.

use vstd::prelude::*;
use vstd::string::{StrSliceExecFns, StringExecFns};

verus! {

/// `String::push` of the standard library: appends one character and changes
/// nothing before it.
pub assume_specification[ String::push ](s: &mut String, c: char)
    ensures
        final(s)@ == old(s)@.push(c),
;

pub open spec fn digit(d: int) -> char {
    if d == 0 {
        '0'
    } else if d == 1 {
        '1'
    } else if d == 2 {
        '2'
    } else if d == 3 {
        '3'
    } else if d == 4 {
        '4'
    } else if d == 5 {
        '5'
    } else if d == 6 {
        '6'
    } else if d == 7 {
        '7'
    } else if d == 8 {
        '8'
    } else if d == 9 {
        '9'
    } else if d == 10 {
        'a'
    } else if d == 11 {
        'b'
    } else if d == 12 {
        'c'
    } else if d == 13 {
        'd'
    } else if d == 14 {
        'e'
    } else {
        'f'
    }
}

/// What a digit stands for, in either case, or `None` of another character.
pub open spec fn digit_value(c: char) -> Option<int> {
    let u = c as int;
    if '0' as int <= u <= '9' as int {
        Some(u - '0' as int)
    } else if 'a' as int <= u <= 'f' as int {
        Some(u - 'a' as int + 10)
    } else if 'A' as int <= u <= 'F' as int {
        Some(u - 'A' as int + 10)
    } else {
        None
    }
}

fn digit_char(d: u64) -> (c: char)
    requires
        d < 16,
    ensures
        c == digit(d as int),
{
    if d == 0 {
        '0'
    } else if d == 1 {
        '1'
    } else if d == 2 {
        '2'
    } else if d == 3 {
        '3'
    } else if d == 4 {
        '4'
    } else if d == 5 {
        '5'
    } else if d == 6 {
        '6'
    } else if d == 7 {
        '7'
    } else if d == 8 {
        '8'
    } else if d == 9 {
        '9'
    } else if d == 10 {
        'a'
    } else if d == 11 {
        'b'
    } else if d == 12 {
        'c'
    } else if d == 13 {
        'd'
    } else if d == 14 {
        'e'
    } else {
        'f'
    }
}

/// A number in decimal, without leading zeros.
pub open spec fn decimal(n: int) -> Seq<char>
    decreases n,
{
    if n < 10 {
        seq![digit(n)]
    } else {
        decimal(n / 10).push(digit(n % 10))
    }
}

/// A signed number in decimal.
pub open spec fn signed_decimal(n: int) -> Seq<char> {
    if n < 0 {
        seq!['-'] + decimal(-n)
    } else {
        decimal(n)
    }
}

/// A number as sixteen hexadecimal digits.
pub open spec fn hex16(v: u64) -> Seq<char> {
    Seq::new(16, |i: int| digit(((v >> ((60 - 4 * i) as u64)) & 15) as int))
}

/// Appends a number in decimal.
pub fn push_decimal(s: &mut String, n: u64)
    ensures
        final(s)@ == old(s)@ + decimal(n as int),
    decreases n,
{
    if n >= 10 {
        push_decimal(s, n / 10);
    }
    let ghost before = s@;
    s.push(digit_char(n % 10));
    proof {
        if n >= 10 {
            assert(s@ =~= old(s)@ + decimal(n as int / 10).push(digit(n as int % 10)));
        } else {
            assert(s@ =~= old(s)@ + seq![digit(n as int)]);
        }
    }
}

/// Appends a signed number in decimal.
pub fn push_signed(s: &mut String, n: i64)
    ensures
        final(s)@ == old(s)@ + signed_decimal(n as int),
{
    if n < 0 {
        s.push('-');
        let m: u64 = (-(n as i128)) as u64;
        push_decimal(s, m);
        assert(s@ =~= old(s)@ + (seq!['-'] + decimal(-(n as int))));
    } else {
        push_decimal(s, n as u64);
    }
}

/// Appends a number as sixteen hexadecimal digits.
pub fn push_hex16(s: &mut String, v: u64)
    ensures
        final(s)@ == old(s)@ + hex16(v),
{
    let mut i: u64 = 0;
    assert(s@ =~= old(s)@ + hex16(v).take(0));
    while i < 16
        invariant
            i <= 16,
            s@ == old(s)@ + hex16(v).take(i as int),
        decreases 16 - i,
    {
        let shift: u64 = 60 - 4 * i;
        let d: u64 = (v >> shift) & 15;
        assert((v >> shift) & 15 < 16) by (bit_vector);
        s.push(digit_char(d));
        proof {
            assert(hex16(v).take(i as int + 1) =~= hex16(v).take(i as int).push(hex16(v)[i as int]));
            assert(s@ =~= old(s)@ + hex16(v).take(i as int + 1));
        }
        i = i + 1;
    }
    assert(hex16(v).take(16) =~= hex16(v));
}

/// The Unicode characters that count as white space.
pub open spec fn is_white(c: char) -> bool {
    let u = c as int;
    ||| 0x9 <= u <= 0xd
    ||| u == 0x20
    ||| u == 0x85
    ||| u == 0xa0
    ||| u == 0x1680
    ||| 0x2000 <= u <= 0x200a
    ||| u == 0x2028
    ||| u == 0x2029
    ||| u == 0x202f
    ||| u == 0x205f
    ||| u == 0x3000
}

pub fn white(c: char) -> (r: bool)
    ensures
        r == is_white(c),
{
    let u: u32 = c as u32;
    (0x9 <= u && u <= 0xd) || u == 0x20 || u == 0x85 || u == 0xa0 || u == 0x1680 || (0x2000 <= u
        && u <= 0x200a) || u == 0x2028 || u == 0x2029 || u == 0x202f || u == 0x205f || u == 0x3000
}

/// The words of a text: its longest runs without white space.
pub open spec fn words(s: Seq<char>) -> Seq<Seq<char>>
    decreases s.len(),
{
    if s.len() == 0 {
        Seq::empty()
    } else {
        let t = words(s.drop_last());
        if is_white(s.last()) {
            t
        } else if s.len() == 1 || is_white(s[s.len() - 2]) {
            t.push(seq![s.last()])
        } else {
            t.drop_last().push(t.last().push(s.last()))
        }
    }
}

/// A text that ends within a word has one.
proof fn lemma_words_open(s: Seq<char>)
    requires
        s.len() > 0,
        !is_white(s.last()),
    ensures
        words(s).len() > 0,
{
}

/// The characters of a text.
pub fn chars_of(s: &str) -> (r: Vec<char>)
    ensures
        r@ == s@,
{
    let mut out: Vec<char> = Vec::new();
    for c in it: s.chars()
        invariant
            it.seq() == s@,
            out@ == s@.take(it.index() as int),
    {
        proof {
            assert(s@.take(it.index() as int + 1) =~= s@.take(it.index() as int).push(
                s@[it.index() as int],
            ));
        }
        out.push(c);
    }
    assert(out@ =~= s@);
    out
}

/// Appends characters.
pub fn push_chars(s: &mut String, v: &Vec<char>)
    ensures
        final(s)@ == old(s)@ + v@,
{
    let mut i: usize = 0;
    assert(s@ =~= old(s)@ + v@.take(0));
    while i < v.len()
        invariant
            i <= v@.len(),
            s@ == old(s)@ + v@.take(i as int),
        decreases v@.len() - i,
    {
        s.push(v[i]);
        assert(s@ =~= old(s)@ + v@.take(i as int + 1));
        i = i + 1;
    }
    assert(v@.take(i as int) =~= v@);
}

/// The words of a text.
pub fn split_words(s: &Vec<char>) -> (r: Vec<Vec<char>>)
    ensures
        r@.len() == words(s@).len(),
        forall|i: int| 0 <= i < r@.len() ==> (#[trigger] r@[i])@ == words(s@)[i],
{
    let mut out: Vec<Vec<char>> = Vec::new();
    let mut i: usize = 0;
    assert(s@.take(0) =~= Seq::<char>::empty());
    while i < s.len()
        invariant
            i <= s@.len(),
            out@.len() == words(s@.take(i as int)).len(),
            forall|k: int|
                0 <= k < out@.len() ==> (#[trigger] out@[k])@ == words(s@.take(i as int))[k],
        decreases s@.len() - i,
    {
        let c: char = s[i];
        let ghost a = s@.take(i as int);
        let ghost b = s@.take(i as int + 1);
        proof {
            assert(b.drop_last() =~= a);
            assert(b.last() == c);
        }
        if !white(c) {
            if i == 0 || white(s[i - 1]) {
                let mut w: Vec<char> = Vec::new();
                w.push(c);
                assert(w@ =~= seq![c]);
                proof {
                    if i > 0 {
                        assert(b[b.len() - 2] == s@[i - 1]);
                    }
                }
                out.push(w);
            } else {
                proof {
                    assert(b[b.len() - 2] == s@[i - 1]);
                    assert(a.last() == s@[i - 1]);
                    lemma_words_open(a);
                }
                let last: usize = out.len() - 1;
                out[last].push(c);
            }
        }
        i = i + 1;
    }
    assert(s@.take(i as int) =~= s@);
    out
}

/// The digits of a number as its value, in the given base.
pub open spec fn digits_value(s: Seq<char>, base: int) -> Option<int>
    decreases s.len(),
{
    if s.len() == 0 {
        Some(0)
    } else {
        match (digits_value(s.drop_last(), base), digit_value(s.last())) {
            (Some(v), Some(d)) => if d < base {
                Some(v * base + d)
            } else {
                None
            },
            _ => None,
        }
    }
}

/// A number as `u64::from_str_radix` reads it: digits, perhaps behind a plus sign,
/// that do not exceed what 64 bits can hold.
pub open spec fn number(s: Seq<char>, base: int) -> Option<u64> {
    let t = if s.len() > 1 && s[0] == '+' {
        s.drop_first()
    } else {
        s
    };
    match digits_value(t, base) {
        Some(v) => if t.len() > 0 && v <= u64::MAX {
            Some(v as u64)
        } else {
            None
        },
        None => None,
    }
}

proof fn lemma_digits_grow(s: Seq<char>, base: int, k: int)
    requires
        2 <= base <= 16,
        0 <= k <= s.len(),
        digits_value(s, base) is Some,
    ensures
        digits_value(s.take(k), base) is Some,
        0 <= digits_value(s.take(k), base)->0 <= digits_value(s, base)->0,
    decreases s.len(),
{
    if k == s.len() {
        assert(s.take(k) =~= s);
        if k > 0 {
            lemma_digits_grow(s.drop_last(), base, k - 1);
            let v = digits_value(s.drop_last(), base)->0;
            assert(v * base >= 0) by (nonlinear_arith)
                requires
                    v >= 0,
                    base >= 2,
            ;
        }
    } else {
        lemma_digits_grow(s.drop_last(), base, k);
        assert(s.drop_last().take(k) =~= s.take(k));
        let v = digits_value(s.drop_last(), base)->0;
        assert(v * base >= v) by (nonlinear_arith)
            requires
                v >= 0,
                base >= 2,
        ;
    }
}

fn value_of(c: char) -> (r: Option<u64>)
    ensures
        r is Some <==> digit_value(c) is Some,
        r matches Some(d) ==> d == digit_value(c)->0 && d < 16,
{
    let u: u32 = c as u32;
    if '0' as u32 <= u && u <= '9' as u32 {
        Some((u - '0' as u32) as u64)
    } else if 'a' as u32 <= u && u <= 'f' as u32 {
        Some((u - 'a' as u32 + 10) as u64)
    } else if 'A' as u32 <= u && u <= 'F' as u32 {
        Some((u - 'A' as u32 + 10) as u64)
    } else {
        None
    }
}

/// Reads a number in the given base.
pub fn parse_number(s: &Vec<char>, base: u64) -> (r: Option<u64>)
    requires
        2 <= base <= 16,
    ensures
        r == number(s@, base as int),
{
    let start: usize = if s.len() > 1 && s[0] == '+' {
        1
    } else {
        0
    };
    let ghost t = s@.skip(start as int);
    proof {
        if start == 1 {
            assert(t =~= s@.drop_first());
        } else {
            assert(t =~= s@);
        }
        assert(t.take(0) =~= Seq::<char>::empty());
    }
    if s.len() == start {
        return None;
    }
    let mut v: u64 = 0;
    let mut i: usize = start;
    while i < s.len()
        invariant
            2 <= base <= 16,
            start <= i <= s@.len(),
            start <= 1,
            t == s@.skip(start as int),
            number(s@, base as int) == (match digits_value(t, base as int) {
                Some(v) => if t.len() > 0 && v <= u64::MAX {
                    Some(v as u64)
                } else {
                    None
                },
                None => None,
            }),
            digits_value(t.take(i - start), base as int) == Some(v as int),
        decreases s@.len() - i,
    {
        let ghost a = t.take(i - start);
        let ghost b = t.take(i - start + 1);
        proof {
            assert(b.drop_last() =~= a);
            assert(b.last() == s@[i as int]);
            if digits_value(t, base as int) is Some {
                lemma_digits_grow(t, base as int, i - start + 1);
            }
        }
        let d: u64 = match value_of(s[i]) {
            None => return None,
            Some(d) => d,
        };
        if d >= base {
            return None;
        }
        assert(0 <= v * base <= 0xffff_ffff_ffff_ffff * 16) by (nonlinear_arith)
            requires
                0 <= v <= 0xffff_ffff_ffff_ffff,
                0 <= base <= 16,
        ;
        let next: u128 = (v as u128) * (base as u128) + d as u128;
        if next > u64::MAX as u128 {
            return None;
        }
        v = next as u64;
        i = i + 1;
    }
    assert(t.take(i - start) =~= t);
    Some(v)
}

/// Whether two texts are equal.
pub fn same_text(a: &Vec<char>, b: &str) -> (r: bool)
    ensures
        r == (a@ == b@),
{
    let n: usize = b.unicode_len();
    if a.len() != n {
        return false;
    }
    let mut i: usize = 0;
    while i < n
        invariant
            n == b@.len(),
            n == a@.len(),
            i <= n,
            forall|k: int| 0 <= k < i ==> a@[k] == b@[k],
        decreases n - i,
    {
        if a[i] != b.get_char(i) {
            return false;
        }
        i = i + 1;
    }
    assert(a@ =~= b@);
    true
}

/// Appending a word behind white space, or at the start, adds it to the words.
pub proof fn lemma_word_added(x: Seq<char>, w: Seq<char>)
    requires
        x.len() == 0 || is_white(x.last()),
        w.len() > 0,
        forall|i: int| 0 <= i < w.len() ==> !is_white(#[trigger] w[i]),
    ensures
        words(x + w) == words(x).push(w),
    decreases w.len(),
{
    let s = x + w;
    assert(s.last() == w.last());
    if w.len() == 1 {
        assert(s.drop_last() =~= x);
        if s.len() > 1 {
            assert(s[s.len() - 2] == x.last());
        }
        assert(seq![w.last()] =~= w);
    } else {
        let v = w.drop_last();
        lemma_word_added(x, v);
        assert(s.drop_last() =~= x + v);
        assert(s[s.len() - 2] == w[w.len() - 2]);
        let t = words(x + v);
        assert(t.drop_last() =~= words(x));
        assert(t.last() == v);
        assert(v.push(w.last()) =~= w);
    }
}

/// White space at the end adds no word.
pub proof fn lemma_white_added(x: Seq<char>, c: char)
    requires
        is_white(c),
    ensures
        words(x.push(c)) == words(x),
{
    assert(x.push(c).drop_last() =~= x);
}

/// Digits are read for what they stand for, and are no white space.
proof fn lemma_digit(d: int)
    requires
        0 <= d < 16,
    ensures
        digit_value(digit(d)) == Some(d),
        !is_white(digit(d)),
        digit(d) != '+',
{
}

/// A number reads back from its decimal digits.
pub proof fn law_decimal_round_trips(n: int)
    requires
        0 <= n,
    ensures
        digits_value(decimal(n), 10) == Some(n),
        decimal(n).len() > 0,
        forall|i: int|
            0 <= i < decimal(n).len() ==> !is_white(#[trigger] decimal(n)[i]) && decimal(n)[i]
                != '+',
        n <= u64::MAX ==> number(decimal(n), 10) == Some(n as u64),
    decreases n,
{
    if n < 10 {
        lemma_digit(n);
        let s = seq![digit(n)];
        assert(s.drop_last() =~= Seq::<char>::empty());
        assert(digits_value(s.drop_last(), 10) == Some(0int));
    } else {
        law_decimal_round_trips(n / 10);
        lemma_digit(n % 10);
        let s = decimal(n / 10).push(digit(n % 10));
        assert(s.drop_last() =~= decimal(n / 10));
        assert((n / 10) * 10 + n % 10 == n);
    }
    assert(decimal(n)[0] != '+');
}

proof fn lemma_nibble(v: u64, s: u64)
    requires
        s <= 60,
    ensures
        s <= 56 ==> ((v >> ((s + 4) as u64)) * 16 + ((v >> s) & 15)) == v >> s,
        s == 60 ==> (v >> s) & 15 == v >> s,
        (v >> s) & 15 < 16,
{
    assert(s <= 56 ==> (v >> ((s + 4) as u64)) == (v >> s) >> 4u64) by (bit_vector)
        requires
            s <= 60,
    ;
    let x = v >> s;
    assert(x >> 4u64 <= 0x0fff_ffff_ffff_ffff) by (bit_vector);
    assert(((x >> 4u64) * 16 + (x & 15)) as u64 == x) by (bit_vector);
    assert(x & 15 < 16) by (bit_vector);
    assert(s == 60 ==> (v >> s) & 15 == v >> s) by (bit_vector);
}

/// The value of the first `k` hexadecimal digits is the number without its last
/// `16 - k`.
proof fn lemma_hex_prefix(v: u64, k: int)
    requires
        1 <= k <= 16,
    ensures
        digits_value(hex16(v).take(k), 16) == Some((v >> ((64 - 4 * k) as u64)) as int),
    decreases k,
{
    let s = hex16(v).take(k);
    let shift = (60 - 4 * (k - 1)) as u64;
    lemma_nibble(v, shift);
    let d = ((v >> shift) & 15) as int;
    lemma_digit(d);
    assert(s.last() == digit(d));
    assert(s.drop_last() =~= hex16(v).take(k - 1));
    if k == 1 {
        assert(hex16(v).take(0) =~= Seq::<char>::empty());
        assert(digits_value(s.drop_last(), 16) == Some(0int));
    } else {
        lemma_hex_prefix(v, k - 1);
    }
}

/// A number reads back from its hexadecimal digits.
pub proof fn law_hex_round_trips(v: u64)
    ensures
        number(hex16(v), 16) == Some(v),
        hex16(v).len() == 16,
        forall|i: int| 0 <= i < 16 ==> !is_white(#[trigger] hex16(v)[i]) && hex16(v)[i] != '+',
{
    lemma_hex_prefix(v, 16);
    assert(hex16(v).take(16) =~= hex16(v));
    assert(v >> 0u64 == v) by (bit_vector);
    assert forall|i: int| 0 <= i < 16 implies !is_white(#[trigger] hex16(v)[i]) && hex16(v)[i]
        != '+' by {
        lemma_nibble(v, (60 - 4 * i) as u64);
        lemma_digit(((v >> ((60 - 4 * i) as u64)) & 15) as int);
    }
    assert(hex16(v)[0] != '+');
}

/// A number in decimal ends in its last digit, with what comes before it in front, and the
/// digits below ten are the ten digits.
pub proof fn law_decimal_is_base_ten(n: int)
    requires
        0 <= n,
    ensures
        n < 10 ==> decimal(n).len() == 1 && decimal(n)[0] as int == '0' as int + n,
        n >= 10 ==> decimal(n).drop_last() == decimal(n / 10) && decimal(n).last() as int
            == '0' as int + n % 10,
        signed_decimal(n) == decimal(n),
        n > 0 ==> signed_decimal(-n) == seq!['-'] + decimal(n),
{
    if n >= 10 {
        assert(decimal(n).drop_last() =~= decimal(n / 10));
    }
}

/// The sixteen digits of a number are its nibbles, the most significant first, in lower case.
pub proof fn law_hex_is_base_sixteen(v: u64, i: int)
    requires
        0 <= i < 16,
    ensures
        ({
            let d = ((v >> ((60 - 4 * i) as u64)) % 16) as int;
            &&& d < 10 ==> hex16(v)[i] as int == '0' as int + d
            &&& d >= 10 ==> hex16(v)[i] as int == 'a' as int + d - 10
        }),
{
    let x = v >> ((60 - 4 * i) as u64);
    assert(x & 15 == x % 16) by (bit_vector);
}

} // verus!
