//! Numbers as little-endian bytes.

use vstd::prelude::*;

verus! {

/// The `i`th byte of a number, least significant first.
pub open spec fn byte_of(v: u64, i: int) -> u8 {
    (v >> ((8 * i) as u64)) as u8
}

/// The first `n` bytes of a number, least significant first.
pub open spec fn le_bytes(v: u64, n: int) -> Seq<u8> {
    Seq::new(n as nat, |i: int| byte_of(v, i))
}

/// The number in the first `n` bytes from `at` on.
pub open spec fn le_value(s: Seq<u8>, at: int, n: int) -> u64
    decreases n,
{
    if n <= 0 {
        0
    } else {
        le_value(s, at, n - 1) | ((s[at + n - 1] as u64) << ((8 * (n - 1)) as u64))
    }
}

/// Appends the first `n` bytes of `v`.
pub fn put(out: &mut Vec<u8>, v: u64, n: u32)
    requires
        n <= 8,
    ensures
        final(out)@ == old(out)@ + le_bytes(v, n as int),
{
    let mut i: u32 = 0;
    assert(out@ =~= old(out)@ + le_bytes(v, 0));
    while i < n
        invariant
            i <= n <= 8,
            out@ == old(out)@ + le_bytes(v, i as int),
        decreases n - i,
    {
        let shift: u64 = (8 * i) as u64;
        let b: u8 = #[verifier::truncate] ((v >> shift) as u8);
        out.push(b);
        assert(out@ =~= old(out)@ + le_bytes(v, i as int + 1));
        i = i + 1;
    }
}

/// Appends `n` zero bytes.
pub fn put_zeros(out: &mut Vec<u8>, n: u32)
    ensures
        final(out)@ == old(out)@ + Seq::new(n as nat, |i: int| 0u8),
{
    let mut i: u32 = 0;
    assert(out@ =~= old(out)@ + Seq::new(0, |i: int| 0u8));
    while i < n
        invariant
            i <= n,
            out@ == old(out)@ + Seq::new(i as nat, |i: int| 0u8),
        decreases n - i,
    {
        out.push(0);
        assert(out@ =~= old(out)@ + Seq::new((i + 1) as nat, |i: int| 0u8));
        i = i + 1;
    }
}

/// Reads the number in the `n` bytes from `at` on.
pub fn take(s: &Vec<u8>, at: usize, n: u32) -> (r: u64)
    requires
        n <= 8,
        at + n <= s@.len(),
    ensures
        r == le_value(s@, at as int, n as int),
{
    let mut v: u64 = 0;
    let mut i: u32 = 0;
    let len: usize = s.len();
    while i < n
        invariant
            i <= n <= 8,
            len == s@.len(),
            at + n <= s@.len(),
            v == le_value(s@, at as int, i as int),
        decreases n - i,
    {
        let shift: u64 = (8 * i) as u64;
        v = v | ((s[at + i as usize] as u64) << shift);
        i = i + 1;
    }
    v
}

/// A number reads back from its bytes, wherever they stand.
pub proof fn law_number_round_trips(s: Seq<u8>, at: int, v: u64, n: int)
    requires
        0 <= at,
        at + n <= s.len(),
        s.subrange(at, at + n) == le_bytes(v, n),
        n == 8 || (n == 4 && v <= 0xffff_ffff) || (n == 2 && v <= 0xffff) || (n == 1 && v <= 0xff),
    ensures
        le_value(s, at, n) == v,
{
    assert forall|i: int| 0 <= i < n implies #[trigger] s[at + i] == byte_of(v, i) by {
        assert(s.subrange(at, at + n)[i] == le_bytes(v, n)[i]);
    }
    reveal_with_fuel(le_value, 9);
    assert(s[at + 0] == byte_of(v, 0));
    if n >= 2 {
        assert(s[at + 1] == byte_of(v, 1));
    }
    if n >= 4 {
        assert(s[at + 2] == byte_of(v, 2));
        assert(s[at + 3] == byte_of(v, 3));
    }
    if n >= 8 {
        assert(s[at + 4] == byte_of(v, 4));
        assert(s[at + 5] == byte_of(v, 5));
        assert(s[at + 6] == byte_of(v, 6));
        assert(s[at + 7] == byte_of(v, 7));
    }
    let b0 = (v >> 0u64) as u8;
    let b1 = (v >> 8u64) as u8;
    let b2 = (v >> 16u64) as u8;
    let b3 = (v >> 24u64) as u8;
    let b4 = (v >> 32u64) as u8;
    let b5 = (v >> 40u64) as u8;
    let b6 = (v >> 48u64) as u8;
    let b7 = (v >> 56u64) as u8;
    let w1 = 0u64 | ((b0 as u64) << 0u64);
    let w2 = w1 | ((b1 as u64) << 8u64);
    let w3 = w2 | ((b2 as u64) << 16u64);
    let w4 = w3 | ((b3 as u64) << 24u64);
    let w5 = w4 | ((b4 as u64) << 32u64);
    let w6 = w5 | ((b5 as u64) << 40u64);
    let w7 = w6 | ((b6 as u64) << 48u64);
    let w8 = w7 | ((b7 as u64) << 56u64);
    assert(v <= 0xff ==> w1 == v) by (bit_vector)
        requires
            b0 == (v >> 0u64) as u8,
            w1 == 0u64 | ((b0 as u64) << 0u64),
    ;
    assert(v <= 0xffff ==> w2 == v) by (bit_vector)
        requires
            b0 == (v >> 0u64) as u8,
            b1 == (v >> 8u64) as u8,
            w1 == 0u64 | ((b0 as u64) << 0u64),
            w2 == w1 | ((b1 as u64) << 8u64),
    ;
    assert(v <= 0xffff_ffff ==> w4 == v) by (bit_vector)
        requires
            b0 == (v >> 0u64) as u8,
            b1 == (v >> 8u64) as u8,
            b2 == (v >> 16u64) as u8,
            b3 == (v >> 24u64) as u8,
            w1 == 0u64 | ((b0 as u64) << 0u64),
            w2 == w1 | ((b1 as u64) << 8u64),
            w3 == w2 | ((b2 as u64) << 16u64),
            w4 == w3 | ((b3 as u64) << 24u64),
    ;
    assert(w8 == v) by (bit_vector)
        requires
            b0 == (v >> 0u64) as u8,
            b1 == (v >> 8u64) as u8,
            b2 == (v >> 16u64) as u8,
            b3 == (v >> 24u64) as u8,
            b4 == (v >> 32u64) as u8,
            b5 == (v >> 40u64) as u8,
            b6 == (v >> 48u64) as u8,
            b7 == (v >> 56u64) as u8,
            w1 == 0u64 | ((b0 as u64) << 0u64),
            w2 == w1 | ((b1 as u64) << 8u64),
            w3 == w2 | ((b2 as u64) << 16u64),
            w4 == w3 | ((b3 as u64) << 24u64),
            w5 == w4 | ((b4 as u64) << 32u64),
            w6 == w5 | ((b5 as u64) << 40u64),
            w7 == w6 | ((b6 as u64) << 48u64),
            w8 == w7 | ((b7 as u64) << 56u64),
    ;
    assert(le_value(s, at, 1) == w1);
    if n >= 2 {
        assert(le_value(s, at, 2) == w2);
    }
    if n >= 4 {
        assert(le_value(s, at, 3) == w3);
        assert(le_value(s, at, 4) == w4);
    }
    if n >= 8 {
        assert(le_value(s, at, 5) == w5);
        assert(le_value(s, at, 6) == w6);
        assert(le_value(s, at, 7) == w7);
        assert(le_value(s, at, 8) == w8);
    }
}

/// The least significant byte comes first: each byte is what is left of the number once those
/// before it are taken off, modulo 256.
pub proof fn law_least_significant_first(v: u64, n: int)
    requires
        1 <= n <= 8,
    ensures
        le_bytes(v, n).len() == n,
        le_bytes(v, n)[0] == v % 256,
        le_bytes(v, n).skip(1) == le_bytes(v / 256, n - 1),
{
    assert((v >> 0u64) as u8 == v % 256) by (bit_vector);
    let rest = le_bytes(v / 256, n - 1);
    assert forall|i: int| 0 <= i < n - 1 implies le_bytes(v, n)[i + 1] == #[trigger] rest[i] by {
        let k = (8 * i) as u64;
        let l = (8 * (i + 1)) as u64;
        assert((v >> l) as u8 == ((v / 256) >> k) as u8) by (bit_vector)
            requires
                l == k + 8,
                k <= 48,
        ;
    }
    assert(le_bytes(v, n).skip(1) =~= rest);
}

} // verus!
