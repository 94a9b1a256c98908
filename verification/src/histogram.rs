//! A latency histogram with a bounded relative error, recorded without
//! allocating.
//!
//! Values below 2048 have a slot of their own. Beyond that, slots double in width
//! every 1024 slots, so a slot is never wider than a thousandth of the values in
//! it. What is read back is the highest value of a slot: a latency is never
//! reported lower than it was.

use crate::sheet::{gives, lemma_figures_are_given};
use crate::text::{decimal, push_decimal};
use vstd::prelude::*;
use vstd::std_specs::bits::{axiom_u64_leading_zeros, u64_leading_zeros};
use vstd::string::StringExecFns;

verus! {

/// Ten seconds in nanoseconds. Anything slower is counted, not measured.
pub const DEFAULT_HIGHEST_NANOS: u64 = 10_000_000_000;

/// The slot that a value is counted in.
pub open spec fn slot_of(v: int) -> int
    decreases v,
{
    if v < 2048 {
        v
    } else {
        slot_of(v / 2) + 1024
    }
}

/// The lowest value of a slot.
pub open spec fn low_of(i: int) -> int
    decreases i,
{
    if i < 2048 {
        i
    } else {
        2 * low_of(i - 1024)
    }
}

/// The highest value of a slot.
pub open spec fn high_of(i: int) -> int
    decreases i,
{
    if i < 2048 {
        i
    } else {
        2 * high_of(i - 1024) + 1
    }
}

/// How many groups of slots it takes to hold a value, each twice as wide as the last.
pub open spec fn buckets_for(v: int) -> int
    decreases v,
{
    if v < 2048 {
        1
    } else {
        1 + buckets_for(v / 2)
    }
}

/// How many slots a histogram of this range has.
pub open spec fn slots_for(range: int) -> int {
    1024 * (1 + if buckets_for(range) < 53 {
        buckets_for(range)
    } else {
        53
    })
}

proof fn lemma_some_bucket(v: int)
    ensures
        buckets_for(v) >= 1,
    decreases v,
{
    if v >= 2048 {
        lemma_some_bucket(v / 2);
    }
}

/// Halving a quotient doubles the divisor.
proof fn lemma_halved(v: int, p: int)
    requires
        0 <= v,
        0 < p,
    ensures
        (v / p) / 2 == v / (2 * p),
        v / p >= 2048 <==> v >= 2048 * p,
{
    vstd::arithmetic::div_mod::lemma_div_denominator(v, p, 2);
    assert(p * 2 == 2 * p);
    vstd::arithmetic::div_mod::lemma_fundamental_div_mod(v, p);
    let q = v / p;
    let r = v % p;
    assert(q >= 2048 ==> v >= 2048 * p) by (nonlinear_arith)
        requires
            v == p * q + r,
            0 <= r < p,
    ;
    assert(q < 2048 ==> v < 2048 * p) by (nonlinear_arith)
        requires
            v == p * q + r,
            0 <= r < p,
    ;
}

/// How wide the slot of a value is.
pub open spec fn width_of(v: int) -> int
    decreases v,
{
    if v < 2048 {
        1
    } else {
        2 * width_of(v / 2)
    }
}

/// How many of the first `k` samples fall in slots up to `i`.
pub open spec fn up_to(samples: Seq<u64>, k: int, i: int) -> int
    decreases k,
{
    if k <= 0 {
        0
    } else if slot_of(samples[k - 1] as int) <= i {
        up_to(samples, k - 1, i) + 1
    } else {
        up_to(samples, k - 1, i)
    }
}

/// How many samples fall in slots up to `i`.
pub open spec fn counted(samples: Seq<u64>, i: int) -> int {
    up_to(samples, samples.len() as int, i)
}

pub open spec fn lowest(samples: Seq<u64>) -> u64
    decreases samples.len(),
{
    if samples.len() == 0 {
        u64::MAX
    } else if samples.last() < lowest(samples.drop_last()) {
        samples.last()
    } else {
        lowest(samples.drop_last())
    }
}

pub open spec fn highest(samples: Seq<u64>) -> u64
    decreases samples.len(),
{
    if samples.len() == 0 {
        0
    } else if samples.last() > highest(samples.drop_last()) {
        samples.last()
    } else {
        highest(samples.drop_last())
    }
}

pub open spec fn sum(samples: Seq<u64>) -> int
    decreases samples.len(),
{
    if samples.len() == 0 {
        0
    } else {
        sum(samples.drop_last()) + samples.last()
    }
}

/// What has been recorded: the samples within the range, and those beyond it.
#[verifier::ext_equal]
pub struct Recorded {
    pub kept: Seq<u64>,
    pub over: Seq<u64>,
}

impl Recorded {
    pub open spec fn nothing() -> Recorded {
        Recorded { kept: Seq::empty(), over: Seq::empty() }
    }

    /// With one more sample, which is counted only where it is out of range.
    pub open spec fn recorded(self, range: u64, value: u64) -> Recorded {
        if value > range {
            Recorded { over: self.over.push(value), ..self }
        } else {
            Recorded { kept: self.kept.push(value), ..self }
        }
    }

    /// With more samples, one after the other.
    pub open spec fn recorded_all(self, range: u64, values: Seq<u64>) -> Recorded
        decreases values.len(),
    {
        if values.len() == 0 {
            self
        } else {
            self.recorded_all(range, values.drop_last()).recorded(range, values.last())
        }
    }

    /// The same samples, in whatever order.
    pub open spec fn same_samples(self, other: Recorded) -> bool {
        &&& self.kept.to_multiset() == other.kept.to_multiset()
        &&& self.over.to_multiset() == other.over.to_multiset()
    }

    /// With the samples of another.
    pub open spec fn merged(self, other: Recorded) -> Recorded {
        Recorded { kept: self.kept + other.kept, over: self.over + other.over }
    }

    pub open spec fn count(self) -> int {
        (self.kept.len() + self.over.len()) as int
    }

    pub open spec fn max(self) -> u64 {
        if highest(self.kept) > highest(self.over) {
            highest(self.kept)
        } else {
            highest(self.over)
        }
    }

    /// `i` is the slot in which the sample of the given rank lies.
    pub open spec fn ranks_in(self, rank: int, i: int) -> bool {
        counted(self.kept, i - 1) < rank <= counted(self.kept, i)
    }
}

pub struct Histogram {
    counts: Vec<u64>,
    range: u64,
    total: u64,
    overflow: u64,
    min: u64,
    max: u64,
    sum: u128,
    samples: Ghost<Recorded>,
}

proof fn lemma_slot(v: int)
    requires
        0 <= v,
    ensures
        0 <= slot_of(v),
        low_of(slot_of(v)) <= v <= high_of(slot_of(v)),
        slot_of(v) < 2048 <==> v < 2048,
        high_of(slot_of(v)) <= v + width_of(v) - 1,
        width_of(v) >= 1,
        v >= 2048 ==> 1024 * width_of(v) <= v,
    decreases v,
{
    if v >= 2048 {
        lemma_slot(v / 2);
    }
}

/// A slot is that of its lowest value.
pub proof fn law_index_round_trips(i: int)
    requires
        0 <= i,
    ensures
        0 <= low_of(i) <= high_of(i),
        slot_of(low_of(i)) == i,
        slot_of(high_of(i)) == i,
    decreases i,
{
    if i >= 2048 {
        law_index_round_trips(i - 1024);
        lemma_slot(low_of(i - 1024));
        lemma_low_big(i - 1024);
    }
}

proof fn lemma_low_big(i: int)
    requires
        1024 <= i,
    ensures
        1024 <= low_of(i) <= high_of(i),
    decreases i,
{
    if i >= 2048 {
        lemma_low_big(i - 1024);
    }
}

/// A larger value is in no lower a slot.
pub proof fn law_slots_are_in_order(v: int, w: int)
    requires
        0 <= v <= w,
    ensures
        slot_of(v) <= slot_of(w),
    decreases w,
{
    if w >= 2048 {
        if v >= 2048 {
            law_slots_are_in_order(v / 2, w / 2);
        } else {
            lemma_slot(w / 2);
            law_slots_are_in_order(1024, w / 2);
        }
    }
}

/// What is read back for a value is not below it, and above it by no more than a
/// thousand-and-twenty-fourth of it. Below 2048 it is the value itself.
pub proof fn law_relative_error_is_bounded(v: int)
    requires
        0 <= v,
    ensures
        v <= high_of(slot_of(v)) <= v + v / 1024,
        v < 2048 ==> high_of(slot_of(v)) == v,
{
    lemma_slot(v);
}

/// The first `1024 * (k + 2)` slots hold every value below `2048 * 2^k`.
proof fn lemma_slot_bound(v: int, top: int, k: int)
    requires
        0 <= v < top,
        0 <= k,
        top == 2048 * vstd::arithmetic::power2::pow2(k as nat),
    ensures
        slot_of(v) < 1024 * (k + 2),
    decreases k,
{
    vstd::arithmetic::power2::lemma2_to64();
    if k == 0 {
        assert(vstd::arithmetic::power2::pow2(0) == 1);
    } else {
        vstd::arithmetic::power2::lemma_pow2_unfold(k as nat);
        if v >= 2048 {
            lemma_slot_bound(v / 2, top / 2, k - 1);
        }
    }
}

/// A value that shifted right by `b` is between 1024 and 2047 is in the slot that
/// lies that far behind `1024 * b`.
proof fn lemma_shifted(v: u64, b: u64)
    requires
        b <= 53,
        (b == 0 && v < 2048) || (1024 <= (v >> b) < 2048),
    ensures
        slot_of(v as int) == b * 1024 + (v >> b),
        width_of(v as int) == (1u64 << b),
        high_of(slot_of(v as int)) == (v / (1u64 << b)) * (1u64 << b) + (1u64 << b) - 1,
        0 < (1u64 << b),
    decreases b,
{
    if b == 0 {
        assert(v >> 0u64 == v) by (bit_vector);
        assert(1u64 << 0u64 == 1u64) by (bit_vector);
    } else {
        let w = v / 2;
        let c = (b - 1) as u64;
        assert((v >> b) >= 1024 && 0 < b <= 53 ==> v >= 2048) by (bit_vector);
        assert((v / 2) >> ((b - 1) as u64) == v >> b) by (bit_vector)
            requires
                0 < b <= 53,
        ;
        assert(1u64 << b == 2 * (1u64 << ((b - 1) as u64))) by (bit_vector)
            requires
                0 < b <= 53,
        ;
        if c == 0 {
            assert(w >> 0u64 == w) by (bit_vector);
            lemma_shifted(w, 0);
        } else {
            lemma_shifted(w, c);
        }
        let u = 1u64 << b;
        let t = 1u64 << c;
        assert((v / 2) / t == v / u) by {
            vstd::arithmetic::div_mod::lemma_div_denominator(v as int, 2, t as int);
        }
        let q = v as int / u as int;
        assert(2 * (q * t + t - 1) + 1 == q * u + u - 1) by (nonlinear_arith)
            requires
                u == 2 * t,
        ;
    }
}

/// The number of a value's leading zeros says how far to shift it.
proof fn lemma_bucket(v: u64)
    ensures
        ({
            let x = v | 2047;
            let l = u64_leading_zeros(x);
            let b = (53 - l) as u64;
            &&& 0 <= l <= 53
            &&& (b == 0 && v < 2048) || (1024 <= (v >> b) < 2048)
        }),
{
    let x = v | 2047;
    axiom_u64_leading_zeros(x);
    let l = u64_leading_zeros(x) as u64;
    assert(x >= 2047) by (bit_vector)
        requires
            x == v | 2047,
    ;
    assert(l < 64);
    let p = (63 - l) as u64;
    let q = (64 - l) as u64;
    assert((x >> p) & 1u64 != 0u64);
    assert(x >> q == 0);
    assert(l <= 53) by (bit_vector)
        requires
            x >= 2047,
            l < 64,
            q == 64 - l,
            x >> q == 0,
    ;
    assert(v < 2048 ==> l == 53) by (bit_vector)
        requires
            x == v | 2047,
            l <= 53,
            p == 63 - l,
            (x >> p) & 1u64 != 0u64,
    ;
    let b = (53 - l) as u64;
    assert(v >= 2048 ==> 1024 <= (v >> b) && (v >> b) < 2048) by (bit_vector)
        requires
            x == v | 2047,
            l <= 53,
            b == 53 - l,
            p == 63 - l,
            q == 64 - l,
            x >> q == 0,
            (x >> p) & 1u64 != 0u64,
    ;
}

/// The slot of a sample counts one more when it is added, and so do all above it.
proof fn lemma_up_to_push(samples: Seq<u64>, v: u64, i: int)
    ensures
        counted(samples.push(v), i) == counted(samples, i) + (if slot_of(v as int) <= i {
            1int
        } else {
            0int
        }),
{
    lemma_up_to_prefix(samples, samples.push(v), samples.len() as int, i);
}

proof fn lemma_up_to_prefix(a: Seq<u64>, b: Seq<u64>, k: int, i: int)
    requires
        0 <= k <= a.len(),
        k <= b.len(),
        forall|j: int| 0 <= j < k ==> a[j] == b[j],
    ensures
        up_to(a, k, i) == up_to(b, k, i),
    decreases k,
{
    if k > 0 {
        lemma_up_to_prefix(a, b, k - 1, i);
    }
}

proof fn lemma_up_to_append(a: Seq<u64>, b: Seq<u64>, i: int)
    ensures
        counted(a + b, i) == counted(a, i) + counted(b, i),
    decreases b.len(),
{
    if b.len() == 0 {
        assert(a + b =~= a);
    } else {
        let c = b.drop_last();
        lemma_up_to_append(a, c, i);
        assert((a + c).push(b.last()) =~= a + b);
        assert(c.push(b.last()) =~= b);
        lemma_up_to_push(a + c, b.last(), i);
        lemma_up_to_push(c, b.last(), i);
    }
}

proof fn lemma_counted_bounds(samples: Seq<u64>, k: int, i: int)
    requires
        0 <= k <= samples.len(),
    ensures
        0 <= up_to(samples, k, i) <= k,
        up_to(samples, k, i) <= up_to(samples, k, i + 1),
        i < 0 ==> up_to(samples, k, i) == 0,
    decreases k,
{
    if k > 0 {
        lemma_counted_bounds(samples, k - 1, i);
        lemma_slot(samples[k - 1] as int);
    }
}

proof fn lemma_append(a: Seq<u64>, b: Seq<u64>)
    ensures
        sum(a + b) == sum(a) + sum(b),
        lowest(a + b) == (if lowest(b) < lowest(a) {
            lowest(b)
        } else {
            lowest(a)
        }),
        highest(a + b) == (if highest(b) > highest(a) {
            highest(b)
        } else {
            highest(a)
        }),
    decreases b.len(),
{
    if b.len() == 0 {
        assert(a + b =~= a);
    } else {
        lemma_append(a, b.drop_last());
        assert((a + b).drop_last() =~= a + b.drop_last());
        assert((a + b).last() == b.last());
    }
}

proof fn lemma_push(a: Seq<u64>, v: u64)
    ensures
        sum(a.push(v)) == sum(a) + v,
        lowest(a.push(v)) == (if v < lowest(a) {
            v
        } else {
            lowest(a)
        }),
        highest(a.push(v)) == (if v > highest(a) {
            v
        } else {
            highest(a)
        }),
{
    assert(a.push(v).drop_last() =~= a);
}

proof fn lemma_sum_bound(a: Seq<u64>)
    ensures
        0 <= sum(a) <= a.len() * 0xffff_ffff_ffff_ffff,
    decreases a.len(),
{
    if a.len() > 0 {
        lemma_sum_bound(a.drop_last());
        assert(a.len() * 0xffff_ffff_ffff_ffff == (a.len() - 1) * 0xffff_ffff_ffff_ffff
            + 0xffff_ffff_ffff_ffff) by (nonlinear_arith);
    }
}

/// Whether every sample up to `i` counts once in `counts`.
spec fn counts_ok(counts: Seq<u64>, kept: Seq<u64>) -> bool {
    forall|i: int|
        0 <= i < counts.len() ==> (#[trigger] counts[i]) == counted(kept, i) - counted(
            kept,
            i - 1,
        )
}

impl View for Histogram {
    type V = Recorded;

    closed spec fn view(&self) -> Recorded {
        self.samples@
    }
}

impl Histogram {
    pub closed spec fn wf(self) -> bool {
        &&& 2048 <= self.range
        &&& self.counts@.len() == slots_for(self.range as int)
        &&& 0 < self.counts@.len() <= 54 * 1024
        &&& forall|v: int|
            0 <= v <= self.range && v < 0x8000_0000_0000_0000 ==> #[trigger] slot_of(v)
                < self.counts@.len()
        &&& counts_ok(self.counts@, self@.kept)
        &&& self@.count() <= u64::MAX
        &&& self.total == self@.count()
        &&& self.overflow == self@.over.len()
        &&& self.min == lowest(self@.kept)
        &&& self.max == self@.max()
        &&& self.sum == sum(self@.kept) + sum(self@.over)
        &&& forall|k: int|
            0 <= k < self@.kept.len() ==> slot_of(#[trigger] self@.kept[k] as int)
                < self.counts@.len()
    }

    /// The largest value that is measured.
    pub closed spec fn range(self) -> u64 {
        self.range
    }

    /// How many slots there are.
    pub closed spec fn slot_count(self) -> nat {
        self.counts@.len()
    }

    /// Every figure and every slot is the same.
    pub closed spec fn reads_like(self, other: Histogram) -> bool {
        &&& self.counts@ == other.counts@
        &&& self.range == other.range
        &&& self.total == other.total
        &&& self.overflow == other.overflow
        &&& self.min == other.min
        &&& self.max == other.max
        &&& self.sum == other.sum
    }

    /// Sized to measure values up to `highest`, at least 2048.
    pub fn new(highest: u64) -> (r: Self)
        ensures
            r.wf(),
            r@ == (Recorded { kept: Seq::empty(), over: Seq::empty() }),
            r.range() == (if highest < 2048 {
                2048
            } else {
                highest
            }),
            r.slot_count() == slots_for(r.range() as int),
    {
        let range: u64 = if highest < 2048 {
            2048
        } else {
            highest
        };
        let mut buckets: usize = 1;
        let mut untracked: u64 = 2048;
        let ghost mut q: int = range as int;
        proof {
            vstd::arithmetic::power2::lemma2_to64();
            assert(range as int / vstd::arithmetic::power2::pow2(0) as int == range);
        }
        while untracked <= range && untracked <= 0x7fff_ffff_ffff_ffff
            invariant
                1 <= buckets <= 53,
                2048 <= range,
                untracked == 2048 * vstd::arithmetic::power2::pow2((buckets - 1) as nat),
                untracked <= 0x8000_0000_0000_0000,
                q == range as int / vstd::arithmetic::power2::pow2((buckets - 1) as nat) as int,
                buckets_for(range as int) == buckets - 1 + buckets_for(q),
            decreases 54 - buckets,
        {
            proof {
                vstd::arithmetic::power2::lemma_pow2_unfold(buckets as nat);
                vstd::arithmetic::power2::lemma2_to64();
                if buckets >= 53 {
                    assert(vstd::arithmetic::power2::pow2(52) == 0x10000000000000) by {
                        vstd::arithmetic::power2::lemma2_to64_rest();
                    }
                    assert(buckets == 53);
                    assert(false);
                }
                lemma_doubling(untracked, (buckets - 1) as nat);
                let p = vstd::arithmetic::power2::pow2((buckets - 1) as nat) as int;
                vstd::arithmetic::power2::lemma_pow2_pos((buckets - 1) as nat);
                lemma_halved(range as int, p);
                q = q / 2;
            }
            untracked = untracked * 2;
            buckets = buckets + 1;
        }
        let len: usize = (buckets + 1) * 1024;
        proof {
            let p = vstd::arithmetic::power2::pow2((buckets - 1) as nat) as int;
            vstd::arithmetic::power2::lemma_pow2_pos((buckets - 1) as nat);
            lemma_halved(range as int, p);
            lemma_some_bucket(q / 2);
            if buckets < 53 {
                vstd::arithmetic::power2::lemma_pow2_strictly_increases((buckets - 1) as nat, 52);
                vstd::arithmetic::power2::lemma2_to64_rest();
            }
        }
        let mut counts: Vec<u64> = Vec::with_capacity(len);
        let mut i: usize = 0;
        while i < len
            invariant
                i <= len,
                counts@.len() == i,
                forall|k: int| 0 <= k < i ==> (#[trigger] counts@[k]) == 0,
            decreases len - i,
        {
            counts.push(0);
            i = i + 1;
        }
        let r = Histogram {
            counts,
            range,
            total: 0,
            overflow: 0,
            min: u64::MAX,
            max: 0,
            sum: 0,
            samples: Ghost(Recorded { kept: Seq::empty(), over: Seq::empty() }),
        };
        proof {
            assert forall|v: int|
                0 <= v <= range && v < 0x8000_0000_0000_0000 implies #[trigger] slot_of(v)
                < len by {
                lemma_slot_bound(v, untracked as int, buckets - 1);
            }
        }
        r
    }

    /// How far a value is shifted to find its slot.
    fn bucket_index(value: u64) -> (r: u32)
        ensures
            r <= 53,
            (r == 0 && value < 2048) || (1024 <= (value >> (r as u64)) < 2048),
    {
        proof {
            lemma_bucket(value);
        }
        53 - (value | 2047).leading_zeros()
    }

    /// The slot that a value is counted in.
    pub fn counts_index(value: u64) -> (r: usize)
        ensures
            r == slot_of(value as int),
    {
        let bucket: u32 = Self::bucket_index(value);
        let sub: u64 = value >> (bucket as u64);
        proof {
            lemma_shifted(value, bucket as u64);
            if bucket == 0 {
                assert(value >> 0u64 == value) by (bit_vector);
            }
        }
        (bucket as u64 * 1024 + sub) as usize
    }

    /// The largest value that lands in the same slot as `value`.
    pub fn highest_equivalent(value: u64) -> (r: u64)
        ensures
            r == high_of(slot_of(value as int)),
    {
        let bucket: u32 = Self::bucket_index(value);
        let unit: u64 = 1u64 << (bucket as u64);
        proof {
            lemma_shifted(value, bucket as u64);
            lemma_slot(value as int);
            lemma_aligned(value, bucket as u64);
        }
        (value / unit) * unit + (unit - 1)
    }

    /// The lowest value that lands in slot `i`.
    pub fn value_from_index(i: usize) -> (r: u64)
        requires
            i < 55 * 1024,
        ensures
            r == low_of(i as int),
    {
        let i: u64 = i as u64;
        if i < 2048 {
            return i;
        }
        let bucket: u64 = i / 1024 - 1;
        let sub: u64 = i % 1024 + 1024;
        proof {
            lemma_low_shift(i as int, bucket as int, sub);
        }
        sub << bucket
    }

    /// Records one sample.
    pub fn record(&mut self, value: u64)
        requires
            old(self).wf(),
            old(self)@.count() < u64::MAX,
            value < 0x8000_0000_0000_0000 || value > old(self).range(),
        ensures
            final(self).wf(),
            final(self).range() == old(self).range(),
            final(self).slot_count() == old(self).slot_count(),
            final(self)@ == old(self)@.recorded(old(self).range(), value),
    {
        proof {
            lemma_sum_bound(self@.kept);
            lemma_sum_bound(self@.over);
            lemma_push(self@.kept, value);
            lemma_push(self@.over, value);
            let a = self@.kept.len() as int;
            let b = self@.over.len() as int;
            assert(a * 0xffff_ffff_ffff_ffff + b * 0xffff_ffff_ffff_ffff + 0xffff_ffff_ffff_ffff
                <= u128::MAX) by (nonlinear_arith)
                requires
                    a + b < 0xffff_ffff_ffff_ffff,
            ;
        }
        if value > self.range {
            self.overflow = self.overflow + 1;
            self.total = self.total + 1;
            if value > self.max {
                self.max = value;
            }
            self.sum = self.sum + value as u128;
            self.samples = Ghost(Recorded { over: self@.over.push(value), ..self@ });
            return ;
        }
        let i: usize = Self::counts_index(value);
        let ghost c0 = self.counts@;
        let ghost kept = self@.kept;
        proof {
            assert(slot_of(value as int) < self.counts@.len());
            lemma_counted_bounds(kept, kept.len() as int, i as int);
            lemma_counted_bounds(kept, kept.len() as int, i - 1);
            assert(c0[i as int] == counted(kept, i as int) - counted(kept, i - 1));
        }
        let c: u64 = self.counts[i];
        self.counts.set(i, c + 1);
        self.total = self.total + 1;
        if value < self.min {
            self.min = value;
        }
        if value > self.max {
            self.max = value;
        }
        self.sum = self.sum + value as u128;
        self.samples = Ghost(Recorded { kept: kept.push(value), ..self@ });
        proof {
            assert forall|k: int| 0 <= k < self.counts@.len() implies (#[trigger] self.counts@[k])
                == counted(kept.push(value), k) - counted(kept.push(value), k - 1) by {
                lemma_up_to_push(kept, value, k);
                lemma_up_to_push(kept, value, k - 1);
                assert(c0[k] == counted(kept, k) - counted(kept, k - 1));
            }
            assert forall|k: int| 0 <= k < self@.kept.len() implies slot_of(
                #[trigger] self@.kept[k] as int,
            ) < self.counts@.len() by {
                if k < kept.len() {
                    assert(self@.kept[k] == kept[k]);
                }
            }
        }
    }

    /// How many samples were recorded.
    pub fn count(&self) -> (r: u64)
        requires
            self.wf(),
        ensures
            r == self@.count(),
    {
        self.total
    }

    pub fn is_empty(&self) -> (r: bool)
        requires
            self.wf(),
        ensures
            r == (self@.count() == 0),
    {
        self.total == 0
    }

    /// How many samples were beyond the range.
    pub fn overflowed(&self) -> (r: u64)
        requires
            self.wf(),
        ensures
            r == self@.over.len(),
    {
        self.overflow
    }

    /// The lowest sample within the range, zero where nothing was recorded.
    pub fn min(&self) -> (r: u64)
        requires
            self.wf(),
        ensures
            r == (if self@.count() == 0 {
                0
            } else {
                lowest(self@.kept)
            }),
    {
        if self.total == 0 {
            0
        } else {
            self.min
        }
    }

    /// The highest sample, within the range or beyond it.
    pub fn max(&self) -> (r: u64)
        requires
            self.wf(),
        ensures
            r == self@.max(),
    {
        self.max
    }

    /// The sum of all samples, from which the mean follows.
    pub fn total(&self) -> (r: u128)
        requires
            self.wf(),
        ensures
            r == sum(self@.kept) + sum(self@.over),
    {
        self.sum
    }

    pub fn slots(&self) -> (r: usize)
        ensures
            r == self.slot_count(),
    {
        self.counts.len()
    }

    /// The value at a rank, where rank one is the lowest sample: the highest value of
    /// the slot that the sample of that rank is in. A rank beyond the range is
    /// answered by the highest sample, and an empty histogram by zero.
    pub fn quantile_rank(&self, rank: u64) -> (r: u64)
        requires
            self.wf(),
            1 <= rank,
        ensures
            self@.count() == 0 ==> r == 0,
            rank > self@.kept.len() && self@.count() > 0 ==> r == self@.max(),
            rank <= self@.kept.len() ==> exists|i: int|
                0 <= i && #[trigger] self@.ranks_in(rank as int, i) && r == high_of(i),
    {
        if self.total == 0 {
            return 0;
        }
        let ghost kept = self@.kept;
        let mut seen: u64 = 0;
        let mut i: usize = 0;
        proof {
            lemma_counted_bounds(kept, kept.len() as int, -1);
        }
        while i < self.counts.len()
            invariant
                self.wf(),
                kept == self@.kept,
                1 <= rank,
                self.total > 0,
                i <= self.counts@.len(),
                seen == counted(kept, i - 1),
                seen < rank,
            decreases self.counts@.len() - i,
        {
            let c: u64 = self.counts[i];
            proof {
                lemma_counted_bounds(kept, kept.len() as int, i as int);
                assert(self.counts@[i as int] == counted(kept, i as int) - counted(kept, i - 1));
            }
            seen = seen + c;
            if seen >= rank {
                proof {
                    assert(self@.ranks_in(rank as int, i as int));
                    law_index_round_trips(i as int);
                    lemma_counted_bounds(kept, kept.len() as int, i as int);
                }
                return Self::highest_equivalent(Self::value_from_index(i));
            }
            i = i + 1;
        }
        proof {
            lemma_all_counted(kept, kept.len() as int, self.counts@.len() - 1);
        }
        self.max
    }

    /// Folds the samples of `other` into this one. Both have to have the same range.
    pub fn merge(&mut self, other: &Histogram)
        requires
            old(self).wf(),
            other.wf(),
            old(self).range() == other.range(),
            old(self)@.count() + other@.count() <= u64::MAX,
        ensures
            final(self).wf(),
            final(self).range() == old(self).range(),
            final(self).slot_count() == old(self).slot_count(),
            final(self)@ == old(self)@.merged(other@),
    {
        let ghost a = self@;
        let ghost b = other@;
        let ghost c0 = self.counts@;
        let n: usize = self.counts.len();
        let mut i: usize = 0;
        while i < n
            invariant
                old(self).wf(),
                other.wf(),
                a == old(self)@,
                b == other@,
                c0 == old(self).counts@,
                n == c0.len(),
                n == other.counts@.len(),
                n == self.counts@.len(),
                i <= n,
                a.count() + b.count() <= u64::MAX,
                *self == (Histogram { counts: self.counts, ..*old(self) }),
                forall|k: int|
                    0 <= k < i ==> (#[trigger] self.counts@[k]) == c0[k] + other.counts@[k],
                forall|k: int| i <= k < n ==> (#[trigger] self.counts@[k]) == c0[k],
            decreases n - i,
        {
            proof {
                lemma_counted_bounds(a.kept, a.kept.len() as int, i as int);
                lemma_counted_bounds(a.kept, a.kept.len() as int, i - 1);
                lemma_counted_bounds(b.kept, b.kept.len() as int, i as int);
                lemma_counted_bounds(b.kept, b.kept.len() as int, i - 1);
                assert(c0[i as int] == counted(a.kept, i as int) - counted(a.kept, i - 1));
                assert(other.counts@[i as int] == counted(b.kept, i as int) - counted(
                    b.kept,
                    i - 1,
                ));
            }
            let x: u64 = self.counts[i];
            let y: u64 = other.counts[i];
            self.counts.set(i, x + y);
            i = i + 1;
        }
        proof {
            lemma_sum_bound(a.kept);
            lemma_sum_bound(a.over);
            lemma_sum_bound(b.kept);
            lemma_sum_bound(b.over);
            let x = a.kept.len() as int;
            let y = a.over.len() as int;
            let z = b.kept.len() as int;
            let w = b.over.len() as int;
            assert(x * 0xffff_ffff_ffff_ffff + y * 0xffff_ffff_ffff_ffff + z * 0xffff_ffff_ffff_ffff
                + w * 0xffff_ffff_ffff_ffff <= u128::MAX) by (nonlinear_arith)
                requires
                    x + y + z + w <= 0xffff_ffff_ffff_ffff,
            ;
            lemma_append(a.kept, b.kept);
            lemma_append(a.over, b.over);
        }
        self.total = self.total + other.total;
        self.overflow = self.overflow + other.overflow;
        self.sum = self.sum + other.sum;
        if other.total > 0 {
            if other.min < self.min {
                self.min = other.min;
            }
            if other.max > self.max {
                self.max = other.max;
            }
        }
        self.samples = Ghost(Recorded { kept: a.kept + b.kept, over: a.over + b.over });
        proof {
            assert forall|k: int| 0 <= k < self.counts@.len() implies (#[trigger] self.counts@[k])
                == counted(a.kept + b.kept, k) - counted(a.kept + b.kept, k - 1) by {
                lemma_up_to_append(a.kept, b.kept, k);
                lemma_up_to_append(a.kept, b.kept, k - 1);
                assert(c0[k] == counted(a.kept, k) - counted(a.kept, k - 1));
                assert(other.counts@[k] == counted(b.kept, k) - counted(b.kept, k - 1));
            }
            assert forall|k: int| 0 <= k < self@.kept.len() implies slot_of(
                #[trigger] self@.kept[k] as int,
            ) < self.counts@.len() by {
                if k < a.kept.len() {
                    assert(self@.kept[k] == a.kept[k]);
                } else {
                    assert(self@.kept[k] == b.kept[k - a.kept.len()]);
                }
            }
            if other.total == 0 {
                assert(b.kept.len() == 0 && b.over.len() == 0);
            }
        }
    }

    /// Empties it, keeping its slots.
    pub fn clear(&mut self)
        requires
            old(self).wf(),
        ensures
            final(self).wf(),
            final(self)@ == Recorded::nothing(),
            final(self).range() == old(self).range(),
            final(self).slot_count() == old(self).slot_count(),
    {
        let n: usize = self.counts.len();
        let mut i: usize = 0;
        while i < n
            invariant
                old(self).wf(),
                n == self.counts@.len(),
                n == old(self).counts@.len(),
                i <= n,
                self.range == old(self).range,
                forall|k: int| 0 <= k < i ==> (#[trigger] self.counts@[k]) == 0,
            decreases n - i,
        {
            self.counts.set(i, 0);
            i = i + 1;
        }
        self.total = 0;
        self.overflow = 0;
        self.min = u64::MAX;
        self.max = 0;
        self.sum = 0;
        self.samples = Ghost(Recorded { kept: Seq::empty(), over: Seq::empty() });
    }

    /// The figures of a report, one per line, each named after what was measured.
    /// `median`, `p90`, `p99` and `p999` are the values at those ranks, and `mean`
    /// the mean as it is to be shown.
    pub fn to_fields(
        &self,
        prefix: &str,
        median: u64,
        p90: u64,
        p99: u64,
        p999: u64,
        mean: &str,
    ) -> (r: String)
        requires
            self.wf(),
        ensures
            r@ == field(prefix@, "_count="@, self@.count()).push('\n') + field(
                prefix@,
                "_min="@,
                if self@.count() == 0 {
                    0
                } else {
                    lowest(self@.kept) as int
                },
            ).push('\n') + field(prefix@, "_median="@, median as int).push('\n') + field(
                prefix@,
                "_p90="@,
                p90 as int,
            ).push('\n') + field(prefix@, "_p99="@, p99 as int).push('\n') + field(
                prefix@,
                "_p999="@,
                p999 as int,
            ).push('\n') + field(prefix@, "_max="@, self@.max() as int).push('\n') + (prefix@
                + "_mean="@ + mean@).push('\n') + field(
                prefix@,
                "_overflow="@,
                self@.over.len() as int,
            ),
            gives(r@, prefix@ + "_count"@, decimal(self@.count() as int)),
            gives(
                r@,
                prefix@ + "_min"@,
                decimal(
                    if self@.count() == 0 {
                        0
                    } else {
                        lowest(self@.kept) as int
                    },
                ),
            ),
            gives(r@, prefix@ + "_median"@, decimal(median as int)),
            gives(r@, prefix@ + "_p90"@, decimal(p90 as int)),
            gives(r@, prefix@ + "_p99"@, decimal(p99 as int)),
            gives(r@, prefix@ + "_p999"@, decimal(p999 as int)),
            gives(r@, prefix@ + "_max"@, decimal(self@.max() as int)),
            gives(r@, prefix@ + "_mean"@, mean@),
            gives(r@, prefix@ + "_overflow"@, decimal(self@.over.len() as int)),
    {
        let mut s = String::new();
        push_field(&mut s, prefix, "_count=", self.total);
        s.push('\n');
        push_field(&mut s, prefix, "_min=", self.min());
        s.push('\n');
        push_field(&mut s, prefix, "_median=", median);
        s.push('\n');
        push_field(&mut s, prefix, "_p90=", p90);
        s.push('\n');
        push_field(&mut s, prefix, "_p99=", p99);
        s.push('\n');
        push_field(&mut s, prefix, "_p999=", p999);
        s.push('\n');
        push_field(&mut s, prefix, "_max=", self.max);
        s.push('\n');
        s.append(prefix);
        s.append("_mean=");
        s.append(mean);
        s.push('\n');
        push_field(&mut s, prefix, "_overflow=", self.overflow);
        proof {
            let e = Seq::<char>::empty();
            let a = field(prefix@, "_count="@, self@.count()).push('\n');
            assert(s@ =~= a + field(
                prefix@,
                "_min="@,
                if self@.count() == 0 {
                    0
                } else {
                    lowest(self@.kept) as int
                },
            ).push('\n') + field(prefix@, "_median="@, median as int).push('\n') + field(
                prefix@,
                "_p90="@,
                p90 as int,
            ).push('\n') + field(prefix@, "_p99="@, p99 as int).push('\n') + field(
                prefix@,
                "_p999="@,
                p999 as int,
            ).push('\n') + field(prefix@, "_max="@, self@.max() as int).push('\n') + (prefix@
                + "_mean="@ + mean@).push('\n') + field(
                prefix@,
                "_overflow="@,
                self@.over.len() as int,
            ));
            let least: int = if self@.count() == 0 {
                0
            } else {
                lowest(self@.kept) as int
            };
            lemma_figures_are_given(
                s@,
                prefix@,
                decimal(self@.count() as int),
                decimal(least as int),
                decimal(median as int),
                decimal(p90 as int),
                decimal(p99 as int),
                decimal(p999 as int),
                decimal(self@.max() as int),
                mean@,
                decimal(self@.over.len() as int),
            );
        }
        s
    }
}

impl Default for Histogram {
    fn default() -> (r: Self)
        ensures
            r.wf(),
            r@ == (Recorded { kept: Seq::empty(), over: Seq::empty() }),
            r.range() == DEFAULT_HIGHEST_NANOS,
    {
        Histogram::new(DEFAULT_HIGHEST_NANOS)
    }
}

/// One figure: the prefix, the name, the number.
pub open spec fn field(prefix: Seq<char>, name: Seq<char>, n: int) -> Seq<char> {
    prefix + name + decimal(n)
}

fn push_field(s: &mut String, prefix: &str, name: &str, n: u64)
    ensures
        final(s)@ == old(s)@ + field(prefix@, name@, n as int),
{
    s.append(prefix);
    s.append(name);
    push_decimal(s, n);
    assert(s@ =~= old(s)@ + field(prefix@, name@, n as int));
}

proof fn lemma_doubling(u: u64, k: nat)
    requires
        u == 2048 * vstd::arithmetic::power2::pow2(k),
        u <= 0x7fff_ffff_ffff_ffff,
    ensures
        2 * u <= 0x8000_0000_0000_0000,
{
    vstd::arithmetic::power2::lemma2_to64();
    vstd::arithmetic::power2::lemma2_to64_rest();
    if k >= 52 {
        if k > 52 {
            vstd::arithmetic::power2::lemma_pow2_strictly_increases(52, k);
        }
    } else if k < 51 {
        vstd::arithmetic::power2::lemma_pow2_strictly_increases(k, 51);
    }
}

proof fn lemma_aligned(v: u64, b: u64)
    requires
        b <= 53,
    ensures
        ({
            let u = 1u64 << b;
            &&& 0 < u
            &&& (v / u) * u + (u - 1) <= u64::MAX
            &&& (v / u) * u <= u64::MAX
        }),
{
    let u = 1u64 << b;
    assert(0 < u && u <= 0x20_0000_0000_0000) by (bit_vector)
        requires
            u == 1u64 << b,
            b <= 53,
    ;
    vstd::arithmetic::div_mod::lemma_fundamental_div_mod(v as int, u as int);
    let q = v as int / u as int;
    assert(q * u == u * q) by (nonlinear_arith);
    assert(0xffff_ffff_ffff_ffffu64 % u == u - 1) by (bit_vector)
        requires
            u == 1u64 << b,
            b <= 53,
    ;
    vstd::arithmetic::div_mod::lemma_fundamental_div_mod(0xffff_ffff_ffff_ffff, u as int);
    let t = 0xffff_ffff_ffff_ffffint / u as int;
    vstd::arithmetic::div_mod::lemma_div_is_ordered(v as int, 0xffff_ffff_ffff_ffff, u as int);
    assert(q * u <= t * u) by (nonlinear_arith)
        requires
            q <= t,
            u > 0,
    ;
    assert(t * u == u * t) by (nonlinear_arith);
}

proof fn lemma_low_shift(i: int, b: int, sub: u64)
    requires
        2048 <= i < 55 * 1024,
        b == i / 1024 - 1,
        sub == i % 1024 + 1024,
    ensures
        low_of(i) == sub << (b as u64),
    decreases i,
{
    let c = b as u64;
    assert(1 <= c <= 53);
    if i - 1024 < 2048 {
        assert(c == 1);
        assert(sub << 1u64 == 2 * sub) by (bit_vector)
            requires
                sub < 2048,
        ;
        assert(low_of(i - 1024) == i - 1024);
    } else {
        lemma_low_shift(i - 1024, b - 1, sub);
        assert(sub << c == 2 * (sub << ((c - 1) as u64))) by (bit_vector)
            requires
                sub < 2048,
                2 <= c <= 53,
        ;
    }
}

/// The order of the samples makes no difference to any figure of them.
proof fn lemma_reordered(a: Seq<u64>, b: Seq<u64>)
    requires
        a.to_multiset() == b.to_multiset(),
    ensures
        a.len() == b.len(),
        sum(a) == sum(b),
        lowest(a) == lowest(b),
        highest(a) == highest(b),
        forall|i: int| #[trigger] counted(a, i) == counted(b, i),
    decreases a.len(),
{
    a.to_multiset_ensures();
    b.to_multiset_ensures();
    if a.len() == 0 {
        assert(b =~= a);
    } else {
        let v = a.last();
        let c = a.drop_last();
        assert(c.push(v) =~= a);
        c.to_multiset_ensures();
        assert(a.contains(v)) by {
            assert(a[a.len() - 1] == v);
        }
        assert(a.to_multiset().count(v) > 0);
        assert(b.to_multiset().count(v) > 0);
        let j = choose|j: int| 0 <= j < b.len() && b[j] == v;
        let x = b.take(j);
        let y = b.skip(j + 1);
        assert(b.remove(j) =~= x + y);
        assert(b =~= x.push(v) + y);
        assert(b.remove(j).to_multiset() =~= c.to_multiset());
        lemma_reordered(c, x + y);
        lemma_push(c, v);
        lemma_push(x, v);
        lemma_append(x.push(v), y);
        lemma_append(x, y);
        assert forall|i: int| #[trigger] counted(a, i) == counted(b, i) by {
            lemma_up_to_push(c, v, i);
            lemma_up_to_push(x, v, i);
            lemma_up_to_append(x.push(v), y, i);
            lemma_up_to_append(x, y, i);
            assert(counted(c, i) == counted(x + y, i));
        }
    }
}

/// How often a value is kept, or is beyond the range.
proof fn lemma_recorded_counts(range: u64, values: Seq<u64>, v: u64)
    ensures
        ({
            let r = Recorded::nothing().recorded_all(range, values);
            let n = values.to_multiset().count(v);
            &&& r.kept.to_multiset().count(v) == (if v <= range {
                n
            } else {
                0
            })
            &&& r.over.to_multiset().count(v) == (if v <= range {
                0
            } else {
                n
            })
        }),
    decreases values.len(),
{
    let none = Seq::<u64>::empty();
    if values.len() == 0 {
        none.to_multiset_ensures();
        assert(!none.contains(v));
        assert(values =~= none);
    } else {
        let c = values.drop_last();
        let w = values.last();
        let r = Recorded::nothing().recorded_all(range, c);
        lemma_recorded_counts(range, c, v);
        assert(c.push(w) =~= values);
        c.to_multiset_ensures();
        r.kept.to_multiset_ensures();
        r.over.to_multiset_ensures();
        assert(values.to_multiset() == c.to_multiset().insert(w));
        if w > range {
            assert(r.over.push(w).to_multiset() == r.over.to_multiset().insert(w));
        } else {
            assert(r.kept.push(w).to_multiset() == r.kept.to_multiset().insert(w));
        }
    }
}

/// Merging two histograms comes to the same as recording all their samples into one, in
/// whatever order they are recorded.
pub proof fn law_merging_is_recording(range: u64, a: Seq<u64>, b: Seq<u64>, all: Seq<u64>)
    requires
        all.to_multiset() == a.to_multiset().add(b.to_multiset()),
    ensures
        Recorded::nothing().recorded_all(range, a).merged(
            Recorded::nothing().recorded_all(range, b),
        ).same_samples(Recorded::nothing().recorded_all(range, all)),
{
    let x = Recorded::nothing().recorded_all(range, a);
    let y = Recorded::nothing().recorded_all(range, b);
    let m = x.merged(y);
    let n = Recorded::nothing().recorded_all(range, all);
    vstd::seq_lib::lemma_multiset_commutative(x.kept, y.kept);
    vstd::seq_lib::lemma_multiset_commutative(x.over, y.over);
    assert forall|v: u64| m.kept.to_multiset().count(v) == n.kept.to_multiset().count(v)
        && m.over.to_multiset().count(v) == n.over.to_multiset().count(v) by {
        lemma_recorded_counts(range, a, v);
        lemma_recorded_counts(range, b, v);
        lemma_recorded_counts(range, all, v);
    }
    assert(m.kept.to_multiset() =~= n.kept.to_multiset());
    assert(m.over.to_multiset() =~= n.over.to_multiset());
}

/// Two histograms of one range that hold the same samples, recorded in whatever order, read
/// alike in everything.
pub proof fn law_same_samples_read_alike(a: Histogram, b: Histogram)
    requires
        a.wf(),
        b.wf(),
        a.range() == b.range(),
        a@.same_samples(b@),
    ensures
        a.reads_like(b),
{
    lemma_reordered(a@.kept, b@.kept);
    lemma_reordered(a@.over, b@.over);
    assert forall|i: int| 0 <= i < a.counts@.len() implies a.counts@[i] == b.counts@[i] by {
        assert(a.counts@[i] == counted(a@.kept, i) - counted(a@.kept, i - 1));
        assert(b.counts@[i] == counted(b@.kept, i) - counted(b@.kept, i - 1));
        assert(counted(a@.kept, i) == counted(b@.kept, i));
        assert(counted(a@.kept, i - 1) == counted(b@.kept, i - 1));
    }
    assert(a.counts@ =~= b.counts@);
}

/// A histogram that was cleared reads like a fresh one of its range.
pub proof fn law_cleared_reads_like_fresh(cleared: Histogram, fresh: Histogram)
    requires
        cleared.wf(),
        fresh.wf(),
        cleared.range() == fresh.range(),
        cleared@ == Recorded::nothing(),
        fresh@ == Recorded::nothing(),
    ensures
        cleared.reads_like(fresh),
{
    law_same_samples_read_alike(cleared, fresh);
}

/// At most one slot holds the sample of a rank, so what is read for a rank is one value.
pub proof fn law_rank_names_one_slot(m: Recorded, rank: int, i: int, j: int)
    requires
        m.ranks_in(rank, i),
        m.ranks_in(rank, j),
    ensures
        i == j,
{
    if i < j {
        lemma_counted_monotone(m.kept, i, j - 1);
    }
    if j < i {
        lemma_counted_monotone(m.kept, j, i - 1);
    }
}

/// When every sample is within the slots, all are counted.
proof fn lemma_all_counted(samples: Seq<u64>, k: int, i: int)
    requires
        0 <= k <= samples.len(),
        forall|j: int| 0 <= j < samples.len() ==> slot_of(#[trigger] samples[j] as int) <= i,
    ensures
        up_to(samples, k, i) == k,
    decreases k,
{
    if k > 0 {
        lemma_all_counted(samples, k - 1, i);
        assert(slot_of(samples[k - 1] as int) <= i);
    }
}

/// How many of the first `k` samples are at most `x`.
pub open spec fn at_most(samples: Seq<u64>, k: int, x: int) -> int
    decreases k,
{
    if k <= 0 {
        0
    } else if samples[k - 1] <= x {
        at_most(samples, k - 1, x) + 1
    } else {
        at_most(samples, k - 1, x)
    }
}

proof fn lemma_at_most(samples: Seq<u64>, k: int, x: int)
    requires
        0 <= k <= samples.len(),
        0 <= x,
    ensures
        at_most(samples, k, x) <= up_to(samples, k, slot_of(x)),
        up_to(samples, k, slot_of(x) - 1) <= at_most(samples, k, x - 1),
    decreases k,
{
    if k > 0 {
        lemma_at_most(samples, k - 1, x);
        let v = samples[k - 1] as int;
        if v <= x {
            law_slots_are_in_order(v, x);
        } else {
            law_slots_are_in_order(x, v);
        }
        if v >= x {
            law_slots_are_in_order(x, v);
        }
    }
}

proof fn lemma_counted_monotone(samples: Seq<u64>, i: int, j: int)
    requires
        i <= j,
    ensures
        counted(samples, i) <= counted(samples, j),
    decreases j - i,
{
    if i < j {
        lemma_counted_monotone(samples, i, j - 1);
        lemma_counted_bounds(samples, samples.len() as int, j - 1);
    }
}

/// What is read at a rank is not below the sample of that rank, and above it by
/// no more than a thousand-and-twenty-fourth of it.
///
/// The sample of a rank is the `x` with fewer than `rank` samples below it and at
/// least `rank` samples at or below it.
pub proof fn law_quantile_is_conservative(m: Recorded, rank: int, i: int, x: int)
    requires
        0 <= x,
        at_most(m.kept, m.kept.len() as int, x - 1) < rank <= at_most(
            m.kept,
            m.kept.len() as int,
            x,
        ),
        m.ranks_in(rank, i),
    ensures
        i == slot_of(x),
        x <= high_of(i) <= x + x / 1024,
{
    let n = m.kept.len() as int;
    lemma_at_most(m.kept, n, x);
    let s = slot_of(x);
    if i < s {
        lemma_counted_monotone(m.kept, i, s - 1);
    }
    if s < i {
        lemma_counted_monotone(m.kept, s, i - 1);
    }
    law_relative_error_is_bounded(x);
}

/// The lowest and the highest of some samples are among them, and no sample lies beyond
/// them.
pub proof fn law_extremes_are_samples(samples: Seq<u64>)
    ensures
        forall|i: int|
            0 <= i < samples.len() ==> lowest(samples) <= (#[trigger] samples[i]) <= highest(
                samples,
            ),
        samples.len() > 0 ==> samples.contains(highest(samples)),
        samples.len() > 0 ==> samples.contains(lowest(samples)),
        samples.len() == 0 ==> highest(samples) == 0 && lowest(samples) == u64::MAX,
    decreases samples.len(),
{
    if samples.len() > 0 {
        let rest = samples.drop_last();
        law_extremes_are_samples(rest);
        assert(samples[samples.len() - 1] == samples.last());
        assert forall|i: int| 0 <= i < samples.len() implies lowest(samples) <= (
        #[trigger] samples[i]) <= highest(samples) by {
            if i < rest.len() {
                assert(rest[i] == samples[i]);
            }
        }
        if rest.len() > 0 {
            let h = choose|h: int| 0 <= h < rest.len() && rest[h] == highest(rest);
            let l = choose|l: int| 0 <= l < rest.len() && rest[l] == lowest(rest);
            assert(samples[h] == highest(rest));
            assert(samples[l] == lowest(rest));
        }
    }
}

/// The largest sample counts among the largest whether it is measured or only counted, and
/// so does every sample in the number of them.
pub proof fn law_every_sample_counts(m: Recorded, range: u64, value: u64)
    ensures
        m.recorded(range, value).count() == m.count() + 1,
        m.recorded(range, value).max() == (if value > m.max() {
            value
        } else {
            m.max()
        }),
        sum(m.recorded(range, value).kept) + sum(m.recorded(range, value).over) == sum(m.kept)
            + sum(m.over) + value,
        m.recorded(range, value).over.len() == m.over.len() + (if value > range {
            1int
        } else {
            0
        }),
{
    assert(m.kept.push(value).drop_last() =~= m.kept);
    assert(m.over.push(value).drop_last() =~= m.over);
}

} // verus!
