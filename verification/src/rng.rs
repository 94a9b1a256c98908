//! A small deterministic source of numbers: the same seed gives the same stream
//! everywhere.

use vstd::prelude::*;
use vstd::wrapping::u64_specs::{wrapping_add, wrapping_mul};

verus! {

/// The state after one draw.
pub open spec fn stepped(state: u64) -> u64 {
    wrapping_add(state, 0x9E37_79B9_7F4A_7C15)
}

/// What a state gives, by SplitMix64's two rounds of mixing.
pub open spec fn mixed(state: u64) -> u64 {
    let a = wrapping_mul(state ^ (state >> 30), 0xBF58_476D_1CE4_E5B9);
    let b = wrapping_mul(a ^ (a >> 27), 0x94D0_49BB_1331_11EB);
    b ^ (b >> 31)
}

/// The number drawn from a state.
pub open spec fn drawn(state: u64) -> u64 {
    mixed(stepped(state))
}

/// The state after this many draws.
pub open spec fn after(state: u64, draws: nat) -> u64
    decreases draws,
{
    if draws == 0 {
        state
    } else {
        stepped(after(state, (draws - 1) as nat))
    }
}

/// The stream that a seed gives.
pub open spec fn stream(seed: u64, n: nat) -> Seq<u64> {
    Seq::new(n, |i: int| drawn(after(seed, i as nat)))
}

/// How likely an event is.
#[derive(Debug, Clone, Copy, PartialEq, Eq, Structural)]
pub enum Chance {
    Never,
    Always,
    /// This many times in `2^53`.
    Of(u64),
}

pub open spec fn below_value(state: u64, n: u64) -> u64 {
    if n == 0 {
        0
    } else {
        drawn(state) % n
    }
}

pub open spec fn below_state(state: u64, n: u64) -> u64 {
    if n == 0 {
        state
    } else {
        stepped(state)
    }
}

pub open spec fn range_value(state: u64, lo: u64, hi: u64) -> u64 {
    if hi <= lo {
        lo
    } else if hi - lo == u64::MAX {
        drawn(state)
    } else {
        (lo + drawn(state) % ((hi - lo + 1) as u64)) as u64
    }
}

pub open spec fn range_state(state: u64, lo: u64, hi: u64) -> u64 {
    if hi <= lo {
        state
    } else {
        stepped(state)
    }
}

/// Whether the event comes about, from the top 53 bits of a draw.
pub open spec fn chance_value(state: u64, p: Chance) -> bool {
    match p {
        Chance::Never => false,
        Chance::Always => true,
        Chance::Of(n) => (drawn(state) >> 11) < n,
    }
}

pub open spec fn chance_state(state: u64, p: Chance) -> u64 {
    match p {
        Chance::Of(_) => stepped(state),
        _ => state,
    }
}

#[derive(Debug, Clone)]
pub struct Rng {
    state: u64,
}

impl View for Rng {
    type V = u64;

    closed spec fn view(&self) -> u64 {
        self.state
    }
}

impl Rng {
    pub fn new(seed: u64) -> (r: Self)
        ensures
            r@ == seed,
    {
        Rng { state: seed }
    }

    pub fn next_u64(&mut self) -> (r: u64)
        ensures
            r == drawn(old(self)@),
            final(self)@ == stepped(old(self)@),
    {
        self.state = self.state.wrapping_add(0x9E37_79B9_7F4A_7C15);
        let z: u64 = self.state;
        let a: u64 = (z ^ (z >> 30)).wrapping_mul(0xBF58_476D_1CE4_E5B9);
        let b: u64 = (a ^ (a >> 27)).wrapping_mul(0x94D0_49BB_1331_11EB);
        b ^ (b >> 31)
    }

    /// A number in `0..n`; 0, with nothing drawn, where `n` is 0.
    pub fn below(&mut self, n: u64) -> (r: u64)
        ensures
            r == below_value(old(self)@, n),
            final(self)@ == below_state(old(self)@, n),
            n > 0 ==> r < n,
    {
        if n == 0 {
            return 0;
        }
        self.next_u64() % n
    }

    /// A number in `lo..=hi`; `lo`, with nothing drawn, where `hi` is not above it.
    pub fn range_inclusive(&mut self, lo: u64, hi: u64) -> (r: u64)
        ensures
            r == range_value(old(self)@, lo, hi),
            final(self)@ == range_state(old(self)@, lo, hi),
            lo <= hi ==> lo <= r <= hi,
            hi < lo ==> r == lo,
    {
        if hi <= lo {
            return lo;
        }
        if hi - lo == u64::MAX {
            return self.next_u64();
        }
        lo + self.below(hi - lo + 1)
    }

    /// Whether an event of this chance comes about. Nothing is drawn for what is
    /// certain either way.
    pub fn chance(&mut self, p: Chance) -> (r: bool)
        ensures
            r == chance_value(old(self)@, p),
            final(self)@ == chance_state(old(self)@, p),
    {
        match p {
            Chance::Never => false,
            Chance::Always => true,
            Chance::Of(n) => (self.next_u64() >> 11) < n,
        }
    }
}

/// The same seed gives the same stream: what is drawn first is drawn from the seed,
/// and what follows is the stream of the state after it.
pub proof fn law_stream_unfolds(seed: u64, n: nat)
    ensures
        stream(seed, n + 1) == seq![drawn(seed)] + stream(stepped(seed), n),
{
    assert forall|i: nat| #[trigger] after(stepped(seed), i) == after(seed, i + 1) by {
        lemma_after(seed, i);
    }
    let a = stream(seed, n + 1);
    let b = seq![drawn(seed)] + stream(stepped(seed), n);
    assert forall|i: int| 0 <= i < n + 1 implies a[i] == b[i] by {
        if i > 0 {
            assert(after(stepped(seed), (i - 1) as nat) == after(seed, ((i - 1) as nat) + 1));
        } else {
            assert(after(seed, 0) == seed);
        }
    }
    assert(a =~= b);
}

proof fn lemma_after(seed: u64, i: nat)
    ensures
        after(stepped(seed), i) == after(seed, i + 1),
    decreases i,
{
    if i > 0 {
        lemma_after(seed, (i - 1) as nat);
    } else {
        assert(after(seed, 0) == seed);
        assert(after(seed, 1) == stepped(after(seed, 0)));
        assert(after(stepped(seed), 0) == stepped(seed));
    }
}

/// An event of `n` in 2^53 comes about exactly if the top 53 bits of the draw are below `n`;
/// a number below `n`, or within a range, is the draw reduced to it; and only what has to be
/// drawn is drawn.
pub proof fn law_draws_are_reduced(state: u64, n: u64, lo: u64, hi: u64)
    ensures
        chance_value(state, Chance::Of(n)) <==> drawn(state) / 2048 < n,
        !chance_value(state, Chance::Never),
        chance_value(state, Chance::Always),
        chance_state(state, Chance::Never) == state,
        chance_state(state, Chance::Always) == state,
        chance_state(state, Chance::Of(n)) == stepped(state),
        n > 0 ==> below_value(state, n) < n && below_value(state, n) == drawn(state) % n,
        below_state(state, n) == (if n == 0 {
            state
        } else {
            stepped(state)
        }),
        lo <= hi ==> lo <= range_value(state, lo, hi) <= hi,
        lo < hi && hi - lo < u64::MAX ==> (range_value(state, lo, hi) - lo) == drawn(state) as int
            % (hi - lo + 1),
        range_state(state, lo, hi) == (if lo < hi {
            stepped(state)
        } else {
            state
        }),
{
    let d = drawn(state);
    assert(d >> 11 == d / 2048) by (bit_vector);
}

/// A draw moves the state on by one fixed step, so that two states never come together.
pub proof fn law_states_stay_apart(a: u64, b: u64)
    requires
        a != b,
    ensures
        stepped(a) != stepped(b),
        stepped(a) as int == (a as int + 0x9e37_79b9_7f4a_7c15) % 0x1_0000_0000_0000_0000,
{
}

} // verus!
