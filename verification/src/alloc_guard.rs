//! Counting what a scope asks of the allocator.

use crate::text::{decimal, push_decimal};
use vstd::prelude::*;
use vstd::string::StringExecFns;
use vstd::wrapping::u64_specs::wrapping_add;

verus! {

/// What a thread has asked for so far, or between two moments. The counts wrap.
#[derive(Debug, Clone, Copy, PartialEq, Eq, Structural)]
pub struct AllocCounts {
    pub allocations: u64,
    pub deallocations: u64,
    pub reallocations: u64,
    pub bytes: u64,
}

/// The difference, or nothing where it would be negative.
pub open spec fn apart(earlier: u64, later: u64) -> u64 {
    if later > earlier {
        (later - earlier) as u64
    } else {
        0
    }
}

fn difference(earlier: u64, later: u64) -> (r: u64)
    ensures
        r == apart(earlier, later),
{
    if later > earlier {
        later - earlier
    } else {
        0
    }
}

impl Default for AllocCounts {
    fn default() -> (r: Self)
        ensures
            r == (AllocCounts { allocations: 0, deallocations: 0, reallocations: 0, bytes: 0 }),
    {
        AllocCounts { allocations: 0, deallocations: 0, reallocations: 0, bytes: 0 }
    }
}

impl AllocCounts {
    /// What was asked for between two moments.
    pub open spec fn since(self, later: AllocCounts) -> AllocCounts {
        AllocCounts {
            allocations: apart(self.allocations, later.allocations),
            deallocations: apart(self.deallocations, later.deallocations),
            reallocations: apart(self.reallocations, later.reallocations),
            bytes: apart(self.bytes, later.bytes),
        }
    }

    /// What was asked for from this moment to a later one.
    pub fn delta(self, later: Self) -> (r: Self)
        ensures
            r == self.since(later),
    {
        AllocCounts {
            allocations: difference(self.allocations, later.allocations),
            deallocations: difference(self.deallocations, later.deallocations),
            reallocations: difference(self.reallocations, later.reallocations),
            bytes: difference(self.bytes, later.bytes),
        }
    }

    /// Nothing was asked for.
    pub fn is_clean(&self) -> (r: bool)
        ensures
            r == (self.allocations == 0 && self.deallocations == 0 && self.reallocations == 0),
    {
        self.allocations == 0 && self.deallocations == 0 && self.reallocations == 0
    }

    /// Counts an allocation, zeroed or not.
    pub fn on_alloc(self, size: usize) -> (r: Self)
        ensures
            r == (AllocCounts {
                allocations: wrapping_add(self.allocations, 1),
                bytes: wrapping_add(self.bytes, size as u64),
                ..self
            }),
    {
        AllocCounts {
            allocations: self.allocations.wrapping_add(1),
            bytes: self.bytes.wrapping_add(size as u64),
            ..self
        }
    }

    pub fn on_dealloc(self) -> (r: Self)
        ensures
            r == (AllocCounts { deallocations: wrapping_add(self.deallocations, 1), ..self }),
    {
        AllocCounts { deallocations: self.deallocations.wrapping_add(1), ..self }
    }

    /// Counts a reallocation. Only what it grows by counts as bytes.
    pub fn on_realloc(self, size: usize, new_size: usize) -> (r: Self)
        ensures
            r == (AllocCounts {
                reallocations: wrapping_add(self.reallocations, 1),
                bytes: if new_size > size {
                    wrapping_add(self.bytes, (new_size - size) as u64)
                } else {
                    self.bytes
                },
                ..self
            }),
    {
        let bytes: u64 = if new_size > size {
            self.bytes.wrapping_add((new_size - size) as u64)
        } else {
            self.bytes
        };
        AllocCounts { reallocations: self.reallocations.wrapping_add(1), bytes, ..self }
    }

    pub fn describe(&self) -> (r: String)
        ensures
            r@ == decimal(self.allocations as int) + " allocations, "@ + decimal(
                self.deallocations as int,
            ) + " deallocations, "@ + decimal(self.reallocations as int) + " reallocations, "@
                + decimal(self.bytes as int) + " bytes"@,
    {
        let mut s: String = String::new();
        push_decimal(&mut s, self.allocations);
        assert(s@ =~= decimal(self.allocations as int));
        s.append(" allocations, ");
        push_decimal(&mut s, self.deallocations);
        s.append(" deallocations, ");
        push_decimal(&mut s, self.reallocations);
        s.append(" reallocations, ");
        push_decimal(&mut s, self.bytes);
        s.append(" bytes");
        s
    }
}

/// A scope whose allocations are counted.
#[derive(Debug)]
pub struct AllocGuard {
    at_start: AllocCounts,
}

impl AllocGuard {
    pub closed spec fn began(self) -> AllocCounts {
        self.at_start
    }

    /// Begins a scope, at these counts.
    pub fn start(now: AllocCounts) -> (r: Self)
        ensures
            r.began() == now,
    {
        AllocGuard { at_start: now }
    }

    /// Ends the scope, at these counts.
    pub fn finish(self, now: AllocCounts) -> (r: AllocCounts)
        ensures
            r == self.began().since(now),
    {
        self.at_start.delta(now)
    }

    /// What the scope has asked for so far.
    pub fn sample(&self, now: AllocCounts) -> (r: AllocCounts)
        ensures
            r == self.began().since(now),
    {
        self.at_start.delta(now)
    }
}

/// A scope is not clean once it has allocated, whatever the counts were at its
/// start, unless a count wrapped.
pub proof fn law_an_allocation_is_seen(start: AllocCounts, size: usize)
    requires
        start.allocations < u64::MAX,
    ensures
        start.since(
            AllocCounts {
                allocations: wrapping_add(start.allocations, 1),
                bytes: wrapping_add(start.bytes, size as u64),
                ..start
            },
        ).allocations == 1,
{
}

/// Scopes that follow one another come to the scope over both.
pub proof fn law_deltas_compose(a: AllocCounts, b: AllocCounts, c: AllocCounts)
    requires
        a.allocations <= b.allocations <= c.allocations,
        a.deallocations <= b.deallocations <= c.deallocations,
        a.reallocations <= b.reallocations <= c.reallocations,
        a.bytes <= b.bytes <= c.bytes,
    ensures
        a.since(c).allocations == a.since(b).allocations + b.since(c).allocations,
        a.since(c).deallocations == a.since(b).deallocations + b.since(c).deallocations,
        a.since(c).reallocations == a.since(b).reallocations + b.since(c).reallocations,
        a.since(c).bytes == a.since(b).bytes + b.since(c).bytes,
{
}

} // verus!
