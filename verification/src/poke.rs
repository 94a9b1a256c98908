//! The orders that one process puts on a ring and another checks: each is known from
//! its number alone.

use crate::message::Side;
use vstd::prelude::*;

verus! {

/// What a new order on the ring says.
#[derive(Debug, Clone, Copy, PartialEq, Eq, Structural)]
pub struct Expected {
    pub client_order_id: u64,
    pub price: i64,
    pub quantity: u32,
    pub side: Side,
}

/// The order of a number. Its price changes sign from one to the next.
pub open spec fn order_of(i: u64) -> Expected {
    Expected {
        client_order_id: (0x1122_3344_0000_0000 + i) as u64,
        price: if i % 2 == 0 {
            (1_000_000 + i) as i64
        } else {
            (-(1_000_000 + i)) as i64
        },
        quantity: (100 + i % 900) as u32,
        side: if i % 3 == 0 {
            Side::Ask
        } else {
            Side::Bid
        },
    }
}

pub fn expected(i: u64) -> (r: Expected)
    requires
        1_000_000 + i <= i64::MAX,
    ensures
        r == order_of(i),
{
    let distance: i64 = 1_000_000 + i as i64;
    Expected {
        client_order_id: 0x1122_3344_0000_0000 + i,
        price: if i % 2 == 0 {
            distance
        } else {
            -distance
        },
        quantity: 100 + (i % 900) as u32,
        side: if i % 3 == 0 {
            Side::Ask
        } else {
            Side::Bid
        },
    }
}

/// What a consumer has found.
#[derive(Debug, Clone, Copy, PartialEq, Eq, Structural)]
pub struct Findings {
    pub consumed: u64,
    pub mismatches: u64,
    /// The number of the first order that was not as expected.
    pub first_mismatch: Option<u64>,
}

impl Findings {
    pub fn new() -> (r: Self)
        ensures
            r == (Findings { consumed: 0, mismatches: 0, first_mismatch: None }),
    {
        Findings { consumed: 0, mismatches: 0, first_mismatch: None }
    }

    /// Takes in the next order, or `None` where it could not be read. The symbol
    /// must be the one that was asked for.
    pub fn check(&mut self, seen: Option<(Expected, u16)>, symbol: u16)
        requires
            1_000_000 + old(self).consumed <= i64::MAX,
            old(self).mismatches <= old(self).consumed,
        ensures
            final(self).mismatches <= final(self).consumed,
            *final(self) == ({
                let i = old(self).consumed;
                if seen == Some((order_of(i), symbol)) {
                    Findings { consumed: (i + 1) as u64, ..*old(self) }
                } else {
                    Findings {
                        consumed: (i + 1) as u64,
                        mismatches: (old(self).mismatches + 1) as u64,
                        first_mismatch: if old(self).first_mismatch is None {
                            Some(i)
                        } else {
                            old(self).first_mismatch
                        },
                    }
                }
            }),
    {
        let want = expected(self.consumed);
        let ok = match seen {
            Some((e, s)) => e == want && s == symbol,
            None => false,
        };
        if !ok {
            if self.first_mismatch.is_none() {
                self.first_mismatch = Some(self.consumed);
            }
            self.mismatches = self.mismatches + 1;
        }
        self.consumed = self.consumed + 1;
    }
}

/// The orders of different numbers differ, in their ids above all, and each is one that can
/// be told from a neighbour's by its price, whose sign changes from one to the next.
pub proof fn law_orders_differ(i: u64, j: u64)
    requires
        i != j,
        1_000_000 + i <= i64::MAX,
        1_000_000 + j <= i64::MAX,
    ensures
        order_of(i).client_order_id != order_of(j).client_order_id,
        order_of(i).client_order_id as int - order_of(j).client_order_id as int == i - j,
        order_of(i).price != order_of(j).price,
        order_of(i).price > 0 <==> i % 2 == 0,
        100 <= order_of(i).quantity < 1000,
        order_of(i).side == Side::Ask <==> i % 3 == 0,
{
}

} // verus!
