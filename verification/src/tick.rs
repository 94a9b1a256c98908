//! The window of prices that a dense level array covers.
//!
//! A price maps to a slot by its distance from the window's anchor, in ticks.
//! The window can be moved so long as everything that rests stays inside it.

use vstd::arithmetic::div_mod::{
    lemma_div_multiples_vanish, lemma_fundamental_div_mod, lemma_mod_multiples_basic,
    lemma_mod_multiples_vanish,
};
use vstd::prelude::*;

verus! {

/// A price window as integers: `capacity` prices, `tick` apart, from `anchor` up.
#[verifier::ext_equal]
pub struct TickWindow {
    pub anchor: int,
    pub tick: int,
    pub capacity: int,
}

/// Where a price falls in a window.
#[derive(Debug, Clone, Copy, PartialEq, Eq, Structural)]
pub enum Slot {
    /// In the window, at this index.
    At(usize),
    /// On the grid, but not in the window.
    Outside,
    /// Between two ticks.
    OffGrid,
}

/// Division that rounds towards zero, for a positive divisor.
pub open spec fn trunc_div(a: int, b: int) -> int {
    if a >= 0 {
        a / b
    } else {
        -((-a) / b)
    }
}

impl TickWindow {
    /// The anchor, the tick and every count of slots are representable. The slots may reach
    /// beyond the highest price there is.
    pub open spec fn valid(self) -> bool {
        &&& 1 <= self.tick <= i64::MAX
        &&& 2 <= self.capacity <= i64::MAX
        &&& i64::MIN <= self.anchor <= i64::MAX
    }

    pub open spec fn price_at(self, index: int) -> int {
        self.anchor + index * self.tick
    }

    pub open spec fn on_grid(self, price: int) -> bool {
        (price - self.anchor) % self.tick == 0
    }

    pub open spec fn slot(self, price: int) -> Slot {
        if !self.on_grid(price) {
            Slot::OffGrid
        } else if price < self.anchor || (price - self.anchor) / self.tick >= self.capacity {
            Slot::Outside
        } else {
            Slot::At(((price - self.anchor) / self.tick) as usize)
        }
    }

    pub open spec fn holds(self, price: int) -> bool {
        self.slot(price) is At
    }

    /// The window of the given tick and capacity with `price` in its middle.
    pub open spec fn centred(price: int, tick: int, capacity: int) -> TickWindow {
        let t = if tick < 1 { 1 } else { tick };
        let c = if capacity < 2 { 2 } else { capacity };
        TickWindow { anchor: price - (c / 2) * t, tick: t, capacity: c }
    }

    pub open spec fn low(price: int, keep: Option<(int, int)>) -> int {
        match keep {
            Some((lo, hi)) => if lo < price { lo } else { price },
            None => price,
        }
    }

    pub open spec fn high(price: int, keep: Option<(int, int)>) -> int {
        match keep {
            Some((lo, hi)) => if hi > price { hi } else { price },
            None => price,
        }
    }

    /// How many slots the kept prices and `price` span together.
    pub open spec fn span(self, price: int, keep: Option<(int, int)>) -> int {
        (Self::high(price, keep) - Self::low(price, keep)) / self.tick + 1
    }

    /// Where the window goes for `price`: the span sits in its middle, and of an
    /// odd slack the larger half lies below.
    pub open spec fn placed(self, price: int, keep: Option<(int, int)>) -> TickWindow {
        TickWindow {
            anchor: Self::low(price, keep) - ((self.capacity - self.span(price, keep) + 1) / 2)
                * self.tick,
            ..self
        }
    }

    /// How many slots everything moves down when the window becomes `to`.
    pub open spec fn shift_to(self, to: TickWindow) -> int {
        trunc_div(to.anchor - self.anchor, self.tick)
    }

    /// `price` is on the grid, fits the window together with the kept prices, and
    /// the moved window and the move itself are representable.
    pub open spec fn can_rebase(self, price: int, keep: Option<(int, int)>) -> bool {
        &&& self.on_grid(price)
        &&& self.span(price, keep) <= self.capacity
        &&& self.placed(price, keep).valid()
        &&& i64::MIN <= self.shift_to(self.placed(price, keep)) <= i64::MAX
    }
}

/// A pair of prices as integers.
pub open spec fn keep_view(keep: Option<(i64, i64)>) -> Option<(int, int)> {
    match keep {
        Some((lo, hi)) => Some((lo as int, hi as int)),
        None => None,
    }
}

#[derive(Debug, Clone, Copy, PartialEq, Eq, Structural)]
pub struct TickIndex {
    anchor: i64,
    tick: i64,
    capacity: usize,
}

impl View for TickIndex {
    type V = TickWindow;

    closed spec fn view(&self) -> TickWindow {
        TickWindow {
            anchor: self.anchor as int,
            tick: self.tick as int,
            capacity: self.capacity as int,
        }
    }
}

/// The distance from `b` up to `a`.
fn distance(a: i64, b: i64) -> (r: u64)
    requires
        b <= a,
    ensures
        r == a - b,
{
    (a as i128 - b as i128) as u64
}

impl TickIndex {
    /// Whether there is a window of this size with `price` in its middle: whether the price
    /// that it starts at is a price.
    pub fn can_centre(price: i64, tick: i64, capacity: usize) -> (r: bool)
        ensures
            r == TickWindow::centred(price as int, tick as int, capacity as int).valid(),
    {
        let t: i128 = if tick < 1 {
            1
        } else {
            tick as i128
        };
        let c: i128 = if capacity < 2 {
            2
        } else {
            capacity as i128
        };
        if c > i64::MAX as i128 {
            return false;
        }
        let half: i128 = c / 2;
        proof {
            assert(0 <= half * t <= 0x8000_0000_0000_0000 * 0x8000_0000_0000_0000)
                by (nonlinear_arith)
                requires
                    0 <= half <= 0x8000_0000_0000_0000,
                    0 <= t <= 0x8000_0000_0000_0000,
            ;
        }
        price as i128 - half * t >= i64::MIN as i128
    }

    /// A window with `price` in its middle. A tick below one counts as one, and a
    /// capacity below two as two.
    pub fn centred_on(price: i64, tick: i64, capacity: usize) -> (r: Self)
        requires
            TickWindow::centred(price as int, tick as int, capacity as int).valid(),
        ensures
            r@ == TickWindow::centred(price as int, tick as int, capacity as int),
            r@.valid(),
    {
        let tick: i64 = if tick < 1 { 1 } else { tick };
        let capacity: usize = if capacity < 2 { 2 } else { capacity };
        let half: i64 = (capacity / 2) as i64;
        proof {
            let w = TickWindow::centred(price as int, tick as int, capacity as int);
            assert(half as int == capacity as int / 2);
            assert(0 <= half * tick <= 0x8000_0000_0000_0000 * 0x8000_0000_0000_0000)
                by (nonlinear_arith)
                requires
                    0 <= half <= 0x8000_0000_0000_0000,
                    1 <= tick <= 0x8000_0000_0000_0000,
            ;
            assert(w.anchor == price - half * tick);
        }
        let back: i128 = (half as i128) * (tick as i128);
        let anchor: i64 = (price as i128 - back) as i64;
        TickIndex { anchor, tick, capacity }
    }

    pub fn anchor(&self) -> (r: i64)
        ensures
            r == self@.anchor,
    {
        self.anchor
    }

    pub fn tick(&self) -> (r: i64)
        ensures
            r == self@.tick,
    {
        self.tick
    }

    pub fn capacity(&self) -> (r: usize)
        ensures
            r == self@.capacity,
    {
        self.capacity
    }

    /// The price at `index`.
    pub fn price_at(&self, index: usize) -> (r: i64)
        requires
            i64::MIN <= self@.price_at(index as int) <= i64::MAX,
            self@.valid(),
        ensures
            r == self@.price_at(index as int),
    {
        proof {
            assert(0 <= index * self.tick) by (nonlinear_arith)
                requires
                    0 <= index,
                    self.tick >= 1,
            ;
            assert(index <= index * self.tick) by (nonlinear_arith)
                requires
                    0 <= index,
                    self.tick >= 1,
            ;
            assert(index * self.tick <= u64::MAX);
        }
        let up: i128 = (index as i128) * (self.tick as i128);
        (self.anchor as i128 + up) as i64
    }

    /// Which slot `price` falls in.
    pub fn slot(&self, price: i64) -> (r: Slot)
        requires
            self@.valid(),
        ensures
            r == self@.slot(price as int),
    {
        if price < self.anchor {
            let off: u64 = distance(self.anchor, price);
            proof {
                lemma_mod_negated(off as int, self.tick as int);
                assert(price - self.anchor == -(off as int));
            }
            if off % (self.tick as u64) != 0 {
                return Slot::OffGrid;
            }
            return Slot::Outside;
        }
        let off: u64 = distance(price, self.anchor);
        if off % (self.tick as u64) != 0 {
            return Slot::OffGrid;
        }
        let index: u64 = off / (self.tick as u64);
        if index >= self.capacity as u64 {
            return Slot::Outside;
        }
        Slot::At(index as usize)
    }

    pub fn contains(&self, price: i64) -> (r: bool)
        requires
            self@.valid(),
        ensures
            r == self@.holds(price as int),
    {
        match self.slot(price) {
            Slot::At(_) => true,
            _ => false,
        }
    }

    /// The window moved onto `price` without losing the prices of `keep`, and how
    /// many slots everything moves down by. `None` where no such window exists.
    pub fn rebase_for(&self, price: i64, keep: Option<(i64, i64)>) -> (r: Option<(Self, i64)>)
        requires
            self@.valid(),
        ensures
            r is Some <==> self@.can_rebase(price as int, keep_view(keep)),
            r matches Some((moved, shift)) ==> {
                &&& moved@ == self@.placed(price as int, keep_view(keep))
                &&& moved@.valid()
                &&& shift == self@.shift_to(moved@)
            },
    {
        let t: u64 = self.tick as u64;
        let on_grid: bool = if price < self.anchor {
            let off: u64 = distance(self.anchor, price);
            proof {
                lemma_mod_negated(off as int, self.tick as int);
                assert(price - self.anchor == -(off as int));
            }
            off % t == 0
        } else {
            distance(price, self.anchor) % t == 0
        };
        if !on_grid {
            return None;
        }
        let low: i64 = match keep {
            Some((lo, _)) => if lo < price {
                lo
            } else {
                price
            },
            None => price,
        };
        let high: i64 = match keep {
            Some((_, hi)) => if hi > price {
                hi
            } else {
                price
            },
            None => price,
        };
        let steps: u64 = distance(high, low) / t;
        let ghost w = self@;
        let ghost k = keep_view(keep);
        assert(steps + 1 == w.span(price as int, k));
        if steps >= self.capacity as u64 {
            return None;
        }
        let slack: u64 = self.capacity as u64 - steps - 1;
        let below: u64 = (slack + 1) / 2;
        let ghost to = w.placed(price as int, k);
        proof {
            assert(0 <= below * t <= 0x8000_0000_0000_0000 * 0x8000_0000_0000_0000)
                by (nonlinear_arith)
                requires
                    0 <= below <= 0x8000_0000_0000_0000,
                    1 <= t <= 0x8000_0000_0000_0000,
            ;
        }
        let down: i128 = (below as i128) * (self.tick as i128);
        let anchor: i128 = low as i128 - down;
        assert(anchor == to.anchor);
        if anchor < i64::MIN as i128 {
            assert(!to.valid());
            return None;
        }
        let anchor: i64 = anchor as i64;
        assert(to.valid());
        if anchor >= self.anchor {
            let shift: u64 = distance(anchor, self.anchor) / t;
            if shift > i64::MAX as u64 {
                return None;
            }
            Some((TickIndex { anchor, tick: self.tick, capacity: self.capacity }, shift as i64))
        } else {
            let shift: u64 = distance(self.anchor, anchor) / t;
            if shift > i64::MAX as u64 {
                if shift == 0x8000_0000_0000_0000 {
                    return Some((
                        TickIndex { anchor, tick: self.tick, capacity: self.capacity },
                        i64::MIN,
                    ));
                }
                return None;
            }
            Some((TickIndex { anchor, tick: self.tick, capacity: self.capacity }, -(shift as i64)))
        }
    }

    /// Whether moving everything down by `shift` keeps the slots from `lowest` to
    /// `highest` inside the window.
    pub fn shift_preserves(&self, shift: i64, lowest: Option<usize>, highest: Option<usize>) -> (r:
        bool)
        ensures
            r == (match (lowest, highest) {
                (Some(lo), Some(hi)) => lo - shift >= 0 && hi - shift < self@.capacity && hi - shift
                    >= 0,
                _ => true,
            }),
    {
        match (lowest, highest) {
            (Some(lo), Some(hi)) => {
                let new_lo: i128 = lo as i128 - shift as i128;
                let new_hi: i128 = hi as i128 - shift as i128;
                new_lo >= 0 && new_hi >= 0 && new_hi < self.capacity as i128
            },
            _ => true,
        }
    }
}

/// A number and its negation are multiples of the same things.
proof fn lemma_mod_negated(a: int, t: int)
    requires
        t >= 1,
    ensures
        ((-a) % t == 0) <==> (a % t == 0),
{
    lemma_fundamental_div_mod(a, t);
    lemma_fundamental_div_mod(-a, t);
    if a % t == 0 {
        let q = a / t;
        assert(-a == (-q) * t) by (nonlinear_arith)
            requires
                a == t * q,
        ;
        lemma_mod_multiples_basic(-q, t);
    }
    if (-a) % t == 0 {
        let q = (-a) / t;
        assert(a == (-q) * t) by (nonlinear_arith)
            requires
                -a == t * q,
        ;
        lemma_mod_multiples_basic(-q, t);
    }
}

/// Every slot of a window reads back from its own price.
pub proof fn law_slot_of_price_at(w: TickWindow, index: int)
    requires
        w.valid(),
        0 <= index < w.capacity,
        w.capacity <= usize::MAX,
    ensures
        w.slot(w.price_at(index)) == Slot::At(index as usize),
        i64::MIN <= w.price_at(index),
{
    lemma_mod_multiples_basic(index, w.tick);
    lemma_div_multiples_vanish(index, w.tick);
    assert(w.tick * index == index * w.tick) by (nonlinear_arith);
    assert(0 <= index * w.tick) by (nonlinear_arith)
        requires
            0 <= index,
            w.tick >= 1,
    ;
}

/// The price of the slot that a price falls in is that price.
pub proof fn law_price_at_of_slot(w: TickWindow, price: int)
    requires
        w.valid(),
        w.capacity <= usize::MAX,
        w.holds(price),
    ensures
        w.slot(price)->At_0 < w.capacity,
        w.price_at(w.slot(price)->At_0 as int) == price,
{
    lemma_fundamental_div_mod(price - w.anchor, w.tick);
    let i = (price - w.anchor) / w.tick;
    assert(w.tick * i == i * w.tick) by (nonlinear_arith);
    assert(i >= 0) by (nonlinear_arith)
        requires
            price - w.anchor == i * w.tick,
            price - w.anchor >= 0,
            w.tick >= 1,
    ;
}

/// A move along the grid relabels slots and leaves every price where it was: the
/// slot `i` before the move and the slot `i - shift` after it have one price.
pub proof fn law_rebase_keeps_prices(w: TickWindow, price: int, keep: Option<(int, int)>, i: int)
    requires
        w.valid(),
        w.can_rebase(price, keep),
        keep matches Some((lo, hi)) ==> w.on_grid(lo),
    ensures
        w.placed(price, keep).price_at(i - w.shift_to(w.placed(price, keep))) == w.price_at(i),
        w.placed(price, keep).anchor == w.price_at(w.shift_to(w.placed(price, keep))),
        forall|p: int| w.placed(price, keep).on_grid(p) == w.on_grid(p),
{
    let to = w.placed(price, keep);
    let low = TickWindow::low(price, keep);
    lemma_fundamental_div_mod(low - w.anchor, w.tick);
    let a = (low - w.anchor) / w.tick;
    let b = (w.capacity - w.span(price, keep) + 1) / 2;
    let s = a - b;
    assert(to.anchor - w.anchor == s * w.tick) by (nonlinear_arith)
        requires
            low - w.anchor == w.tick * a,
            to.anchor == low - b * w.tick,
            s == a - b,
    ;
    lemma_div_multiples_vanish(s, w.tick);
    lemma_div_multiples_vanish(-s, w.tick);
    assert(w.tick * s == s * w.tick) by (nonlinear_arith);
    assert(w.tick * (-s) == -(s * w.tick)) by (nonlinear_arith);
    assert(w.shift_to(to) == s);
    assert(to.price_at(i - s) == w.price_at(i)) by (nonlinear_arith)
        requires
            to.price_at(i - s) == to.anchor + (i - s) * w.tick,
            w.price_at(i) == w.anchor + i * w.tick,
            to.anchor - w.anchor == s * w.tick,
    ;
    assert forall|p: int| to.on_grid(p) == w.on_grid(p) by {
        assert(p - w.anchor == w.tick * s + (p - to.anchor)) by (nonlinear_arith)
            requires
                to.anchor - w.anchor == s * w.tick,
        ;
        lemma_mod_multiples_vanish(s, p - to.anchor, w.tick);
    }
}

/// After a move onto `price`, the window holds `price`, and every price on the
/// grid between the kept ones.
pub proof fn law_rebase_holds(w: TickWindow, price: int, keep: Option<(int, int)>, p: int)
    requires
        w.valid(),
        w.can_rebase(price, keep),
        keep matches Some((lo, hi)) ==> w.on_grid(lo),
        w.on_grid(p),
        p == price || (keep matches Some((lo, hi)) && lo <= p <= hi),
    ensures
        w.placed(price, keep).holds(p),
{
    let to = w.placed(price, keep);
    let low = TickWindow::low(price, keep);
    let high = TickWindow::high(price, keep);
    law_rebase_keeps_prices(w, price, keep, 0);
    assert(to.on_grid(p));
    let b = (w.capacity - w.span(price, keep) + 1) / 2;
    let q = (high - low) / w.tick;
    lemma_fundamental_div_mod(high - low, w.tick);
    lemma_fundamental_div_mod(p - to.anchor, w.tick);
    let i = (p - to.anchor) / w.tick;
    assert(0 <= b * w.tick) by (nonlinear_arith)
        requires
            0 <= b,
            w.tick >= 1,
    ;
    assert(p - to.anchor < (w.capacity) * w.tick) by (nonlinear_arith)
        requires
            p - to.anchor <= (high - low) + b * w.tick,
            high - low < w.tick * q + w.tick,
            b + q + 1 <= w.capacity,
            w.tick >= 1,
    ;
    assert(i < w.capacity) by (nonlinear_arith)
        requires
            p - to.anchor == w.tick * i,
            p - to.anchor < w.capacity * w.tick,
            w.tick >= 1,
    ;
}

/// A window is centred on a price: the price stands in the middle of it.
pub proof fn law_centre_stands_in_the_middle(price: int, tick: int, capacity: int)
    requires
        capacity <= usize::MAX,
    ensures
        ({
            let w = TickWindow::centred(price, tick, capacity);
            &&& w.price_at(w.capacity / 2) == price
            &&& w.slot(price) == Slot::At((w.capacity / 2) as usize)
            &&& w.tick >= 1 && w.capacity >= 2
            &&& tick >= 1 ==> w.tick == tick
            &&& capacity >= 2 ==> w.capacity == capacity
        }),
{
    let w = TickWindow::centred(price, tick, capacity);
    let i = w.capacity / 2;
    lemma_mod_multiples_basic(i, w.tick);
    lemma_div_multiples_vanish(i, w.tick);
    assert(w.tick * i == i * w.tick) by (nonlinear_arith);
    assert(0 <= i * w.tick) by (nonlinear_arith)
        requires
            0 <= i,
            w.tick >= 1,
    ;
}

/// A price has a slot exactly if it is a whole number of ticks, none or more and fewer than
/// the slots, above where the window starts; another price on the grid is outside, and any
/// other off the grid.
pub proof fn law_slot_is_ticks_above_the_anchor(w: TickWindow, price: int)
    requires
        w.valid(),
        w.capacity <= usize::MAX,
    ensures
        w.holds(price) <==> exists|i: int|
            0 <= i < w.capacity && price == w.anchor + #[trigger] (i * w.tick),
        w.slot(price) == Slot::OffGrid <==> (price - w.anchor) % w.tick != 0,
        w.slot(price) == Slot::Outside ==> price < w.anchor || price >= w.anchor + w.capacity
            * w.tick,
{
    if w.holds(price) {
        law_price_at_of_slot(w, price);
        let i = w.slot(price)->At_0 as int;
        assert(price == w.anchor + i * w.tick);
    }
    if exists|i: int| 0 <= i < w.capacity && price == w.anchor + #[trigger] (i * w.tick) {
        let i = choose|i: int|
            0 <= i < w.capacity && price == w.anchor + #[trigger] (i * w.tick);
        law_slot_of_price_at(w, i);
        assert(price == w.price_at(i));
    }
    if w.slot(price) == Slot::Outside && price >= w.anchor {
        let k = (price - w.anchor) / w.tick;
        lemma_fundamental_div_mod(price - w.anchor, w.tick);
        assert(w.tick * k >= w.capacity * w.tick) by (nonlinear_arith)
            requires
                k >= w.capacity,
                w.tick >= 1,
        ;
    }
}

/// A window moves whenever moving helps: where any window of its tick and its size, on its
/// grid, would hold the price together with all that is to be kept, the span is not too
/// wide.
pub proof fn law_moves_whenever_it_fits(
    w: TickWindow,
    other: TickWindow,
    price: int,
    keep: Option<(int, int)>,
)
    requires
        w.valid(),
        other.valid(),
        other.tick == w.tick,
        other.capacity == w.capacity,
        w.capacity <= usize::MAX,
        keep matches Some((lo, hi)) ==> lo <= hi,
        other.holds(TickWindow::low(price, keep)),
        other.holds(TickWindow::high(price, keep)),
    ensures
        w.span(price, keep) <= w.capacity,
        TickWindow::low(price, keep) <= price <= TickWindow::high(price, keep),
        keep matches Some((lo, hi)) ==> TickWindow::low(price, keep) <= lo && hi
            <= TickWindow::high(price, keep),
{
    let low = TickWindow::low(price, keep);
    let high = TickWindow::high(price, keep);
    law_price_at_of_slot(other, low);
    law_price_at_of_slot(other, high);
    let a = other.slot(low)->At_0 as int;
    let b = other.slot(high)->At_0 as int;
    assert(high - low == (b - a) * w.tick) by (nonlinear_arith)
        requires
            low == other.anchor + a * w.tick,
            high == other.anchor + b * w.tick,
    ;
    lemma_div_multiples_vanish(b - a, w.tick);
    assert(w.tick * (b - a) == (b - a) * w.tick) by (nonlinear_arith);
}

/// A window that moves puts what it has to hold in its middle: as many free slots below it
/// as above it, or one more.
pub proof fn law_moved_window_is_centred(w: TickWindow, price: int, keep: Option<(int, int)>)
    requires
        w.valid(),
        w.span(price, keep) <= w.capacity,
    ensures
        ({
            let to = w.placed(price, keep);
            let below = (TickWindow::low(price, keep) - to.anchor) / w.tick;
            let above = w.capacity - w.span(price, keep) - below;
            &&& to.tick == w.tick
            &&& to.capacity == w.capacity
            &&& 0 <= below - above <= 1
        }),
{
    let b = (w.capacity - w.span(price, keep) + 1) / 2;
    lemma_div_multiples_vanish(b, w.tick);
    assert(w.tick * b == b * w.tick) by (nonlinear_arith);
}

} // verus!
