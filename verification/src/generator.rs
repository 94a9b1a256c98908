//! The background flow: what a simulated crowd does next to a symbol.

use crate::config;
use crate::engine::SymbolState;
use crate::message::Side;
use crate::rng::{
    after, below_state, below_value, chance_state, chance_value, drawn, range_state, range_value,
    stepped, Chance, Rng,
};
use vstd::prelude::*;

verus! {

/// What the crowd wants.
#[derive(Debug, Clone, Copy, PartialEq, Eq, Structural)]
pub enum Intent {
    Submit { symbol_id: u16, side: Side, price: i64, quantity: u32 },
    Cancel { symbol_id: u16, order_id: u64 },
    Amend { symbol_id: u16, order_id: u64, new_price: Option<i64>, new_quantity: u32 },
}

/// How the flow is shaped.
#[derive(Debug, Clone, Copy, PartialEq, Eq, Structural)]
pub struct Shape {
    /// How many resting orders a symbol is steered towards.
    pub target_depth: usize,
    pub price_spread_ticks: i64,
    pub aggressive_chance: Chance,
    pub cancel_chance: Chance,
    pub modify_chance: Chance,
    pub min_quantity: u32,
    pub max_quantity: u32,
}

/// Three times in four, of `2^53`.
pub const MOSTLY: u64 = 6_755_399_441_055_744;

/// Once in two, of `2^53`.
pub const EVENLY: u64 = 4_503_599_627_370_496;

impl Shape {
    /// The shape that a configuration asks for. The spread and the sizes are at least
    /// one.
    pub fn of(e: &config::Engine) -> (r: Self)
        ensures
            r == (Shape {
                target_depth: e.target_depth,
                price_spread_ticks: if e.price_spread_ticks < 1 {
                    1
                } else {
                    e.price_spread_ticks
                },
                aggressive_chance: e.aggressive_chance,
                cancel_chance: e.cancel_chance,
                modify_chance: e.modify_chance,
                min_quantity: if e.min_quantity < 1 {
                    1
                } else {
                    e.min_quantity
                },
                max_quantity: if e.max_quantity < 1 {
                    1
                } else {
                    e.max_quantity
                },
            }),
    {
        Shape {
            target_depth: e.target_depth,
            price_spread_ticks: if e.price_spread_ticks < 1 {
                1
            } else {
                e.price_spread_ticks
            },
            aggressive_chance: e.aggressive_chance,
            cancel_chance: e.cancel_chance,
            modify_chance: e.modify_chance,
            min_quantity: if e.min_quantity < 1 {
                1
            } else {
                e.min_quantity
            },
            max_quantity: if e.max_quantity < 1 {
                1
            } else {
                e.max_quantity
            },
        }
    }

    /// The numbers stay inside what a machine word holds.
    pub open spec fn fits(self) -> bool {
        &&& self.target_depth <= usize::MAX / 2
        &&& 0 <= self.price_spread_ticks <= i64::MAX / 2
    }

    /// The furthest a price is put from the mid, in ticks.
    pub open spec fn reach(self) -> int {
        if self.price_spread_ticks > 3 {
            self.price_spread_ticks as int
        } else {
            3
        }
    }

    /// Every price that this shape can put around a symbol's mid is a price.
    pub open spec fn reaches(self, sym: SymbolState) -> bool {
        forall|k: int|
            -self.reach() <= k <= self.reach() ==> {
                &&& i64::MIN <= #[trigger] (k * sym.tick_size) <= i64::MAX
                &&& i64::MIN <= sym.mid + k * sym.tick_size <= i64::MAX
            }
    }

    /// Whether the numbers stay inside what a machine word holds.
    pub fn is_fit(&self) -> (r: bool)
        ensures
            r == self.fits(),
    {
        self.target_depth <= usize::MAX / 2 && 0 <= self.price_spread_ticks
            && self.price_spread_ticks <= i64::MAX / 2
    }

    /// Whether every price that this shape can put around a symbol's mid is a price.
    pub fn can_reach(&self, sym: &SymbolState) -> (r: bool)
        ensures
            r == self.reaches(*sym),
    {
        let reach: i128 = if self.price_spread_ticks > 3 {
            self.price_spread_ticks as i128
        } else {
            3
        };
        let tick: i128 = if sym.tick_size < 0 {
            -(sym.tick_size as i128)
        } else {
            sym.tick_size as i128
        };
        proof {
            lemma_small_product(reach as int, tick as int);
        }
        let far: i128 = reach * tick;
        let r = far <= i64::MAX as i128 && sym.mid as i128 + far <= i64::MAX as i128
            && sym.mid as i128 - far >= i64::MIN as i128;
        proof {
            let t = sym.tick_size as int;
            lemma_mirrored(reach as int, t);
            lemma_mirrored(reach as int, tick as int);
            assert(tick == t || tick == -t);
            assert(reach * tick == reach * t || reach * tick == -(reach * t)) by (nonlinear_arith)
                requires
                    tick == t || tick == -t,
            ;
            if r {
                assert forall|k: int| -self.reach() <= k <= self.reach() implies {
                    &&& i64::MIN <= #[trigger] (k * sym.tick_size) <= i64::MAX
                    &&& i64::MIN <= sym.mid + k * sym.tick_size <= i64::MAX
                } by {
                    assert(-(reach * tick) <= k * t <= reach * tick) by (nonlinear_arith)
                        requires
                            -reach <= k <= reach,
                            tick == t || tick == -t,
                            tick >= 0,
                            reach >= 0,
                    ;
                }
            }
            if self.reaches(*sym) {
                assert(i64::MIN <= reach as int * sym.tick_size <= i64::MAX);
                assert(i64::MIN <= (-(reach as int)) * sym.tick_size <= i64::MAX);
            }
        }
        r
    }

    pub open spec fn starving(self, sym: SymbolState) -> bool {
        sym.live@.len() < self.target_depth / 2
    }

    pub open spec fn crowded(self, sym: SymbolState) -> bool {
        sym.live@.len() > self.target_depth * 2
    }

    pub open spec fn cancel_odds(self, sym: SymbolState) -> Chance {
        if self.crowded(sym) {
            Chance::Of(MOSTLY)
        } else {
            self.cancel_chance
        }
    }

    /// The size drawn, and the state after it.
    pub open spec fn sized(self, s: u64) -> (u32, u64) {
        (
            range_value(s, self.min_quantity as u64, self.max_quantity as u64) as u32,
            range_state(s, self.min_quantity as u64, self.max_quantity as u64),
        )
    }

    /// A price on either side of the mid, and the state after it.
    pub open spec fn near(self, s: u64, sym: SymbolState) -> (i64, u64) {
        let span = (self.price_spread_ticks * 2 + 1) as u64;
        let offset = below_value(s, span) - self.price_spread_ticks;
        ((sym.mid + offset * sym.tick_size) as i64, below_state(s, span))
    }

    /// A price that rests behind the mid, and the state after it.
    pub open spec fn passive(self, s: u64, sym: SymbolState, side: Side) -> (i64, u64) {
        let ticks = range_value(s, 1, self.price_spread_ticks as u64) as int;
        let price = match side {
            Side::Bid => sym.mid - ticks * sym.tick_size,
            Side::Ask => sym.mid + ticks * sym.tick_size,
        };
        (price as i64, range_state(s, 1, self.price_spread_ticks as u64))
    }

    /// A price one to three ticks through the mid, and the state after it.
    pub open spec fn crossing(self, s: u64, sym: SymbolState, side: Side) -> (i64, u64) {
        let ticks = range_value(s, 1, 3) as int;
        let price = match side {
            Side::Bid => sym.mid + ticks * sym.tick_size,
            Side::Ask => sym.mid - ticks * sym.tick_size,
        };
        (price as i64, range_state(s, 1, 3))
    }

    /// A cancel of a resting order.
    pub open spec fn cancelling(self, s: u64, sym: SymbolState) -> (Intent, u64) {
        let n = sym.live@.len() as u64;
        (
            Intent::Cancel {
                symbol_id: sym.id,
                order_id: sym.live@[below_value(s, n) as int],
            },
            below_state(s, n),
        )
    }

    /// An amendment of a resting order: its size, and every second time its price.
    pub open spec fn amending(self, s: u64, sym: SymbolState) -> (Intent, u64) {
        let n = sym.live@.len() as u64;
        let order_id = sym.live@[below_value(s, n) as int];
        let (new_quantity, s1) = self.sized(below_state(s, n));
        let s2 = chance_state(s1, Chance::Of(EVENLY));
        if chance_value(s1, Chance::Of(EVENLY)) {
            (Intent::Amend { symbol_id: sym.id, order_id, new_price: None, new_quantity }, s2)
        } else {
            let (price, s3) = self.near(s2, sym);
            (
                Intent::Amend {
                    symbol_id: sym.id,
                    order_id,
                    new_price: Some(price),
                    new_quantity,
                },
                s3,
            )
        }
    }

    /// A new order. A starving symbol gets none that trades.
    pub open spec fn submitting(self, s: u64, sym: SymbolState) -> (Intent, u64) {
        let side = if chance_value(s, Chance::Of(EVENLY)) {
            Side::Bid
        } else {
            Side::Ask
        };
        let s1 = chance_state(s, Chance::Of(EVENLY));
        let asked = !self.starving(sym);
        let s2 = if asked {
            chance_state(s1, self.aggressive_chance)
        } else {
            s1
        };
        let (price, s3) = if asked && chance_value(s1, self.aggressive_chance) {
            self.crossing(s2, sym, side)
        } else {
            self.passive(s2, sym, side)
        };
        let (quantity, s4) = self.sized(s3);
        (Intent::Submit { symbol_id: sym.id, side, price, quantity }, s4)
    }

    /// What comes next from a state, and the state after it.
    pub open spec fn intended(self, s: u64, sym: SymbolState) -> (Intent, u64) {
        if self.starving(sym) || sym.live@.len() == 0 {
            self.submitting(s, sym)
        } else {
            let s1 = chance_state(s, self.cancel_odds(sym));
            if chance_value(s, self.cancel_odds(sym)) {
                self.cancelling(s1, sym)
            } else {
                let s2 = chance_state(s1, self.modify_chance);
                if chance_value(s1, self.modify_chance) {
                    self.amending(s2, sym)
                } else {
                    self.submitting(s2, sym)
                }
            }
        }
    }
}

pub open spec fn clamped(x: int) -> i64 {
    if x > i64::MAX {
        i64::MAX
    } else if x < i64::MIN {
        i64::MIN
    } else {
        x as i64
    }
}

#[derive(Debug)]
pub struct Generator {
    rng: Rng,
    shape: Shape,
}

impl Generator {
    pub closed spec fn state(self) -> u64 {
        self.rng@
    }

    pub closed spec fn shaped(self) -> Shape {
        self.shape
    }

    pub fn new(seed: u64, shape: Shape) -> (r: Self)
        ensures
            r.state() == seed,
            r.shaped() == shape,
    {
        Generator { rng: Rng::new(seed), shape }
    }

    pub fn shape(&self) -> (r: Shape)
        ensures
            r == self.shaped(),
    {
        self.shape
    }

    /// Which of this many symbols acts next.
    pub fn pick_symbol(&mut self, symbols: usize) -> (r: usize)
        ensures
            r == below_value(old(self).state(), symbols as u64),
            symbols > 0 ==> r < symbols,
            final(self).state() == below_state(old(self).state(), symbols as u64),
            final(self).shaped() == old(self).shaped(),
    {
        self.rng.below(symbols as u64) as usize
    }

    /// What the crowd does next to a symbol.
    pub fn next(&mut self, sym: &SymbolState) -> (r: Intent)
        requires
            old(self).shaped().fits(),
            old(self).shaped().reaches(*sym),
        ensures
            r == old(self).shaped().intended(old(self).state(), *sym).0,
            final(self).state() == old(self).shaped().intended(old(self).state(), *sym).1,
            final(self).shaped() == old(self).shaped(),
    {
        let resting: usize = sym.live.len();
        let symbol_id = sym.id;
        let starving = resting < self.shape.target_depth / 2;
        let crowded = resting > self.shape.target_depth * 2;
        if !starving && resting > 0 {
            let odds = if crowded {
                Chance::Of(MOSTLY)
            } else {
                self.shape.cancel_chance
            };
            if self.rng.chance(odds) {
                let idx: usize = self.rng.below(resting as u64) as usize;
                return Intent::Cancel { symbol_id, order_id: sym.live[idx] };
            }
            if self.rng.chance(self.shape.modify_chance) {
                let idx: usize = self.rng.below(resting as u64) as usize;
                let order_id: u64 = sym.live[idx];
                let new_quantity: u32 = self.quantity();
                let new_price = if self.rng.chance(Chance::Of(EVENLY)) {
                    None
                } else {
                    Some(self.price_near(sym))
                };
                return Intent::Amend { symbol_id, order_id, new_price, new_quantity };
            }
        }
        let side = if self.rng.chance(Chance::Of(EVENLY)) {
            Side::Bid
        } else {
            Side::Ask
        };
        let aggressive = !starving && self.rng.chance(self.shape.aggressive_chance);
        let price: i64 = if aggressive {
            self.aggressive_price(sym, side)
        } else {
            self.passive_price(sym, side)
        };
        let quantity: u32 = self.quantity();
        Intent::Submit { symbol_id, side, price, quantity }
    }

    /// Now and then moves a symbol's mid by a tick.
    pub fn drift_mid(&mut self, sym: &mut SymbolState)
        ensures
            final(self).state() == below_state(old(self).state(), 64),
            final(self).shaped() == old(self).shaped(),
            *final(sym) == (SymbolState {
                mid: match below_value(old(self).state(), 64) {
                    0u64 => clamped(old(sym).mid + old(sym).tick_size),
                    1u64 => clamped(old(sym).mid - old(sym).tick_size),
                    _ => old(sym).mid,
                },
                ..*old(sym)
            }),
    {
        let roll: u64 = self.rng.below(64);
        if roll == 0 {
            sym.mid = saturating_plus(sym.mid, sym.tick_size);
        } else if roll == 1 {
            sym.mid = saturating_minus(sym.mid, sym.tick_size);
        }
    }

    fn quantity(&mut self) -> (r: u32)
        ensures
            r == old(self).shape.sized(old(self).rng@).0,
            final(self).rng@ == old(self).shape.sized(old(self).rng@).1,
            final(self).shape == old(self).shape,
    {
        let q: u64 = self.rng.range_inclusive(
            self.shape.min_quantity as u64,
            self.shape.max_quantity as u64,
        );
        q as u32
    }

    fn price_near(&mut self, sym: &SymbolState) -> (r: i64)
        requires
            old(self).shape.fits(),
            old(self).shape.reaches(*sym),
        ensures
            r == old(self).shape.near(old(self).rng@, *sym).0,
            final(self).rng@ == old(self).shape.near(old(self).rng@, *sym).1,
            final(self).shape == old(self).shape,
    {
        let spread: i64 = self.shape.price_spread_ticks;
        let drop: u64 = self.rng.below(spread as u64 * 2 + 1);
        let offset: i64 = drop as i64 - spread;
        assert(i64::MIN <= offset * sym.tick_size <= i64::MAX);
        sym.mid + offset * sym.tick_size
    }

    fn passive_price(&mut self, sym: &SymbolState, side: Side) -> (r: i64)
        requires
            old(self).shape.fits(),
            old(self).shape.reaches(*sym),
        ensures
            r == old(self).shape.passive(old(self).rng@, *sym, side).0,
            final(self).rng@ == old(self).shape.passive(old(self).rng@, *sym, side).1,
            final(self).shape == old(self).shape,
    {
        let drop: u64 = self.rng.range_inclusive(1, self.shape.price_spread_ticks as u64);
        let ticks: i64 = drop as i64;
        proof {
            lemma_mirrored(ticks as int, sym.tick_size as int);
            assert(i64::MIN <= ticks * sym.tick_size <= i64::MAX);
            assert(i64::MIN <= (-ticks) * sym.tick_size <= i64::MAX);
        }
        match side {
            Side::Bid => sym.mid - ticks * sym.tick_size,
            Side::Ask => sym.mid + ticks * sym.tick_size,
        }
    }

    fn aggressive_price(&mut self, sym: &SymbolState, side: Side) -> (r: i64)
        requires
            old(self).shape.fits(),
            old(self).shape.reaches(*sym),
        ensures
            r == old(self).shape.crossing(old(self).rng@, *sym, side).0,
            final(self).rng@ == old(self).shape.crossing(old(self).rng@, *sym, side).1,
            final(self).shape == old(self).shape,
    {
        let drop: u64 = self.rng.range_inclusive(1, 3);
        let ticks: i64 = drop as i64;
        proof {
            lemma_mirrored(ticks as int, sym.tick_size as int);
            assert(i64::MIN <= ticks * sym.tick_size <= i64::MAX);
            assert(i64::MIN <= (-ticks) * sym.tick_size <= i64::MAX);
        }
        let reach: i64 = ticks * sym.tick_size;
        match side {
            Side::Bid => sym.mid + reach,
            Side::Ask => sym.mid - reach,
        }
    }
}

proof fn lemma_small_product(a: int, b: int)
    requires
        0 <= a <= 0x8000_0000_0000_0000,
        0 <= b <= 0x8000_0000_0000_0000,
    ensures
        0 <= a * b <= 0x4000_0000_0000_0000_0000_0000_0000_0000,
{
    assert(0 <= a * b <= 0x8000_0000_0000_0000 * 0x8000_0000_0000_0000) by (nonlinear_arith)
        requires
            0 <= a <= 0x8000_0000_0000_0000,
            0 <= b <= 0x8000_0000_0000_0000,
    ;
}

proof fn lemma_mirrored(k: int, t: int)
    ensures
        (-k) * t == -(k * t),
{
    assert((-k) * t == -(k * t)) by (nonlinear_arith);
}

fn saturating_plus(a: i64, b: i64) -> (r: i64)
    ensures
        r == clamped(a + b),
{
    match a.checked_add(b) {
        Some(v) => v,
        None => if b > 0 {
            i64::MAX
        } else {
            i64::MIN
        },
    }
}

fn saturating_minus(a: i64, b: i64) -> (r: i64)
    ensures
        r == clamped(a - b),
{
    match a.checked_sub(b) {
        Some(v) => v,
        None => if b < 0 {
            i64::MAX
        } else {
            i64::MIN
        },
    }
}

/// Where nothing rests, the crowd only ever submits.
pub proof fn law_empty_book_is_only_added_to(shape: Shape, s: u64, sym: SymbolState)
    requires
        sym.live@.len() == 0,
    ensures
        shape.intended(s, sym).0 is Submit,
{
}

/// A cancel or an amendment names an order that rests, and every intent names the
/// symbol that it was asked of.
pub proof fn law_intent_names_a_resting_order(shape: Shape, s: u64, sym: SymbolState)
    requires
        sym.live@.len() <= u64::MAX,
    ensures
        match shape.intended(s, sym).0 {
            Intent::Submit { symbol_id, .. } => symbol_id == sym.id,
            Intent::Cancel { symbol_id, order_id } => symbol_id == sym.id && sym.live@.contains(
                order_id,
            ),
            Intent::Amend { symbol_id, order_id, .. } => symbol_id == sym.id
                && sym.live@.contains(order_id),
        },
{
    let n = sym.live@.len() as u64;
    if n > 0 {
        assert forall|t: u64| #[trigger] below_value(t, n) < n by {}
        assert forall|t: u64| sym.live@.contains(sym.live@[#[trigger] below_value(t, n) as int]) by {
            assert(below_value(t, n) < n);
        }
    }
}

/// A size that is asked for lies in the band, and is the lower end of it where the
/// band is empty.
pub proof fn law_quantity_stays_in_the_band(shape: Shape, s: u64, sym: SymbolState)
    ensures
        match shape.intended(s, sym).0 {
            Intent::Submit { quantity, .. } => shape.min_quantity <= quantity && (quantity
                <= shape.max_quantity || quantity == shape.min_quantity),
            Intent::Amend { new_quantity, .. } => shape.min_quantity <= new_quantity && (
            new_quantity <= shape.max_quantity || new_quantity == shape.min_quantity),
            Intent::Cancel { .. } => true,
        },
{
    let lo = shape.min_quantity as u64;
    let hi = shape.max_quantity as u64;
    assert forall|t: u64|
        lo <= #[trigger] range_value(t, lo, hi) && (range_value(t, lo, hi) <= hi || range_value(
            t,
            lo,
            hi,
        ) == lo) by {}
}

/// A starving symbol gets an order that rests behind the mid: below it to buy, above
/// it to sell.
pub proof fn law_starving_symbol_is_not_crossed(shape: Shape, s: u64, sym: SymbolState)
    requires
        shape.fits(),
        shape.reaches(sym),
        shape.starving(sym),
        sym.tick_size > 0,
    ensures
        shape.intended(s, sym).0 matches Intent::Submit { side, price, .. } && (match side {
            Side::Bid => price < sym.mid,
            Side::Ask => price > sym.mid,
        }),
{
    let hi = shape.price_spread_ticks as u64;
    assert forall|t: u64| 1 <= #[trigger] range_value(t, 1, hi) <= shape.reach() by {}
    assert forall|k: int| 1 <= k <= shape.reach() implies {
        &&& #[trigger] (k * sym.tick_size) > 0
        &&& i64::MIN <= sym.mid - k * sym.tick_size
        &&& sym.mid + k * sym.tick_size <= i64::MAX
    } by {
        assert(k * sym.tick_size > 0) by (nonlinear_arith)
            requires
                k >= 1,
                sym.tick_size > 0,
        ;
        lemma_mirrored(k, sym.tick_size as int);
        assert(i64::MIN <= (-k) * sym.tick_size <= i64::MAX);
    }
    let s1 = chance_state(s, Chance::Of(EVENLY));
    let k = range_value(s1, 1, hi) as int;
    assert(k * sym.tick_size > 0);
}

/// A price so many ticks to the better side of the mid: above it to buy, below it to sell.
pub open spec fn through_mid(sym: SymbolState, side: Side, ticks: int, price: i64) -> bool {
    price as int == (if side == Side::Bid {
        sym.mid + ticks * sym.tick_size
    } else {
        sym.mid - ticks * sym.tick_size
    })
}

/// An event of this chance comes about on this draw.
pub open spec fn comes_about(p: Chance, draw: u64) -> bool {
    match p {
        Chance::Never => false,
        Chance::Always => true,
        Chance::Of(n) => draw / 2048 < n,
    }
}

proof fn lemma_top_bits(draw: u64)
    ensures
        draw >> 11 == draw / 2048,
        draw >> 11 < 4_503_599_627_370_496 <==> draw < 0x8000_0000_0000_0000,
        draw >> 11 < 6_755_399_441_055_744 <==> draw < 0xc000_0000_0000_0000,
{
    assert(draw >> 11 == draw / 2048) by (bit_vector);
}

/// Every price a shape can reach is one: `k` ticks from the mid, either way.
proof fn lemma_reached(shape: Shape, sym: SymbolState, k: int)
    requires
        shape.reaches(sym),
        0 <= k <= shape.reach(),
    ensures
        i64::MIN <= sym.mid + k * sym.tick_size <= i64::MAX,
        i64::MIN <= sym.mid - k * sym.tick_size <= i64::MAX,
{
    assert(i64::MIN <= k * sym.tick_size <= i64::MAX);
    assert(i64::MIN <= (-k) * sym.tick_size <= i64::MAX);
    lemma_mirrored(k, sym.tick_size as int);
}

/// A new order is on a side that a fair draw decides. If a symbol has half of what it is
/// steered towards and the aggressive draw comes up, it is priced one to three ticks
/// through the mid, so that it reaches across the spread; any other is priced behind the
/// mid, by one tick up to the spread. Its size lies in the band.
pub proof fn law_submit_is_priced_by_its_draw(shape: Shape, s: u64, sym: SymbolState)
    requires
        shape.fits(),
        shape.reaches(sym),
    ensures
        ({
            let starving = sym.live@.len() < shape.target_depth / 2;
            let aggressive = !starving && comes_about(
                shape.aggressive_chance,
                drawn(stepped(s)),
            );
            let widest = if shape.price_spread_ticks < 1 {
                1
            } else {
                shape.price_spread_ticks as int
            };
            shape.submitting(s, sym).0 matches Intent::Submit {
                symbol_id,
                side,
                price,
                quantity,
            } && {
                &&& symbol_id == sym.id
                &&& side == Side::Bid <==> drawn(s) < 0x8000_0000_0000_0000
                &&& aggressive ==> exists|k: int|
                    1 <= k <= 3 && #[trigger] through_mid(sym, side, k, price)
                &&& !aggressive ==> exists|k: int|
                    1 <= k <= widest && #[trigger] through_mid(sym, side, -k, price)
                &&& aggressive && sym.tick_size > 0 ==> if side == Side::Bid {
                    price > sym.mid
                } else {
                    price < sym.mid
                }
                &&& !aggressive && sym.tick_size > 0 ==> if side == Side::Bid {
                    price < sym.mid
                } else {
                    price > sym.mid
                }
                &&& shape.min_quantity <= quantity
                &&& quantity <= shape.max_quantity || quantity == shape.min_quantity
            }
        }),
{
    lemma_top_bits(drawn(s));
    lemma_top_bits(drawn(stepped(s)));
    let hi = shape.price_spread_ticks as u64;
    let s1 = stepped(s);
    let starving = sym.live@.len() < shape.target_depth / 2;
    let aggressive = !starving && comes_about(shape.aggressive_chance, drawn(s1));
    let s2 = if starving {
        s1
    } else {
        chance_state(s1, shape.aggressive_chance)
    };
    let side = if drawn(s) < 0x8000_0000_0000_0000 {
        Side::Bid
    } else {
        Side::Ask
    };
    let price = shape.submitting(s, sym).0->Submit_price;
    if aggressive {
        let k = range_value(s2, 1, 3) as int;
        assert(1 <= k <= 3);
        lemma_reached(shape, sym, k);
        assert(through_mid(sym, side, k, price));
        if sym.tick_size > 0 {
            assert(k * sym.tick_size > 0) by (nonlinear_arith)
                requires
                    k >= 1,
                    sym.tick_size > 0,
            ;
        }
    } else {
        let k = range_value(s2, 1, hi) as int;
        assert(1 <= k <= (if hi < 1 {
            1
        } else {
            hi as int
        }));
        lemma_reached(shape, sym, k);
        lemma_mirrored(k, sym.tick_size as int);
        assert(through_mid(sym, side, -k, price));
        if sym.tick_size > 0 {
            assert(k * sym.tick_size > 0) by (nonlinear_arith)
                requires
                    k >= 1,
                    sym.tick_size > 0,
            ;
        }
    }
}

/// Whatever the flow submits is a submit as drawn from some state of the numbers, so that
/// [`law_submit_is_priced_by_its_draw`] holds of it. Where every draw of aggression comes
/// up, all of it crosses the mid; where none does, none of it.
pub proof fn law_every_submit_is_drawn(shape: Shape, s: u64, sym: SymbolState)
    requires
        shape.fits(),
        shape.reaches(sym),
        shape.intended(s, sym).0 is Submit,
    ensures
        exists|t: u64| #[trigger] shape.submitting(t, sym) == shape.intended(s, sym),
        sym.tick_size > 0 ==> (shape.intended(s, sym).0 matches Intent::Submit {
            side,
            price,
            ..
        } && {
            let starving = sym.live@.len() < shape.target_depth / 2;
            let better = if side == Side::Bid {
                price > sym.mid
            } else {
                price < sym.mid
            };
            &&& price != sym.mid
            &&& shape.aggressive_chance is Always && !starving ==> better
            &&& shape.aggressive_chance is Never || starving ==> !better
        }),
{
    let s1 = chance_state(s, shape.cancel_odds(sym));
    let t = if shape.starving(sym) || sym.live@.len() == 0 {
        s
    } else {
        chance_state(s1, shape.modify_chance)
    };
    assert(shape.submitting(t, sym) == shape.intended(s, sym));
    law_submit_is_priced_by_its_draw(shape, t, sym);
}

/// What comes next is decided by the draws, in this order: whether to cancel, more likely
/// than not where a symbol has over twice what it is steered towards; whether to amend; and
/// otherwise a new order. Each choice among the resting orders, each size and each price
/// takes the next draw.
pub proof fn law_intent_follows_its_draws(
    shape: Shape,
    s: u64,
    sym: SymbolState,
    cancel: u64,
    modify: u64,
    aggressive: u64,
)
    requires
        shape.fits(),
        shape.reaches(sym),
        shape.cancel_chance == Chance::Of(cancel),
        shape.modify_chance == Chance::Of(modify),
        shape.aggressive_chance == Chance::Of(aggressive),
        0 < sym.live@.len() <= u64::MAX,
        sym.live@.len() >= shape.target_depth / 2,
        shape.price_spread_ticks > 1,
        shape.min_quantity < shape.max_quantity,
    ensures
        ({
            let d = |i: nat| drawn(after(s, i));
            let n = sym.live@.len() as int;
            let lo = shape.min_quantity as int;
            let width = shape.max_quantity - shape.min_quantity + 1;
            let spread = shape.price_spread_ticks as int;
            let cancels = if sym.live@.len() > shape.target_depth * 2 {
                d(0) < 0xc000_0000_0000_0000
            } else {
                d(0) / 2048 < cancel
            };
            match shape.intended(s, sym).0 {
                Intent::Cancel { symbol_id, order_id } => {
                    &&& cancels
                    &&& symbol_id == sym.id
                    &&& order_id == sym.live@[d(1) as int % n]
                },
                Intent::Amend { symbol_id, order_id, new_price, new_quantity } => {
                    &&& !cancels && d(1) / 2048 < modify
                    &&& symbol_id == sym.id
                    &&& order_id == sym.live@[d(2) as int % n]
                    &&& new_quantity == lo + d(3) as int % width
                    &&& if d(4) < 0x8000_0000_0000_0000 {
                        new_price is None
                    } else {
                        new_price matches Some(p) && p == sym.mid + (d(5) as int % (2 * spread + 1)
                            - spread) * sym.tick_size
                    }
                },
                Intent::Submit { symbol_id, side, price, quantity } => {
                    &&& !cancels && d(1) / 2048 >= modify
                    &&& symbol_id == sym.id
                    &&& side == Side::Bid <==> d(2) < 0x8000_0000_0000_0000
                    &&& if d(3) / 2048 < aggressive {
                        through_mid(sym, side, 1 + d(4) as int % 3, price)
                    } else {
                        through_mid(sym, side, -(1 + d(4) as int % spread), price)
                    }
                    &&& quantity == lo + d(5) as int % width
                },
            }
        }),
{
    reveal_with_fuel(after, 7);
    let a0 = s;
    let a1 = stepped(a0);
    let a2 = stepped(a1);
    let a3 = stepped(a2);
    let a4 = stepped(a3);
    let a5 = stepped(a4);
    assert(after(s, 1) == a1 && after(s, 2) == a2 && after(s, 3) == a3 && after(s, 4) == a4
        && after(s, 5) == a5);
    lemma_top_bits(drawn(a0));
    lemma_top_bits(drawn(a1));
    lemma_top_bits(drawn(a2));
    lemma_top_bits(drawn(a3));
    lemma_top_bits(drawn(a4));
    let spread = shape.price_spread_ticks as int;
    let k = 1 + drawn(a4) as int % 3;
    let l = 1 + drawn(a4) as int % spread;
    lemma_reached(shape, sym, k);
    lemma_reached(shape, sym, l);
    lemma_mirrored(l, sym.tick_size as int);
    let offset = drawn(a5) as int % (2 * spread + 1) - spread;
    assert(-shape.reach() <= offset <= shape.reach());
    assert(i64::MIN <= offset * sym.tick_size <= i64::MAX);
}

} // verus!
