//! The engine's main loop: one turn of it, and what it does when by the clock. Times
//! are in nanoseconds since any one moment.

use crate::config::Config;
use crate::engine::{
    amend_effect, amendment, can_go_on, cancel_effect, checkpoints_of, incoming, matching_end,
    one_stopped, same_but_books, submit_effect, submit_messages, submit_stopped, Change, Checkpoint,
    Engine, Stopped, EngineError, SymbolState,
};
use crate::feed::{FeedModel, FeedPublisher};
use crate::generator::{clamped, Generator, Intent};

use crate::model::BookError;
use crate::rng::{after, below_state, below_value, drawn};
use vstd::prelude::*;

verus! {

/// How often each thing is done, and when all ends.
#[derive(Debug, Clone, Copy, PartialEq, Eq, Structural)]
pub struct Schedule {
    pub flush_every: u128,
    pub heartbeat_every: u128,
    /// None turns the snapshot cycle off.
    pub snapshot_every: Option<u128>,
    pub report_every: u128,
    pub deadline: Option<u128>,
    /// 0 sets no limit.
    pub message_limit: u64,
}

pub open spec fn at_least_one(n: u64) -> int {
    if n == 0 {
        1
    } else {
        n as int
    }
}

fn no_less_than_one(n: u64) -> (r: u64)
    ensures
        r == at_least_one(n),
{
    if n == 0 {
        1
    } else {
        n
    }
}

impl Schedule {
    /// The schedule that a configuration asks for, from this moment on.
    pub fn new(cfg: &Config, now: u128) -> (r: Self)
        requires
            now <= u64::MAX,
        ensures
            r.flush_every == at_least_one(cfg.feed.flush_interval_micros) * 1_000,
            r.heartbeat_every == at_least_one(cfg.feed.heartbeat_millis) * 1_000_000,
            r.snapshot_every == (if cfg.feed.snapshot_interval_millis > 0 {
                Some((cfg.feed.snapshot_interval_millis * 1_000_000) as u128)
            } else {
                None
            }),
            r.report_every == 5_000_000_000u128,
            r.deadline == (if cfg.engine.duration_seconds > 0 {
                Some((now + cfg.engine.duration_seconds * 1_000_000_000) as u128)
            } else {
                None
            }),
            r.message_limit == cfg.engine.messages,
    {
        Schedule {
            flush_every: no_less_than_one(cfg.feed.flush_interval_micros) as u128 * 1_000,
            heartbeat_every: no_less_than_one(cfg.feed.heartbeat_millis) as u128 * 1_000_000,
            snapshot_every: if cfg.feed.snapshot_interval_millis > 0 {
                Some(cfg.feed.snapshot_interval_millis as u128 * 1_000_000)
            } else {
                None
            },
            report_every: 5_000_000_000,
            deadline: if cfg.engine.duration_seconds > 0 {
                Some(now + cfg.engine.duration_seconds as u128 * 1_000_000_000)
            } else {
                None
            },
            message_limit: cfg.engine.messages,
        }
    }

    /// Whether the loop ends, at this time and after this many messages.
    pub fn is_over(&self, now: u128, messages: u64) -> (r: bool)
        ensures
            r == ((self.deadline matches Some(d) && now >= d) || (self.message_limit > 0
                && messages >= self.message_limit)),
    {
        if let Some(d) = self.deadline {
            if now >= d {
                return true;
            }
        }
        self.message_limit > 0 && messages >= self.message_limit
    }
}

/// When each thing was last done.
#[derive(Debug, Clone, Copy, PartialEq, Eq, Structural)]
pub struct Pace {
    pub last_flush: u128,
    pub last_heartbeat: u128,
    pub last_snapshot: u128,
    pub last_report: u128,
}

/// What is to be done now.
#[derive(Debug, Clone, Copy, PartialEq, Eq, Structural)]
pub struct Due {
    pub flush: bool,
    pub heartbeat: bool,
    pub snapshot: bool,
    pub report: bool,
}

/// An interval has passed since a time; a time that is yet to come is no time ago.
pub open spec fn passed(last: u128, every: u128, now: u128) -> bool {
    if now >= last {
        now - last >= every
    } else {
        every == 0
    }
}

fn has_passed(last: u128, every: u128, now: u128) -> (r: bool)
    ensures
        r == passed(last, every, now),
{
    if now >= last {
        now - last >= every
    } else {
        every == 0
    }
}

impl Pace {
    pub fn new(now: u128) -> (r: Self)
        ensures
            r == (Pace {
                last_flush: now,
                last_heartbeat: now,
                last_snapshot: now,
                last_report: now,
            }),
    {
        Pace { last_flush: now, last_heartbeat: now, last_snapshot: now, last_report: now }
    }

    pub open spec fn due_at(self, s: Schedule, now: u128) -> Due {
        Due {
            flush: passed(self.last_flush, s.flush_every, now),
            heartbeat: passed(self.last_heartbeat, s.heartbeat_every, now),
            snapshot: s.snapshot_every matches Some(every) && passed(
                self.last_snapshot,
                every,
                now,
            ),
            report: passed(self.last_report, s.report_every, now),
        }
    }

    /// What is to be done now, taken as done now.
    pub fn due(&mut self, s: &Schedule, now: u128) -> (r: Due)
        ensures
            r == old(self).due_at(*s, now),
            *final(self) == (Pace {
                last_flush: if r.flush {
                    now
                } else {
                    old(self).last_flush
                },
                last_heartbeat: if r.heartbeat {
                    now
                } else {
                    old(self).last_heartbeat
                },
                last_snapshot: if r.snapshot {
                    now
                } else {
                    old(self).last_snapshot
                },
                last_report: if r.report {
                    now
                } else {
                    old(self).last_report
                },
            }),
    {
        let flush = has_passed(self.last_flush, s.flush_every, now);
        let heartbeat = has_passed(self.last_heartbeat, s.heartbeat_every, now);
        let snapshot = match s.snapshot_every {
            Some(every) => has_passed(self.last_snapshot, every, now),
            None => false,
        };
        let report = has_passed(self.last_report, s.report_every, now);
        if flush {
            self.last_flush = now;
        }
        if heartbeat {
            self.last_heartbeat = now;
        }
        if snapshot {
            self.last_snapshot = now;
        }
        if report {
            self.last_report = now;
        }
        Due { flush, heartbeat, snapshot, report }
    }
}

/// What carrying out an intent does to the engine and to what is published, and the
/// checkpoints that fall on it.
pub open spec fn performed(
    e0: Engine,
    f0: FeedModel,
    e1: Engine,
    f1: FeedModel,
    intent: Intent,
    every: u64,
    checkpoints: Seq<Checkpoint>,
) -> bool {
    let from = f0.log.len() as int;
    match intent {
        Intent::Submit { symbol_id, side, price, quantity } => {
            &&& submit_effect(e0, f0, e1, f1, symbol_id, side, price, quantity, true)
            &&& checkpoints == checkpoints_of(
                e0.model(),
                from,
                submit_messages(
                    matching_end(e0, symbol_id, side, price, quantity),
                    incoming(e0, symbol_id, side, price),
                ),
                every,
            )
        },
        Intent::Cancel { symbol_id, order_id } => {
            let m = e0.model()[symbol_id];
            let msg = (Change::Delete { order_id, side: m.orders[order_id].side }).message(
                symbol_id,
            );
            &&& cancel_effect(e0, f0, e1, f1, symbol_id, order_id)
            &&& checkpoints == (if m.has(order_id) {
                checkpoints_of(e0.model(), from, seq![msg], every)
            } else {
                Seq::empty()
            })
        },
        Intent::Amend { symbol_id, order_id, new_price, new_quantity } => {
            let m = e0.model()[symbol_id];
            let msg = amendment(m.orders[order_id], new_price, new_quantity).message(symbol_id);
            &&& amend_effect(e0, f0, e1, f1, symbol_id, order_id, new_price, new_quantity)
            &&& checkpoints == (if m.has(order_id) {
                checkpoints_of(e0.model(), from, seq![msg], every)
            } else {
                Seq::empty()
            })
        },
    }
}

/// An intent failed, as far as it got.
pub open spec fn perform_stopped(
    e0: Engine,
    f: FeedModel,
    e1: Engine,
    f1: FeedModel,
    intent: Intent,
    every: u64,
    error: EngineError,
    checkpoints: Seq<Checkpoint>,
) -> bool {
    match intent {
        Intent::Submit { symbol_id, side, price, quantity } => submit_stopped(
            e0,
            f,
            e1,
            f1,
            symbol_id,
            side,
            price,
            quantity,
            every,
            error,
            checkpoints,
        ),
        Intent::Cancel { symbol_id, order_id } => {
            let m = e0.model()[symbol_id];
            &&& checkpoints == Seq::<Checkpoint>::empty()
            &&& m.has(order_id)
            &&& one_stopped(
                e0,
                f,
                e1,
                f1,
                (Change::Delete { order_id, side: m.orders[order_id].side }).message(symbol_id),
                error,
            )
        },
        Intent::Amend { symbol_id, order_id, new_price, new_quantity } => {
            let m = e0.model()[symbol_id];
            &&& checkpoints == Seq::<Checkpoint>::empty()
            &&& m.has(order_id)
            &&& if new_quantity == 0 {
                &&& error == EngineError::Book(BookError::ZeroQuantity(order_id))
                &&& e1.model() == e0.model()
                &&& same_but_books(e0, e1)
                &&& e1.with_book() == e0.with_book().insert(symbol_id)
                &&& f1 == f
            } else {
                one_stopped(
                    e0,
                    f,
                    e1,
                    f1,
                    amendment(m.orders[order_id], new_price, new_quantity).message(symbol_id),
                    error,
                )
            }
        },
    }
}

/// Carries out an intent, and gives the checkpoints that fall on it.
pub fn perform(engine: &mut Engine, feed: &mut FeedPublisher, intent: Intent, every: u64) -> (r:
    Result<Vec<Checkpoint>, Stopped>)
    requires
        old(engine).wf(),
        old(feed).wf(),
        can_go_on(*old(engine), *old(feed)),
    ensures
        final(engine).wf(),
        final(feed).wf(),
        old(engine).ids_issued() ==> final(engine).ids_issued(),
        final(engine).symbol_list().len() == old(engine).symbol_list().len(),
        final(feed)@.sizes == old(feed)@.sizes,
        final(feed)@.max_bytes == old(feed)@.max_bytes,
        old(feed)@.sizes.fit(old(feed)@.max_bytes as int) && old(engine).ids_issued() && !(
        intent matches Intent::Amend { new_quantity: 0, .. }) ==> r is Ok,
        r matches Ok(c) ==> performed(
            *old(engine),
            old(feed)@,
            *final(engine),
            final(feed)@,
            intent,
            every,
            c@,
        ),
        r matches Err(e) ==> perform_stopped(
            *old(engine),
            old(feed)@,
            *final(engine),
            final(feed)@,
            intent,
            every,
            e.error,
            e.checkpoints@,
        ),
{
    let ghost none = Seq::<Checkpoint>::empty();
    match intent {
        Intent::Submit { symbol_id, side, price, quantity } => engine.submit(
            feed,
            symbol_id,
            side,
            price,
            quantity,
            every,
        ),
        Intent::Cancel { symbol_id, order_id } => {
            match engine.cancel(feed, symbol_id, order_id, every) {
                Ok(c) => {
                    assert(c@.len() == 0 ==> c@ =~= none);
                    Ok(c)
                },
                Err(error) => Err(Stopped { error, checkpoints: Vec::new() }),
            }
        },
        Intent::Amend { symbol_id, order_id, new_price, new_quantity } => {
            match engine.amend(feed, symbol_id, order_id, new_price, new_quantity, every) {
                Ok(c) => {
                    assert(c@.len() == 0 ==> c@ =~= none);
                    Ok(c)
                },
                Err(error) => Err(Stopped { error, checkpoints: Vec::new() }),
            }
        },
    }
}

/// Why the loop could not make another turn.
#[derive(Debug, PartialEq, Eq)]
pub enum TurnError {
    /// The numbers of orders, trades or messages have run out.
    NoNumbers,
    /// The mid of a symbol is so far out that not every price around it is a price.
    MidOutOfRange { symbol_id: u16 },
    Engine(Stopped),
}

/// One turn, as far as chance decides it.
pub struct Drawn {
    /// The place of the symbol.
    pub index: int,
    /// Its mid, drifted.
    pub mid: i64,
    /// The state of the numbers after both.
    pub state: u64,
}

pub open spec fn draw_turn(symbols: Seq<SymbolState>, state: u64) -> Drawn {
    let n = symbols.len() as u64;
    let index = below_value(state, n) as int;
    let s1 = below_state(state, n);
    let sym = symbols[index];
    Drawn {
        index,
        mid: match below_value(s1, 64) {
            0u64 => clamped(sym.mid + sym.tick_size),
            1u64 => clamped(sym.mid - sym.tick_size),
            _ => sym.mid,
        },
        state: below_state(s1, 64),
    }
}

/// Only the mid of one symbol has changed.
pub open spec fn mid_set(e0: Engine, e1: Engine, index: int, mid: i64) -> bool {
    &&& e1.symbol_list() == e0.symbol_list().update(
        index,
        (SymbolState { mid, ..e0.symbol_list()[index] }),
    )
    &&& e1.model() == e0.model()
    &&& e1.with_book() == e0.with_book()
    &&& e1.order_ids() == e0.order_ids()
    &&& e1.trade_ids() == e0.trade_ids()
    &&& e1.counters() == e0.counters()
    &&& e1.watching() == e0.watching()
    &&& e1.passive_fills() == e0.passive_fills()
}

/// One turn of the loop: a symbol is drawn and its mid drifts, the crowd wants
/// something of it, and that is carried out.
pub fn turn(
    engine: &mut Engine,
    feed: &mut FeedPublisher,
    crowd: &mut Generator,
    every: u64,
) -> (r: Result<Vec<Checkpoint>, TurnError>)
    requires
        old(engine).wf(),
        old(feed).wf(),
        0 < old(engine).symbol_list().len() <= u64::MAX,
        old(crowd).shaped().fits(),
    ensures
        final(engine).wf(),
        final(feed).wf(),
        final(crowd).shaped() == old(crowd).shaped(),
        final(engine).symbol_list().len() == old(engine).symbol_list().len(),
        old(engine).ids_issued() ==> final(engine).ids_issued(),
        final(feed)@.sizes == old(feed)@.sizes,
        final(feed)@.max_bytes == old(feed)@.max_bytes,
        r == Err::<Vec<Checkpoint>, TurnError>(TurnError::NoNumbers) <==> !can_go_on(
            *old(engine),
            *old(feed),
        ),
        !can_go_on(*old(engine), *old(feed)) ==> *final(engine) == *old(engine) && *final(feed)
            == *old(feed) && final(crowd).state() == old(crowd).state(),
        can_go_on(*old(engine), *old(feed)) ==> {
            let shape = old(crowd).shaped();
            let d = draw_turn(old(engine).symbol_list(), old(crowd).state());
            let sym = SymbolState { mid: d.mid, ..old(engine).symbol_list()[d.index] };
            let want = shape.intended(d.state, sym);
            if !shape.reaches(sym) {
                &&& r == Err::<Vec<Checkpoint>, TurnError>(
                    TurnError::MidOutOfRange { symbol_id: sym.id },
                )
                &&& mid_set(*old(engine), *final(engine), d.index, d.mid)
                &&& *final(feed) == *old(feed)
                &&& final(crowd).state() == d.state
            } else {
                &&& final(crowd).state() == want.1
                &&& r matches Ok(c) ==> exists|e: Engine| #[trigger]
                    mid_set(*old(engine), e, d.index, d.mid) && performed(
                        e,
                        old(feed)@,
                        *final(engine),
                        final(feed)@,
                        want.0,
                        every,
                        c@,
                    )
                &&& r matches Err(error) ==> error matches TurnError::Engine(x) && exists|
                    e: Engine,
                | #[trigger]
                    mid_set(*old(engine), e, d.index, d.mid) && perform_stopped(
                        e,
                        old(feed)@,
                        *final(engine),
                        final(feed)@,
                        want.0,
                        every,
                        x.error,
                        x.checkpoints@,
                    )
            }
        },
{
    if !engine.goes_on(feed) {
        return Err(TurnError::NoNumbers);
    }
    let index: usize = crowd.pick_symbol(engine.symbols().len());
    let mut drifted: SymbolState = SymbolState {
        id: engine.symbols()[index].id,
        tick_size: engine.symbols()[index].tick_size,
        mid: engine.symbols()[index].mid,
        live: Vec::new(),
    };
    crowd.drift_mid(&mut drifted);
    engine.set_mid(index, drifted.mid);
    let ghost e = *engine;
    let sym = &engine.symbols()[index];
    if !crowd.shape().can_reach(sym) {
        return Err(TurnError::MidOutOfRange { symbol_id: sym.id });
    }
    let intent: Intent = crowd.next(sym);
    assert(mid_set(*old(engine), e, index as int, drifted.mid));
    match perform(engine, feed, intent, every) {
        Ok(c) => Ok(c),
        Err(error) => Err(TurnError::Engine(error)),
    }
}

/// Each timer goes by itself: it is due once its own interval has passed since it was last
/// due, and never before; a snapshot never where the cycle is off.
pub proof fn law_each_timer_goes_by_itself(p: Pace, s: Schedule, now: u128)
    requires
        p.last_flush <= now,
        p.last_heartbeat <= now,
        p.last_snapshot <= now,
        p.last_report <= now,
    ensures
        p.due_at(s, now).flush <==> p.last_flush + s.flush_every <= now,
        p.due_at(s, now).heartbeat <==> p.last_heartbeat + s.heartbeat_every <= now,
        p.due_at(s, now).snapshot <==> (s.snapshot_every matches Some(every) && p.last_snapshot
            + every <= now),
        p.due_at(s, now).report <==> p.last_report + s.report_every <= now,
{
}

/// Once a timer that has an interval was due it is not due again at once, nor, if the clock
/// should go back, before the time it was due at.
pub proof fn law_timer_rests_until_its_interval_has_passed(last: u128, every: u128, now: u128)
    requires
        every > 0,
    ensures
        !passed(now, every, now),
        now < last ==> !passed(last, every, now),
        forall|later: u128|
            now <= later ==> (#[trigger] passed(now, every, later) <==> later - now >= every),
{
}

/// A turn picks one of the symbols and moves its mid by one tick up, by one down, or not at
/// all, as the draws say, and never out of what a price can be.
pub proof fn law_turn_moves_one_mid_by_a_tick(symbols: Seq<SymbolState>, state: u64)
    requires
        0 < symbols.len() <= u64::MAX,
    ensures
        ({
            let d = draw_turn(symbols, state);
            let first = drawn(state);
            let second = drawn(after(state, 1));
            let sym = symbols[d.index];
            let to = if second % 64 == 0 {
                sym.mid + sym.tick_size
            } else if second % 64 == 1 {
                sym.mid - sym.tick_size
            } else {
                sym.mid as int
            };
            &&& d.index == first as int % symbols.len() as int
            &&& 0 <= d.index < symbols.len()
            &&& d.state == after(state, 2)
            &&& i64::MIN <= to <= i64::MAX ==> d.mid == to
            &&& to > i64::MAX ==> d.mid == i64::MAX
            &&& to < i64::MIN ==> d.mid == i64::MIN
        }),
{
    reveal_with_fuel(after, 3);
}

} // verus!
