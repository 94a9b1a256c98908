//! The order path: what strategies ask of the engine, and what they are told.
//!
//! A strategy's message comes in decoded, and the reports for it go out through a
//! bounded outbox. A report that does not fit is dropped and counted, never
//! waited for: the engine does not stop for a strategy that has stopped reading.

use crate::engine::{
    cancel_effect, matching_end, one_stopped, submit_effect, submit_stopped, without_id,
    AggressorFill, Change, Checkpoint, Engine, EngineError, PassiveFill, SubmitReport,
};
use crate::feed::{FeedModel, FeedPublisher};
use crate::message::Side;
use crate::model::{BookModel, RestingOrder};
use crate::reference::ReferenceBook;
use crate::view::{models, BookSet};
use vstd::prelude::*;
use vstd::wrapping::u64_specs::wrapping_add;

verus! {

/// The most messages one pass takes.
pub const ORDERS_PER_PASS: usize = 64;

/// The most resting orders that are followed for strategies. An order that would rest
/// beyond it is rejected, with what is left of it taken off the book again.
pub const MAX_OWNED: usize = 4096;

/// The most fills of one order, or of one pass, that are reported.
pub const MAX_FILLS: usize = 32;

#[derive(Debug, Clone, Copy, PartialEq, Eq, Structural)]
pub enum ExecType {
    Acknowledged,
    PartialFill,
    Fill,
    Canceled,
    Rejected,
    OrderStatus,
    StatusComplete,
}

#[derive(Debug, Clone, Copy, PartialEq, Eq, Structural)]
pub enum RejectReason {
    NotRejected,
    UnknownSymbol,
    UnknownOrder,
    /// More orders of strategies rest than can be followed.
    TooManyOrders,
}

/// A report to a strategy.
#[derive(Debug, Clone, Copy, PartialEq, Eq, Structural)]
pub struct ExecReport {
    pub client_order_id: u64,
    pub exchange_order_id: u64,
    pub trade_id: u64,
    pub price: i64,
    pub quantity: u32,
    pub leaves_quantity: u32,
    pub symbol_id: u16,
    pub side: Side,
    pub exec_type: ExecType,
    pub reject_reason: RejectReason,
}

/// A message of a strategy. A side that is neither bid nor ask is `None`.
#[derive(Debug, Clone, Copy, PartialEq, Eq, Structural)]
pub enum OrderPathMessage {
    NewOrder {
        client_order_id: u64,
        symbol_id: u16,
        side: Option<Side>,
        price: i64,
        quantity: u32,
    },
    CancelOrder {
        client_order_id: u64,
        orig_client_order_id: u64,
        symbol_id: u16,
        side: Option<Side>,
    },
    ReconcileRequest { request_id: u64 },
    ExecReport,
}

/// What has gone through. The counters wrap.
#[derive(Debug, Clone, Copy, PartialEq, Eq, Structural)]
pub struct OrderPathStats {
    pub orders_received: u64,
    pub cancels_received: u64,
    pub fills_reported: u64,
    pub acks_reported: u64,
    pub cancels_reported: u64,
    pub rejects_reported: u64,
    pub reconciles_answered: u64,
    pub orders_named_in_reconciliation: u64,
    pub reports_dropped: u64,
}

impl OrderPathStats {
    pub open spec fn zero() -> OrderPathStats {
        OrderPathStats {
            orders_received: 0,
            cancels_received: 0,
            fills_reported: 0,
            acks_reported: 0,
            cancels_reported: 0,
            rejects_reported: 0,
            reconciles_answered: 0,
            orders_named_in_reconciliation: 0,
            reports_dropped: 0,
        }
    }
}

impl Default for OrderPathStats {
    fn default() -> (r: Self)
        ensures
            r == OrderPathStats::zero(),
    {
        OrderPathStats {
            orders_received: 0,
            cancels_received: 0,
            fills_reported: 0,
            acks_reported: 0,
            cancels_reported: 0,
            rejects_reported: 0,
            reconciles_answered: 0,
            orders_named_in_reconciliation: 0,
            reports_dropped: 0,
        }
    }
}

/// A strategy's order that rests.
#[derive(Debug, Clone, Copy, PartialEq, Eq, Structural)]
pub struct Owned {
    pub exchange_order_id: u64,
    pub client_order_id: u64,
}

/// What the order path knows.
#[verifier::ext_equal]
pub struct PathModel {
    pub owned: Seq<Owned>,
    /// Orders to be watched from the next pass on.
    pub to_watch: Seq<u64>,
    /// Orders to be watched no longer from the next pass on.
    pub finished: Seq<u64>,
    pub outbox: Seq<ExecReport>,
    /// How many reports the outbox takes.
    pub room: nat,
    pub stats: OrderPathStats,
}

/// The owned orders but one.
pub open spec fn disowned(owned: Seq<Owned>, id: u64) -> Seq<Owned> {
    owned.filter(|o: Owned| o.exchange_order_id != id)
}

/// The symbol whose book holds an order is the lowest that does.
pub open spec fn is_holder(books: Map<u16, BookModel>, id: u64, s: u16) -> bool {
    &&& books[s].has(id)
    &&& forall|t: u16| t < s ==> !(#[trigger] books[t]).has(id)
}

/// Where an order rests.
pub open spec fn holder(books: Map<u16, BookModel>, id: u64) -> Option<u16> {
    if exists|s: u16| is_holder(books, id, s) {
        Some(choose|s: u16| is_holder(books, id, s))
    } else {
        None
    }
}

impl PathModel {
    /// With a report sent, or dropped where there is no room.
    pub open spec fn emitted(self, r: ExecReport) -> PathModel {
        if self.outbox.len() < self.room {
            PathModel { outbox: self.outbox.push(r), ..self }
        } else {
            PathModel {
                stats: OrderPathStats {
                    reports_dropped: wrapping_add(self.stats.reports_dropped, 1),
                    ..self.stats
                },
                ..self
            }
        }
    }

    pub open spec fn dropped(self, n: int) -> PathModel {
        PathModel {
            stats: OrderPathStats {
                reports_dropped: wrapping_add(self.stats.reports_dropped, n as u64),
                ..self.stats
            },
            ..self
        }
    }

    pub open spec fn rejected(self, r: ExecReport) -> PathModel {
        let m = self.emitted(r);
        PathModel {
            stats: OrderPathStats {
                rejects_reported: wrapping_add(m.stats.rejects_reported, 1),
                ..m.stats
            },
            ..m
        }
    }

    pub open spec fn fill_sent(self, r: ExecReport) -> PathModel {
        let m = self.emitted(r);
        PathModel {
            stats: OrderPathStats {
                fills_reported: wrapping_add(m.stats.fills_reported, 1),
                ..m.stats
            },
            ..m
        }
    }

    /// With the first `k` fills of an order reported.
    pub open spec fn fills_sent(self, o: FilledOrder, k: int) -> PathModel
        decreases k,
    {
        if k <= 0 {
            self
        } else {
            self.fills_sent(o, k - 1).fill_sent(o.fill_report(k - 1))
        }
    }

    /// With an order that rests acknowledged, and followed.
    pub open spec fn acknowledged(self, o: FilledOrder) -> PathModel {
        let m = PathModel {
            owned: self.owned.push(
                Owned { exchange_order_id: o.order_id, client_order_id: o.client_order_id },
            ),
            to_watch: self.to_watch.push(o.order_id),
            ..self
        };
        let n = m.emitted(o.ack_report());
        PathModel {
            stats: OrderPathStats {
                acks_reported: wrapping_add(n.stats.acks_reported, 1),
                ..n.stats
            },
            ..n
        }
    }

    /// An order would rest that cannot be followed.
    pub open spec fn turns_away(self, o: FilledOrder) -> bool {
        o.resting > 0 && self.owned.len() >= MAX_OWNED
    }

    /// With everything about a submitted order reported.
    pub open spec fn submitted(self, o: FilledOrder) -> PathModel {
        let sent = self.fills_sent(o, o.reported());
        let m = if o.fills.len() > MAX_FILLS {
            sent.dropped(o.fills.len() - MAX_FILLS)
        } else {
            sent
        };
        if self.turns_away(o) {
            m.rejected(o.refusal_report())
        } else if o.resting > 0 {
            m.acknowledged(o)
        } else {
            m
        }
    }

    /// With the fill of a resting order reported to its owner.
    pub open spec fn passive_sent(self, f: PassiveFill) -> PathModel {
        match first_owned(self.owned, f.resting_order_id) {
            None => self.dropped(1),
            Some(o) => {
                let m = self.fill_sent(passive_report(o, f));
                if f.leaves == 0 {
                    PathModel {
                        owned: disowned(m.owned, f.resting_order_id),
                        finished: m.finished.push(f.resting_order_id),
                        ..m
                    }
                } else {
                    m
                }
            },
        }
    }

    pub open spec fn passives_sent(self, fills: Seq<PassiveFill>) -> PathModel
        decreases fills.len(),
    {
        if fills.len() == 0 {
            self
        } else {
            self.passives_sent(fills.drop_last()).passive_sent(fills.last())
        }
    }

    /// With a cancelled order, or one that was not there, reported.
    pub open spec fn cancel_answered(
        self,
        client_order_id: u64,
        orig: u64,
        symbol_id: u16,
        side: Side,
        left: Option<u32>,
    ) -> PathModel {
        match left {
            Some(remaining) => {
                let m = PathModel {
                    owned: disowned(self.owned, orig),
                    finished: self.finished.push(orig),
                    ..self
                };
                let n = m.emitted(
                    ExecReport {
                        client_order_id,
                        exchange_order_id: orig,
                        trade_id: 0,
                        price: 0,
                        quantity: remaining,
                        leaves_quantity: 0,
                        symbol_id,
                        side,
                        exec_type: ExecType::Canceled,
                        reject_reason: RejectReason::NotRejected,
                    },
                );
                PathModel {
                    stats: OrderPathStats {
                        cancels_reported: wrapping_add(n.stats.cancels_reported, 1),
                        ..n.stats
                    },
                    ..n
                }
            },
            None => self.rejected(
                ExecReport {
                    client_order_id,
                    exchange_order_id: orig,
                    trade_id: 0,
                    price: 0,
                    quantity: 0,
                    leaves_quantity: 0,
                    symbol_id,
                    side,
                    exec_type: ExecType::Rejected,
                    reject_reason: RejectReason::UnknownOrder,
                },
            ),
        }
    }
}

/// The first owned order of this id.
pub open spec fn first_owned(owned: Seq<Owned>, id: u64) -> Option<Owned>
    decreases owned.len(),
{
    if owned.len() == 0 {
        None
    } else if owned[0].exchange_order_id == id {
        Some(owned[0])
    } else {
        first_owned(owned.drop_first(), id)
    }
}

pub open spec fn passive_report(o: Owned, f: PassiveFill) -> ExecReport {
    ExecReport {
        client_order_id: o.client_order_id,
        exchange_order_id: f.resting_order_id,
        trade_id: f.trade_id,
        price: f.price,
        quantity: f.quantity,
        leaves_quantity: f.leaves,
        symbol_id: f.symbol_id,
        side: f.side,
        exec_type: if f.leaves == 0 {
            ExecType::Fill
        } else {
            ExecType::PartialFill
        },
        reject_reason: RejectReason::NotRejected,
    }
}

/// A strategy's order and what became of it.
pub struct FilledOrder {
    pub client_order_id: u64,
    pub symbol_id: u16,
    pub side: Side,
    pub price: i64,
    pub quantity: u32,
    pub order_id: u64,
    pub resting: u32,
    pub fills: Seq<AggressorFill>,
}

impl FilledOrder {
    /// How many of its fills are reported.
    pub open spec fn reported(self) -> int {
        if self.fills.len() < MAX_FILLS {
            self.fills.len() as int
        } else {
            MAX_FILLS as int
        }
    }

    /// The report of a fill. The last one closes the order where nothing is left of
    /// it and no fill went unreported.
    pub open spec fn fill_report(self, i: int) -> ExecReport {
        let f = self.fills[i];
        ExecReport {
            client_order_id: self.client_order_id,
            exchange_order_id: self.order_id,
            trade_id: f.trade_id,
            price: f.price,
            quantity: f.quantity,
            leaves_quantity: f.leaves,
            symbol_id: self.symbol_id,
            side: self.side,
            exec_type: if i + 1 == self.reported() && f.leaves == 0 && self.fills.len()
                <= MAX_FILLS {
                ExecType::Fill
            } else {
                ExecType::PartialFill
            },
            reject_reason: RejectReason::NotRejected,
        }
    }

    pub open spec fn ack_report(self) -> ExecReport {
        ExecReport {
            client_order_id: self.client_order_id,
            exchange_order_id: self.order_id,
            trade_id: 0,
            price: self.price,
            quantity: self.quantity,
            leaves_quantity: self.resting,
            symbol_id: self.symbol_id,
            side: self.side,
            exec_type: ExecType::Acknowledged,
            reject_reason: RejectReason::NotRejected,
        }
    }

    /// The report that what is left of the order does not rest.
    pub open spec fn refusal_report(self) -> ExecReport {
        ExecReport {
            client_order_id: self.client_order_id,
            exchange_order_id: self.order_id,
            trade_id: 0,
            price: self.price,
            quantity: self.resting,
            leaves_quantity: 0,
            symbol_id: self.symbol_id,
            side: self.side,
            exec_type: ExecType::Rejected,
            reject_reason: RejectReason::TooManyOrders,
        }
    }
}

/// The report that names an order which still rests.
pub open spec fn status_report(owned: Owned, o: RestingOrder, symbol_id: u16) -> ExecReport {
    ExecReport {
        client_order_id: owned.client_order_id,
        exchange_order_id: owned.exchange_order_id,
        trade_id: 0,
        price: o.price,
        quantity: o.quantity,
        leaves_quantity: o.quantity,
        symbol_id,
        side: o.side,
        exec_type: ExecType::OrderStatus,
        reject_reason: RejectReason::NotRejected,
    }
}

/// A reconciliation under way.
#[verifier::ext_equal]
pub struct Reconciling {
    pub kept: Seq<Owned>,
    pub outbox: Seq<ExecReport>,
    pub named: int,
    pub dropped: int,
}

/// After the first `k` owned orders: each that still rests is named, as far as there
/// is room, and each that does not is forgotten.
pub open spec fn reconciled(
    m: PathModel,
    books: Map<u16, BookModel>,
    k: int,
) -> Reconciling
    decreases k,
{
    if k <= 0 {
        Reconciling { kept: Seq::empty(), outbox: m.outbox, named: 0, dropped: 0 }
    } else {
        let r = reconciled(m, books, k - 1);
        let owned = m.owned[k - 1];
        match holder(books, owned.exchange_order_id) {
            None => r,
            Some(s) => if r.outbox.len() < m.room {
                Reconciling {
                    kept: r.kept.push(owned),
                    outbox: r.outbox.push(
                        status_report(owned, books[s].orders[owned.exchange_order_id], s),
                    ),
                    named: r.named + 1,
                    dropped: r.dropped,
                }
            } else {
                Reconciling { kept: r.kept.push(owned), dropped: r.dropped + 1, ..r }
            },
        }
    }
}

impl PathModel {
    /// With a reconciliation answered: the orders that rest, and then how many were
    /// named.
    pub open spec fn reconcile_answered(
        self,
        request_id: u64,
        books: Map<u16, BookModel>,
    ) -> PathModel {
        let r = reconciled(self, books, self.owned.len() as int);
        let m = PathModel {
            owned: r.kept,
            outbox: r.outbox,
            stats: OrderPathStats {
                reconciles_answered: wrapping_add(self.stats.reconciles_answered, 1),
                orders_named_in_reconciliation: wrapping_add(
                    self.stats.orders_named_in_reconciliation,
                    r.named as u64,
                ),
                reports_dropped: wrapping_add(self.stats.reports_dropped, r.dropped as u64),
                ..self.stats
            },
            ..self
        };
        m.emitted(
            ExecReport {
                client_order_id: request_id,
                exchange_order_id: 0,
                trade_id: 0,
                price: 0,
                quantity: if r.named <= u32::MAX {
                    r.named as u32
                } else {
                    u32::MAX
                },
                leaves_quantity: 0,
                symbol_id: 0,
                side: Side::Bid,
                exec_type: ExecType::StatusComplete,
                reject_reason: RejectReason::NotRejected,
            },
        )
    }
}

#[derive(Debug)]
pub struct OrderPath {
    owned: Vec<Owned>,
    to_watch: Vec<u64>,
    finished: Vec<u64>,
    outbox: Vec<ExecReport>,
    room: usize,
    stats: OrderPathStats,
}

impl View for OrderPath {
    type V = PathModel;

    closed spec fn view(&self) -> PathModel {
        PathModel {
            owned: self.owned@,
            to_watch: self.to_watch@,
            finished: self.finished@,
            outbox: self.outbox@,
            room: self.room as nat,
            stats: self.stats,
        }
    }
}

impl OrderPath {
    /// A path that nothing has gone through, without room for reports yet.
    pub fn new() -> (r: Self)
        ensures
            r@ == (PathModel {
                owned: Seq::empty(),
                to_watch: Seq::empty(),
                finished: Seq::empty(),
                outbox: Seq::empty(),
                room: 0,
                stats: OrderPathStats::zero(),
            }),
    {
        let r = OrderPath {
            owned: Vec::new(),
            to_watch: Vec::new(),
            finished: Vec::new(),
            outbox: Vec::new(),
            room: 0,
            stats: OrderPathStats::default(),
        };
        proof {
            assert(r@.owned =~= Seq::<Owned>::empty());
            assert(r@.to_watch =~= Seq::<u64>::empty());
            assert(r@.finished =~= Seq::<u64>::empty());
            assert(r@.outbox =~= Seq::<ExecReport>::empty());
        }
        r
    }

    pub fn stats(&self) -> (r: OrderPathStats)
        ensures
            r == self@.stats,
    {
        self.stats
    }

    /// Says how many reports can be sent.
    pub fn set_room(&mut self, room: usize)
        ensures
            final(self)@ == (PathModel { room: room as nat, ..old(self)@ }),
    {
        self.room = room;
    }

    /// Takes the reports to be sent, oldest first.
    pub fn take_reports(&mut self) -> (r: Vec<ExecReport>)
        ensures
            r@ == old(self)@.outbox,
            final(self)@ == (PathModel { outbox: Seq::empty(), ..old(self)@ }),
    {
        let mut out: Vec<ExecReport> = Vec::new();
        out.append(&mut self.outbox);
        assert(out@ =~= old(self)@.outbox);
        assert(self@.outbox =~= Seq::<ExecReport>::empty());
        out
    }

    fn emit(&mut self, r: ExecReport)
        ensures
            final(self)@ == old(self)@.emitted(r),
    {
        if self.outbox.len() < self.room {
            self.outbox.push(r);
        } else {
            self.stats.reports_dropped = self.stats.reports_dropped.wrapping_add(1);
        }
    }

    fn emit_reject(
        &mut self,
        client_order_id: u64,
        symbol_id: u16,
        side: Side,
        reason: RejectReason,
    )
        ensures
            final(self)@ == old(self)@.rejected(
                ExecReport {
                    client_order_id,
                    exchange_order_id: 0,
                    trade_id: 0,
                    price: 0,
                    quantity: 0,
                    leaves_quantity: 0,
                    symbol_id,
                    side,
                    exec_type: ExecType::Rejected,
                    reject_reason: reason,
                },
            ),
    {
        self.emit(
            ExecReport {
                client_order_id,
                exchange_order_id: 0,
                trade_id: 0,
                price: 0,
                quantity: 0,
                leaves_quantity: 0,
                symbol_id,
                side,
                exec_type: ExecType::Rejected,
                reject_reason: reason,
            },
        );
        self.stats.rejects_reported = self.stats.rejects_reported.wrapping_add(1);
    }

    /// Reports what became of a submitted order, and says whether what is left of it has
    /// to come off the book because it cannot be followed.
    pub fn report_submitted(
        &mut self,
        client_order_id: u64,
        symbol_id: u16,
        side: Side,
        price: i64,
        quantity: u32,
        outcome: &SubmitReport,
    ) -> (withdraw: bool)
        ensures
            withdraw == (outcome.resting > 0 && old(self)@.owned.len() >= MAX_OWNED),
            final(self)@ == old(self)@.submitted(
                FilledOrder {
                    client_order_id,
                    symbol_id,
                    side,
                    price,
                    quantity,
                    order_id: outcome.order_id,
                    resting: outcome.resting,
                    fills: outcome.fills@,
                },
            ),
    {
        let ghost o = FilledOrder {
            client_order_id,
            symbol_id,
            side,
            price,
            quantity,
            order_id: outcome.order_id,
            resting: outcome.resting,
            fills: outcome.fills@,
        };
        let withdraw: bool = outcome.resting > 0 && self.owned.len() >= MAX_OWNED;
        let n: usize = outcome.fills.len();
        let shown: usize = if n < MAX_FILLS {
            n
        } else {
            MAX_FILLS
        };
        let mut i: usize = 0;
        while i < shown
            invariant
                i <= shown <= n,
                n == outcome.fills@.len(),
                shown == o.reported(),
                o == (FilledOrder {
                    client_order_id,
                    symbol_id,
                    side,
                    price,
                    quantity,
                    order_id: outcome.order_id,
                    resting: outcome.resting,
                    fills: outcome.fills@,
                }),
                self@ == old(self)@.fills_sent(o, i as int),
            decreases shown - i,
        {
            let f = outcome.fills[i];
            let last: bool = i + 1 == shown && f.leaves == 0 && n <= MAX_FILLS;
            self.emit(
                ExecReport {
                    client_order_id,
                    exchange_order_id: outcome.order_id,
                    trade_id: f.trade_id,
                    price: f.price,
                    quantity: f.quantity,
                    leaves_quantity: f.leaves,
                    symbol_id,
                    side,
                    exec_type: if last {
                        ExecType::Fill
                    } else {
                        ExecType::PartialFill
                    },
                    reject_reason: RejectReason::NotRejected,
                },
            );
            self.stats.fills_reported = self.stats.fills_reported.wrapping_add(1);
            i = i + 1;
        }
        if n > MAX_FILLS {
            let over: u64 = (n - MAX_FILLS) as u64;
            self.stats.reports_dropped = self.stats.reports_dropped.wrapping_add(over);
        }
        if withdraw {
            self.emit(
                ExecReport {
                    client_order_id,
                    exchange_order_id: outcome.order_id,
                    trade_id: 0,
                    price,
                    quantity: outcome.resting,
                    leaves_quantity: 0,
                    symbol_id,
                    side,
                    exec_type: ExecType::Rejected,
                    reject_reason: RejectReason::TooManyOrders,
                },
            );
            self.stats.rejects_reported = self.stats.rejects_reported.wrapping_add(1);
        } else if outcome.resting > 0 {
            self.owned.push(Owned { exchange_order_id: outcome.order_id, client_order_id });
            self.to_watch.push(outcome.order_id);
            self.emit(
                ExecReport {
                    client_order_id,
                    exchange_order_id: outcome.order_id,
                    trade_id: 0,
                    price,
                    quantity,
                    leaves_quantity: outcome.resting,
                    symbol_id,
                    side,
                    exec_type: ExecType::Acknowledged,
                    reject_reason: RejectReason::NotRejected,
                },
            );
            self.stats.acks_reported = self.stats.acks_reported.wrapping_add(1);
        }
        withdraw
    }

    /// Forgets an owned order.
    fn disown(&mut self, id: u64)
        ensures
            final(self)@ == (PathModel { owned: disowned(old(self)@.owned, id), ..old(self)@ }),
    {
        let mut kept: Vec<Owned> = Vec::new();
        let mut i: usize = 0;
        let ghost w = self.owned@;
        let ghost keep = |o: Owned| o.exchange_order_id != id;
        proof {
            reveal(Seq::filter);
            assert(w.take(0) =~= Seq::<Owned>::empty());
        }
        while i < self.owned.len()
            invariant
                *self == *old(self),
                w == self.owned@,
                keep == (|o: Owned| o.exchange_order_id != id),
                i <= w.len(),
                kept@ == w.take(i as int).filter(keep),
            decreases w.len() - i,
        {
            proof {
                reveal(Seq::filter);
                assert(w.take(i as int + 1).drop_last() =~= w.take(i as int));
            }
            if self.owned[i].exchange_order_id != id {
                kept.push(self.owned[i]);
            }
            i = i + 1;
        }
        assert(w.take(i as int) =~= w);
        self.owned = kept;
    }

    /// Reports the fill of a resting order to its owner.
    pub fn report_passive_fill(&mut self, f: PassiveFill)
        ensures
            final(self)@ == old(self)@.passive_sent(f),
    {
        let ghost owned = self.owned@;
        let mut found: Option<Owned> = None;
        let mut i: usize = 0;
        assert(owned.skip(0) =~= owned);
        while i < self.owned.len() && found.is_none()
            invariant
                *self == *old(self),
                owned == self.owned@,
                i <= owned.len(),
                found is None ==> first_owned(owned, f.resting_order_id) == first_owned(
                    owned.skip(i as int),
                    f.resting_order_id,
                ),
                found is Some ==> first_owned(owned, f.resting_order_id) == found,
            decreases owned.len() - i,
        {
            let o = self.owned[i];
            assert(owned.skip(i as int).drop_first() =~= owned.skip(i as int + 1));
            if o.exchange_order_id == f.resting_order_id {
                found = Some(o);
            }
            i = i + 1;
        }
        let owner: Owned = match found {
            None => {
                assert(owned.skip(i as int).len() == 0);
                self.stats.reports_dropped = self.stats.reports_dropped.wrapping_add(1);
                return ;
            },
            Some(o) => o,
        };
        self.emit(
            ExecReport {
                client_order_id: owner.client_order_id,
                exchange_order_id: f.resting_order_id,
                trade_id: f.trade_id,
                price: f.price,
                quantity: f.quantity,
                leaves_quantity: f.leaves,
                symbol_id: f.symbol_id,
                side: f.side,
                exec_type: if f.leaves == 0 {
                    ExecType::Fill
                } else {
                    ExecType::PartialFill
                },
                reject_reason: RejectReason::NotRejected,
            },
        );
        self.stats.fills_reported = self.stats.fills_reported.wrapping_add(1);
        if f.leaves == 0 {
            self.disown(f.resting_order_id);
            self.finished.push(f.resting_order_id);
        }
    }

    /// Reports the answer to a cancel: what was left of the order, or that it was not
    /// there.
    pub fn report_cancel(
        &mut self,
        client_order_id: u64,
        orig: u64,
        symbol_id: u16,
        side: Side,
        left: Option<u32>,
    )
        ensures
            final(self)@ == old(self)@.cancel_answered(
                client_order_id,
                orig,
                symbol_id,
                side,
                left,
            ),
    {
        match left {
            Some(remaining) => {
                self.disown(orig);
                self.finished.push(orig);
                self.emit(
                    ExecReport {
                        client_order_id,
                        exchange_order_id: orig,
                        trade_id: 0,
                        price: 0,
                        quantity: remaining,
                        leaves_quantity: 0,
                        symbol_id,
                        side,
                        exec_type: ExecType::Canceled,
                        reject_reason: RejectReason::NotRejected,
                    },
                );
                self.stats.cancels_reported = self.stats.cancels_reported.wrapping_add(1);
            },
            None => {
                self.emit(
                    ExecReport {
                        client_order_id,
                        exchange_order_id: orig,
                        trade_id: 0,
                        price: 0,
                        quantity: 0,
                        leaves_quantity: 0,
                        symbol_id,
                        side,
                        exec_type: ExecType::Rejected,
                        reject_reason: RejectReason::UnknownOrder,
                    },
                );
                self.stats.rejects_reported = self.stats.rejects_reported.wrapping_add(1);
            },
        }
    }
}

proof fn lemma_holder(books: Map<u16, BookModel>, id: u64, s: u16)
    requires
        is_holder(books, id, s),
    ensures
        holder(books, id) == Some(s),
{
    let t = choose|t: u16| is_holder(books, id, t);
    assert(is_holder(books, id, t));
    if t < s {
        assert(!books[t].has(id));
    }
    if s < t {
        assert(!books[s].has(id));
    }
}

/// Where an order rests, and the order.
fn find_order(engine: &Engine, id: u64) -> (r: Option<(u16, RestingOrder)>)
    requires
        engine.wf(),
    ensures
        r is Some <==> holder(engine.model(), id) is Some,
        r matches Some((s, o)) ==> holder(engine.model(), id) == Some(s)
            && engine.model()[s].orders[id] == o,
{
    let books = engine.books();
    let ghost m = engine.model();
    let symbols = books.for_each_symbol();
    proof {
        books.lemma_valid();
        assert forall|s: u16| m[s] == #[trigger] books.model_of(s) by {}
    }
    let mut i: usize = 0;
    while i < symbols.len()
        invariant
            books.valid(),
            m == models(books),
            m == engine.model(),
            symbols@ == books.symbol_ids(),
            forall|a: int, b: int|
                0 <= a < b < symbols@.len() ==> (#[trigger] symbols@[a]) < (#[trigger] symbols@[b]),
            forall|s: u16|
                !books.symbol_ids().contains(s) ==> #[trigger] books.model_of(s) == BookModel::empty(),
            i <= symbols@.len(),
            forall|k: int| 0 <= k < i ==> !m[#[trigger] symbols@[k]].has(id),
        decreases symbols@.len() - i,
    {
        let s: u16 = symbols[i];
        assert(books.symbol_ids().contains(s));
        assert(m[s] == books.model_of(s));
        match books.get(s) {
            Some(book) => {
                match ReferenceBook::get(book, id) {
                    Some(o) => {
                        proof {
                            assert forall|t: u16| t < s implies !(#[trigger] m[t]).has(id) by {
                                assert(m[t] == books.model_of(t));
                                if books.symbol_ids().contains(t) {
                                    let k = choose|k: int| 0 <= k < symbols@.len() && symbols@[k] == t;
                                    if k > i {
                                        assert(symbols@[i as int] < symbols@[k]);
                                    }
                                    assert(!m[symbols@[k]].has(id));
                                }
                            }
                            lemma_holder(m, id, s);
                        }
                        return Some((s, *o));
                    },
                    None => {},
                }
            },
            None => {},
        }
        i = i + 1;
    }
    proof {
        if exists|s: u16| is_holder(m, id, s) {
            let s = choose|s: u16| is_holder(m, id, s);
            assert(is_holder(m, id, s));
            assert(m[s] == books.model_of(s));
            if books.symbol_ids().contains(s) {
                let k = choose|k: int| 0 <= k < symbols@.len() && symbols@[k] == s;
                assert(!m[symbols@[k]].has(id));
            }
        }
    }
    None
}

impl PathModel {
    pub open spec fn order_received(self) -> PathModel {
        PathModel {
            stats: OrderPathStats {
                orders_received: wrapping_add(self.stats.orders_received, 1),
                ..self.stats
            },
            ..self
        }
    }

    pub open spec fn cancel_received(self) -> PathModel {
        PathModel {
            stats: OrderPathStats {
                cancels_received: wrapping_add(self.stats.cancels_received, 1),
                ..self.stats
            },
            ..self
        }
    }
}

/// A strategy's order as the engine fills it.
pub open spec fn filled(
    e: Engine,
    client_order_id: u64,
    symbol_id: u16,
    side: Side,
    price: i64,
    quantity: u32,
) -> FilledOrder {
    let m = matching_end(e, symbol_id, side, price, quantity);
    FilledOrder {
        client_order_id,
        symbol_id,
        side,
        price,
        quantity,
        order_id: e.order_ids(),
        resting: m.remaining,
        fills: m.fills,
    }
}

/// What a strategy's order does to the engine and to what is published: it is submitted,
/// and where it would rest and cannot be followed, it is cancelled at once.
pub open spec fn order_done(
    p: PathModel,
    e0: Engine,
    f0: FeedModel,
    e1: Engine,
    f1: FeedModel,
    o: FilledOrder,
) -> bool {
    if p.turns_away(o) {
        exists|e: Engine, f: FeedModel|
            #[trigger] submit_effect(
                e0,
                f0,
                e,
                f,
                o.symbol_id,
                o.side,
                o.price,
                o.quantity,
                false,
            ) && cancel_effect(e, f, e1, f1, o.symbol_id, o.order_id)
    } else {
        submit_effect(e0, f0, e1, f1, o.symbol_id, o.side, o.price, o.quantity, false)
    }
}

/// A strategy's order failed in the engine: while it was submitted, before the strategy
/// was told anything, or while what was left of it was cancelled.
pub open spec fn order_stopped(
    p0: PathModel,
    e0: Engine,
    f0: FeedModel,
    p1: PathModel,
    e1: Engine,
    f1: FeedModel,
    o: FilledOrder,
    error: EngineError,
) -> bool {
    let submit_failed = p1 == p0.order_received() && submit_stopped(
        e0,
        f0,
        e1,
        f1,
        o.symbol_id,
        o.side,
        o.price,
        o.quantity,
        0,
        error,
        Seq::empty(),
    );
    let cancel_failed = p1 == p0.order_received().submitted(o) && p0.turns_away(o) && exists|
        e: Engine,
        f: FeedModel,
    |
        #[trigger] submit_effect(e0, f0, e, f, o.symbol_id, o.side, o.price, o.quantity, false)
            && one_stopped(
            e,
            f,
            e1,
            f1,
            (Change::Delete {
                order_id: o.order_id,
                side: e.model()[o.symbol_id].orders[o.order_id].side,
            }).message(o.symbol_id),
            error,
        );
    submit_failed || cancel_failed
}

/// What handling a message does to the order path, to the engine and to what is
/// published.
pub open spec fn dispatched(
    p0: PathModel,
    e0: Engine,
    f0: FeedModel,
    p1: PathModel,
    e1: Engine,
    f1: FeedModel,
    msg: Option<OrderPathMessage>,
) -> bool {
    match msg {
        None => p1 == p0.dropped(1) && e1 == e0 && f1 == f0,
        Some(OrderPathMessage::NewOrder { client_order_id, symbol_id, side, price, quantity }) =>
            match side {
                Some(side) => {
                    &&& p1 == p0.order_received().submitted(
                        filled(e0, client_order_id, symbol_id, side, price, quantity),
                    )
                    &&& order_done(
                        p0,
                        e0,
                        f0,
                        e1,
                        f1,
                        filled(e0, client_order_id, symbol_id, side, price, quantity),
                    )
                },
                None => {
                    &&& p1 == p0.order_received().rejected(
                        ExecReport {
                            client_order_id,
                            exchange_order_id: 0,
                            trade_id: 0,
                            price: 0,
                            quantity: 0,
                            leaves_quantity: 0,
                            symbol_id,
                            side: Side::Bid,
                            exec_type: ExecType::Rejected,
                            reject_reason: RejectReason::UnknownSymbol,
                        },
                    )
                    &&& e1 == e0
                    &&& f1 == f0
                },
            },
        Some(OrderPathMessage::CancelOrder {
            client_order_id,
            orig_client_order_id,
            symbol_id,
            side,
        }) => {
            let m = e0.model()[symbol_id];
            &&& p1 == p0.cancel_received().cancel_answered(
                client_order_id,
                orig_client_order_id,
                symbol_id,
                match side {
                    Some(side) => side,
                    None => Side::Bid,
                },
                if m.has(orig_client_order_id) {
                    Some(m.orders[orig_client_order_id].quantity)
                } else {
                    None
                },
            )
            &&& cancel_effect(e0, f0, e1, f1, symbol_id, orig_client_order_id)
        },
        Some(OrderPathMessage::ReconcileRequest { request_id }) => {
            &&& p1 == p0.reconcile_answered(request_id, e0.model())
            &&& e1 == e0
            &&& f1 == f0
        },
        Some(OrderPathMessage::ExecReport) => p1 == p0 && e1 == e0 && f1 == f0,
    }
}

/// A message failed in the engine, as far as it got.
pub open spec fn dispatch_stopped(
    p0: PathModel,
    e0: Engine,
    f: FeedModel,
    p1: PathModel,
    e1: Engine,
    f1: FeedModel,
    msg: Option<OrderPathMessage>,
    error: EngineError,
) -> bool {
    match msg {
        Some(OrderPathMessage::NewOrder {
            client_order_id,
            symbol_id,
            side: Some(side),
            price,
            quantity,
        }) => order_stopped(
            p0,
            e0,
            f,
            p1,
            e1,
            f1,
            filled(e0, client_order_id, symbol_id, side, price, quantity),
            error,
        ),
        Some(OrderPathMessage::CancelOrder { orig_client_order_id, symbol_id, .. }) => {
            let m = e0.model()[symbol_id];
            &&& p1 == p0.cancel_received()
            &&& m.has(orig_client_order_id)
            &&& one_stopped(
                e0,
                f,
                e1,
                f1,
                (Change::Delete {
                    order_id: orig_client_order_id,
                    side: m.orders[orig_client_order_id].side,
                }).message(symbol_id),
                error,
            )
        },
        _ => false,
    }
}

/// What the beginning of a pass does: what is to be watched, or no longer, is made
/// known to the engine, and the fills of resting orders are reported, the first 32 of
/// them.
pub open spec fn pass_begun(p0: PathModel, e0: Engine, p1: PathModel, e1: Engine) -> bool {
    let fills = e0.passive_fills();
    let shown = if fills.len() < MAX_FILLS {
        fills
    } else {
        fills.take(MAX_FILLS as int)
    };
    let m = (PathModel {
        to_watch: Seq::empty(),
        finished: Seq::empty(),
        ..p0
    }).passives_sent(shown);
    &&& e1.model() == e0.model()
    &&& e1.with_book() == e0.with_book()
    &&& e1.order_ids() == e0.order_ids()
    &&& e1.trade_ids() == e0.trade_ids()
    &&& e1.counters() == e0.counters()
    &&& e1.symbol_list() == e0.symbol_list()
    &&& e1.passive_fills() == Seq::<PassiveFill>::empty()
    &&& e1.watching() == unwatched(e0.watching() + p0.to_watch, p0.finished)
    &&& p1 == (if fills.len() > MAX_FILLS {
        m.dropped(fills.len() - MAX_FILLS)
    } else {
        m
    })
}

/// The order path, the engine and what has been published, at one moment.
pub struct Moment {
    pub path: PathModel,
    pub engine: Engine,
    pub feed: FeedModel,
}

/// Messages handled in turn: `at[0]` is before the first, and `at[i + 1]` after the
/// message at `i`.
pub open spec fn handled_in_turn(msgs: Seq<Option<OrderPathMessage>>, at: Seq<Moment>) -> bool {
    &&& at.len() > 0
    &&& at.len() <= msgs.len() + 1
    &&& forall|i: int|
        0 <= i < at.len() - 1 ==> dispatched(
            at[i].path,
            at[i].engine,
            at[i].feed,
            at[i + 1].path,
            at[i + 1].engine,
            at[i + 1].feed,
            #[trigger] msgs[i],
        )
}

/// Messages handled in turn, up to one more.
pub open spec fn stopped_after(msgs: Seq<Option<OrderPathMessage>>, at: Seq<Moment>) -> bool {
    &&& handled_in_turn(msgs, at)
    &&& at.len() <= msgs.len()
}

/// The engine and the feed have room for `n` more orders of any size.
pub open spec fn has_room(e: Engine, f: FeedPublisher, n: int) -> bool {
    &&& e.order_ids() + n < u64::MAX
    &&& e.trade_ids() + n * 0x1_0000_0000 < u64::MAX
    &&& f@.log.len() + n * 0x2_0000_0002 < u64::MAX
}

/// Whether the engine and the feed have room for a whole pass.
pub fn room_for_a_pass(engine: &Engine, feed: &FeedPublisher) -> (r: bool)
    requires
        feed.wf(),
    ensures
        r == has_room(*engine, *feed, ORDERS_PER_PASS as int),
{
    engine.next_order_id() < u64::MAX - 64 && engine.next_trade_id() < u64::MAX
        - 64 * 0x1_0000_0000 && feed.last_sequence() < u64::MAX - 64 * 0x2_0000_0002
}

impl OrderPath {
    /// Submits a strategy's order and reports what became of it. An order whose side
    /// is neither bid nor ask is rejected.
    fn on_new_order(
        &mut self,
        client_order_id: u64,
        symbol_id: u16,
        side: Option<Side>,
        price: i64,
        quantity: u32,
        engine: &mut Engine,
        feed: &mut FeedPublisher,
    ) -> (r: Result<(), EngineError>)
        requires
            old(engine).wf(),
            old(feed).wf(),
            has_room(*old(engine), *old(feed), 1),
        ensures
            final(engine).wf(),
            final(feed).wf(),
            old(engine).ids_issued() ==> final(engine).ids_issued(),
            final(engine).order_ids() <= old(engine).order_ids() + 1,
            final(engine).trade_ids() <= old(engine).trade_ids() + 0xffff_ffff,
            final(feed)@.log.len() <= old(feed)@.log.len() + 0x2_0000_0000,
            final(feed)@.sizes == old(feed)@.sizes,
            final(feed)@.max_bytes == old(feed)@.max_bytes,
            old(feed)@.sizes.fit(old(feed)@.max_bytes as int) && old(engine).ids_issued()
                ==> r is Ok,
            final(self)@.stats.orders_received == wrapping_add(
                old(self)@.stats.orders_received,
                1,
            ),
            match side {
                None => {
                    &&& r is Ok
                    &&& final(self)@ == old(self)@.order_received().rejected(
                        ExecReport {
                            client_order_id,
                            exchange_order_id: 0,
                            trade_id: 0,
                            price: 0,
                            quantity: 0,
                            leaves_quantity: 0,
                            symbol_id,
                            side: Side::Bid,
                            exec_type: ExecType::Rejected,
                            reject_reason: RejectReason::UnknownSymbol,
                        },
                    )
                    &&& *final(engine) == *old(engine)
                    &&& *final(feed) == *old(feed)
                },
                Some(side) => {
                    let o = filled(
                        *old(engine),
                        client_order_id,
                        symbol_id,
                        side,
                        price,
                        quantity,
                    );
                    &&& r is Ok ==> final(self)@ == old(self)@.order_received().submitted(o)
                    &&& r is Ok ==> order_done(
                        old(self)@,
                        *old(engine),
                        old(feed)@,
                        *final(engine),
                        final(feed)@,
                        o,
                    )
                    &&& r matches Err(e) ==> order_stopped(
                        old(self)@,
                        *old(engine),
                        old(feed)@,
                        final(self)@,
                        *final(engine),
                        final(feed)@,
                        o,
                        e,
                    )
                },
            },
    {
        self.stats.orders_received = self.stats.orders_received.wrapping_add(1);
        let side: Side = match side {
            None => {
                self.emit_reject(
                    client_order_id,
                    symbol_id,
                    Side::Bid,
                    RejectReason::UnknownSymbol,
                );
                return Ok(());
            },
            Some(s) => s,
        };
        let ghost mid = self@;
        let outcome = match engine.submit_reported(
            feed,
            symbol_id,
            side,
            price,
            quantity,
            false,
            0,
        ) {
            Err(stopped) => {
                assert(stopped.checkpoints@ =~= Seq::<Checkpoint>::empty());
                return Err(stopped.error);
            },
            Ok(o) => o,
        };
        let ghost o = filled(*old(engine), client_order_id, symbol_id, side, price, quantity);
        let ghost e1 = *engine;
        let ghost f1 = feed@;
        assert(submit_effect(
            *old(engine),
            old(feed)@,
            e1,
            f1,
            o.symbol_id,
            o.side,
            o.price,
            o.quantity,
            false,
        ));
        let withdraw: bool = self.report_submitted(
            client_order_id,
            symbol_id,
            side,
            price,
            quantity,
            &outcome,
        );
        proof {
            lemma_submitted_counts(mid, o);
        }
        if withdraw {
            match engine.cancel_reported(feed, symbol_id, outcome.order_id, 0) {
                Err(e) => return Err(e),
                Ok(_) => {},
            }
            assert(cancel_effect(e1, f1, *engine, feed@, o.symbol_id, o.order_id));
        }
        Ok(())
    }

    /// Cancels a strategy's order and reports whether it was there.
    fn on_cancel(
        &mut self,
        client_order_id: u64,
        orig: u64,
        symbol_id: u16,
        side: Option<Side>,
        engine: &mut Engine,
        feed: &mut FeedPublisher,
    ) -> (r: Result<(), EngineError>)
        requires
            old(engine).wf(),
            old(feed).wf(),
            has_room(*old(engine), *old(feed), 1),
        ensures
            final(engine).wf(),
            final(feed).wf(),
            old(engine).ids_issued() ==> final(engine).ids_issued(),
            final(engine).order_ids() == old(engine).order_ids(),
            final(engine).trade_ids() == old(engine).trade_ids(),
            final(feed)@.log.len() <= old(feed)@.log.len() + 1,
            final(feed)@.sizes == old(feed)@.sizes,
            final(feed)@.max_bytes == old(feed)@.max_bytes,
            old(feed)@.sizes.fit(old(feed)@.max_bytes as int) ==> r is Ok,
            r is Ok ==> final(self)@ == old(self)@.cancel_received().cancel_answered(
                client_order_id,
                orig,
                symbol_id,
                if side is Some {
                    side->0
                } else {
                    Side::Bid
                },
                if old(engine).model()[symbol_id].has(orig) {
                    Some(old(engine).model()[symbol_id].orders[orig].quantity)
                } else {
                    None
                },
            ),
            r is Ok ==> cancel_effect(
                *old(engine),
                old(feed)@,
                *final(engine),
                final(feed)@,
                symbol_id,
                orig,
            ),
            r matches Err(e) ==> {
                let m = old(engine).model()[symbol_id];
                &&& final(self)@ == old(self)@.cancel_received()
                &&& m.has(orig)
                &&& one_stopped(
                    *old(engine),
                    old(feed)@,
                    *final(engine),
                    final(feed)@,
                    (Change::Delete { order_id: orig, side: m.orders[orig].side }).message(
                        symbol_id,
                    ),
                    e,
                )
            },
    {
        self.stats.cancels_received = self.stats.cancels_received.wrapping_add(1);
        let side: Side = match side {
            Some(s) => s,
            None => Side::Bid,
        };
        match engine.cancel_reported(feed, symbol_id, orig, 0) {
            Err(e) => Err(e),
            Ok((left, _)) => {
                self.report_cancel(client_order_id, orig, symbol_id, side, left);
                Ok(())
            },
        }
    }

    /// Names every order of a strategy that still rests, and forgets the others.
    fn on_reconcile(&mut self, request_id: u64, engine: &Engine)
        requires
            engine.wf(),
        ensures
            final(self)@ == old(self)@.reconcile_answered(request_id, engine.model()),
    {
        self.stats.reconciles_answered = self.stats.reconciles_answered.wrapping_add(1);
        let mut kept: Vec<Owned> = Vec::new();
        let mut named: u64 = 0;
        let mut dropped: u64 = 0;
        let mut i: usize = 0;
        let ghost m0 = old(self)@;
        let ghost books = engine.model();
        while i < self.owned.len()
            invariant
                engine.wf(),
                books == engine.model(),
                m0 == old(self)@,
                self.owned@ == m0.owned,
                self.room == m0.room,
                i <= m0.owned.len(),
                *self == (OrderPath {
                    outbox: self.outbox,
                    stats: OrderPathStats {
                        reconciles_answered: wrapping_add(
                            old(self).stats.reconciles_answered,
                            1,
                        ),
                        ..old(self).stats
                    },
                    ..*old(self)
                }),
                named + dropped <= i,
                (Reconciling {
                    kept: kept@,
                    outbox: self.outbox@,
                    named: named as int,
                    dropped: dropped as int,
                }) == reconciled(m0, books, i as int),
            decreases m0.owned.len() - i,
        {
            let owned = self.owned[i];
            match find_order(engine, owned.exchange_order_id) {
                None => {},
                Some((symbol_id, o)) => {
                    if self.outbox.len() < self.room {
                        self.outbox.push(
                            ExecReport {
                                client_order_id: owned.client_order_id,
                                exchange_order_id: owned.exchange_order_id,
                                trade_id: 0,
                                price: o.price,
                                quantity: o.quantity,
                                leaves_quantity: o.quantity,
                                symbol_id,
                                side: o.side,
                                exec_type: ExecType::OrderStatus,
                                reject_reason: RejectReason::NotRejected,
                            },
                        );
                        named = named + 1;
                    } else {
                        dropped = dropped + 1;
                    }
                    kept.push(owned);
                },
            }
            i = i + 1;
        }
        self.owned = kept;
        self.stats.orders_named_in_reconciliation =
        self.stats.orders_named_in_reconciliation.wrapping_add(named);
        self.stats.reports_dropped = self.stats.reports_dropped.wrapping_add(dropped);
        let count: u32 = if named <= u32::MAX as u64 {
            named as u32
        } else {
            u32::MAX
        };
        self.emit(
            ExecReport {
                client_order_id: request_id,
                exchange_order_id: 0,
                trade_id: 0,
                price: 0,
                quantity: count,
                leaves_quantity: 0,
                symbol_id: 0,
                side: Side::Bid,
                exec_type: ExecType::StatusComplete,
                reject_reason: RejectReason::NotRejected,
            },
        );
    }

    /// Handles one message. One that did not decode is counted and nothing else.
    pub fn dispatch(
        &mut self,
        msg: Option<OrderPathMessage>,
        engine: &mut Engine,
        feed: &mut FeedPublisher,
    ) -> (r: Result<(), EngineError>)
        requires
            old(engine).wf(),
            old(feed).wf(),
            has_room(*old(engine), *old(feed), 1),
        ensures
            final(engine).wf(),
            final(feed).wf(),
            old(engine).ids_issued() ==> final(engine).ids_issued(),
            final(engine).order_ids() <= old(engine).order_ids() + 1,
            final(engine).trade_ids() <= old(engine).trade_ids() + 0xffff_ffff,
            final(feed)@.log.len() <= old(feed)@.log.len() + 0x2_0000_0000,
            final(feed)@.sizes == old(feed)@.sizes,
            final(feed)@.max_bytes == old(feed)@.max_bytes,
            old(feed)@.sizes.fit(old(feed)@.max_bytes as int) && old(engine).ids_issued()
                ==> r is Ok,
            r is Ok ==> dispatched(
                old(self)@,
                *old(engine),
                old(feed)@,
                final(self)@,
                *final(engine),
                final(feed)@,
                msg,
            ),
            r matches Err(e) ==> dispatch_stopped(
                old(self)@,
                *old(engine),
                old(feed)@,
                final(self)@,
                *final(engine),
                final(feed)@,
                msg,
                e,
            ),
    {
        let msg: OrderPathMessage = match msg {
            None => {
                self.stats.reports_dropped = self.stats.reports_dropped.wrapping_add(1);
                return Ok(());
            },
            Some(m) => m,
        };
        match msg {
            OrderPathMessage::NewOrder { client_order_id, symbol_id, side, price, quantity } =>
                self.on_new_order(
                    client_order_id,
                    symbol_id,
                    side,
                    price,
                    quantity,
                    engine,
                    feed,
                ),
            OrderPathMessage::CancelOrder {
                client_order_id,
                orig_client_order_id,
                symbol_id,
                side,
            } => self.on_cancel(
                client_order_id,
                orig_client_order_id,
                symbol_id,
                side,
                engine,
                feed,
            ),
            OrderPathMessage::ReconcileRequest { request_id } => {
                self.on_reconcile(request_id, engine);
                Ok(())
            },
            OrderPathMessage::ExecReport => Ok(()),
        }
    }

    /// Begins a pass: what is to be watched, or no longer, is made known to the
    /// engine, and the fills of resting orders are reported, the first 32 of them.
    pub fn begin_pass(&mut self, engine: &mut Engine)
        requires
            old(engine).wf(),
        ensures
            final(engine).wf(),
            old(engine).ids_issued() ==> final(engine).ids_issued(),
            pass_begun(old(self)@, *old(engine), final(self)@, *final(engine)),
    {
        let mut i: usize = 0;
        let ghost w0 = engine.watching();
        assert(w0 + self@.to_watch.take(0) =~= w0);
        while i < self.to_watch.len()
            invariant
                *self == *old(self),
                i <= self.to_watch@.len(),
                engine.wf(),
                w0 == old(engine).watching(),
                engine.watching() == w0 + self@.to_watch.take(i as int),
                engine.counters() == old(engine).counters(),
                engine.symbol_list() == old(engine).symbol_list(),
                engine.model() == old(engine).model(),
                engine.with_book() == old(engine).with_book(),
                engine.order_ids() == old(engine).order_ids(),
                engine.trade_ids() == old(engine).trade_ids(),
                engine.passive_fills() == old(engine).passive_fills(),
            decreases self.to_watch@.len() - i,
        {
            engine.watch_order(self.to_watch[i]);
            assert(engine.watching() =~= w0 + self@.to_watch.take(i as int + 1));
            i = i + 1;
        }
        assert(self@.to_watch.take(i as int) =~= self@.to_watch);
        let ghost w1 = engine.watching();
        let mut i: usize = 0;
        assert(self@.finished.take(0) =~= Seq::<u64>::empty());
        while i < self.finished.len()
            invariant
                *self == *old(self),
                i <= self.finished@.len(),
                engine.wf(),
                engine.watching() == unwatched(w1, self@.finished.take(i as int)),
                engine.counters() == old(engine).counters(),
                engine.symbol_list() == old(engine).symbol_list(),
                engine.model() == old(engine).model(),
                engine.with_book() == old(engine).with_book(),
                engine.order_ids() == old(engine).order_ids(),
                engine.trade_ids() == old(engine).trade_ids(),
                engine.passive_fills() == old(engine).passive_fills(),
            decreases self.finished@.len() - i,
        {
            engine.unwatch_order(self.finished[i]);
            assert(self@.finished.take(i as int + 1).drop_last() =~= self@.finished.take(i as int));
            i = i + 1;
        }
        assert(self@.finished.take(i as int) =~= self@.finished);
        self.to_watch.clear();
        self.finished.clear();
        let ghost start = PathModel {
            to_watch: Seq::empty(),
            finished: Seq::empty(),
            ..old(self)@
        };
        assert(self@ =~= start);
        let fills = engine.take_passive_fills();
        let n: usize = fills.len();
        let shown: usize = if n < MAX_FILLS {
            n
        } else {
            MAX_FILLS
        };
        let mut i: usize = 0;
        assert(fills@.take(0) =~= Seq::<PassiveFill>::empty());
        while i < shown
            invariant
                i <= shown <= n,
                n == fills@.len(),
                self@ == start.passives_sent(fills@.take(i as int)),
            decreases shown - i,
        {
            self.report_passive_fill(fills[i]);
            assert(fills@.take(i as int + 1).drop_last() =~= fills@.take(i as int));
            i = i + 1;
        }
        proof {
            if n < MAX_FILLS {
                assert(fills@.take(shown as int) =~= fills@);
            }
        }
        if n > MAX_FILLS {
            let over: u64 = (n - MAX_FILLS) as u64;
            self.stats.reports_dropped = self.stats.reports_dropped.wrapping_add(over);
        } else {
            assert(fills@.take(shown as int) =~= fills@);
        }
    }

    /// One pass: begins it, and then handles the messages that came in, at most
    /// [`ORDERS_PER_PASS`] of them. Says how many were handled.
    pub fn pump(
        &mut self,
        engine: &mut Engine,
        feed: &mut FeedPublisher,
        msgs: &Vec<Option<OrderPathMessage>>,
    ) -> (r: Result<usize, EngineError>)
        requires
            old(engine).wf(),
            old(feed).wf(),
            has_room(*old(engine), *old(feed), ORDERS_PER_PASS as int),
        ensures
            final(engine).wf(),
            final(feed).wf(),
            old(engine).ids_issued() ==> final(engine).ids_issued(),
            old(feed)@.sizes.fit(old(feed)@.max_bytes as int) && old(engine).ids_issued()
                ==> r is Ok,
            r matches Ok(n) ==> n == (if msgs@.len() < ORDERS_PER_PASS {
                msgs@.len()
            } else {
                ORDERS_PER_PASS as nat
            }),
            r matches Ok(n) ==> n <= 64 && (n == 64 || n == msgs@.len()),
            r is Ok ==> exists|at: Seq<Moment>| #[trigger]
                handled_in_turn(msgs@, at) && at.len() == r->Ok_0 + 1 && at[0].feed == old(
                    feed,
                )@ && pass_begun(
                    old(self)@,
                    *old(engine),
                    at[0].path,
                    at[0].engine,
                ) && at.last() == (Moment {
                    path: final(self)@,
                    engine: *final(engine),
                    feed: final(feed)@,
                }),
            r matches Err(e) ==> exists|at: Seq<Moment>|
                {
                    &&& #[trigger] stopped_after(msgs@, at)
                    &&& at[0].feed == old(feed)@
                    &&& pass_begun(old(self)@, *old(engine), at[0].path, at[0].engine)
                    &&& dispatch_stopped(
                        at.last().path,
                        at.last().engine,
                        at.last().feed,
                        final(self)@,
                        *final(engine),
                        final(feed)@,
                        msgs@[at.len() - 1],
                        e,
                    )
                },
    {
        self.begin_pass(engine);
        let mut handled: usize = 0;
        let ghost mut at: Seq<Moment> = seq![
            Moment { path: self@, engine: *engine, feed: feed@ },
        ];
        while handled < ORDERS_PER_PASS && handled < msgs.len()
            invariant
                handled <= ORDERS_PER_PASS,
                handled <= msgs@.len(),
                engine.wf(),
                feed.wf(),
                old(engine).ids_issued() ==> engine.ids_issued(),
                feed@.sizes == old(feed)@.sizes,
                feed@.max_bytes == old(feed)@.max_bytes,
                has_room(*engine, *feed, ORDERS_PER_PASS - handled),
                handled_in_turn(msgs@, at),
                at.len() == handled + 1,
                at[0].feed == old(feed)@,
                pass_begun(old(self)@, *old(engine), at[0].path, at[0].engine),
                at.last() == (Moment { path: self@, engine: *engine, feed: feed@ }),
            decreases ORDERS_PER_PASS - handled,
        {
            match self.dispatch(msgs[handled], engine, feed) {
                Err(e) => {
                    assert(stopped_after(msgs@, at));
                    return Err(e);
                },
                Ok(()) => {},
            }
            proof {
                let before = at;
                at = at.push(Moment { path: self@, engine: *engine, feed: feed@ });
                assert forall|i: int| 0 <= i < at.len() - 1 implies dispatched(
                    at[i].path,
                    at[i].engine,
                    at[i].feed,
                    at[i + 1].path,
                    at[i + 1].engine,
                    at[i + 1].feed,
                    #[trigger] msgs@[i],
                ) by {
                    assert(at[i] == before[i]);
                    if i < handled {
                        assert(at[i + 1] == before[i + 1]);
                    }
                }
            }
            handled = handled + 1;
        }
        Ok(handled)
    }
}

/// What is watched after some orders are watched no longer.
pub open spec fn unwatched(w: Seq<u64>, gone: Seq<u64>) -> Seq<u64>
    decreases gone.len(),
{
    if gone.len() == 0 {
        w
    } else {
        without_id(unwatched(w, gone.drop_last()), gone.last())
    }
}

proof fn lemma_fills_counts(m: PathModel, o: FilledOrder, k: int)
    ensures
        m.fills_sent(o, k).stats.orders_received == m.stats.orders_received,
        m.fills_sent(o, k).owned == m.owned,
        m.fills_sent(o, k).to_watch == m.to_watch,
    decreases k,
{
    if k > 0 {
        lemma_fills_counts(m, o, k - 1);
    }
}

proof fn lemma_submitted_counts(m: PathModel, o: FilledOrder)
    ensures
        m.submitted(o).stats.orders_received == m.stats.orders_received,
{
    lemma_fills_counts(m, o, o.reported());
}

/// An order that is turned away leaves nothing on the book, and every order that was
/// followed is followed still.
pub proof fn law_turned_away_orders_do_not_rest(
    p0: PathModel,
    e0: Engine,
    f0: FeedModel,
    e1: Engine,
    f1: FeedModel,
    o: FilledOrder,
)
    requires
        p0.turns_away(o),
        order_done(p0, e0, f0, e1, f1, o),
    ensures
        !e1.model()[o.symbol_id].has(o.order_id),
        p0.submitted(o).owned == p0.owned,
        p0.submitted(o).to_watch == p0.to_watch,
{
    lemma_fills_counts(p0, o, o.reported());
    let (e, f) = choose|e: Engine, f: FeedModel|
        #[trigger] submit_effect(e0, f0, e, f, o.symbol_id, o.side, o.price, o.quantity, false)
            && cancel_effect(e, f, e1, f1, o.symbol_id, o.order_id);
    let m = e.model()[o.symbol_id];
    if m.has(o.order_id) {
        assert(e1.model()[o.symbol_id] == m.removed(o.order_id));
    }
}

proof fn lemma_disowned_len(owned: Seq<Owned>, id: u64)
    ensures
        disowned(owned, id).len() <= owned.len(),
    decreases owned.len(),
{
    reveal(Seq::filter);
    if owned.len() > 0 {
        lemma_disowned_len(owned.drop_last(), id);
    }
}

proof fn lemma_reconciled_len(m: PathModel, books: Map<u16, BookModel>, k: int)
    requires
        0 <= k <= m.owned.len(),
    ensures
        reconciled(m, books, k).kept.len() <= k,
    decreases k,
{
    if k > 0 {
        lemma_reconciled_len(m, books, k - 1);
    }
}

/// No more orders are followed than there is room for, whatever is asked.
pub proof fn law_never_follows_too_many(
    p0: PathModel,
    e0: Engine,
    f0: FeedModel,
    p1: PathModel,
    e1: Engine,
    f1: FeedModel,
    msg: Option<OrderPathMessage>,
)
    requires
        p0.owned.len() <= MAX_OWNED,
        dispatched(p0, e0, f0, p1, e1, f1, msg),
    ensures
        p1.owned.len() <= MAX_OWNED,
{
    match msg {
        Some(OrderPathMessage::NewOrder { client_order_id, symbol_id, side, price, quantity }) => {
            if let Some(side) = side {
                let o = filled(e0, client_order_id, symbol_id, side, price, quantity);
                lemma_fills_counts(p0.order_received(), o, o.reported());
            }
        },
        Some(OrderPathMessage::CancelOrder { orig_client_order_id, .. }) => {
            lemma_disowned_len(p0.owned, orig_client_order_id);
        },
        Some(OrderPathMessage::ReconcileRequest { .. }) => {
            lemma_reconciled_len(p0, e0.model(), p0.owned.len() as int);
        },
        _ => {},
    }
}

/// No report is lost without a trace: each is in the outbox or is counted as dropped.
pub proof fn law_every_fill_is_sent_or_counted(m: PathModel, o: FilledOrder, k: int)
    requires
        0 <= k,
    ensures
        ({
            let after = m.fills_sent(o, k);
            let sent = after.outbox.len() - m.outbox.len();
            &&& 0 <= sent <= k
            &&& after.stats.reports_dropped == wrapping_add(
                m.stats.reports_dropped,
                ((k - sent) % 0x1_0000_0000_0000_0000) as u64,
            )
            &&& forall|i: int|
                0 <= i < m.outbox.len() ==> #[trigger] after.outbox[i] == m.outbox[i]
        }),
    decreases k,
{
    if k > 0 {
        law_every_fill_is_sent_or_counted(m, o, k - 1);
        let before = m.fills_sent(o, k - 1);
        let after = m.fills_sent(o, k);
        assert forall|i: int| 0 <= i < m.outbox.len() implies #[trigger] after.outbox[i]
            == m.outbox[i] by {
            assert(before.outbox[i] == m.outbox[i]);
        }
    }
}

} // verus!
