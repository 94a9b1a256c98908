//! Packing published messages into datagrams.
//!
//! Every message gets the next sequence number. Messages are batched until a batch
//! is full or the next one would not fit the datagram, so sequences run on without
//! a break across datagrams. What is finished waits to be encoded and sent, the
//! same on both arms.

use crate::apply::{
    applied, apply_message, lemma_replayed, replay, symbol_of, ApplyError,
};
use crate::books::Books;
use crate::message::{Message, ModifyReason, Side};
use crate::model::BookModel;
use crate::space::Space;
use crate::text::{decimal, push_decimal};
use crate::transport::Publisher;
use crate::view::{models, BookSet};
use vstd::prelude::*;
use vstd::string::StringExecFns;
use vstd::wrapping::u64_specs::wrapping_add;

verus! {

/// What has been published. The counters wrap.
#[derive(Debug, Clone, Copy, PartialEq, Eq, Structural)]
pub struct FeedStats {
    pub messages: u64,
    pub datagrams: u64,
    pub bytes: u64,
    /// Datagrams that were closed because the next message did not fit.
    pub size_flushes: u64,
    /// Datagrams that were closed because time was up.
    pub timer_flushes: u64,
}

impl FeedStats {
    pub open spec fn zero() -> FeedStats {
        FeedStats { messages: 0, datagrams: 0, bytes: 0, size_flushes: 0, timer_flushes: 0 }
    }
}

impl Default for FeedStats {
    fn default() -> (r: Self)
        ensures
            r == FeedStats::zero(),
    {
        FeedStats { messages: 0, datagrams: 0, bytes: 0, size_flushes: 0, timer_flushes: 0 }
    }
}

/// How many bytes a packet header and each kind of message take when encoded.
#[derive(Debug, Clone, Copy, PartialEq, Eq, Structural)]
pub struct WireSizes {
    pub packet_header: usize,
    pub add_order: usize,
    pub modify_order: usize,
    pub delete_order: usize,
    pub trade: usize,
    pub heartbeat: usize,
}

impl WireSizes {
    pub open spec fn of(self, msg: Message) -> usize {
        match msg {
            Message::AddOrder { .. } => self.add_order,
            Message::ModifyOrder { .. } => self.modify_order,
            Message::DeleteOrder { .. } => self.delete_order,
            Message::Trade { .. } => self.trade,
            _ => self.heartbeat,
        }
    }

    /// Every message fits a datagram of its own.
    pub open spec fn fit(self, max_bytes: int) -> bool {
        &&& self.packet_header + self.add_order <= max_bytes
        &&& self.packet_header + self.modify_order <= max_bytes
        &&& self.packet_header + self.delete_order <= max_bytes
        &&& self.packet_header + self.trade <= max_bytes
        &&& self.packet_header + self.heartbeat <= max_bytes
    }
}

/// Why a message could not be published.
#[derive(Debug, Clone, Copy, PartialEq, Eq, Structural)]
pub enum FeedError {
    /// A single message does not fit a datagram.
    MessageTooLarge { max_datagram_bytes: usize },
}

/// A finished datagram, to be encoded for each arm and sent.
#[derive(Debug)]
pub struct Datagram {
    pub first_sequence: u64,
    pub messages: Vec<Message>,
    /// How many bytes it takes when encoded.
    pub len: usize,
}

/// What a publisher has been given and what became of it.
#[verifier::ext_equal]
pub struct FeedModel {
    /// Every message, in order. The message at `i` has the sequence `i + 1`.
    pub log: Seq<Message>,
    /// The last of them, that are not in a finished datagram yet.
    pub batch: Seq<Message>,
    /// Bytes that the datagram under way takes.
    pub pos: nat,
    pub sizes: WireSizes,
    pub max_bytes: nat,
    pub batch_size: u16,
    pub stats: FeedStats,
    /// The datagrams that are finished and wait to be taken, oldest first.
    pub outbox: Seq<SentDatagram>,
    /// How many messages are in datagrams that were taken.
    pub taken: nat,
}

/// A finished datagram.
pub struct SentDatagram {
    pub first_sequence: u64,
    pub messages: Seq<Message>,
    pub len: usize,
}

/// How many bytes the messages take.
pub open spec fn bytes_of(sizes: WireSizes, msgs: Seq<Message>) -> int
    decreases msgs.len(),
{
    if msgs.len() == 0 {
        0
    } else {
        bytes_of(sizes, msgs.drop_last()) + sizes.of(msgs.last())
    }
}

/// The messages of some datagrams, in order.
pub open spec fn contents(out: Seq<SentDatagram>) -> Seq<Message>
    decreases out.len(),
{
    if out.len() == 0 {
        Seq::empty()
    } else {
        contents(out.drop_last()) + out.last().messages
    }
}

impl SentDatagram {
    /// It holds from one message to a whole batch, and is as long as they make it.
    pub open spec fn sound(self, sizes: WireSizes, max_bytes: nat, batch_size: u16) -> bool {
        &&& 1 <= self.messages.len() <= batch_size
        &&& self.len == sizes.packet_header + bytes_of(sizes, self.messages)
        &&& self.len <= max_bytes
    }
}

impl FeedModel {
    /// The datagrams in the outbox run on from the messages that were taken, without a
    /// break between them.
    pub open spec fn runs_on(self) -> bool {
        forall|i: int|
            0 <= i < self.outbox.len() ==> (#[trigger] self.outbox[i]).first_sequence == self.taken
                + contents(self.outbox.take(i)).len() + 1 && self.outbox[i].sound(
                self.sizes,
                self.max_bytes,
                self.batch_size,
            )
    }

    pub open spec fn wf(self) -> bool {
        &&& self.runs_on()
        &&& self.taken + contents(self.outbox).len() + self.batch.len() == self.log.len()
        &&& contents(self.outbox) + self.batch == self.log.skip(self.taken as int)
        &&& 1 <= self.batch_size
        &&& self.batch.len() <= self.batch_size
        &&& self.batch.len() <= self.log.len() < u64::MAX
        &&& self.batch == self.log.skip(self.log.len() - self.batch.len())
        &&& self.pos == self.sizes.packet_header + bytes_of(self.sizes, self.batch)
        &&& self.batch.len() > 0 ==> self.pos <= self.max_bytes
        &&& self.max_bytes <= usize::MAX
    }

    /// The sequence that the next message gets.
    pub open spec fn next_sequence(self) -> int {
        self.log.len() as int + 1
    }

    /// With the datagram under way finished, if there is anything in it.
    pub open spec fn flushed(self) -> FeedModel {
        if self.batch.len() == 0 {
            self
        } else {
            FeedModel {
                batch: Seq::empty(),
                pos: self.sizes.packet_header as nat,
                stats: FeedStats {
                    datagrams: wrapping_add(self.stats.datagrams, 1),
                    bytes: wrapping_add(wrapping_add(self.stats.bytes, self.pos as u64), self.pos as u64),
                    ..self.stats
                },
                outbox: self.outbox.push(self.finished()),
                ..self
            }
        }
    }

    /// The datagram that a flush finishes.
    pub open spec fn finished(self) -> SentDatagram {
        SentDatagram {
            first_sequence: (self.next_sequence() - self.batch.len()) as u64,
            messages: self.batch,
            len: self.pos as usize,
        }
    }

    /// With one more message in the datagram under way.
    pub open spec fn appended(self, msg: Message) -> FeedModel {
        FeedModel {
            log: self.log.push(msg),
            batch: self.batch.push(msg),
            pos: self.pos + self.sizes.of(msg) as nat,
            stats: FeedStats { messages: wrapping_add(self.stats.messages, 1), ..self.stats },
            ..self
        }
    }

    pub open spec fn size_flush(self) -> FeedModel {
        FeedModel {
            stats: FeedStats {
                size_flushes: wrapping_add(self.stats.size_flushes, 1),
                ..self.stats
            },
            ..self
        }
    }

    /// The batch is full.
    pub open spec fn full(self) -> bool {
        self.batch.len() >= self.batch_size
    }

    /// The publisher ready for one more message: a full batch is finished first.
    pub open spec fn ready(self) -> FeedModel {
        if self.full() {
            self.flushed()
        } else {
            self
        }
    }

    /// After a message was offered: it starts a new datagram where it does not fit
    /// the one under way, and is refused where it does not fit one of its own.
    #[verifier::opaque]
    pub open spec fn emitted(self, msg: Message) -> FeedModel {
        let m = self.ready();
        if m.pos + self.sizes.of(msg) <= self.max_bytes {
            m.appended(msg)
        } else if m.batch.len() == 0 {
            m
        } else if self.sizes.packet_header + self.sizes.of(msg) <= self.max_bytes {
            m.size_flush().flushed().appended(msg)
        } else {
            m.size_flush().flushed()
        }
    }

    /// After these messages were offered, one after the other.
    pub open spec fn emitted_all(self, msgs: Seq<Message>) -> FeedModel
        decreases msgs.len(),
    {
        if msgs.len() == 0 {
            self
        } else {
            self.emitted_all(msgs.drop_last()).emitted(msgs.last())
        }
    }

    /// With the finished datagrams taken.
    pub open spec fn collected(self) -> FeedModel {
        FeedModel {
            outbox: Seq::empty(),
            taken: self.taken + contents(self.outbox).len(),
            ..self
        }
    }
}

pub struct FeedPublisher {
    sizes: WireSizes,
    max_bytes: usize,
    batch: Vec<Message>,
    pos: usize,
    next_seq: u64,
    batch_size: u16,
    stats: FeedStats,
    outbox: Vec<Datagram>,
    log: Ghost<Seq<Message>>,
    taken: Ghost<nat>,
}

impl View for FeedPublisher {
    type V = FeedModel;

    closed spec fn view(&self) -> FeedModel {
        FeedModel {
            log: self.log@,
            batch: self.batch@,
            pos: self.pos as nat,
            sizes: self.sizes,
            max_bytes: self.max_bytes as nat,
            batch_size: self.batch_size,
            stats: self.stats,
            outbox: sent_view(self.outbox@),
            taken: self.taken@,
        }
    }
}

impl Datagram {
    pub open spec fn view(self) -> SentDatagram {
        SentDatagram {
            first_sequence: self.first_sequence,
            messages: self.messages@,
            len: self.len,
        }
    }
}

/// The datagrams of an outbox.
pub open spec fn sent_view(out: Seq<Datagram>) -> Seq<SentDatagram> {
    Seq::new(out.len(), |i: int| out[i].view())
}

impl FeedPublisher {
    pub closed spec fn wf(self) -> bool {
        &&& self@.wf()
        &&& self.next_seq == self@.next_sequence()
    }

    /// What holds of every publisher's model holds of this one's.
    pub proof fn law_model_is_sound(&self)
        requires
            self.wf(),
        ensures
            self@.wf(),
    {
    }

    /// A publisher that batches so many messages, at least one, into datagrams of at
    /// most so many bytes.
    pub fn new(batch_size: u16, max_datagram_bytes: usize, sizes: WireSizes) -> (r: Self)
        ensures
            r.wf(),
            r@ == (FeedModel {
                log: Seq::empty(),
                batch: Seq::empty(),
                pos: sizes.packet_header as nat,
                sizes,
                max_bytes: max_datagram_bytes as nat,
                batch_size: if batch_size < 1 {
                    1
                } else {
                    batch_size
                },
                stats: FeedStats::zero(),
                outbox: Seq::empty(),
                taken: 0,
            }),
    {
        let r = FeedPublisher {
            sizes,
            max_bytes: max_datagram_bytes,
            batch: Vec::new(),
            pos: sizes.packet_header,
            next_seq: 1,
            batch_size: if batch_size < 1 {
                1
            } else {
                batch_size
            },
            stats: FeedStats::default(),
            outbox: Vec::new(),
            log: Ghost(Seq::empty()),
            taken: Ghost(0),
        };
        proof {
            assert(r@.batch =~= Seq::<Message>::empty());
            assert(r@.batch =~= r@.log.skip(0));
            assert(r@.outbox =~= Seq::<SentDatagram>::empty());
            assert(contents(r@.outbox) + r@.batch =~= r@.log.skip(0));
        }
        r
    }

    pub fn stats(&self) -> (r: FeedStats)
        ensures
            r == self@.stats,
    {
        self.stats
    }

    /// The two arms and the batching, in words.
    pub fn describe(&self, a: &Publisher, b: &Publisher) -> (r: String)
        requires
            self.wf(),
        ensures
            r@ == "A: "@ + a.text() + "\n  B: "@ + b.text() + "\n  batching "@ + decimal(
                self@.batch_size as int,
            ) + " messages per datagram, "@ + decimal(self@.max_bytes as int) + " byte cap"@,
    {
        let mut s: String = String::from_str("A: ");
        s.append(a.describe().as_str());
        s.append("\n  B: ");
        s.append(b.describe().as_str());
        s.append("\n  batching ");
        push_decimal(&mut s, self.batch_size as u64);
        s.append(" messages per datagram, ");
        push_decimal(&mut s, self.max_bytes as u64);
        s.append(" byte cap");
        s
    }

    /// The sequence of the last message, zero where there was none.
    pub fn last_sequence(&self) -> (r: u64)
        requires
            self.wf(),
        ensures
            r == self@.log.len(),
    {
        self.next_seq - 1
    }

    /// Takes the datagrams that are finished, oldest first.
    pub fn take_outbox(&mut self) -> (r: Vec<Datagram>)
        requires
            old(self).wf(),
        ensures
            final(self).wf(),
            sent_view(r@) == old(self)@.outbox,
            final(self)@ == old(self)@.collected(),
    {
        let mut out: Vec<Datagram> = Vec::new();
        let ghost before = self.outbox@;
        out.append(&mut self.outbox);
        proof {
            assert(out@ =~= before);
            self.taken = Ghost(self.taken@ + contents(old(self)@.outbox).len());
            assert(self@ =~= old(self)@.collected());
            lemma_collected(old(self)@);
        }
        out
    }

    /// Finishes the datagram under way, if there is anything in it.
    pub fn flush(&mut self)
        requires
            old(self).wf(),
        ensures
            final(self).wf(),
            final(self)@ == old(self)@.flushed(),
    {
        if self.batch.len() == 0 {
            return ;
        }
        let count: u64 = self.batch.len() as u64;
        let mut messages: Vec<Message> = Vec::new();
        let ghost batch = self.batch@;
        messages.append(&mut self.batch);
        let len: usize = self.pos;
        let ghost out = self.outbox@;
        self.outbox.push(
            Datagram { first_sequence: self.next_seq - count, messages, len },
        );
        self.stats.datagrams = self.stats.datagrams.wrapping_add(1);
        self.stats.bytes = self.stats.bytes.wrapping_add(len as u64).wrapping_add(len as u64);
        self.pos = self.sizes.packet_header;
        proof {
            assert(messages@ =~= batch);
            assert(self.batch@ =~= Seq::<Message>::empty());
            assert(self@.outbox =~= old(self)@.outbox.push(old(self)@.finished()));
            assert(self@ =~= old(self)@.flushed());
            lemma_flushed(old(self)@);
        }
    }

    /// Finishes the datagram under way because time is up.
    pub fn flush_on_timer(&mut self)
        requires
            old(self).wf(),
        ensures
            final(self).wf(),
            final(self)@ == (if old(self)@.batch.len() == 0 {
                old(self)@
            } else {
                (FeedModel {
                    stats: FeedStats {
                        timer_flushes: wrapping_add(old(self)@.stats.timer_flushes, 1),
                        ..old(self)@.stats
                    },
                    ..old(self)@
                }).flushed()
            }),
    {
        if self.batch.len() == 0 {
            return ;
        }
        self.stats.timer_flushes = self.stats.timer_flushes.wrapping_add(1);
        self.flush();
    }

    /// Publishes a message that takes `size` bytes, and says its sequence.
    fn emit(&mut self, msg: Message, size: usize) -> (r: Result<u64, FeedError>)
        requires
            old(self).wf(),
            size == old(self)@.sizes.of(msg),
            old(self)@.log.len() + 1 < u64::MAX,
        ensures
            final(self).wf(),
            final(self)@ == old(self)@.emitted(msg),
            final(self)@.sizes == old(self)@.sizes,
            final(self)@.max_bytes == old(self)@.max_bytes,
            r is Ok <==> old(self)@.sizes.packet_header + size <= old(self)@.max_bytes,
            r matches Ok(seq) ==> seq == old(self)@.next_sequence() && final(self)@.log == old(
                self,
            )@.log.push(msg),
            r matches Err(e) ==> e == (FeedError::MessageTooLarge {
                max_datagram_bytes: old(self)@.max_bytes as usize,
            }) && final(self)@.log == old(self)@.log,
    {
        proof {
            reveal(FeedModel::emitted);
            lemma_bytes_nonneg(self@.sizes, self@.batch);
        }
        if self.batch.len() >= self.batch_size as usize {
            self.flush();
        }
        let ghost m = self@;
        proof {
            lemma_bytes_nonneg(m.sizes, m.batch);
        }
        if self.pos > self.max_bytes || size > self.max_bytes - self.pos {
            if self.batch.len() == 0 {
                return Err(FeedError::MessageTooLarge { max_datagram_bytes: self.max_bytes });
            }
            self.stats.size_flushes = self.stats.size_flushes.wrapping_add(1);
            self.flush();
            if self.pos > self.max_bytes || size > self.max_bytes - self.pos {
                return Err(FeedError::MessageTooLarge { max_datagram_bytes: self.max_bytes });
            }
        }
        let ghost b = self@;
        self.pos = self.pos + size;
        self.batch.push(msg);
        let seq: u64 = self.next_seq;
        self.next_seq = self.next_seq + 1;
        self.stats.messages = self.stats.messages.wrapping_add(1);
        self.log = Ghost(self.log@.push(msg));
        proof {
            assert(self@ =~= b.appended(msg));
            lemma_appended(b, msg);
        }
        Ok(seq)
    }

    pub fn add_order(
        &mut self,
        order_id: u64,
        price: i64,
        quantity: u32,
        symbol_id: u16,
        side: Side,
    ) -> (r: Result<u64, FeedError>)
        requires
            old(self).wf(),
            old(self)@.log.len() + 1 < u64::MAX,
        ensures
            published(
                *old(self),
                *final(self),
                Message::AddOrder { order_id, price, quantity, symbol_id, side: Some(side) },
                r,
            ),
    {
        let size: usize = self.sizes.add_order;
        self.emit(Message::AddOrder { order_id, price, quantity, symbol_id, side: Some(side) }, size)
    }

    pub fn modify_order(
        &mut self,
        order_id: u64,
        new_price: i64,
        new_quantity: u32,
        symbol_id: u16,
        side: Side,
        reason: ModifyReason,
    ) -> (r: Result<u64, FeedError>)
        requires
            old(self).wf(),
            old(self)@.log.len() + 1 < u64::MAX,
        ensures
            published(
                *old(self),
                *final(self),
                Message::ModifyOrder {
                    order_id,
                    new_price,
                    new_quantity,
                    symbol_id,
                    side: Some(side),
                    reason: Some(reason),
                },
                r,
            ),
    {
        let size: usize = self.sizes.modify_order;
        self.emit(
            Message::ModifyOrder {
                order_id,
                new_price,
                new_quantity,
                symbol_id,
                side: Some(side),
                reason: Some(reason),
            },
            size,
        )
    }

    pub fn delete_order(&mut self, order_id: u64, symbol_id: u16, side: Side) -> (r: Result<
        u64,
        FeedError,
    >)
        requires
            old(self).wf(),
            old(self)@.log.len() + 1 < u64::MAX,
        ensures
            published(
                *old(self),
                *final(self),
                Message::DeleteOrder { order_id, symbol_id, side: Some(side) },
                r,
            ),
    {
        let size: usize = self.sizes.delete_order;
        self.emit(Message::DeleteOrder { order_id, symbol_id, side: Some(side) }, size)
    }

    pub fn trade(
        &mut self,
        trade_id: u64,
        aggressor_order_id: u64,
        resting_order_id: u64,
        price: i64,
        quantity: u32,
        symbol_id: u16,
        aggressor_side: Side,
    ) -> (r: Result<u64, FeedError>)
        requires
            old(self).wf(),
            old(self)@.log.len() + 1 < u64::MAX,
        ensures
            published(
                *old(self),
                *final(self),
                Message::Trade {
                    trade_id,
                    aggressor_order_id,
                    resting_order_id,
                    price,
                    quantity,
                    symbol_id,
                    aggressor_side: Some(aggressor_side),
                },
                r,
            ),
    {
        let size: usize = self.sizes.trade;
        self.emit(
            Message::Trade {
                trade_id,
                aggressor_order_id,
                resting_order_id,
                price,
                quantity,
                symbol_id,
                aggressor_side: Some(aggressor_side),
            },
            size,
        )
    }

    pub fn heartbeat(&mut self, last_sequence: u64) -> (r: Result<u64, FeedError>)
        requires
            old(self).wf(),
            old(self)@.log.len() + 1 < u64::MAX,
        ensures
            published(*old(self), *final(self), Message::Heartbeat { last_sequence }, r),
    {
        let size: usize = self.sizes.heartbeat;
        self.emit(Message::Heartbeat { last_sequence }, size)
    }
}

/// What publishing a message comes to: it gets the next sequence if it fits a
/// datagram of its own, and is refused otherwise.
pub open spec fn published(
    before: FeedPublisher,
    after: FeedPublisher,
    msg: Message,
    r: Result<u64, FeedError>,
) -> bool {
    &&& after.wf()
    &&& after@ == before@.emitted(msg)
    &&& after@.sizes == before@.sizes
    &&& after@.max_bytes == before@.max_bytes
    &&& r is Ok <==> before@.sizes.packet_header + before@.sizes.of(msg) <= before@.max_bytes
    &&& r matches Ok(seq) ==> seq == before@.next_sequence() && after@.log == before@.log.push(msg)
    &&& r matches Err(e) ==> e == (FeedError::MessageTooLarge {
        max_datagram_bytes: before@.max_bytes as usize,
    }) && after@.log == before@.log
}

proof fn lemma_bytes_nonneg(sizes: WireSizes, msgs: Seq<Message>)
    ensures
        0 <= bytes_of(sizes, msgs),
    decreases msgs.len(),
{
    if msgs.len() > 0 {
        lemma_bytes_nonneg(sizes, msgs.drop_last());
    }
}

proof fn lemma_flushed(m: FeedModel)
    requires
        m.wf(),
    ensures
        m.flushed().wf(),
{
    let n = m.flushed();
    if m.batch.len() > 0 {
        assert(n.batch =~= n.log.skip(n.log.len() as int));
        assert(n.outbox.drop_last() =~= m.outbox);
        assert(contents(n.outbox) == contents(m.outbox) + m.batch);
        assert(contents(n.outbox) + n.batch =~= contents(n.outbox));
        assert forall|i: int| 0 <= i < n.outbox.len() implies (#[trigger] n.outbox[i]).first_sequence
            == n.taken + contents(n.outbox.take(i)).len() + 1 && n.outbox[i].sound(
            n.sizes,
            n.max_bytes,
            n.batch_size,
        ) by {
            assert(n.outbox.take(i) =~= m.outbox.take(i));
            if i < m.outbox.len() {
                assert(n.outbox[i] == m.outbox[i]);
            } else {
                assert(m.outbox.take(i) =~= m.outbox);
            }
        }
    }
}

proof fn lemma_appended(m: FeedModel, msg: Message)
    requires
        m.wf(),
        m.batch.len() < m.batch_size,
        m.log.len() + 1 < u64::MAX,
        m.pos + m.sizes.of(msg) <= m.max_bytes,
    ensures
        m.appended(msg).wf(),
{
    let n = m.appended(msg);
    assert(n.batch.drop_last() =~= m.batch);
    assert(n.batch =~= n.log.skip(n.log.len() - n.batch.len()));
    assert(contents(n.outbox) + n.batch =~= (contents(m.outbox) + m.batch).push(msg));
    assert(n.log.skip(n.taken as int) =~= m.log.skip(m.taken as int).push(msg));
    assert forall|i: int| 0 <= i < n.outbox.len() implies (#[trigger] n.outbox[i]).first_sequence
        == n.taken + contents(n.outbox.take(i)).len() + 1 && n.outbox[i].sound(
        n.sizes,
        n.max_bytes,
        n.batch_size,
    ) by {
        assert(m.outbox[i] == n.outbox[i]);
    }
}

proof fn lemma_collected(m: FeedModel)
    requires
        m.wf(),
    ensures
        m.collected().wf(),
{
    let n = m.collected();
    let c = contents(m.outbox);
    assert(contents(n.outbox) + n.batch =~= m.batch);
    assert(n.log.skip(n.taken as int) =~= m.log.skip(m.taken as int).skip(c.len() as int));
    assert((c + m.batch).skip(c.len() as int) =~= m.batch);
}

/// Nothing that was published is lost: the datagrams that wait to be taken, followed by
/// the batch under way, hold the log from the first message that was not taken on, and
/// the sequence of each datagram's first message is that message's place in the log.
pub proof fn law_published_messages_leave(m: FeedModel)
    requires
        m.wf(),
    ensures
        contents(m.outbox) + m.batch == m.log.skip(m.taken as int),
        forall|i: int, j: int|
            0 <= i < m.outbox.len() && 0 <= j < m.outbox[i].messages.len()
                ==> 1 <= m.outbox[i].first_sequence && m.outbox[i].first_sequence + j
                <= m.log.len() && (#[trigger] m.outbox[i].messages[j])
                == m.log[m.outbox[i].first_sequence - 1 + j],
        forall|i: int|
            0 < i < m.outbox.len() ==> (#[trigger] m.outbox[i]).first_sequence == m.outbox[i
                - 1].first_sequence + m.outbox[i - 1].messages.len(),
{
    let c = contents(m.outbox);
    assert forall|i: int, j: int|
        0 <= i < m.outbox.len() && 0 <= j < m.outbox[i].messages.len() implies 1
        <= m.outbox[i].first_sequence && m.outbox[i].first_sequence + j <= m.log.len() && (
    #[trigger] m.outbox[i].messages[j]) == m.log[m.outbox[i].first_sequence - 1 + j] by {
        lemma_contents_at(m.outbox, i, j);
        let k = contents(m.outbox.take(i)).len() + j;
        assert((c + m.batch)[k] == c[k]);
        assert(m.log.skip(m.taken as int)[k] == m.log[m.taken + k]);
    }
    assert forall|i: int| 0 < i < m.outbox.len() implies (#[trigger] m.outbox[i]).first_sequence
        == m.outbox[i - 1].first_sequence + m.outbox[i - 1].messages.len() by {
        assert(m.outbox.take(i).drop_last() =~= m.outbox.take(i - 1));
        assert(m.outbox.take(i).last() == m.outbox[i - 1]);
    }
}

proof fn lemma_contents_at(out: Seq<SentDatagram>, i: int, j: int)
    requires
        0 <= i < out.len(),
        0 <= j < out[i].messages.len(),
    ensures
        contents(out.take(i)).len() + j < contents(out).len(),
        contents(out)[contents(out.take(i)).len() + j] == out[i].messages[j],
    decreases out.len(),
{
    if i < out.len() - 1 {
        lemma_contents_at(out.drop_last(), i, j);
        assert(out.drop_last().take(i) =~= out.take(i));
    } else {
        assert(out.take(i) =~= out.drop_last());
    }
}

/// Publishing takes nothing out of the outbox and puts what it finishes behind what is
/// there. The log grows by the message, or by nothing where the message does not fit a
/// datagram of its own.
pub proof fn law_outbox_only_grows(m: FeedModel, msg: Message)
    requires
        m.wf(),
    ensures
        m.emitted(msg).outbox.len() >= m.outbox.len(),
        m.emitted(msg).outbox.take(m.outbox.len() as int) == m.outbox,
        m.emitted(msg).taken == m.taken,
        m.emitted(msg).sizes == m.sizes,
        m.emitted(msg).max_bytes == m.max_bytes,
        m.emitted(msg).batch_size == m.batch_size,
        m.emitted(msg).log == (if m.sizes.packet_header + m.sizes.of(msg) <= m.max_bytes {
            m.log.push(msg)
        } else {
            m.log
        }),
        m.log.len() + 1 < u64::MAX ==> m.emitted(msg).wf(),
{
    reveal(FeedModel::emitted);
    lemma_flushed(m);
    let r = m.ready();
    assert(m.emitted(msg).outbox.take(m.outbox.len() as int) =~= m.outbox);
    lemma_bytes_nonneg(m.sizes, m.batch);
    lemma_bytes_nonneg(r.sizes, r.batch);
    if r.pos + m.sizes.of(msg) <= m.max_bytes {
        if m.log.len() + 1 < u64::MAX {
            lemma_appended(r, msg);
        }
    } else if r.batch.len() > 0 {
        let f = r.size_flush();
        assert(f.wf()) by {
            assert(r.runs_on());
            assert forall|i: int| 0 <= i < f.outbox.len() implies (
            #[trigger] f.outbox[i]).first_sequence == f.taken + contents(f.outbox.take(i)).len() + 1
                && f.outbox[i].sound(f.sizes, f.max_bytes, f.batch_size) by {
                assert(r.outbox[i] == f.outbox[i]);
            }
        }
        lemma_flushed(f);
        if m.sizes.packet_header + m.sizes.of(msg) <= m.max_bytes && m.log.len() + 1 < u64::MAX {
            lemma_appended(f.flushed(), msg);
        }
    }
}

/// One message more than a run of messages.
pub proof fn lemma_emitted_push(m: FeedModel, msgs: Seq<Message>, msg: Message)
    ensures
        m.emitted_all(msgs.push(msg)) == m.emitted_all(msgs).emitted(msg),
{
    assert(msgs.push(msg).drop_last() =~= msgs);
}

/// The same of a run of messages, each of which fits a datagram of its own.
pub proof fn law_runs_of_messages_leave(m: FeedModel, msgs: Seq<Message>)
    requires
        m.wf(),
        m.log.len() + msgs.len() < u64::MAX,
        forall|i: int|
            0 <= i < msgs.len() ==> m.sizes.packet_header + m.sizes.of(#[trigger] msgs[i])
                <= m.max_bytes,
    ensures
        m.emitted_all(msgs).wf(),
        m.emitted_all(msgs).log == m.log + msgs,
        m.emitted_all(msgs).outbox.len() >= m.outbox.len(),
        m.emitted_all(msgs).outbox.take(m.outbox.len() as int) == m.outbox,
        m.emitted_all(msgs).taken == m.taken,
        m.emitted_all(msgs).sizes == m.sizes,
        m.emitted_all(msgs).max_bytes == m.max_bytes,
        m.emitted_all(msgs).batch_size == m.batch_size,
    decreases msgs.len(),
{
    if msgs.len() == 0 {
        assert(m.log + msgs =~= m.log);
        assert(m.outbox.take(m.outbox.len() as int) =~= m.outbox);
    } else {
        let p = msgs.drop_last();
        assert forall|i: int| 0 <= i < p.len() implies m.sizes.packet_header + m.sizes.of(
            #[trigger] p[i],
        ) <= m.max_bytes by {
            assert(p[i] == msgs[i]);
        }
        law_runs_of_messages_leave(m, p);
        let n = m.emitted_all(p);
        law_outbox_only_grows(n, msgs.last());
        assert(m.emitted_all(msgs).outbox.take(m.outbox.len() as int) =~= n.outbox.take(
            m.outbox.len() as int,
        )) by {
            assert(m.emitted_all(msgs).outbox.take(n.outbox.len() as int) == n.outbox);
            assert forall|i: int| 0 <= i < m.outbox.len() implies m.emitted_all(msgs).outbox[i]
                == n.outbox[i] by {
                assert(m.emitted_all(msgs).outbox.take(n.outbox.len() as int)[i] == n.outbox[i]);
            }
        }
        assert((m.log + p).push(msgs.last()) =~= m.log + msgs);
    }
}

/// The sequences of a finished datagram follow on from those of the one before it:
/// it holds the last messages of the log, and begins at the first of them.
pub proof fn law_sequences_are_contiguous(m: FeedModel)
    requires
        m.wf(),
        m.batch.len() > 0,
    ensures
        m.finished().first_sequence + m.finished().messages.len() == m.next_sequence(),
        forall|i: int|
            0 <= i < m.batch.len() ==> (#[trigger] m.finished().messages[i])
                == m.log[m.finished().first_sequence - 1 + i],
        m.flushed().next_sequence() == m.next_sequence(),
        m.finished().messages.len() <= m.batch_size,
        m.finished().len <= m.max_bytes,
{
    assert forall|i: int| 0 <= i < m.batch.len() implies (#[trigger] m.finished().messages[i])
        == m.log[m.finished().first_sequence - 1 + i] by {
        assert(m.batch[i] == m.log.skip(m.log.len() - m.batch.len())[i]);
    }
}

/// A second set of books that is built from what was published, to catch a message
/// that does not apply.
pub struct Shadow {
    books: Books,
}

/// A published message that does not apply.
#[derive(Debug, Clone, Copy, PartialEq, Eq, Structural)]
pub struct SelfCheckFailure {
    pub sequence: u64,
    pub error: ApplyError,
}

/// The message at `k` applies to what those before it come to.
pub open spec fn applies_at(start: Map<u16, BookModel>, msgs: Seq<Message>, k: int) -> bool {
    symbol_of(msgs[k]) matches Some(s) ==> applied(
        msgs[k],
        replay(start, msgs.take(k))[s],
        Space::Unbounded,
        replay(start, msgs.take(k + 1))[s],
        Ok(()),
    )
}

impl Shadow {
    pub closed spec fn books(&self) -> Books {
        self.books
    }

    pub fn new() -> (r: Self)
        ensures
            r.books().valid(),
            r.books().symbol_ids() == Seq::<u16>::empty(),
    {
        Shadow { books: Books::new() }
    }

    /// The books as published.
    pub fn shadow(&self) -> (r: &Books)
        ensures
            *r == self.books(),
    {
        &self.books
    }

    /// Applies a finished datagram. A failure names the first message that does not
    /// apply, and what came before it was applied.
    pub fn check(&mut self, d: &Datagram) -> (r: Result<(), SelfCheckFailure>)
        requires
            old(self).books().valid(),
            d.first_sequence + d.messages@.len() <= u64::MAX,
        ensures
            final(self).books().valid(),
            r is Ok ==> {
                let start = models(&old(self).books());
                &&& models(&final(self).books()) == replay(start, d.messages@)
                &&& forall|k: int|
                    0 <= k < d.messages@.len() ==> #[trigger] applies_at(start, d.messages@, k)
            },
            r matches Err(f) ==> {
                let start = models(&old(self).books());
                let k = f.sequence - d.first_sequence;
                let before = replay(start, d.messages@.take(k));
                &&& 0 <= k < d.messages@.len()
                &&& forall|j: int| 0 <= j < k ==> #[trigger] applies_at(start, d.messages@, j)
                &&& symbol_of(d.messages@[k]) matches Some(s) && applied(
                    d.messages@[k],
                    before[s],
                    Space::Unbounded,
                    final(self).books().model_of(s),
                    Err(f.error),
                ) && forall|t: u16|
                    t != s ==> #[trigger] final(self).books().model_of(t) == before[t]
            },
    {
        let ghost start = models(&self.books);
        let mut i: usize = 0;
        proof {
            assert(d.messages@.take(0) =~= Seq::<Message>::empty());
        }
        while i < d.messages.len()
            invariant
                self.books.valid(),
                i <= d.messages@.len(),
                d.first_sequence + d.messages@.len() <= u64::MAX,
                start == models(&old(self).books()),
                models(&self.books) == replay(start, d.messages@.take(i as int)),
                forall|k: int| 0 <= k < i ==> #[trigger] applies_at(start, d.messages@, k),
            decreases d.messages@.len() - i,
        {
            let ghost before = self.books;
            let ghost next = d.messages@.take(i as int + 1);
            let r = apply_message(&mut self.books, &d.messages[i]);
            proof {
                let msg = d.messages@[i as int];
                assert(next.drop_last() =~= d.messages@.take(i as int));
                assert(next.last() == msg);
                before.lemma_unbounded();
                if symbol_of(msg) is Some {
                    assert(models(&before)[symbol_of(msg)->0] == before.model_of(
                        symbol_of(msg)->0,
                    ));
                }
                if r is Err {
                    let s = symbol_of(msg)->0;
                    assert forall|t: u16| t != s implies #[trigger] self.books.model_of(t)
                        == models(&before)[t] by {
                        assert(models(&before)[t] == before.model_of(t));
                    }
                }
                if r is Ok {
                    lemma_replayed(&before, &self.books, msg);
                    assert(models(&self.books) == replay(start, next));
                    if symbol_of(msg) is Some {
                        let s = symbol_of(msg)->0;
                        assert(models(&self.books)[s] == self.books.model_of(s));
                    }
                    assert(applies_at(start, d.messages@, i as int));
                }
            }
            match r {
                Ok(()) => {},
                Err(error) => {
                    return Err(
                        SelfCheckFailure { sequence: d.first_sequence + i as u64, error },
                    );
                },
            }
            i = i + 1;
        }
        assert(d.messages@.take(i as int) =~= d.messages@);
        Ok(())
    }
}

/// What publishing a message does to the datagrams: one is closed only if it is full or the
/// message does not fit behind what is in it, and the message is the next of the one under
/// way. What is counted is what happened: the bytes on both arms, and a datagram that was
/// closed for want of space apart from one that was full.
pub proof fn law_datagram_is_closed_only_when_it_has_to_be(m: FeedModel, msg: Message)
    requires
        m.wf(),
        m.log.len() + 1 < u64::MAX,
    ensures
        ({
            let n = m.emitted(msg);
            let size = m.sizes.of(msg);
            let fits_alone = m.sizes.packet_header + size <= m.max_bytes;
            let full = m.batch.len() == m.batch_size;
            let closes = m.batch.len() > 0 && (full || m.pos + size > m.max_bytes);
            &&& n.outbox.len() == m.outbox.len() + (if closes {
                1int
            } else {
                0
            })
            &&& closes ==> {
                let d = n.outbox.last();
                &&& d.messages == m.batch
                &&& d.len == m.pos
                &&& d.first_sequence + d.messages.len() == m.log.len() + 1
            }
            &&& fits_alone ==> n.log == m.log.push(msg) && n.batch == (if closes {
                seq![msg]
            } else {
                m.batch.push(msg)
            })
            &&& !fits_alone ==> n.log == m.log
            &&& n.stats.messages == (if fits_alone {
                wrapping_add(m.stats.messages, 1)
            } else {
                m.stats.messages
            })
            &&& n.stats.datagrams == (if closes {
                wrapping_add(m.stats.datagrams, 1)
            } else {
                m.stats.datagrams
            })
            &&& n.stats.bytes == (if closes {
                wrapping_add(wrapping_add(m.stats.bytes, m.pos as u64), m.pos as u64)
            } else {
                m.stats.bytes
            })
            &&& n.stats.size_flushes == (if closes && !full {
                wrapping_add(m.stats.size_flushes, 1)
            } else {
                m.stats.size_flushes
            })
            &&& n.stats.timer_flushes == m.stats.timer_flushes
        }),
{
    reveal(FeedModel::emitted);
    law_outbox_only_grows(m, msg);
    lemma_bytes_nonneg(m.sizes, m.batch);
    let n = m.emitted(msg);
    assert(Seq::<Message>::empty().push(msg) =~= seq![msg]);
    if m.batch.len() == 0 {
        assert(m.batch =~= Seq::<Message>::empty());
        assert(m.batch.push(msg) =~= seq![msg]);
    } else {
        lemma_bytes_nonneg(m.sizes, m.batch.drop_last());
    }
}

/// A flush closes the datagram under way, with everything in it, and nothing if there is
/// nothing in it.
pub proof fn law_flush_closes_what_is_under_way(m: FeedModel)
    requires
        m.wf(),
    ensures
        m.flushed().wf(),
        m.flushed().batch.len() == 0,
        m.flushed().log == m.log,
        m.flushed().taken == m.taken,
        m.batch.len() == 0 ==> m.flushed() == m,
        m.batch.len() > 0 ==> {
            let n = m.flushed();
            &&& n.outbox.len() == m.outbox.len() + 1
            &&& n.outbox.drop_last() == m.outbox
            &&& n.outbox.last().messages == m.batch
            &&& n.outbox.last().first_sequence == m.log.len() - m.batch.len() + 1
            &&& n.outbox.last().len == m.sizes.packet_header + bytes_of(m.sizes, m.batch)
            &&& n.stats.datagrams == wrapping_add(m.stats.datagrams, 1)
            &&& n.stats.messages == m.stats.messages
        },
{
    lemma_flushed(m);
    if m.batch.len() > 0 {
        assert(m.flushed().outbox.drop_last() =~= m.outbox);
    }
}

/// Each kind of message takes the bytes that are laid down for it.
pub proof fn law_sizes_go_by_kind(sizes: WireSizes, msg: Message)
    ensures
        sizes.of(msg) == (match msg {
            Message::AddOrder { .. } => sizes.add_order,
            Message::ModifyOrder { .. } => sizes.modify_order,
            Message::DeleteOrder { .. } => sizes.delete_order,
            Message::Trade { .. } => sizes.trade,
            _ => sizes.heartbeat,
        }),
        forall|max: int|
            sizes.fit(max) ==> sizes.packet_header + #[trigger] sizes.of(msg) <= max,
{
}

} // verus!
