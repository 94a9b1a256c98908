//! A reproducible workload, and checksums that show it was really done.

use crate::apply::{apply_message, ApplyError};
use crate::books::Books;
use crate::fast::{default_capacity, FastBooks};
use crate::feed::WireSizes;
use crate::fingerprint::lemma_prime_is_odd;
use crate::handler::told;
use crate::mbo::MboCapacity;
use crate::message::{Message, ModifyReason, Side, SnapshotOrder};
use crate::rng::{drawn, stepped, Rng};
use crate::view::{models, resting, BookSet};
use vstd::prelude::*;
use vstd::wrapping::u64_specs::wrapping_mul;

verus! {

pub const SYMBOL: u16 = 7;

pub const TICK: i64 = 100;

pub const MID: i64 = 1_000_000;

/// How many messages a datagram of the workload carries.
pub const BATCH: u16 = 32;

/// A decoded datagram.
#[derive(Debug)]
pub struct Packet {
    pub first_sequence: u64,
    pub messages: Vec<Message>,
}

/// Where the making of a workload has got to.
pub struct Making {
    pub rng: u64,
    pub next_order: int,
    /// The orders that have been added and not deleted.
    pub resting: Seq<u64>,
}

pub open spec fn swapped_out(s: Seq<u64>, i: int) -> Seq<u64> {
    s.update(i, s.last()).drop_last()
}

pub open spec fn spread_price(draw: u64) -> i64 {
    (MID + (draw % 64 - 32) * TICK) as i64
}

impl Making {
    pub open spec fn start(seed: u64) -> Making {
        Making { rng: seed, next_order: 1, resting: Seq::empty() }
    }

    pub open spec fn adds(self) -> bool {
        drawn(self.rng) % 100 < 55 || self.resting.len() == 0
    }

    pub open spec fn side(self) -> Side {
        if drawn(stepped(self.rng)) % 2 == 0 {
            Side::Bid
        } else {
            Side::Ask
        }
    }

    /// The state of the numbers once the kind and the side are drawn.
    pub open spec fn s2(self) -> u64 {
        stepped(stepped(self.rng))
    }

    /// The place of the order that a message other than an add is about.
    pub open spec fn pick(self) -> int {
        (drawn(self.s2()) % (self.resting.len() as u64)) as int
    }

    /// The next message: of a hundred, 55 adds, 25 deletes, 12 replaces and 8 trades,
    /// but an add wherever nothing rests.
    pub open spec fn message(self) -> Message {
        let roll = drawn(self.rng) % 100;
        let s3 = stepped(self.s2());
        let s4 = stepped(s3);
        if self.adds() {
            Message::AddOrder {
                order_id: self.next_order as u64,
                price: spread_price(drawn(self.s2())),
                quantity: (1 + drawn(s3) % 500) as u32,
                symbol_id: SYMBOL,
                side: Some(self.side()),
            }
        } else if roll < 80 {
            Message::DeleteOrder {
                order_id: self.resting[self.pick()],
                symbol_id: SYMBOL,
                side: Some(self.side()),
            }
        } else if roll < 92 {
            Message::ModifyOrder {
                order_id: self.resting[self.pick()],
                new_price: spread_price(drawn(s3)),
                new_quantity: (1 + drawn(s4) % 100) as u32,
                symbol_id: SYMBOL,
                side: Some(self.side()),
                reason: Some(ModifyReason::Replace),
            }
        } else {
            Message::Trade {
                trade_id: drawn(s3),
                aggressor_order_id: self.resting[self.pick()],
                resting_order_id: self.resting[self.pick()],
                price: MID,
                quantity: (1 + drawn(s4) % 50) as u32,
                symbol_id: SYMBOL,
                aggressor_side: Some(self.side()),
            }
        }
    }

    /// What follows the next message.
    pub open spec fn next(self) -> Making {
        let roll = drawn(self.rng) % 100;
        let s3 = stepped(self.s2());
        let s4 = stepped(s3);
        if self.adds() {
            Making {
                rng: s4,
                next_order: self.next_order + 1,
                resting: self.resting.push(self.next_order as u64),
            }
        } else if roll < 80 {
            Making { rng: s3, resting: swapped_out(self.resting, self.pick()), ..self }
        } else {
            Making { rng: stepped(s4), ..self }
        }
    }

    pub open spec fn after(self, n: nat) -> Making
        decreases n,
    {
        if n == 0 {
            self
        } else {
            self.after((n - 1) as nat).next()
        }
    }

    /// The first messages of a workload.
    pub open spec fn stream(seed: u64, n: nat) -> Seq<Message> {
        Seq::new(n, |i: int| Making::start(seed).after(i as nat).message())
    }
}

/// A workload.
#[derive(Debug)]
pub struct Corpus {
    packets: Vec<Packet>,
}

impl Corpus {
    pub closed spec fn all(self) -> Seq<Packet> {
        self.packets@
    }

    /// The packets carry the stream of the seed, 32 messages each, numbered from 1.
    pub open spec fn built(self, datagrams: int, seed: u64) -> bool {
        &&& self.all().len() == datagrams
        &&& forall|i: int| 0 <= i < datagrams ==> packed(#[trigger] self.all()[i], i, seed)
    }

    /// Makes a workload of this many datagrams from a seed.
    pub fn build(datagrams: usize, seed: u64) -> (r: Self)
        requires
            datagrams <= usize::MAX / 32,
            datagrams < u64::MAX / 32,
        ensures
            r.built(datagrams as int, seed),
    {
        let mut maker = Maker { rng: Rng::new(seed), next_order: 1, resting: Vec::new() };
        let mut packets: Vec<Packet> = Vec::new();
        let mut i: usize = 0;
        assert(maker@.resting =~= Seq::<u64>::empty());
        while i < datagrams
            invariant
                i <= datagrams,
                datagrams < u64::MAX / 32,
                datagrams <= usize::MAX / 32,
                packets@.len() == i,
                maker@ == Making::start(seed).after((32 * i) as nat),
                maker.next_order <= 1 + 32 * i,
                maker.resting@.len() <= 32 * i,
                forall|k: int| 0 <= k < i ==> packed(#[trigger] packets@[k], k, seed),
            decreases datagrams - i,
        {
            let mut messages: Vec<Message> = Vec::new();
            let mut k: u16 = 0;
            while k < BATCH
                invariant
                    k <= BATCH,
                    BATCH == 32,
                    i < datagrams,
                    datagrams < u64::MAX / 32,
                    datagrams <= usize::MAX / 32,
                    messages@.len() == k,
                    maker@ == Making::start(seed).after((32 * i + k) as nat),
                    maker.next_order <= 1 + 32 * i + k,
                    maker.resting@.len() <= 32 * i + k,
                    forall|j: int|
                        0 <= j < k ==> #[trigger] messages@[j] == Making::start(seed).after(
                            (32 * i + j) as nat,
                        ).message(),
                decreases BATCH - k,
            {
                let m = maker.make();
                messages.push(m);
                k = k + 1;
            }
            packets.push(Packet { first_sequence: 1 + 32 * (i as u64), messages });
            i = i + 1;
        }
        Corpus { packets }
    }

    pub fn datagrams(&self) -> (r: &Vec<Packet>)
        ensures
            r@ == self.all(),
    {
        &self.packets
    }

    /// How many bytes the workload takes when encoded.
    pub fn bytes(&self, sizes: WireSizes) -> (r: usize)
        requires
            encoded_len(self.all(), sizes) <= usize::MAX,
        ensures
            r == encoded_len(self.all(), sizes),
    {
        let mut sum: usize = 0;
        let mut i: usize = 0;
        assert(self.packets@.take(0) =~= Seq::<Packet>::empty());
        while i < self.packets.len()
            invariant
                i <= self.packets@.len(),
                encoded_len(self.all(), sizes) <= usize::MAX,
                sum == encoded_len(self.packets@.take(i as int), sizes),
            decreases self.packets@.len() - i,
        {
            proof {
                lemma_encoded_parts(self.packets@, sizes, i as int + 1);
                assert(self.packets@.take(i as int + 1).drop_last() =~= self.packets@.take(
                    i as int,
                ));
            }
            sum = sum + packet_bytes(&self.packets[i], sizes);
            i = i + 1;
        }
        assert(self.packets@.take(i as int) =~= self.packets@);
        sum
    }

    pub fn messages(&self) -> (r: usize)
        requires
            self.all().len() <= usize::MAX / 32,
        ensures
            r == self.all().len() * 32,
    {
        self.packets.len() * 32
    }
}

/// How many bytes some messages take when encoded.
pub open spec fn messages_len(ms: Seq<Message>, sizes: WireSizes) -> int
    decreases ms.len(),
{
    if ms.len() == 0 {
        0
    } else {
        messages_len(ms.drop_last(), sizes) + sizes.of(ms.last())
    }
}

/// How many bytes some packets take when encoded.
pub open spec fn encoded_len(ps: Seq<Packet>, sizes: WireSizes) -> int
    decreases ps.len(),
{
    if ps.len() == 0 {
        0
    } else {
        encoded_len(ps.drop_last(), sizes) + sizes.packet_header + messages_len(
            ps.last().messages@,
            sizes,
        )
    }
}

proof fn lemma_messages_parts(ms: Seq<Message>, sizes: WireSizes, k: int)
    requires
        0 <= k <= ms.len(),
    ensures
        0 <= messages_len(ms.take(k), sizes) <= messages_len(ms, sizes),
    decreases ms.len(),
{
    if k == ms.len() {
        assert(ms.take(k) =~= ms);
        if k > 0 {
            lemma_messages_parts(ms.drop_last(), sizes, k - 1);
            assert(ms.drop_last().take(k - 1) =~= ms.drop_last());
        }
    } else {
        lemma_messages_parts(ms.drop_last(), sizes, k);
        assert(ms.drop_last().take(k) =~= ms.take(k));
    }
}

proof fn lemma_encoded_parts(ps: Seq<Packet>, sizes: WireSizes, k: int)
    requires
        0 <= k <= ps.len(),
    ensures
        0 <= encoded_len(ps.take(k), sizes) <= encoded_len(ps, sizes),
    decreases ps.len(),
{
    if ps.len() > 0 {
        lemma_messages_parts(ps.last().messages@, sizes, 0);
        assert(ps.last().messages@.take(0) =~= Seq::<Message>::empty());
    }
    if k == ps.len() {
        assert(ps.take(k) =~= ps);
        if k > 0 {
            lemma_encoded_parts(ps.drop_last(), sizes, k - 1);
            assert(ps.drop_last().take(k - 1) =~= ps.drop_last());
        }
    } else {
        lemma_encoded_parts(ps.drop_last(), sizes, k);
        assert(ps.drop_last().take(k) =~= ps.take(k));
    }
}

fn message_bytes(m: &Message, sizes: WireSizes) -> (r: usize)
    ensures
        r == sizes.of(*m),
{
    match m {
        Message::AddOrder { .. } => sizes.add_order,
        Message::ModifyOrder { .. } => sizes.modify_order,
        Message::DeleteOrder { .. } => sizes.delete_order,
        Message::Trade { .. } => sizes.trade,
        _ => sizes.heartbeat,
    }
}

fn packet_bytes(p: &Packet, sizes: WireSizes) -> (r: usize)
    requires
        sizes.packet_header + messages_len(p.messages@, sizes) <= usize::MAX,
    ensures
        r == sizes.packet_header + messages_len(p.messages@, sizes),
{
    let mut sum: usize = sizes.packet_header;
    let mut i: usize = 0;
    assert(p.messages@.take(0) =~= Seq::<Message>::empty());
    while i < p.messages.len()
        invariant
            i <= p.messages@.len(),
            sizes.packet_header + messages_len(p.messages@, sizes) <= usize::MAX,
            sum == sizes.packet_header + messages_len(p.messages@.take(i as int), sizes),
        decreases p.messages@.len() - i,
    {
        proof {
            lemma_messages_parts(p.messages@, sizes, i as int + 1);
            assert(p.messages@.take(i as int + 1).drop_last() =~= p.messages@.take(i as int));
        }
        sum = sum + message_bytes(&p.messages[i], sizes);
        i = i + 1;
    }
    assert(p.messages@.take(i as int) =~= p.messages@);
    sum
}

/// A packet carries its part of the stream.
pub open spec fn packed(p: Packet, i: int, seed: u64) -> bool {
    &&& p.first_sequence == 1 + 32 * i
    &&& p.messages@.len() == 32
    &&& forall|k: int|
        0 <= k < 32 ==> #[trigger] p.messages@[k] == Making::start(seed).after(
            (32 * i + k) as nat,
        ).message()
}

struct Maker {
    rng: Rng,
    next_order: u64,
    resting: Vec<u64>,
}

impl View for Maker {
    type V = Making;

    closed spec fn view(&self) -> Making {
        Making {
            rng: self.rng@,
            next_order: self.next_order as int,
            resting: self.resting@,
        }
    }
}

impl Maker {
    fn price(&mut self) -> (r: i64)
        ensures
            r == spread_price(drawn(old(self).rng@)),
            final(self).rng@ == stepped(old(self).rng@),
            final(self).next_order == old(self).next_order,
            final(self).resting == old(self).resting,
    {
        let d: u64 = self.rng.below(64);
        MID + (d as i64 - 32) * TICK
    }

    fn pick(&mut self) -> (r: usize)
        requires
            old(self).resting@.len() > 0,
        ensures
            r == drawn(old(self).rng@) % (old(self).resting@.len() as u64),
            r < old(self).resting@.len(),
            final(self).rng@ == stepped(old(self).rng@),
            final(self).next_order == old(self).next_order,
            final(self).resting == old(self).resting,
    {
        self.rng.below(self.resting.len() as u64) as usize
    }

    fn make(&mut self) -> (r: Message)
        requires
            old(self).next_order < u64::MAX,
            old(self).resting@.len() < u64::MAX,
        ensures
            r == old(self)@.message(),
            final(self)@ == old(self)@.next(),
            final(self).next_order <= old(self).next_order + 1,
            final(self).resting@.len() <= old(self).resting@.len() + 1,
    {
        let roll: u64 = self.rng.below(100);
        let side = if self.rng.below(2) == 0 {
            Side::Bid
        } else {
            Side::Ask
        };
        assert(side == old(self)@.side());
        assert(self.rng@ == old(self)@.s2());
        if roll < 55 || self.resting.len() == 0 {
            let order_id: u64 = self.next_order;
            self.next_order = self.next_order + 1;
            let price: i64 = self.price();
            let quantity: u32 = 1 + self.rng.below(500) as u32;
            self.resting.push(order_id);
            Message::AddOrder { order_id, price, quantity, symbol_id: SYMBOL, side: Some(side) }
        } else if roll < 80 {
            let i: usize = self.pick();
            let order_id: u64 = self.resting.swap_remove(i);
            proof {
                assert(self@.resting =~= swapped_out(old(self)@.resting, old(self)@.pick()));
            }
            Message::DeleteOrder { order_id, symbol_id: SYMBOL, side: Some(side) }
        } else if roll < 92 {
            let i: usize = self.pick();
            let order_id: u64 = self.resting[i];
            let new_price: i64 = self.price();
            let new_quantity: u32 = 1 + self.rng.below(100) as u32;
            Message::ModifyOrder {
                order_id,
                new_price,
                new_quantity,
                symbol_id: SYMBOL,
                side: Some(side),
                reason: Some(ModifyReason::Replace),
            }
        } else {
            let i: usize = self.pick();
            let order_id: u64 = self.resting[i];
            let trade_id: u64 = self.rng.next_u64();
            let quantity: u32 = 1 + self.rng.below(50) as u32;
            Message::Trade {
                trade_id,
                aggressor_order_id: order_id,
                resting_order_id: order_id,
                price: MID,
                quantity,
                symbol_id: SYMBOL,
                aggressor_side: Some(side),
            }
        }
    }
}

pub const FOLD_SEED: u64 = 0xcbf2_9ce4_8422_2325;

pub open spec fn folded(h: u64, v: u64) -> u64 {
    wrapping_mul(h ^ v, 0x0000_0100_0000_01b3)
}

/// Folds a value into a checksum.
pub fn fold(h: u64, v: u64) -> (r: u64)
    ensures
        r == folded(h, v),
{
    (h ^ v).wrapping_mul(0x0000_0100_0000_01b3)
}

pub open spec fn fold_all(h: u64, vs: Seq<u64>) -> u64
    decreases vs.len(),
{
    if vs.len() == 0 {
        h
    } else {
        folded(fold_all(h, vs.drop_last()), vs.last())
    }
}

/// The number that stands for a reason in a checksum.
pub open spec fn reason_code(r: Option<ModifyReason>) -> u64 {
    match r {
        Some(ModifyReason::Reduce) => 0,
        Some(ModifyReason::Replace) => 1,
        None => 0xff,
    }
}

/// The number that stands for a side in a checksum.
pub open spec fn side_number(s: Option<Side>) -> u64 {
    match s {
        Some(s) => s.code() as u64,
        None => 0xff,
    }
}

/// A price as a number without a sign, by its bits.
pub open spec fn price_bits(p: i64) -> u64 {
    if p < 0 {
        (p + 0x1_0000_0000_0000_0000) as u64
    } else {
        p as u64
    }
}

fn bits_of(p: i64) -> (r: u64)
    ensures
        r == price_bits(p),
{
    if p < 0 {
        (p as i128 + 0x1_0000_0000_0000_0000) as u64
    } else {
        p as u64
    }
}

/// The fields of the orders of a snapshot that are folded, in order.
pub open spec fn order_fields(orders: Seq<SnapshotOrder>) -> Seq<u64>
    decreases orders.len(),
{
    if orders.len() == 0 {
        Seq::empty()
    } else {
        order_fields(orders.drop_last()).push(orders.last().order_id).push(
            price_bits(orders.last().price),
        )
    }
}

/// The fields of a message that are folded, in order.
pub open spec fn fields(msg: Message) -> Seq<u64> {
    match msg {
        Message::AddOrder { order_id, price, quantity, symbol_id, side } => seq![
            order_id,
            price_bits(price),
            quantity as u64,
            symbol_id as u64,
            side_number(side),
        ],
        Message::ModifyOrder { order_id, new_price, new_quantity, symbol_id, reason, .. } => seq![
            order_id,
            price_bits(new_price),
            new_quantity as u64,
            symbol_id as u64,
            reason_code(reason),
        ],
        Message::DeleteOrder { order_id, symbol_id, side } => seq![
            order_id,
            symbol_id as u64,
            side_number(side),
        ],
        Message::Trade {
            trade_id,
            aggressor_order_id,
            resting_order_id,
            price,
            quantity,
            symbol_id,
            ..
        } => seq![
            trade_id,
            aggressor_order_id,
            resting_order_id,
            price_bits(price),
            quantity as u64,
            symbol_id as u64,
        ],
        Message::Snapshot(d) => seq![d.last_sequence] + order_fields(d.orders@),
        Message::Heartbeat { .. } => Seq::empty(),
        Message::SequenceReset { .. } => Seq::empty(),
    }
}

/// What is folded of the first messages of a packet.
pub open spec fn packet_fields(p: Packet, n: int) -> Seq<u64>
    decreases n,
{
    if n <= 0 {
        Seq::empty()
    } else {
        packet_fields(p, n - 1).push((p.first_sequence + n - 1) as u64) + fields(
            p.messages@[n - 1],
        )
    }
}

proof fn lemma_fold_concat(h: u64, a: Seq<u64>, b: Seq<u64>)
    ensures
        fold_all(h, a + b) == fold_all(fold_all(h, a), b),
    decreases b.len(),
{
    if b.len() == 0 {
        assert(a + b =~= a);
    } else {
        assert((a + b).drop_last() =~= a + b.drop_last());
        lemma_fold_concat(h, a, b.drop_last());
    }
}

fn side_code(s: Option<Side>) -> (r: u64)
    ensures
        r == side_number(s),
{
    match s {
        Some(Side::Bid) => 0,
        Some(Side::Ask) => 1,
        None => 0xff,
    }
}

/// Folds numbers into a checksum.
fn fold_list(h: u64, vs: &Vec<u64>) -> (r: u64)
    ensures
        r == fold_all(h, vs@),
{
    let mut out: u64 = h;
    let mut i: usize = 0;
    assert(vs@.take(0) =~= Seq::<u64>::empty());
    while i < vs.len()
        invariant
            i <= vs@.len(),
            out == fold_all(h, vs@.take(i as int)),
        decreases vs@.len() - i,
    {
        assert(vs@.take(i as int + 1).drop_last() =~= vs@.take(i as int));
        out = fold(out, vs[i]);
        i = i + 1;
    }
    assert(vs@.take(i as int) =~= vs@);
    out
}

/// Every field of a message, as numbers.
fn fields_of(msg: &Message) -> (r: Vec<u64>)
    ensures
        r@ == fields(*msg),
{
    let mut out: Vec<u64> = Vec::new();
    match msg {
        Message::AddOrder { order_id, price, quantity, symbol_id, side } => {
            out.push(*order_id);
            out.push(bits_of(*price));
            out.push(*quantity as u64);
            out.push(*symbol_id as u64);
            out.push(side_code(*side));
        },
        Message::ModifyOrder { order_id, new_price, new_quantity, symbol_id, reason, .. } => {
            out.push(*order_id);
            out.push(bits_of(*new_price));
            out.push(*new_quantity as u64);
            out.push(*symbol_id as u64);
            out.push(
                match reason {
                    Some(ModifyReason::Reduce) => 0,
                    Some(ModifyReason::Replace) => 1,
                    None => 0xff,
                },
            );
        },
        Message::DeleteOrder { order_id, symbol_id, side } => {
            out.push(*order_id);
            out.push(*symbol_id as u64);
            out.push(side_code(*side));
        },
        Message::Trade {
            trade_id,
            aggressor_order_id,
            resting_order_id,
            price,
            quantity,
            symbol_id,
            ..
        } => {
            out.push(*trade_id);
            out.push(*aggressor_order_id);
            out.push(*resting_order_id);
            out.push(bits_of(*price));
            out.push(*quantity as u64);
            out.push(*symbol_id as u64);
        },
        Message::Snapshot(d) => {
            out.push(d.last_sequence);
            let mut i: usize = 0;
            assert(out@ =~= seq![d.last_sequence] + order_fields(d.orders@.take(0)));
            while i < d.orders.len()
                invariant
                    i <= d.orders@.len(),
                    out@ == seq![d.last_sequence] + order_fields(d.orders@.take(i as int)),
                decreases d.orders@.len() - i,
            {
                let o = &d.orders[i];
                out.push(o.order_id);
                out.push(bits_of(o.price));
                proof {
                    let t = d.orders@.take(i as int + 1);
                    assert(t.drop_last() =~= d.orders@.take(i as int));
                    assert(out@ =~= seq![d.last_sequence] + order_fields(t));
                }
                i = i + 1;
            }
            assert(d.orders@.take(i as int) =~= d.orders@);
        },
        Message::Heartbeat { .. } => {},
        Message::SequenceReset { .. } => {},
    }
    assert(out@ =~= fields(*msg));
    out
}

/// A checksum over every field of every message of a packet.
pub fn decode_fields(p: &Packet) -> (r: u64)
    requires
        p.first_sequence + p.messages@.len() <= u64::MAX,
    ensures
        r == fold_all(FOLD_SEED, packet_fields(*p, p.messages@.len() as int)),
{
    let mut h: u64 = FOLD_SEED;
    let mut i: usize = 0;
    while i < p.messages.len()
        invariant
            i <= p.messages@.len(),
            p.first_sequence + p.messages@.len() <= u64::MAX,
            h == fold_all(FOLD_SEED, packet_fields(*p, i as int)),
        decreases p.messages@.len() - i,
    {
        let seq: u64 = p.first_sequence + i as u64;
        let ghost before = packet_fields(*p, i as int);
        h = fold(h, seq);
        assert(before.push(seq).drop_last() =~= before);
        proof {
            lemma_fold_concat(FOLD_SEED, before.push(seq), fields(p.messages@[i as int]));
        }
        h = fold_list(h, &fields_of(&p.messages[i]));
        i = i + 1;
    }
    h
}

/// Books after each message of a packet, and the answers: `states` begins with what
/// there was.
pub open spec fn applied_in_turn<B: BookSet>(
    p: Packet,
    states: Seq<B>,
    answers: Seq<Result<(), ApplyError>>,
) -> bool {
    &&& states.len() == answers.len() + 1
    &&& answers.len() == p.messages@.len()
    &&& forall|i: int|
        0 <= i < answers.len() ==> told(
            states[i],
            p.messages@[i],
            states[i + 1],
            #[trigger] answers[i],
        )
}

/// What is folded of a packet that is applied: each sequence number, and whether its
/// message went in.
pub open spec fn answer_fields(first: u64, answers: Seq<Result<(), ApplyError>>) -> Seq<u64>
    decreases answers.len(),
{
    if answers.len() == 0 {
        Seq::empty()
    } else {
        answer_fields(first, answers.drop_last()).push((first + answers.len() - 1) as u64).push(
            if answers.last() is Ok {
                1
            } else {
                0
            },
        )
    }
}

/// Books after a packet, and the checksum over which of its messages went in.
pub open spec fn packet_applied<B: BookSet>(before: B, p: Packet, after: B, sum: u64) -> bool {
    exists|states: Seq<B>, answers: Seq<Result<(), ApplyError>>| #[trigger]
        applied_in_turn(p, states, answers) && states.first() == before && states.last() == after
            && sum == fold_all(FOLD_SEED, answer_fields(p.first_sequence, answers))
}

/// Applies a packet, and makes a checksum over which of its messages went in.
pub fn decode_and_apply<B: BookSet>(books: &mut B, p: &Packet) -> (r: u64)
    requires
        old(books).valid(),
        p.first_sequence + p.messages@.len() <= u64::MAX,
    ensures
        final(books).valid(),
        packet_applied(*old(books), *p, *final(books), r),
{
    let mut h: u64 = FOLD_SEED;
    let mut i: usize = 0;
    let ghost mut states: Seq<B> = seq![*books];
    let ghost mut answers: Seq<Result<(), ApplyError>> = Seq::empty();
    while i < p.messages.len()
        invariant
            i <= p.messages@.len(),
            p.first_sequence + p.messages@.len() <= u64::MAX,
            books.valid(),
            states.len() == i + 1,
            answers.len() == i,
            states.first() == *old(books),
            states.last() == *books,
            forall|k: int|
                0 <= k < answers.len() ==> told(
                    states[k],
                    p.messages@[k],
                    states[k + 1],
                    #[trigger] answers[k],
                ),
            h == fold_all(FOLD_SEED, answer_fields(p.first_sequence, answers)),
        decreases p.messages@.len() - i,
    {
        let seq: u64 = p.first_sequence + i as u64;
        let ghost before = *books;
        let ghost fed = answer_fields(p.first_sequence, answers);
        h = fold(h, seq);
        let r = apply_message(books, &p.messages[i]);
        let ok: u64 = match r {
            Ok(()) => 1,
            Err(_) => 0,
        };
        h = fold(h, ok);
        proof {
            let old_states = states;
            let old_answers = answers;
            states = states.push(*books);
            answers = answers.push(r);
            assert(answers.drop_last() =~= old_answers);
            assert(answers.last() == r);
            assert(answer_fields(p.first_sequence, answers) == fed.push(seq).push(ok));
            assert(fed.push(seq).push(ok).drop_last() =~= fed.push(seq));
            assert(fed.push(seq).drop_last() =~= fed);
            assert(h == folded(folded(fold_all(FOLD_SEED, fed), seq), ok));
            assert(fold_all(FOLD_SEED, fed.push(seq)) == folded(fold_all(FOLD_SEED, fed), seq));
            assert(fold_all(FOLD_SEED, fed.push(seq).push(ok)) == folded(
                fold_all(FOLD_SEED, fed.push(seq)),
                ok,
            ));
            assert(told(before, p.messages@[i as int], *books, r));
            assert(states[i as int] == before && states[i + 1] == *books);
            assert forall|k: int| 0 <= k < answers.len() implies told(
                states[k],
                p.messages@[k],
                states[k + 1],
                #[trigger] answers[k],
            ) by {
                if k < i {
                    assert(old_answers[k] == answers[k]);
                    assert(states[k] == old_states[k] && states[k + 1] == old_states[k + 1]);
                }
            }
        }
        i = i + 1;
    }
    assert(applied_in_turn(*p, states, answers));
    h
}

/// A fast book for the workload's symbol, with room for all of it.
pub fn fast_books() -> (r: FastBooks)
    ensures
        r.valid(),
        forall|s: u16| #[trigger] r.symbol_ids().contains(s) <==> s == SYMBOL,
        forall|s: u16| #[trigger] r.model_of(s) == crate::model::BookModel::empty(),
        forall|s: u16| #[trigger]
            r.room_of(s) == crate::fast::fresh_space(
                MboCapacity { levels: 4096, orders: 65536, reference_price: MID, tick: TICK },
            ),
{
    let mut symbols: Vec<u16> = Vec::new();
    symbols.push(SYMBOL);
    assert(symbols@ =~= seq![SYMBOL]);
    assert(symbols@[0] == SYMBOL);
    let capacity = default_capacity();
    FastBooks::uniform(&symbols, capacity)
}

/// A reference book for the workload's symbol.
pub fn reference_books() -> (r: Books)
    ensures
        r.valid(),
        forall|s: u16| #[trigger] r.symbol_ids().contains(s) <==> s == SYMBOL,
        forall|s: u16| #[trigger] r.model_of(s) == crate::model::BookModel::empty(),
{
    let mut b = Books::new();
    let _ = b.get_or_create(SYMBOL);
    b
}

/// Books after a packet, whatever its checksum.
pub open spec fn packet_told<B: BookSet>(before: B, p: Packet, after: B) -> bool {
    exists|sum: u64| #[trigger] packet_applied(before, p, after, sum)
}

/// Books after each of the first packets of a workload: `states` begins with what
/// there was.
pub open spec fn warmed<B: BookSet>(corpus: Seq<Packet>, states: Seq<B>) -> bool {
    &&& 0 < states.len() <= corpus.len() + 1
    &&& forall|i: int|
        0 <= i < states.len() - 1 ==> packet_told(states[i], #[trigger] corpus[i], states[i + 1])
}

/// Applies the first packets of a workload, as many of them as there are.
pub fn warm<B: BookSet>(books: &mut B, corpus: &Corpus, datagrams: usize)
    requires
        old(books).valid(),
        forall|i: int|
            0 <= i < corpus.all().len() ==> (#[trigger] corpus.all()[i]).first_sequence
                + corpus.all()[i].messages@.len() <= u64::MAX,
    ensures
        final(books).valid(),
        exists|states: Seq<B>| #[trigger]
            warmed(corpus.all(), states) && states.first() == *old(books) && states.last()
                == *final(books) && states.len() == 1 + (if datagrams < corpus.all().len() {
                datagrams as int
            } else {
                corpus.all().len() as int
            }),
{
    let mut i: usize = 0;
    let ghost mut states: Seq<B> = seq![*books];
    while i < datagrams && i < corpus.packets.len()
        invariant
            books.valid(),
            i <= datagrams,
            i <= corpus.packets@.len(),
            states.len() == i + 1,
            states.first() == *old(books),
            states.last() == *books,
            warmed(corpus.all(), states),
            forall|i: int|
                0 <= i < corpus.all().len() ==> (#[trigger] corpus.all()[i]).first_sequence
                    + corpus.all()[i].messages@.len() <= u64::MAX,
        decreases corpus.packets@.len() - i,
    {
        assert(corpus.all()[i as int] == corpus.packets@[i as int]);
        let ghost before = *books;
        let sum: u64 = decode_and_apply(books, &corpus.packets[i]);
        proof {
            let old_states = states;
            states = states.push(*books);
            assert(packet_applied(before, corpus.all()[i as int], *books, sum));
            assert(packet_told(before, corpus.all()[i as int], *books));
            assert forall|k: int| 0 <= k < states.len() - 1 implies packet_told(
                states[k],
                #[trigger] corpus.all()[k],
                states[k + 1],
            ) by {
                if k < i {
                    assert(states[k] == old_states[k] && states[k + 1] == old_states[k + 1]);
                } else {
                    assert(states[k] == before && states[k + 1] == *books);
                }
            }
        }
        i = i + 1;
    }
}

/// How many orders rest over all books.
pub fn resting_orders<B: BookSet>(books: &B) -> (r: usize)
    requires
        books.valid(),
        resting(models(books), books.symbol_ids()) <= usize::MAX,
    ensures
        r == resting(models(books), books.symbol_ids()),
{
    assert(models(books) =~= Map::new(|s: u16| true, |s: u16| books.model_of(s)));
    books.total_orders()
}

impl Making {
    /// What rests was added before, and nothing twice.
    pub open spec fn sound(self) -> bool {
        &&& self.resting.no_duplicates()
        &&& 1 <= self.next_order < u64::MAX
        &&& self.resting.len() < u64::MAX
        &&& forall|i: int| 0 <= i < self.resting.len() ==> (#[trigger] self.resting[i])
            < self.next_order
    }
}

/// A price of the workload: on the grid, up to 32 ticks below the mid and fewer above.
pub open spec fn near_mid(price: i64) -> bool {
    &&& 1_000_000 - 3_200 <= price < 1_000_000 + 3_200
    &&& price % 100 == 0
}

/// Each message of the workload could be of a real feed: an add brings an order that is new,
/// and what is deleted, replaced or traded is an order that rests. Of a hundred draws 55 are
/// adds, 25 deletes, 12 replaces and 8 trades, but all are adds where nothing rests.
pub proof fn law_workload_is_a_feed(m: Making)
    requires
        m.sound(),
    ensures
        ({
            let n = m.next();
            let roll = drawn(m.rng) % 100;
            let bare = m.resting.len() == 0;
            &&& n.resting.no_duplicates()
            &&& forall|i: int| 0 <= i < n.resting.len() ==> (#[trigger] n.resting[i])
                < n.next_order
            &&& match m.message() {
                Message::AddOrder { order_id, price, quantity, symbol_id, side } => {
                    &&& roll < 55 || bare
                    &&& order_id == m.next_order
                    &&& !m.resting.contains(order_id)
                    &&& n.resting == m.resting.push(order_id)
                    &&& n.next_order == m.next_order + 1
                    &&& near_mid(price)
                    &&& 1 <= quantity <= 500
                    &&& symbol_id == 7
                    &&& side is Some
                },
                Message::DeleteOrder { order_id, symbol_id, side } => {
                    &&& 55 <= roll < 80 && !bare
                    &&& m.resting.contains(order_id)
                    &&& forall|x: u64| #[trigger]
                        n.resting.contains(x) <==> m.resting.contains(x) && x != order_id
                    &&& n.next_order == m.next_order
                    &&& symbol_id == 7
                    &&& side is Some
                },
                Message::ModifyOrder {
                    order_id,
                    new_price,
                    new_quantity,
                    symbol_id,
                    side,
                    reason,
                } => {
                    &&& 80 <= roll < 92 && !bare
                    &&& m.resting.contains(order_id)
                    &&& n.resting == m.resting
                    &&& n.next_order == m.next_order
                    &&& near_mid(new_price)
                    &&& 1 <= new_quantity <= 100
                    &&& symbol_id == 7
                    &&& side is Some
                    &&& reason == Some(ModifyReason::Replace)
                },
                Message::Trade {
                    aggressor_order_id,
                    resting_order_id,
                    price,
                    quantity,
                    symbol_id,
                    aggressor_side,
                    ..
                } => {
                    &&& 92 <= roll && !bare
                    &&& m.resting.contains(resting_order_id)
                    &&& aggressor_order_id == resting_order_id
                    &&& n.resting == m.resting
                    &&& n.next_order == m.next_order
                    &&& price == 1_000_000
                    &&& 1 <= quantity <= 50
                    &&& symbol_id == 7
                    &&& aggressor_side is Some
                },
                _ => false,
            }
        }),
{
    let n = m.next();
    if m.resting.len() > 0 {
        let i = m.pick();
        assert(0 <= i < m.resting.len());
        assert(m.resting.contains(m.resting[i]));
        let w = swapped_out(m.resting, i);
        let l = m.resting.len() - 1;
        assert forall|x: u64| #[trigger] w.contains(x) <==> m.resting.contains(x) && x
            != m.resting[i] by {
            if w.contains(x) {
                let j = choose|j: int| 0 <= j < w.len() && w[j] == x;
                if j == i {
                    assert(m.resting[l] == x);
                } else {
                    assert(m.resting[j] == x);
                }
            }
            if m.resting.contains(x) && x != m.resting[i] {
                let j = choose|j: int| 0 <= j < m.resting.len() && m.resting[j] == x;
                if j == l {
                    assert(w[i] == x);
                } else {
                    assert(w[j] == x);
                }
            }
        }
        assert forall|j: int| 0 <= j < w.len() implies (#[trigger] w[j]) < m.next_order by {
            assert(w.contains(w[j]));
            let k = choose|k: int| 0 <= k < m.resting.len() && m.resting[k] == w[j];
            assert(m.resting[k] < m.next_order);
        }
    }
    let id = m.next_order as u64;
    assert(!m.resting.contains(id)) by {
        if m.resting.contains(id) {
            let k = choose|k: int| 0 <= k < m.resting.len() && m.resting[k] == id;
            assert(m.resting[k] < m.next_order);
        }
    }
    assert forall|d: u64| #[trigger] near_mid(spread_price(d)) by {
        let k = d % 64 - 32;
        assert((MID + k * TICK) % 100 == 0);
    }
}

/// A checksum takes in every field that it is made of: messages of one kind whose numbers are
/// the same are the same, but for the side of a modify and of a trade, which is not taken in.
pub proof fn law_checksum_takes_in_every_field(a: Message, b: Message)
    requires
        fields(a) == fields(b),
        !(a is Snapshot),
    ensures
        a is AddOrder && b is AddOrder ==> a == b,
        a is DeleteOrder && b is DeleteOrder ==> a == b,
        a matches Message::ModifyOrder { order_id, new_price, new_quantity, symbol_id, reason, .. }
            ==> b matches Message::ModifyOrder {
            order_id: o,
            new_price: p,
            new_quantity: q,
            symbol_id: s,
            reason: r,
            ..
        } ==> o == order_id && p == new_price && q == new_quantity && s == symbol_id && r == reason,
        a matches Message::Trade {
            trade_id,
            aggressor_order_id,
            resting_order_id,
            price,
            quantity,
            symbol_id,
            ..
        } ==> b matches Message::Trade {
            trade_id: t,
            aggressor_order_id: g,
            resting_order_id: o,
            price: p,
            quantity: q,
            symbol_id: s,
            ..
        } ==> t == trade_id && g == aggressor_order_id && o == resting_order_id && p == price && q
            == quantity && s == symbol_id,
{
    let x = fields(a);
    let y = fields(b);
    assert(x.len() == y.len());
    assert forall|i: int| 0 <= i < x.len() implies x[i] == y[i] by {}
    assert(x.len() > 0 ==> x[0] == y[0]);
    assert(x.len() > 1 ==> x[1] == y[1]);
    assert(x.len() > 2 ==> x[2] == y[2]);
    assert(x.len() > 3 ==> x[3] == y[3]);
    assert(x.len() > 4 ==> x[4] == y[4]);
    assert(x.len() > 5 ==> x[5] == y[5]);
}

/// One step of a checksum loses nothing: from the value and the sum after it the sum before it
/// follows, and from the two sums the value.
pub proof fn law_fold_loses_nothing(g: u64, h: u64, v: u64, w: u64)
    ensures
        folded(g, v) == folded(h, v) ==> g == h,
        folded(h, v) == folded(h, w) ==> v == w,
{
    if folded(g, v) == folded(h, v) {
        lemma_prime_is_odd(g ^ v, h ^ v);
        assert(g ^ v == h ^ v ==> g == h) by (bit_vector);
    }
    if folded(h, v) == folded(h, w) {
        lemma_prime_is_odd(h ^ v, h ^ w);
        assert(h ^ v == h ^ w ==> v == w) by (bit_vector);
    }
}

/// Of each message of a datagram the checksum takes in the number that it goes by, and then
/// what it says, after those before it.
pub proof fn law_datagram_is_taken_in_whole(p: Packet, i: int)
    requires
        0 <= i < p.messages@.len(),
        p.first_sequence + i <= u64::MAX,
    ensures
        ({
            let before = packet_fields(p, i);
            let through = packet_fields(p, i + 1);
            let said = fields(p.messages@[i]);
            &&& through.len() == before.len() + 1 + said.len()
            &&& before.is_prefix_of(through)
            &&& through[before.len() as int] == p.first_sequence + i
            &&& through.skip(before.len() as int + 1) == said
        }),
{
    let before = packet_fields(p, i);
    let through = packet_fields(p, i + 1);
    let said = fields(p.messages@[i]);
    assert(through == before.push((p.first_sequence + i) as u64) + said);
    assert(through.skip(before.len() as int + 1) =~= said);
    assert(before =~= through.take(before.len() as int));
}

} // verus!
