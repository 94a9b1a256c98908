//! The messages and headers that the rest of the library reads, as plain values.
//!
//! A datagram is decoded at the edge of the process. What comes out of the
//! decoder is one of the types below, and everything past that point works on
//! them alone.

use vstd::prelude::*;

verus! {

/// Which side of the book an order rests on.
#[derive(Debug, Clone, Copy, PartialEq, Eq, Structural)]
pub enum Side {
    Bid,
    Ask,
}

impl Side {
    /// The side an aggressor on this side trades against.
    pub open spec fn other(self) -> Side {
        match self {
            Side::Bid => Side::Ask,
            Side::Ask => Side::Bid,
        }
    }

    /// The byte that stands for this side in a digest.
    pub open spec fn code(self) -> u8 {
        match self {
            Side::Bid => 0,
            Side::Ask => 1,
        }
    }
}

/// Whether a modify keeps the order's place in its queue.
#[derive(Debug, Clone, Copy, PartialEq, Eq, Structural)]
pub enum ModifyReason {
    Reduce,
    Replace,
}

/// One order of a snapshot, in queue order within its price. A side that is neither bid
/// nor ask is `None`.
#[derive(Debug, Clone, Copy, PartialEq, Eq, Structural)]
pub struct SnapshotOrder {
    pub order_id: u64,
    pub price: i64,
    pub quantity: u32,
    pub side: Option<Side>,
}

/// One fragment of a snapshot cycle.
#[derive(Debug, Clone)]
pub struct Snapshot {
    /// The last incremental sequence the snapshot reflects.
    pub last_sequence: u64,
    pub symbol_id: u16,
    pub orders: Vec<SnapshotOrder>,
}

/// A decoded message of the incremental or the snapshot stream. A side that is neither bid
/// nor ask, or a reason that is neither of the two, is `None`.
#[derive(Debug, Clone)]
pub enum Message {
    AddOrder { order_id: u64, price: i64, quantity: u32, symbol_id: u16, side: Option<Side> },
    ModifyOrder {
        order_id: u64,
        new_price: i64,
        new_quantity: u32,
        symbol_id: u16,
        side: Option<Side>,
        reason: Option<ModifyReason>,
    },
    DeleteOrder { order_id: u64, symbol_id: u16, side: Option<Side> },
    Trade {
        trade_id: u64,
        aggressor_order_id: u64,
        resting_order_id: u64,
        price: i64,
        quantity: u32,
        symbol_id: u16,
        aggressor_side: Option<Side>,
    },
    /// Nothing happened since this sequence.
    Heartbeat { last_sequence: u64 },
    /// The numbering goes on from here.
    SequenceReset { next_sequence: u64 },
    Snapshot(Snapshot),
}

/// What a datagram's packet header says.
#[derive(Debug, Clone, Copy, PartialEq, Eq, Structural)]
pub struct PacketHeader {
    pub first_sequence: u64,
    pub message_count: u16,
    pub snapshot: bool,
}

impl PacketHeader {
    /// One past the last sequence the datagram carries.
    pub open spec fn end(self) -> int {
        self.first_sequence + self.message_count
    }
}

} // verus!
