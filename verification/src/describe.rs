//! Errors and findings in words.

use crate::apply::{ApplyError, WireError};
use crate::arbitration::Gap;
use crate::digest::BookDigest;
use crate::message::Side;
use crate::model::{BookError, Fault};
use crate::recovery::RecoveryFailure;
use crate::ring::{PushError, RingError};
use crate::text::{decimal, hex16, push_decimal, push_hex16, push_signed, signed_decimal};
use vstd::prelude::*;
use vstd::string::StringExecFns;

verus! {

impl BookError {
    pub open spec fn text(self) -> Seq<char> {
        match self {
            BookError::DuplicateOrderId(id) => "order "@ + decimal(id as int)
                + " is already on the book"@,
            BookError::UnknownOrderId(id) => "order "@ + decimal(id as int)
                + " is not on the book"@,
            BookError::ReduceWouldIncrease { order_id, from, to } => "order "@ + decimal(
                order_id as int,
            ) + ": reduce from "@ + decimal(from as int) + " to "@ + decimal(to as int)
                + " would increase quantity"@,
            BookError::ZeroQuantity(id) => "order "@ + decimal(id as int)
                + " would be left with zero quantity"@,
            BookError::PriceOffGrid { order_id, price } => "order "@ + decimal(order_id as int)
                + ": price "@ + signed_decimal(price as int) + " is not on the tick grid"@,
            BookError::PriceOutOfRange { order_id, price } => "order "@ + decimal(order_id as int)
                + ": price "@ + signed_decimal(price as int) + " is outside the price window"@,
            BookError::SlabFull { order_id, capacity } => "order "@ + decimal(order_id as int)
                + ": all "@ + decimal(capacity as int) + " order slots are taken"@,
        }
    }

    pub fn describe(self) -> (r: String)
        ensures
            r@ == self.text(),
    {
        let mut s: String = String::from_str("order ");
        match self {
            BookError::DuplicateOrderId(id) => {
                push_decimal(&mut s, id);
                s.append(" is already on the book");
            },
            BookError::UnknownOrderId(id) => {
                push_decimal(&mut s, id);
                s.append(" is not on the book");
            },
            BookError::ReduceWouldIncrease { order_id, from, to } => {
                push_decimal(&mut s, order_id);
                s.append(": reduce from ");
                push_decimal(&mut s, from as u64);
                s.append(" to ");
                push_decimal(&mut s, to as u64);
                s.append(" would increase quantity");
            },
            BookError::ZeroQuantity(id) => {
                push_decimal(&mut s, id);
                s.append(" would be left with zero quantity");
            },
            BookError::PriceOffGrid { order_id, price } => {
                push_decimal(&mut s, order_id);
                s.append(": price ");
                push_signed(&mut s, price);
                s.append(" is not on the tick grid");
            },
            BookError::PriceOutOfRange { order_id, price } => {
                push_decimal(&mut s, order_id);
                s.append(": price ");
                push_signed(&mut s, price);
                s.append(" is outside the price window");
            },
            BookError::SlabFull { order_id, capacity } => {
                push_decimal(&mut s, order_id);
                s.append(": all ");
                push_decimal(&mut s, capacity as u64);
                s.append(" order slots are taken");
            },
        }
        s
    }
}

impl WireError {
    pub open spec fn text(self) -> Seq<char> {
        match self {
            WireError::UndefinedSide => "the side is not defined"@,
            WireError::UndefinedReason => "the modify reason is not defined"@,
        }
    }

    pub fn describe(self) -> (r: String)
        ensures
            r@ == self.text(),
    {
        match self {
            WireError::UndefinedSide => String::from_str("the side is not defined"),
            WireError::UndefinedReason => String::from_str("the modify reason is not defined"),
        }
    }
}

impl ApplyError {
    pub open spec fn text(self) -> Seq<char> {
        match self {
            ApplyError::Book { symbol_id, error } => "symbol "@ + decimal(symbol_id as int) + ": "@
                + error.text(),
            ApplyError::Wire(error) => error.text(),
            ApplyError::SnapshotOverlap { symbol_id, order_id } => "symbol "@ + decimal(
                symbol_id as int,
            ) + ": snapshot order "@ + decimal(order_id as int)
                + " is already on the book; the cycle was not started with apply_snapshot"@,
        }
    }

    pub fn describe(self) -> (r: String)
        ensures
            r@ == self.text(),
    {
        let mut s: String = String::from_str("symbol ");
        match self {
            ApplyError::Wire(error) => return error.describe(),
            ApplyError::Book { symbol_id, error } => {
                push_decimal(&mut s, symbol_id as u64);
                s.append(": ");
                s.append(error.describe().as_str());
            },
            ApplyError::SnapshotOverlap { symbol_id, order_id } => {
                push_decimal(&mut s, symbol_id as u64);
                s.append(": snapshot order ");
                push_decimal(&mut s, order_id);
                s.append(
                    " is already on the book; the cycle was not started with apply_snapshot",
                );
            },
        }
        s
    }
}

impl Gap {
    /// The range that was missed, and how many messages it is.
    pub fn describe(self) -> (r: String)
        requires
            self.from <= self.through,
            self.through - self.from < u64::MAX,
        ensures
            r@ == decimal(self.from as int) + "..="@ + decimal(self.through as int) + " ("@
                + decimal(self.through - self.from + 1) + " messages)"@,
    {
        let mut s: String = String::new();
        push_decimal(&mut s, self.from);
        assert(s@ =~= decimal(self.from as int));
        s.append("..=");
        push_decimal(&mut s, self.through);
        s.append(" (");
        push_decimal(&mut s, self.through - self.from + 1);
        s.append(" messages)");
        s
    }
}

impl RecoveryFailure {
    pub open spec fn text(self) -> Seq<char> {
        match self {
            RecoveryFailure::BufferFull { capacity } => "the recovery buffer filled at "@ + decimal(
                capacity as int,
            ) + " datagrams before a snapshot arrived"@,
            RecoveryFailure::TimedOut { after } => "no usable snapshot arrived within "@ + decimal(
                after as int / 1_000_000,
            ) + "ms"@,
        }
    }

    pub fn describe(self) -> (r: String)
        ensures
            r@ == self.text(),
    {
        match self {
            RecoveryFailure::BufferFull { capacity } => {
                let mut s: String = String::from_str("the recovery buffer filled at ");
                push_decimal(&mut s, capacity as u64);
                s.append(" datagrams before a snapshot arrived");
                s
            },
            RecoveryFailure::TimedOut { after } => {
                let mut s: String = String::from_str("no usable snapshot arrived within ");
                push_decimal(&mut s, after / 1_000_000);
                s.append("ms");
                s
            },
        }
    }
}

impl RingError {
    /// The error in words, where a slot's header takes this many bytes.
    pub open spec fn text(self, slot_header_len: usize) -> Seq<char> {
        match self {
            RingError::CapacityNotPowerOfTwo(n) => "capacity "@ + decimal(n as int)
                + " is not a power of two"@,
            RingError::CapacityZero => "capacity must be at least 1"@,
            RingError::BadSlotSize(n) => "slot size "@ + decimal(n as int)
                + " must be a multiple of 64 and larger than "@ + decimal(slot_header_len as int),
            RingError::BadMagic(m) => "not a ring: magic 0x"@ + hex16(m),
            RingError::BadVersion(v) => "ring layout version "@ + decimal(v as int)
                + ", this build speaks 1"@,
            RingError::Truncated { need, got } => "ring file is "@ + decimal(got as int)
                + " bytes; its header describes "@ + decimal(need as int),
        }
    }

    pub fn describe(self, slot_header_len: usize) -> (r: String)
        ensures
            r@ == self.text(slot_header_len),
    {
        match self {
            RingError::CapacityNotPowerOfTwo(n) => {
                let mut s: String = String::from_str("capacity ");
                push_decimal(&mut s, n as u64);
                s.append(" is not a power of two");
                s
            },
            RingError::CapacityZero => String::from_str("capacity must be at least 1"),
            RingError::BadSlotSize(n) => {
                let mut s: String = String::from_str("slot size ");
                push_decimal(&mut s, n as u64);
                s.append(" must be a multiple of 64 and larger than ");
                push_decimal(&mut s, slot_header_len as u64);
                s
            },
            RingError::BadMagic(m) => {
                let mut s: String = String::from_str("not a ring: magic 0x");
                push_hex16(&mut s, m);
                s
            },
            RingError::BadVersion(v) => {
                let mut s: String = String::from_str("ring layout version ");
                push_decimal(&mut s, v as u64);
                s.append(", this build speaks 1");
                s
            },
            RingError::Truncated { need, got } => {
                let mut s: String = String::from_str("ring file is ");
                push_decimal(&mut s, got as u64);
                s.append(" bytes; its header describes ");
                push_decimal(&mut s, need as u64);
                s
            },
        }
    }
}

impl PushError {
    pub open spec fn text(self) -> Seq<char> {
        match self {
            PushError::Full => "the ring is full"@,
            PushError::TooLarge { len, capacity } => "a "@ + decimal(len as int)
                + "-byte message does not fit a "@ + decimal(capacity as int) + "-byte slot"@,
            PushError::Abandoned => "the fill closure wrote nothing"@,
        }
    }

    pub fn describe(self) -> (r: String)
        ensures
            r@ == self.text(),
    {
        match self {
            PushError::Full => String::from_str("the ring is full"),
            PushError::TooLarge { len, capacity } => {
                let mut s: String = String::from_str("a ");
                push_decimal(&mut s, len as u64);
                s.append("-byte message does not fit a ");
                push_decimal(&mut s, capacity as u64);
                s.append("-byte slot");
                s
            },
            PushError::Abandoned => String::from_str("the fill closure wrote nothing"),
        }
    }
}

impl BookDigest {
    pub fn describe(self) -> (r: String)
        ensures
            r@ == "top="@ + hex16(self.top) + " full="@ + hex16(self.full) + " orders="@ + decimal(
                self.orders as int,
            ),
    {
        let mut s: String = String::from_str("top=");
        push_hex16(&mut s, self.top);
        s.append(" full=");
        push_hex16(&mut s, self.full);
        s.append(" orders=");
        push_decimal(&mut s, self.orders);
        s
    }
}

pub open spec fn place_text(p: Option<usize>) -> Seq<char> {
    match p {
        Some(i) => "Some("@ + decimal(i as int) + ")"@,
        None => "None"@,
    }
}

fn push_place(s: &mut String, p: Option<usize>)
    ensures
        final(s)@ == old(s)@ + place_text(p),
{
    match p {
        Some(i) => {
            s.append("Some(");
            push_decimal(s, i as u64);
            s.append(")");
        },
        None => s.append("None"),
    }
    assert(s@ =~= old(s)@ + place_text(p));
}

pub open spec fn side_text(side: Side) -> Seq<char> {
    match side {
        Side::Bid => "Bid"@,
        Side::Ask => "Ask"@,
    }
}

fn side_name(side: Side) -> (r: &'static str)
    ensures
        r@ == side_text(side),
{
    match side {
        Side::Bid => "Bid",
        Side::Ask => "Ask",
    }
}

impl Fault {
    pub open spec fn text(self) -> Seq<char> {
        match self {
            Fault::RecordsOtherSlot { order_id, level, slot } => "order "@ + decimal(
                order_id as int,
            ) + " is in level "@ + decimal(level as int) + " but records slot "@ + decimal(
                slot as int,
            ),
            Fault::WrongSide { order_id } => "order "@ + decimal(order_id as int)
                + " is on the wrong side"@,
            Fault::WrongPrev { order_id, prev, came_from } => "order "@ + decimal(order_id as int)
                + " has prev "@ + decimal(prev as int) + " but the walk came from "@ + decimal(
                came_from as int,
            ),
            Fault::RestsEmpty { order_id } => "order "@ + decimal(order_id as int)
                + " rests with zero quantity"@,
            Fault::NotInMap { order_id } => "order "@ + decimal(order_id as int)
                + " is not in the map"@,
            Fault::Cyclic { level } => "level "@ + decimal(level as int) + " list is cyclic"@,
            Fault::WrongTail { level, tail, ended_at } => "level "@ + decimal(level as int)
                + " tail is "@ + decimal(tail as int) + " but the walk ended at "@ + decimal(
                ended_at as int,
            ),
            Fault::WrongOrderCount { level, says, holds } => "level "@ + decimal(level as int)
                + " says "@ + decimal(says as int) + " orders but holds "@ + decimal(holds as int),
            Fault::WrongQuantity { level, cell_quantity, list_quantity } => "level "@ + decimal(
                level as int,
            ) + " says "@ + decimal(cell_quantity as int) + " quantity but holds "@ + decimal(
                list_quantity as int,
            ),
            Fault::WrongLevelCount { side, says, holds } => side_text(side) + " side says "@
                + decimal(says as int) + " occupied levels but holds "@ + decimal(holds as int),
            Fault::WrongLive { live, on_levels } => decimal(live as int) + " live orders but "@
                + decimal(on_levels as int) + " on levels"@,
            Fault::WrongBest { side, cached, actual } => match side {
                Side::Bid => "best bid is cached as "@ + place_text(cached)
                    + " but the highest occupied bid is "@ + place_text(actual),
                Side::Ask => "best ask is cached as "@ + place_text(cached)
                    + " but the lowest occupied ask is "@ + place_text(actual),
            },
            Fault::WrongMapEntries { live, entries } => decimal(live as int) + " live orders but "@
                + decimal(entries as int)
                + " map entries; backward-shift deletion left the table wrong"@,
            Fault::EmptyLevel { price } => "empty level left behind at price "@ + signed_decimal(
                price as int,
            ),
            Fault::WrongPrice { order_id, filed_at, price } => "order "@ + decimal(order_id as int)
                + " is filed at "@ + signed_decimal(filed_at as int) + " but thinks it is at "@
                + signed_decimal(price as int),
        }
    }

    /// What the audit found, in words.
    pub fn describe(self) -> (r: String)
        ensures
            r@ == self.text(),
    {
        let mut s: String = String::new();
        match self {
            Fault::RecordsOtherSlot { order_id, level, slot } => {
                push_numbered(&mut s, "order ", order_id, " is in level ");
                push_decimal(&mut s, level as u64);
                s.append(" but records slot ");
                push_decimal(&mut s, slot as u64);
            },
            Fault::WrongSide { order_id } => push_numbered(
                &mut s,
                "order ",
                order_id,
                " is on the wrong side",
            ),
            Fault::WrongPrev { order_id, prev, came_from } => {
                push_numbered(&mut s, "order ", order_id, " has prev ");
                push_decimal(&mut s, prev as u64);
                s.append(" but the walk came from ");
                push_decimal(&mut s, came_from as u64);
            },
            Fault::RestsEmpty { order_id } => push_numbered(
                &mut s,
                "order ",
                order_id,
                " rests with zero quantity",
            ),
            Fault::NotInMap { order_id } => push_numbered(
                &mut s,
                "order ",
                order_id,
                " is not in the map",
            ),
            Fault::Cyclic { level } => push_numbered(
                &mut s,
                "level ",
                level as u64,
                " list is cyclic",
            ),
            Fault::WrongTail { level, tail, ended_at } => {
                push_numbered(&mut s, "level ", level as u64, " tail is ");
                push_decimal(&mut s, tail as u64);
                s.append(" but the walk ended at ");
                push_decimal(&mut s, ended_at as u64);
            },
            Fault::WrongOrderCount { level, says, holds } => {
                push_numbered(&mut s, "level ", level as u64, " says ");
                push_decimal(&mut s, says as u64);
                s.append(" orders but holds ");
                push_decimal(&mut s, holds as u64);
            },
            Fault::WrongQuantity { level, cell_quantity, list_quantity } => {
                push_numbered(&mut s, "level ", level as u64, " says ");
                push_decimal(&mut s, cell_quantity);
                s.append(" quantity but holds ");
                push_decimal(&mut s, list_quantity);
            },
            Fault::WrongLevelCount { side, says, holds } => {
                s.append(side_name(side));
                s.append(" side says ");
                push_decimal(&mut s, says as u64);
                s.append(" occupied levels but holds ");
                push_decimal(&mut s, holds as u64);
            },
            Fault::WrongLive { live, on_levels } => {
                push_numbered(&mut s, "", live as u64, " live orders but ");
                push_wide(&mut s, on_levels);
                s.append(" on levels");
                proof {
                    reveal_strlit("");
                }
            },
            Fault::WrongBest { side, cached, actual } => {
                match side {
                    Side::Bid => {
                        s.append("best bid is cached as ");
                        push_place(&mut s, cached);
                        s.append(" but the highest occupied bid is ");
                    },
                    Side::Ask => {
                        s.append("best ask is cached as ");
                        push_place(&mut s, cached);
                        s.append(" but the lowest occupied ask is ");
                    },
                }
                push_place(&mut s, actual);
            },
            Fault::WrongMapEntries { live, entries } => {
                push_numbered(&mut s, "", live as u64, " live orders but ");
                push_decimal(&mut s, entries as u64);
                s.append(" map entries; backward-shift deletion left the table wrong");
                proof {
                    reveal_strlit("");
                }
            },
            Fault::EmptyLevel { price } => {
                s.append("empty level left behind at price ");
                push_signed(&mut s, price);
            },
            Fault::WrongPrice { order_id, filed_at, price } => {
                push_numbered(&mut s, "order ", order_id, " is filed at ");
                push_signed(&mut s, filed_at);
                s.append(" but thinks it is at ");
                push_signed(&mut s, price);
            },
        }
        assert(s@ =~= self.text());
        s
    }
}

fn push_wide(s: &mut String, n: u128)
    ensures
        final(s)@ == old(s)@ + decimal(n as int),
    decreases n,
{
    let low: u64 = (n % 10) as u64;
    if n >= 10 {
        push_wide(s, n / 10);
    }
    let ghost before = s@;
    push_decimal(s, low);
    proof {
        assert(decimal(low as int) == seq![crate::text::digit(low as int)]);
        assert(s@ =~= old(s)@ + decimal(n as int));
    }
}

fn push_numbered(s: &mut String, before: &str, n: u64, after: &str)
    ensures
        final(s)@ == old(s)@ + (before@ + decimal(n as int) + after@),
{
    s.append(before);
    push_decimal(s, n);
    s.append(after);
    assert(s@ =~= old(s)@ + (before@ + decimal(n as int) + after@));
}

} // verus!
