//! The two small protocols of the replay service, as bytes.
//!
//! The uplink is a hello and then datagrams, each behind its length. A request is
//! a range of sequences, and the answer a header, which says what is held even
//! where the request cannot be served, followed by the datagrams. Numbers are
//! little-endian.

use crate::bytes::{law_number_round_trips, le_bytes, le_value, put, put_zeros, take};
use vstd::prelude::*;

verus! {

/// Opens every exchange, so that a wrong port is noticed at once.
pub const MAGIC: u32 = 0x4D44_5250;

pub const KIND_UPLINK_HELLO: u8 = 1;

pub const KIND_RANGE_REQUEST: u8 = 2;

pub const HELLO_LEN: usize = 12;

pub const REQUEST_LEN: usize = 24;

pub const RESPONSE_HEADER_LEN: usize = 28;

/// The most datagrams one response may carry.
pub const MAX_RESPONSE_DATAGRAMS: u32 = 65_536;

/// How a request was answered.
#[derive(Debug, Clone, Copy, PartialEq, Eq, Structural)]
pub enum Status {
    /// The full range follows.
    Served,
    /// The range starts before anything still held.
    TooOld,
    /// The range extends past what the service has seen.
    NotYet,
    /// Datagrams inside the range are missing.
    Incomplete,
    /// Malformed, or a range that ends before it starts.
    BadRequest,
}

impl Status {
    pub open spec fn code(self) -> u8 {
        match self {
            Status::Served => 0,
            Status::TooOld => 1,
            Status::NotYet => 2,
            Status::Incomplete => 3,
            Status::BadRequest => 4,
        }
    }

    fn to_u8(self) -> (r: u8)
        ensures
            r == self.code(),
    {
        match self {
            Status::Served => 0,
            Status::TooOld => 1,
            Status::NotYet => 2,
            Status::Incomplete => 3,
            Status::BadRequest => 4,
        }
    }

    pub fn from_u8(v: u8) -> (r: Option<Self>)
        ensures
            r is Some <==> v <= 4,
            r matches Some(s) ==> s.code() == v,
    {
        match v {
            0 => Some(Status::Served),
            1 => Some(Status::TooOld),
            2 => Some(Status::NotYet),
            3 => Some(Status::Incomplete),
            4 => Some(Status::BadRequest),
            _ => None,
        }
    }

    pub fn as_str(self) -> (r: &'static str)
        ensures
            r@ == (match self {
                Status::Served => "ok"@,
                Status::TooOld => "the range starts before anything still held"@,
                Status::NotYet => "the range extends past what the service has seen"@,
                Status::Incomplete => "the service is missing datagrams inside the range"@,
                Status::BadRequest => "malformed request"@,
            }),
    {
        match self {
            Status::Served => "ok",
            Status::TooOld => "the range starts before anything still held",
            Status::NotYet => "the range extends past what the service has seen",
            Status::Incomplete => "the service is missing datagrams inside the range",
            Status::BadRequest => "malformed request",
        }
    }
}

/// A range of sequences, both ends included.
#[derive(Debug, Clone, Copy, PartialEq, Eq, Structural)]
pub struct RangeRequest {
    pub from: u64,
    pub through: u64,
}

impl RangeRequest {
    /// How many messages are asked for. An inverted range counts as one.
    pub fn messages(&self) -> (r: u64)
        requires
            !(self.from == 0 && self.through == u64::MAX),
        ensures
            r == (if self.through > self.from {
                self.through - self.from + 1
            } else {
                1
            }),
    {
        if self.through > self.from {
            self.through - self.from + 1
        } else {
            1
        }
    }
}

#[derive(Debug, Clone, Copy, PartialEq, Eq, Structural)]
pub struct ResponseHeader {
    pub status: Status,
    pub datagrams: u32,
    /// The oldest sequence the service still holds.
    pub first_available: u64,
    /// One past the newest sequence the service holds.
    pub last_available: u64,
}

/// The message schema that both ends of an uplink have to speak.
#[derive(Debug, Clone, Copy, PartialEq, Eq, Structural)]
pub struct Schema {
    pub id: u16,
    pub version: u16,
}

/// Why bytes could not be read or written.
#[derive(Debug, Clone, Copy, PartialEq, Eq, Structural)]
pub enum ProtocolError {
    /// The bytes end too early.
    Truncated,
    BadMagic,
    WrongKind { kind: u8 },
    WrongSchemaId { id: u16 },
    WrongSchemaVersion { version: u16 },
    UnknownStatus { status: u8 },
    /// A datagram is longer than the buffer for it.
    TooLarge { len: u32, capacity: usize },
    /// A datagram is longer than its length field can say.
    TooLong,
    /// More datagrams are announced than one response may carry.
    TooMany { datagrams: u32 },
    /// The service promised so many datagrams and closed after fewer.
    ClosedEarly { promised: u32, got: u32 },
}

/// Bytes that arrive in order, read from the front.
#[derive(Debug)]
pub struct Source {
    bytes: Vec<u8>,
    at: usize,
}

impl View for Source {
    type V = Seq<u8>;

    /// What has not been read yet.
    closed spec fn view(&self) -> Seq<u8> {
        self.bytes@.skip(self.at as int)
    }
}

impl Source {
    pub closed spec fn wf(self) -> bool {
        self.at <= self.bytes@.len()
    }

    pub fn new(bytes: Vec<u8>) -> (r: Self)
        ensures
            r.wf(),
            r@ == bytes@,
    {
        let r = Source { bytes, at: 0 };
        assert(r@ =~= bytes@);
        r
    }

    /// Takes the next `n` bytes, or nothing where there are fewer.
    fn read_exact(&mut self, n: usize) -> (r: Option<Vec<u8>>)
        requires
            old(self).wf(),
        ensures
            final(self).wf(),
            r is Some <==> old(self)@.len() >= n,
            r matches Some(b) ==> b@ == old(self)@.take(n as int),
            final(self)@ == after(old(self)@, n as int),
    {
        let left: usize = self.bytes.len() - self.at;
        if left < n {
            self.at = self.bytes.len();
            assert(self@ =~= Seq::<u8>::empty());
            return None;
        }
        let total: usize = self.bytes.len();
        let mut out: Vec<u8> = Vec::with_capacity(n);
        let mut i: usize = 0;
        while i < n
            invariant
                *self == *old(self),
                self.wf(),
                total == self.bytes@.len(),
                self.at + n <= total,
                i <= n,
                out@ == self@.take(i as int),
            decreases n - i,
        {
            out.push(self.bytes[self.at + i]);
            assert(self@.take(i as int + 1) =~= self@.take(i as int).push(self@[i as int]));
            i = i + 1;
        }
        self.at = self.at + n;
        assert(self@ =~= old(self)@.skip(n as int));
        Some(out)
    }
}

/// What is left of a stream once `n` bytes have been taken from it. One that is
/// shorter is used up.
pub open spec fn after(s: Seq<u8>, n: int) -> Seq<u8> {
    if s.len() < n {
        Seq::empty()
    } else {
        s.skip(n)
    }
}

pub open spec fn zeros(n: nat) -> Seq<u8> {
    Seq::new(n, |i: int| 0u8)
}

/// A hello: magic, kind, schema.
pub open spec fn hello_bytes(schema: Schema) -> Seq<u8> {
    le_bytes(MAGIC as u64, 4) + le_bytes(KIND_UPLINK_HELLO as u64, 1) + zeros(1) + le_bytes(
        schema.id as u64,
        2,
    ) + le_bytes(schema.version as u64, 2) + zeros(2)
}

/// A request: magic, kind, the range.
pub open spec fn request_bytes(req: RangeRequest) -> Seq<u8> {
    le_bytes(MAGIC as u64, 4) + le_bytes(KIND_RANGE_REQUEST as u64, 1) + zeros(3) + le_bytes(
        req.from,
        8,
    ) + le_bytes(req.through, 8)
}

/// The head of a response: magic, status, how many datagrams, what is held.
pub open spec fn response_bytes(h: ResponseHeader) -> Seq<u8> {
    le_bytes(MAGIC as u64, 4) + le_bytes(h.status.code() as u64, 1) + zeros(3) + le_bytes(
        h.datagrams as u64,
        4,
    ) + le_bytes(h.first_available, 8) + le_bytes(h.last_available, 8)
}

/// A datagram behind its length.
pub open spec fn framed(datagram: Seq<u8>) -> Seq<u8> {
    le_bytes(datagram.len() as u64, 4) + datagram
}

pub fn write_hello(w: &mut Vec<u8>, schema: Schema)
    ensures
        final(w)@ == old(w)@ + hello_bytes(schema),
{
    put(w, MAGIC as u64, 4);
    put(w, KIND_UPLINK_HELLO as u64, 1);
    put_zeros(w, 1);
    put(w, schema.id as u64, 2);
    put(w, schema.version as u64, 2);
    put_zeros(w, 2);
    assert(w@ =~= old(w)@ + hello_bytes(schema));
}

/// What reading a hello comes to.
pub open spec fn hello_outcome(s: Seq<u8>, schema: Schema) -> Result<(), ProtocolError> {
    if s.len() < HELLO_LEN {
        Err(ProtocolError::Truncated)
    } else if le_value(s, 0, 4) != MAGIC as u64 {
        Err(ProtocolError::BadMagic)
    } else if s[4] != KIND_UPLINK_HELLO {
        Err(ProtocolError::WrongKind { kind: s[4] })
    } else if le_value(s, 6, 2) as u16 != schema.id {
        Err(ProtocolError::WrongSchemaId { id: le_value(s, 6, 2) as u16 })
    } else if le_value(s, 8, 2) as u16 != schema.version {
        Err(ProtocolError::WrongSchemaVersion { version: le_value(s, 8, 2) as u16 })
    } else {
        Ok(())
    }
}

/// A number does not depend on what stands behind its bytes.
proof fn lemma_value_prefix(s: Seq<u8>, k: int, at: int, n: int)
    requires
        0 <= at,
        0 <= n,
        at + n <= k <= s.len(),
    ensures
        le_value(s.take(k), at, n) == le_value(s, at, n),
    decreases n,
{
    if n > 0 {
        lemma_value_prefix(s, k, at, n - 1);
    }
}

pub fn read_hello(r: &mut Source, schema: Schema) -> (out: Result<(), ProtocolError>)
    requires
        old(r).wf(),
    ensures
        final(r).wf(),
        out == hello_outcome(old(r)@, schema),
        final(r)@ == after(old(r)@, HELLO_LEN as int),
{
    let ghost s = r@;
    let buf = match r.read_exact(HELLO_LEN) {
        None => return Err(ProtocolError::Truncated),
        Some(b) => b,
    };
    proof {
        lemma_value_prefix(s, HELLO_LEN as int, 0, 4);
        lemma_value_prefix(s, HELLO_LEN as int, 6, 2);
        lemma_value_prefix(s, HELLO_LEN as int, 8, 2);
    }
    if take(&buf, 0, 4) != MAGIC as u64 {
        return Err(ProtocolError::BadMagic);
    }
    if buf[4] != KIND_UPLINK_HELLO {
        return Err(ProtocolError::WrongKind { kind: buf[4] });
    }
    let id: u16 = #[verifier::truncate] (take(&buf, 6, 2) as u16);
    let version: u16 = #[verifier::truncate] (take(&buf, 8, 2) as u16);
    if id != schema.id {
        return Err(ProtocolError::WrongSchemaId { id });
    }
    if version != schema.version {
        return Err(ProtocolError::WrongSchemaVersion { version });
    }
    Ok(())
}

pub fn write_datagram(w: &mut Vec<u8>, datagram: &[u8]) -> (r: Result<(), ProtocolError>)
    ensures
        r == (if datagram@.len() > u32::MAX {
            Err(ProtocolError::TooLong)
        } else {
            Ok::<(), ProtocolError>(())
        }),
        final(w)@ == (if r is Ok {
            old(w)@ + framed(datagram@)
        } else {
            old(w)@
        }),
{
    let len: usize = datagram.len();
    if len as u64 > u32::MAX as u64 {
        return Err(ProtocolError::TooLong);
    }
    put(w, len as u64, 4);
    let ghost head = w@;
    let mut i: usize = 0;
    assert(w@ =~= head + datagram@.take(0));
    while i < len
        invariant
            len == datagram@.len(),
            i <= len,
            w@ == head + datagram@.take(i as int),
        decreases len - i,
    {
        w.push(datagram[i]);
        assert(w@ =~= head + datagram@.take(i as int + 1));
        i = i + 1;
    }
    assert(datagram@.take(i as int) =~= datagram@);
    assert(w@ =~= old(w)@ + framed(datagram@));
    Ok(())
}

/// What reading a datagram comes to: its length, `None` where the peer closed
/// between datagrams. A peer that closes inside a datagram, or inside the length
/// before it, has cut it short.
pub open spec fn datagram_outcome(s: Seq<u8>, capacity: int) -> Result<
    Option<usize>,
    ProtocolError,
> {
    let len = le_value(s, 0, 4);
    if s.len() == 0 {
        Ok(None)
    } else if s.len() < 4 {
        Err(ProtocolError::Truncated)
    } else if len > capacity {
        Err(ProtocolError::TooLarge { len: len as u32, capacity: capacity as usize })
    } else if s.len() < 4 + len {
        Err(ProtocolError::Truncated)
    } else {
        Ok(Some(len as usize))
    }
}

/// What is left of a stream once a datagram has been read from it. One that is
/// too large is left where its bytes begin, and one cut short is used up.
pub open spec fn datagram_left(s: Seq<u8>, capacity: int) -> Seq<u8> {
    match datagram_outcome(s, capacity) {
        Ok(Some(n)) => s.skip(4 + n as int),
        Err(ProtocolError::TooLarge { .. }) => s.skip(4),
        _ => Seq::empty(),
    }
}

/// How many bytes more it takes before the datagram at the front of a stream can be
/// read, or turned away for its size.
pub open spec fn datagram_wants(s: Seq<u8>, capacity: int) -> int {
    let len = le_value(s, 0, 4);
    if s.len() < 4 {
        4 - s.len()
    } else if len > capacity || s.len() >= 4 + len {
        0
    } else {
        4 + len - s.len()
    }
}

proof fn lemma_four_bytes(s: Seq<u8>, at: int)
    requires
        0 <= at,
        at + 4 <= s.len(),
    ensures
        le_value(s, at, 4) <= 0xffff_ffff,
{
    reveal_with_fuel(le_value, 5);
    let a = s[at] as u64;
    let b = s[at + 1] as u64;
    let c = s[at + 2] as u64;
    let d = s[at + 3] as u64;
    assert((((0u64 | (a << 0u64)) | (b << 8u64)) | (c << 16u64)) | (d << 24u64) <= 0xffff_ffff)
        by (bit_vector)
        requires
            a <= 0xff,
            b <= 0xff,
            c <= 0xff,
            d <= 0xff,
    ;
    assert(s[at + 0] as u64 == a);
}

/// Reads one datagram into the front of `buf`.
pub fn read_datagram(r: &mut Source, buf: &mut Vec<u8>) -> (out: Result<
    Option<usize>,
    ProtocolError,
>)
    requires
        old(r).wf(),
    ensures
        final(r).wf(),
        final(buf)@.len() == old(buf)@.len(),
        out == datagram_outcome(old(r)@, old(buf)@.len() as int),
        final(r)@ == datagram_left(old(r)@, old(buf)@.len() as int),
        out matches Ok(Some(n)) ==> final(buf)@ == old(r)@.subrange(4, 4 + n as int) + old(
            buf,
        )@.skip(n as int),
        !(out matches Ok(Some(_))) ==> final(buf)@ == old(buf)@,
{
    let ghost s = r@;
    if r.at == r.bytes.len() {
        assert(r@ =~= Seq::<u8>::empty());
        return Ok(None);
    }
    let head = match r.read_exact(4) {
        None => return Err(ProtocolError::Truncated),
        Some(b) => b,
    };
    proof {
        lemma_value_prefix(s, 4, 0, 4);
        lemma_four_bytes(s, 0);
    }
    let len: u64 = take(&head, 0, 4);
    if len > buf.len() as u64 {
        return Err(ProtocolError::TooLarge { len: len as u32, capacity: buf.len() });
    }
    let n: usize = len as usize;
    let body = match r.read_exact(n) {
        None => return Err(ProtocolError::Truncated),
        Some(b) => b,
    };
    let mut i: usize = 0;
    assert(buf@ =~= body@.take(0) + old(buf)@.skip(0));
    while i < n
        invariant
            i <= n,
            n == body@.len(),
            n <= old(buf)@.len(),
            buf@.len() == old(buf)@.len(),
            buf@ == body@.take(i as int) + old(buf)@.skip(i as int),
        decreases n - i,
    {
        buf.set(i, body[i]);
        assert(buf@ =~= body@.take(i as int + 1) + old(buf)@.skip(i as int + 1));
        i = i + 1;
    }
    proof {
        assert(body@.take(n as int) =~= s.subrange(4, 4 + n as int));
        assert(r@ =~= s.skip(4 + n as int));
    }
    Ok(Some(n))
}

/// How many bytes more to hand over before [`read_datagram`] can be called on a
/// stream that is still arriving.
pub fn datagram_bytes_wanted(bytes: &Vec<u8>, max_datagram_bytes: usize) -> (n: usize)
    ensures
        n == datagram_wants(bytes@, max_datagram_bytes as int),
{
    let have: usize = bytes.len();
    if have < 4 {
        return 4 - have;
    }
    proof {
        lemma_four_bytes(bytes@, 0);
    }
    let len: u64 = take(bytes, 0, 4);
    if len > max_datagram_bytes as u64 {
        return 0;
    }
    let body: usize = have - 4;
    if body as u64 >= len {
        0
    } else {
        len as usize - body
    }
}

/// Once no more bytes are wanted, what is read does not depend on what arrives
/// after them.
pub proof fn law_wanted_bytes_decide(s: Seq<u8>, rest: Seq<u8>, capacity: int)
    requires
        datagram_wants(s, capacity) == 0,
    ensures
        datagram_outcome(s + rest, capacity) == datagram_outcome(s, capacity),
        datagram_outcome(s, capacity) matches Ok(Some(n)) ==> (s + rest).subrange(4, 4 + n as int)
            == s.subrange(4, 4 + n as int),
        datagram_outcome(s, capacity) != Err::<Option<usize>, ProtocolError>(
            ProtocolError::Truncated,
        ),
        datagram_left(s + rest, capacity) == datagram_left(s, capacity) + rest,
{
    assert((s + rest).take(s.len() as int) =~= s);
    lemma_value_prefix(s + rest, s.len() as int, 0, 4);
    lemma_four_bytes(s, 0);
    let len = le_value(s, 0, 4) as int;
    assert((s + rest).skip(4) =~= s.skip(4) + rest);
    if len <= capacity {
        assert((s + rest).skip(4 + len) =~= s.skip(4 + len) + rest);
        assert((s + rest).subrange(4, 4 + len) =~= s.subrange(4, 4 + len));
    }
}

pub fn write_request(w: &mut Vec<u8>, req: RangeRequest)
    ensures
        final(w)@ == old(w)@ + request_bytes(req),
{
    put(w, MAGIC as u64, 4);
    put(w, KIND_RANGE_REQUEST as u64, 1);
    put_zeros(w, 3);
    put(w, req.from, 8);
    put(w, req.through, 8);
    assert(w@ =~= old(w)@ + request_bytes(req));
}

/// What reading a request comes to.
pub open spec fn request_outcome(s: Seq<u8>) -> Result<RangeRequest, ProtocolError> {
    if s.len() < REQUEST_LEN {
        Err(ProtocolError::Truncated)
    } else if le_value(s, 0, 4) != MAGIC as u64 {
        Err(ProtocolError::BadMagic)
    } else if s[4] != KIND_RANGE_REQUEST {
        Err(ProtocolError::WrongKind { kind: s[4] })
    } else {
        Ok(RangeRequest { from: le_value(s, 8, 8), through: le_value(s, 16, 8) })
    }
}

pub fn read_request(r: &mut Source) -> (out: Result<RangeRequest, ProtocolError>)
    requires
        old(r).wf(),
    ensures
        final(r).wf(),
        out == request_outcome(old(r)@),
        final(r)@ == after(old(r)@, REQUEST_LEN as int),
{
    let ghost s = r@;
    let buf = match r.read_exact(REQUEST_LEN) {
        None => return Err(ProtocolError::Truncated),
        Some(b) => b,
    };
    proof {
        lemma_value_prefix(s, REQUEST_LEN as int, 0, 4);
        lemma_value_prefix(s, REQUEST_LEN as int, 8, 8);
        lemma_value_prefix(s, REQUEST_LEN as int, 16, 8);
    }
    if take(&buf, 0, 4) != MAGIC as u64 {
        return Err(ProtocolError::BadMagic);
    }
    if buf[4] != KIND_RANGE_REQUEST {
        return Err(ProtocolError::WrongKind { kind: buf[4] });
    }
    Ok(RangeRequest { from: take(&buf, 8, 8), through: take(&buf, 16, 8) })
}

pub fn write_response_header(w: &mut Vec<u8>, h: ResponseHeader)
    ensures
        final(w)@ == old(w)@ + response_bytes(h),
{
    put(w, MAGIC as u64, 4);
    put(w, h.status.to_u8() as u64, 1);
    put_zeros(w, 3);
    put(w, h.datagrams as u64, 4);
    put(w, h.first_available, 8);
    put(w, h.last_available, 8);
    assert(w@ =~= old(w)@ + response_bytes(h));
}

/// `out` is what reading the head of a response comes to.
pub open spec fn response_outcome(
    s: Seq<u8>,
    out: Result<ResponseHeader, ProtocolError>,
) -> bool {
    if s.len() < RESPONSE_HEADER_LEN {
        out == Err::<ResponseHeader, ProtocolError>(ProtocolError::Truncated)
    } else if le_value(s, 0, 4) != MAGIC as u64 {
        out == Err::<ResponseHeader, ProtocolError>(ProtocolError::BadMagic)
    } else if s[4] > 4 {
        out == Err::<ResponseHeader, ProtocolError>(ProtocolError::UnknownStatus { status: s[4] })
    } else {
        out matches Ok(h) && h.status.code() == s[4] && h.datagrams == le_value(s, 8, 4)
            && h.first_available == le_value(s, 12, 8) && h.last_available == le_value(s, 20, 8)
    }
}

pub fn read_response_header(r: &mut Source) -> (out: Result<ResponseHeader, ProtocolError>)
    requires
        old(r).wf(),
    ensures
        final(r).wf(),
        response_outcome(old(r)@, out),
        final(r)@ == after(old(r)@, RESPONSE_HEADER_LEN as int),
{
    let ghost s = r@;
    let buf = match r.read_exact(RESPONSE_HEADER_LEN) {
        None => return Err(ProtocolError::Truncated),
        Some(b) => b,
    };
    proof {
        lemma_value_prefix(s, RESPONSE_HEADER_LEN as int, 0, 4);
        lemma_value_prefix(s, RESPONSE_HEADER_LEN as int, 8, 4);
        lemma_value_prefix(s, RESPONSE_HEADER_LEN as int, 12, 8);
        lemma_value_prefix(s, RESPONSE_HEADER_LEN as int, 20, 8);
        lemma_four_bytes(s, 8);
    }
    if take(&buf, 0, 4) != MAGIC as u64 {
        return Err(ProtocolError::BadMagic);
    }
    let status: Status = match Status::from_u8(buf[4]) {
        None => return Err(ProtocolError::UnknownStatus { status: buf[4] }),
        Some(s) => s,
    };
    let datagrams: u64 = take(&buf, 8, 4);
    Ok(
        ResponseHeader {
            status,
            datagrams: datagrams as u32,
            first_available: take(&buf, 12, 8),
            last_available: take(&buf, 20, 8),
        },
    )
}

/// The number at `at` of a message that was put together from parts reads back.
proof fn lemma_part(s: Seq<u8>, a: Seq<u8>, v: u64, n: int, b: Seq<u8>)
    requires
        s == a + le_bytes(v, n) + b,
        n == 8 || (n == 4 && v <= 0xffff_ffff) || (n == 2 && v <= 0xffff) || (n == 1 && v <= 0xff),
    ensures
        le_value(s, a.len() as int, n) == v,
        n == 1 ==> s[a.len() as int] == v,
{
    assert(s.subrange(a.len() as int, a.len() + n) =~= le_bytes(v, n));
    law_number_round_trips(s, a.len() as int, v, n);
    if n == 1 {
        reveal_with_fuel(le_value, 2);
        let x = s[a.len() as int] as u64;
        assert(0u64 | (x << 0u64) == x) by (bit_vector);
    }
}

/// A hello reads back, whatever follows it.
pub proof fn law_hello_round_trips(schema: Schema, rest: Seq<u8>)
    ensures
        hello_bytes(schema).len() == HELLO_LEN,
        hello_outcome(hello_bytes(schema) + rest, schema) == Ok::<(), ProtocolError>(()),
{
    let s = hello_bytes(schema) + rest;
    let e = Seq::<u8>::empty();
    let magic = le_bytes(MAGIC as u64, 4);
    let kind = le_bytes(KIND_UPLINK_HELLO as u64, 1);
    let id = le_bytes(schema.id as u64, 2);
    let version = le_bytes(schema.version as u64, 2);
    assert(s =~= e + magic + (kind + zeros(1) + id + version + zeros(2) + rest));
    lemma_part(s, e, MAGIC as u64, 4, kind + zeros(1) + id + version + zeros(2) + rest);
    assert(s =~= magic + kind + (zeros(1) + id + version + zeros(2) + rest));
    lemma_part(s, magic, KIND_UPLINK_HELLO as u64, 1, zeros(1) + id + version + zeros(2) + rest);
    assert(s =~= (magic + kind + zeros(1)) + id + (version + zeros(2) + rest));
    lemma_part(s, magic + kind + zeros(1), schema.id as u64, 2, version + zeros(2) + rest);
    assert(s =~= (magic + kind + zeros(1) + id) + version + (zeros(2) + rest));
    lemma_part(s, magic + kind + zeros(1) + id, schema.version as u64, 2, zeros(2) + rest);
}

/// A request reads back, whatever follows it.
pub proof fn law_request_round_trips(req: RangeRequest, rest: Seq<u8>)
    ensures
        request_bytes(req).len() == REQUEST_LEN,
        request_outcome(request_bytes(req) + rest) == Ok::<RangeRequest, ProtocolError>(req),
{
    let s = request_bytes(req) + rest;
    let e = Seq::<u8>::empty();
    let magic = le_bytes(MAGIC as u64, 4);
    let kind = le_bytes(KIND_RANGE_REQUEST as u64, 1);
    let from = le_bytes(req.from, 8);
    let through = le_bytes(req.through, 8);
    assert(s =~= e + magic + (kind + zeros(3) + from + through + rest));
    lemma_part(s, e, MAGIC as u64, 4, kind + zeros(3) + from + through + rest);
    assert(s =~= magic + kind + (zeros(3) + from + through + rest));
    lemma_part(s, magic, KIND_RANGE_REQUEST as u64, 1, zeros(3) + from + through + rest);
    assert(s =~= (magic + kind + zeros(3)) + from + (through + rest));
    lemma_part(s, magic + kind + zeros(3), req.from, 8, through + rest);
    assert(s =~= (magic + kind + zeros(3) + from) + through + rest);
    lemma_part(s, magic + kind + zeros(3) + from, req.through, 8, rest);
}

/// A request is no hello: a consumer that talks to the uplink port is refused at
/// the handshake.
pub proof fn law_request_is_no_hello(req: RangeRequest, schema: Schema, rest: Seq<u8>)
    ensures
        hello_outcome(request_bytes(req) + rest, schema) == Err::<(), ProtocolError>(
            ProtocolError::WrongKind { kind: KIND_RANGE_REQUEST },
        ),
{
    let s = request_bytes(req) + rest;
    let e = Seq::<u8>::empty();
    let magic = le_bytes(MAGIC as u64, 4);
    let kind = le_bytes(KIND_RANGE_REQUEST as u64, 1);
    let from = le_bytes(req.from, 8);
    let through = le_bytes(req.through, 8);
    assert(s =~= e + magic + (kind + zeros(3) + from + through + rest));
    lemma_part(s, e, MAGIC as u64, 4, kind + zeros(3) + from + through + rest);
    assert(s =~= magic + kind + (zeros(3) + from + through + rest));
    lemma_part(s, magic, KIND_RANGE_REQUEST as u64, 1, zeros(3) + from + through + rest);
}

/// The head of a response reads back, whatever follows it.
pub proof fn law_response_round_trips(
    h: ResponseHeader,
    rest: Seq<u8>,
    out: Result<ResponseHeader, ProtocolError>,
)
    requires
        response_outcome(response_bytes(h) + rest, out),
    ensures
        response_bytes(h).len() == RESPONSE_HEADER_LEN,
        out == Ok::<ResponseHeader, ProtocolError>(h),
{
    let s = response_bytes(h) + rest;
    let e = Seq::<u8>::empty();
    let magic = le_bytes(MAGIC as u64, 4);
    let status = le_bytes(h.status.code() as u64, 1);
    let n = le_bytes(h.datagrams as u64, 4);
    let a = le_bytes(h.first_available, 8);
    let b = le_bytes(h.last_available, 8);
    assert(s =~= e + magic + (status + zeros(3) + n + a + b + rest));
    lemma_part(s, e, MAGIC as u64, 4, status + zeros(3) + n + a + b + rest);
    assert(s =~= magic + status + (zeros(3) + n + a + b + rest));
    lemma_part(s, magic, h.status.code() as u64, 1, zeros(3) + n + a + b + rest);
    assert(s =~= (magic + status + zeros(3)) + n + (a + b + rest));
    lemma_part(s, magic + status + zeros(3), h.datagrams as u64, 4, a + b + rest);
    assert(s =~= (magic + status + zeros(3) + n) + a + (b + rest));
    lemma_part(s, magic + status + zeros(3) + n, h.first_available, 8, b + rest);
    assert(s =~= (magic + status + zeros(3) + n + a) + b + rest);
    lemma_part(s, magic + status + zeros(3) + n + a, h.last_available, 8, rest);
}

/// A framed datagram reads back, whatever follows it, where it fits the buffer.
pub proof fn law_datagram_round_trips(datagram: Seq<u8>, rest: Seq<u8>, capacity: int)
    requires
        datagram.len() <= u32::MAX,
        datagram.len() <= capacity <= usize::MAX,
    ensures
        datagram_outcome(framed(datagram) + rest, capacity) == Ok::<Option<usize>, ProtocolError>(
            Some(datagram.len() as usize),
        ),
        (framed(datagram) + rest).subrange(4, 4 + datagram.len() as int) == datagram,
        (framed(datagram) + rest).skip(4 + datagram.len() as int) == rest,
{
    let s = framed(datagram) + rest;
    let e = Seq::<u8>::empty();
    let n = le_bytes(datagram.len() as u64, 4);
    assert(s =~= e + n + (datagram + rest));
    lemma_part(s, e, datagram.len() as u64, 4, datagram + rest);
    assert(s.subrange(4, 4 + datagram.len() as int) =~= datagram);
    assert(s.skip(4 + datagram.len() as int) =~= rest);
}

/// Where everything stands in a hello: the magic number, that it is one, and the schema.
pub proof fn law_layout_of_a_hello(schema: Schema)
    ensures
        ({
            let s = hello_bytes(schema);
            &&& s.len() == 12
            &&& s.subrange(0, 4) == seq![0x50u8, 0x52u8, 0x44u8, 0x4du8]
            &&& s[4] == 1
            &&& s[5] == 0
            &&& s.subrange(6, 8) == le_bytes(schema.id as u64, 2)
            &&& s.subrange(8, 10) == le_bytes(schema.version as u64, 2)
            &&& s[10] == 0 && s[11] == 0
        }),
{
    let s = hello_bytes(schema);
    lemma_magic();
    lemma_small(KIND_UPLINK_HELLO);
    assert(s.subrange(0, 4) =~= le_bytes(MAGIC as u64, 4));
    assert(s.subrange(6, 8) =~= le_bytes(schema.id as u64, 2));
    assert(s.subrange(8, 10) =~= le_bytes(schema.version as u64, 2));
    assert(s[4] == le_bytes(KIND_UPLINK_HELLO as u64, 1)[0]);
}

/// Where everything stands in a request: the magic number, that it is one, and both ends of
/// the range.
pub proof fn law_layout_of_a_request(req: RangeRequest)
    ensures
        ({
            let s = request_bytes(req);
            &&& s.len() == 24
            &&& s.subrange(0, 4) == seq![0x50u8, 0x52u8, 0x44u8, 0x4du8]
            &&& s[4] == 2
            &&& s[5] == 0 && s[6] == 0 && s[7] == 0
            &&& s.subrange(8, 16) == le_bytes(req.from, 8)
            &&& s.subrange(16, 24) == le_bytes(req.through, 8)
        }),
{
    let s = request_bytes(req);
    lemma_magic();
    lemma_small(KIND_RANGE_REQUEST);
    assert(s.subrange(0, 4) =~= le_bytes(MAGIC as u64, 4));
    assert(s.subrange(8, 16) =~= le_bytes(req.from, 8));
    assert(s.subrange(16, 24) =~= le_bytes(req.through, 8));
    assert(s[4] == le_bytes(KIND_RANGE_REQUEST as u64, 1)[0]);
}

/// Where everything stands in the head of a response: the magic number, how the request was
/// answered, how many datagrams follow, and what is held.
pub proof fn law_layout_of_a_response(h: ResponseHeader)
    ensures
        ({
            let s = response_bytes(h);
            &&& s.len() == 28
            &&& s.subrange(0, 4) == seq![0x50u8, 0x52u8, 0x44u8, 0x4du8]
            &&& s[4] == (match h.status {
                Status::Served => 0u8,
                Status::TooOld => 1,
                Status::NotYet => 2,
                Status::Incomplete => 3,
                Status::BadRequest => 4,
            })
            &&& s[5] == 0 && s[6] == 0 && s[7] == 0
            &&& s.subrange(8, 12) == le_bytes(h.datagrams as u64, 4)
            &&& s.subrange(12, 20) == le_bytes(h.first_available, 8)
            &&& s.subrange(20, 28) == le_bytes(h.last_available, 8)
        }),
{
    let s = response_bytes(h);
    lemma_magic();
    lemma_small(h.status.code());
    assert(s.subrange(0, 4) =~= le_bytes(MAGIC as u64, 4));
    assert(s.subrange(8, 12) =~= le_bytes(h.datagrams as u64, 4));
    assert(s.subrange(12, 20) =~= le_bytes(h.first_available, 8));
    assert(s.subrange(20, 28) =~= le_bytes(h.last_available, 8));
    assert(s[4] == le_bytes(h.status.code() as u64, 1)[0]);
}

/// A datagram stands behind its length in four bytes.
pub proof fn law_layout_of_a_datagram(datagram: Seq<u8>)
    requires
        datagram.len() <= u32::MAX,
    ensures
        framed(datagram).len() == 4 + datagram.len(),
        framed(datagram).take(4) == le_bytes(datagram.len() as u64, 4),
        framed(datagram).skip(4) == datagram,
{
    assert(framed(datagram).take(4) =~= le_bytes(datagram.len() as u64, 4));
    assert(framed(datagram).skip(4) =~= datagram);
}

proof fn lemma_magic()
    ensures
        le_bytes(0x4d44_5250, 4) == seq![0x50u8, 0x52u8, 0x44u8, 0x4du8],
{
    assert((0x4d44_5250u64 >> 0u64) as u8 == 0x50u8) by (bit_vector);
    assert((0x4d44_5250u64 >> 8u64) as u8 == 0x52u8) by (bit_vector);
    assert((0x4d44_5250u64 >> 16u64) as u8 == 0x44u8) by (bit_vector);
    assert((0x4d44_5250u64 >> 24u64) as u8 == 0x4du8) by (bit_vector);
    assert(le_bytes(0x4d44_5250, 4) =~= seq![0x50u8, 0x52u8, 0x44u8, 0x4du8]);
}

proof fn lemma_small(k: u8)
    ensures
        le_bytes(k as u64, 1)[0] == k,
{
    assert(((k as u64) >> 0u64) as u8 == k) by (bit_vector);
}

} // verus!
