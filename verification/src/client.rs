//! The consumer's side of a replay request.

use crate::bytes::le_value;
use crate::protocol::{
    after, datagram_left, datagram_outcome, framed, law_datagram_round_trips, read_datagram, read_response_header, response_outcome,
    ProtocolError, RangeRequest, ResponseHeader, Source, Status, MAGIC, MAX_RESPONSE_DATAGRAMS,
    RESPONSE_HEADER_LEN,
};
use vstd::prelude::*;

verus! {

/// What came back from a replay request.
#[derive(Debug)]
pub struct ReplayResult {
    pub request: RangeRequest,
    pub header: ResponseHeader,
    /// The datagrams that cover the range, in sequence order. None unless the
    /// request was served.
    pub datagrams: Vec<Vec<u8>>,
}

impl ReplayResult {
    pub fn is_ok(&self) -> (r: bool)
        ensures
            r == (self.header.status == Status::Served),
    {
        self.header.status == Status::Served
    }
}

/// The datagrams at the front of a stream, read one after the other: the bytes of
/// each, or why one could not be read.
pub open spec fn datagrams_in(s: Seq<u8>, n: nat, capacity: int, done: nat) -> Result<
    Seq<Seq<u8>>,
    ProtocolError,
>
    decreases n,
{
    if n == 0 {
        Ok(Seq::empty())
    } else {
        match datagram_outcome(s, capacity) {
            Err(e) => Err(e),
            Ok(None) => Err(
                ProtocolError::ClosedEarly { promised: (n + done) as u32, got: done as u32 },
            ),
            Ok(Some(len)) => match datagrams_in(
                s.skip(4 + len as int),
                (n - 1) as nat,
                capacity,
                (done + 1) as nat,
            ) {
                Err(e) => Err(e),
                Ok(rest) => Ok(seq![s.subrange(4, 4 + len as int)] + rest),
            },
        }
    }
}

/// What is left of a stream once `n` datagrams, or those before the first that
/// cannot be read and that one, have been read from it.
pub open spec fn datagrams_left(s: Seq<u8>, n: nat, capacity: int) -> Seq<u8>
    decreases n,
{
    if n == 0 {
        s
    } else if datagram_outcome(s, capacity) matches Ok(Some(_)) {
        datagrams_left(datagram_left(s, capacity), (n - 1) as nat, capacity)
    } else {
        datagram_left(s, capacity)
    }
}

/// What is left of a stream once a response has been read from it.
pub open spec fn response_left(s: Seq<u8>, capacity: int) -> Seq<u8> {
    let body = after(s, RESPONSE_HEADER_LEN as int);
    let n = le_value(s, 8, 4);
    if s.len() < RESPONSE_HEADER_LEN || le_value(s, 0, 4) != MAGIC as u64 || s[4]
        != Status::Served.code() || n > MAX_RESPONSE_DATAGRAMS {
        body
    } else {
        datagrams_left(body, n as nat, capacity)
    }
}

/// `out` is what the bytes of a response come to.
pub open spec fn result_of(
    s: Seq<u8>,
    range: RangeRequest,
    capacity: int,
    out: Result<ReplayResult, ProtocolError>,
) -> bool {
    exists|h: Result<ResponseHeader, ProtocolError>| #[trigger]
        response_outcome(s, h) && match h {
            Err(e) => out == Err::<ReplayResult, ProtocolError>(e),
            Ok(h) => if h.status != Status::Served {
                out matches Ok(r) && r.request == range && r.header == h && r.datagrams@.len() == 0
            } else if h.datagrams > MAX_RESPONSE_DATAGRAMS {
                out == Err::<ReplayResult, ProtocolError>(
                    ProtocolError::TooMany { datagrams: h.datagrams },
                )
            } else {
                match datagrams_in(
                    s.skip(RESPONSE_HEADER_LEN as int),
                    h.datagrams as nat,
                    capacity,
                    0,
                ) {
                    Err(e) => out == Err::<ReplayResult, ProtocolError>(e),
                    Ok(d) => out matches Ok(r) && r.request == range && r.header == h
                        && r.datagrams@.len() == d.len() && forall|i: int|
                        0 <= i < d.len() ==> (#[trigger] r.datagrams@[i])@ == d[i],
                }
            },
        }
}

/// Reads the response to a request for `range`.
pub fn read_response(r: &mut Source, range: RangeRequest, max_datagram_bytes: usize) -> (out: Result<
    ReplayResult,
    ProtocolError,
>)
    requires
        old(r).wf(),
    ensures
        final(r).wf(),
        result_of(old(r)@, range, max_datagram_bytes as int, out),
        final(r)@ == response_left(old(r)@, max_datagram_bytes as int),
{
    let ghost s = r@;
    let head = read_response_header(r);
    assert(response_outcome(s, head));
    let header: ResponseHeader = match head {
        Err(e) => return Err(e),
        Ok(h) => h,
    };
    let mut datagrams: Vec<Vec<u8>> = Vec::new();
    if header.status != Status::Served {
        return Ok(ReplayResult { request: range, header, datagrams });
    }
    if header.datagrams > MAX_RESPONSE_DATAGRAMS {
        return Err(ProtocolError::TooMany { datagrams: header.datagrams });
    }
    let mut buf: Vec<u8> = Vec::with_capacity(max_datagram_bytes);
    let mut k: usize = 0;
    while k < max_datagram_bytes
        invariant
            k <= max_datagram_bytes,
            buf@.len() == k,
        decreases max_datagram_bytes - k,
    {
        buf.push(0);
        k = k + 1;
    }
    let ghost body = s.skip(RESPONSE_HEADER_LEN as int);
    let ghost all = datagrams_in(body, header.datagrams as nat, max_datagram_bytes as int, 0);
    let mut i: u32 = 0;
    let ghost mut got: Seq<Seq<u8>> = Seq::empty();
    proof {
        if all is Ok {
            assert(got + all->Ok_0 =~= all->Ok_0);
        }
    }
    while i < header.datagrams
        invariant
            r.wf(),
            s == old(r)@,
            buf@.len() == max_datagram_bytes,
            i <= header.datagrams,
            got.len() == i,
            datagrams@.len() == got.len(),
            forall|j: int| 0 <= j < got.len() ==> (#[trigger] datagrams@[j])@ == got[j],
            ({
                let rest = datagrams_in(
                    r@,
                    (header.datagrams - i) as nat,
                    max_datagram_bytes as int,
                    i as nat,
                );
                all == (match rest {
                    Err(e) => Err(e),
                    Ok(d) => Ok(got + d),
                })
            }),
            datagrams_left(r@, (header.datagrams - i) as nat, max_datagram_bytes as int)
                == response_left(s, max_datagram_bytes as int),
            header.status == Status::Served,
            header.datagrams <= MAX_RESPONSE_DATAGRAMS,
            head == Ok::<ResponseHeader, ProtocolError>(header),
            response_outcome(s, head),
            all == datagrams_in(
                s.skip(RESPONSE_HEADER_LEN as int),
                header.datagrams as nat,
                max_datagram_bytes as int,
                0,
            ),
        decreases header.datagrams - i,
    {
        let ghost before = r@;
        match read_datagram(r, &mut buf) {
            Err(e) => return Err(e),
            Ok(None) => {
                return Err(ProtocolError::ClosedEarly { promised: header.datagrams, got: i });
            },
            Ok(Some(n)) => {
                let ghost d = before.subrange(4, 4 + n as int);
                let mut copy: Vec<u8> = Vec::with_capacity(n);
                let mut j: usize = 0;
                while j < n
                    invariant
                        j <= n,
                        n == d.len(),
                        buf@.len() == max_datagram_bytes,
                        n <= max_datagram_bytes,
                        buf@.take(n as int) == d,
                        copy@ == d.take(j as int),
                    decreases n - j,
                {
                    assert(buf@[j as int] == buf@.take(n as int)[j as int]);
                    copy.push(buf[j]);
                    assert(d.take(j as int + 1) =~= d.take(j as int).push(d[j as int]));
                    j = j + 1;
                }
                assert(d.take(j as int) =~= d);
                datagrams.push(copy);
                proof {
                    let rest = datagrams_in(
                        r@,
                        (header.datagrams - i - 1) as nat,
                        max_datagram_bytes as int,
                        (i + 1) as nat,
                    );
                    if rest is Ok {
                        assert(got + (seq![d] + rest->Ok_0) =~= got.push(d) + rest->Ok_0);
                    }
                    got = got.push(d);
                }
            },
        }
        i = i + 1;
    }
    assert(got + Seq::<Seq<u8>>::empty() =~= got);
    Ok(ReplayResult { request: range, header, datagrams })
}

/// Datagrams as a stream carries them, each behind its length.
pub open spec fn framed_all(ds: Seq<Seq<u8>>) -> Seq<u8>
    decreases ds.len(),
{
    if ds.len() == 0 {
        Seq::empty()
    } else {
        framed(ds[0]) + framed_all(ds.drop_first())
    }
}

/// The datagrams that a service puts on a stream are those that a client reads from it, and
/// it reads no further.
pub proof fn law_datagrams_read_back(
    ds: Seq<Seq<u8>>,
    rest: Seq<u8>,
    capacity: int,
    done: nat,
)
    requires
        0 <= capacity <= usize::MAX,
        forall|i: int|
            0 <= i < ds.len() ==> (#[trigger] ds[i]).len() <= capacity && ds[i].len() <= u32::MAX,
    ensures
        datagrams_in(framed_all(ds) + rest, ds.len(), capacity, done) == Ok::<
            Seq<Seq<u8>>,
            ProtocolError,
        >(ds),
        datagrams_left(framed_all(ds) + rest, ds.len(), capacity) == rest,
    decreases ds.len(),
{
    let s = framed_all(ds) + rest;
    if ds.len() == 0 {
        assert(s =~= rest);
        assert(ds =~= Seq::<Seq<u8>>::empty());
    } else {
        let d = ds[0];
        let t = ds.drop_first();
        assert(d.len() <= capacity);
        assert forall|i: int| 0 <= i < t.len() implies (#[trigger] t[i]).len() <= capacity
            && t[i].len() <= u32::MAX by {
            assert(t[i] == ds[i + 1]);
        }
        assert(s =~= framed(d) + (framed_all(t) + rest));
        law_datagram_round_trips(d, framed_all(t) + rest, capacity);
        law_datagrams_read_back(t, rest, capacity, done + 1);
        assert(seq![d] + t =~= ds);
    }
}

/// A stream that ends between datagrams before all that were promised have come is told as
/// that, with how many came.
pub proof fn law_early_end_is_told(
    ds: Seq<Seq<u8>>,
    more: nat,
    capacity: int,
    done: nat,
)
    requires
        more > 0,
        0 <= capacity <= usize::MAX,
        done + ds.len() + more <= u32::MAX,
        forall|i: int|
            0 <= i < ds.len() ==> (#[trigger] ds[i]).len() <= capacity && ds[i].len() <= u32::MAX,
    ensures
        datagrams_in(framed_all(ds), ds.len() + more, capacity, done) == Err::<
            Seq<Seq<u8>>,
            ProtocolError,
        >(
            ProtocolError::ClosedEarly {
                promised: (done + ds.len() + more) as u32,
                got: (done + ds.len()) as u32,
            },
        ),
    decreases ds.len(),
{
    if ds.len() > 0 {
        let d = ds[0];
        let t = ds.drop_first();
        assert(d.len() <= capacity);
        assert forall|i: int| 0 <= i < t.len() implies (#[trigger] t[i]).len() <= capacity
            && t[i].len() <= u32::MAX by {
            assert(t[i] == ds[i + 1]);
        }
        law_datagram_round_trips(d, framed_all(t), capacity);
        law_early_end_is_told(t, more, capacity, done + 1);
    }
}

/// What a response may come to: one that was not served brings no datagrams, one that
/// announces more than 65536 is refused, and one that was served brings as many as it
/// announced.
pub proof fn law_response_brings_what_it_announced(
    s: Seq<u8>,
    range: RangeRequest,
    capacity: int,
    out: Result<ReplayResult, ProtocolError>,
)
    requires
        0 <= capacity,
        result_of(s, range, capacity, out),
    ensures
        out matches Ok(r) ==> {
            &&& r.request == range
            &&& response_outcome(s, Ok(r.header))
            &&& r.header.status != Status::Served ==> r.datagrams@.len() == 0
            &&& r.header.status == Status::Served ==> r.datagrams@.len() == r.header.datagrams
                && r.header.datagrams <= 65536
        },
{
    let h = choose|h: Result<ResponseHeader, ProtocolError>| #[trigger]
        response_outcome(s, h) && match h {
            Err(e) => out == Err::<ReplayResult, ProtocolError>(e),
            Ok(h) => if h.status != Status::Served {
                out matches Ok(r) && r.request == range && r.header == h && r.datagrams@.len() == 0
            } else if h.datagrams > MAX_RESPONSE_DATAGRAMS {
                out == Err::<ReplayResult, ProtocolError>(
                    ProtocolError::TooMany { datagrams: h.datagrams },
                )
            } else {
                match datagrams_in(
                    s.skip(RESPONSE_HEADER_LEN as int),
                    h.datagrams as nat,
                    capacity,
                    0,
                ) {
                    Err(e) => out == Err::<ReplayResult, ProtocolError>(e),
                    Ok(d) => out matches Ok(r) && r.request == range && r.header == h
                        && r.datagrams@.len() == d.len() && forall|i: int|
                        0 <= i < d.len() ==> (#[trigger] r.datagrams@[i])@ == d[i],
                }
            },
        };
    if let Ok(x) = h {
        lemma_as_many(s.skip(RESPONSE_HEADER_LEN as int), x.datagrams as nat, capacity, 0);
    }
}

proof fn lemma_as_many(s: Seq<u8>, n: nat, capacity: int, done: nat)
    ensures
        datagrams_in(s, n, capacity, done) matches Ok(d) ==> d.len() == n,
    decreases n,
{
    if n > 0 {
        if let Ok(Some(len)) = datagram_outcome(s, capacity) {
            lemma_as_many(s.skip(4 + len as int), (n - 1) as nat, capacity, (done + 1) as nat);
        }
    }
}

} // verus!
