//! The two ways a feed travels, and what a channel may be opened on.

use crate::text::{decimal, push_decimal};
use vstd::prelude::*;
use vstd::string::StringExecFns;

verus! {

#[derive(Debug, Clone, Copy, PartialEq, Eq, Structural)]
pub enum TransportMode {
    Multicast,
    UnicastFanout,
}

/// A text in quotes, with what cannot be printed escaped.
pub uninterp spec fn quoted_text(s: Seq<char>) -> Seq<char>;

/// Calls `format!` with the `Debug` form of a `str`. The result is the text in double
/// quotes with the escapes that `Debug` gives it; its value is named, not spelled out.
#[verifier::external_body]
fn quoted(s: &str) -> (r: String)
    ensures
        r@ == quoted_text(s@),
{
    format!("{:?}", s)
}

impl TransportMode {
    pub open spec fn text(self) -> Seq<char> {
        match self {
            TransportMode::Multicast => "multicast"@,
            TransportMode::UnicastFanout => "unicast-fanout"@,
        }
    }

    /// What a text names.
    pub open spec fn named(s: Seq<char>) -> Option<TransportMode> {
        if s == "multicast"@ {
            Some(TransportMode::Multicast)
        } else if s == "unicast-fanout"@ || s == "unicast_fanout"@ || s == "unicast"@ {
            Some(TransportMode::UnicastFanout)
        } else {
            None
        }
    }

    pub fn as_str(self) -> (r: &'static str)
        ensures
            r@ == self.text(),
    {
        match self {
            TransportMode::Multicast => "multicast",
            TransportMode::UnicastFanout => "unicast-fanout",
        }
    }

    /// Reads the name of a mode. A text that names none is refused, and quoted in the
    /// refusal.
    pub fn from_str(s: &str) -> (r: Result<Self, String>)
        ensures
            r matches Ok(m) ==> Self::named(s@) == Some(m),
            r is Ok <==> Self::named(s@) is Some,
            r matches Err(e) ==> e@ == "unknown transport "@ + quoted_text(s@)
                + ": expected \"multicast\" or \"unicast-fanout\""@,
    {
        let t: Vec<char> = crate::text::chars_of(s);
        if crate::text::same_text(&t, "multicast") {
            return Ok(TransportMode::Multicast);
        }
        if crate::text::same_text(&t, "unicast-fanout") || crate::text::same_text(
            &t,
            "unicast_fanout",
        ) || crate::text::same_text(&t, "unicast") {
            return Ok(TransportMode::UnicastFanout);
        }
        let mut e: String = String::from_str("unknown transport ");
        e.append(quoted(s).as_str());
        e.append(": expected \"multicast\" or \"unicast-fanout\"");
        Err(e)
    }
}

/// A mode's own text names it.
pub proof fn law_mode_round_trips(m: TransportMode)
    ensures
        TransportMode::named(m.text()) == Some(m),
{
    reveal_strlit("multicast");
    reveal_strlit("unicast-fanout");
    assert("multicast"@.len() != "unicast-fanout"@.len());
}

/// Where a datagram goes: an IPv4 address, most significant octet first, and a port.
#[derive(Debug, Clone, Copy, PartialEq, Eq, Structural)]
pub struct Endpoint {
    pub ip: u32,
    pub port: u16,
}

pub open spec fn octet(ip: u32, i: int) -> int {
    if i == 0 {
        ip as int / 0x100_0000
    } else if i == 1 {
        ip as int / 0x1_0000 % 0x100
    } else if i == 2 {
        ip as int / 0x100 % 0x100
    } else {
        ip as int % 0x100
    }
}

/// An address with dots between its octets.
pub open spec fn ip_text(ip: u32) -> Seq<char> {
    decimal(octet(ip, 0)) + "."@ + decimal(octet(ip, 1)) + "."@ + decimal(octet(ip, 2)) + "."@
        + decimal(octet(ip, 3))
}

pub open spec fn endpoint_text(e: Endpoint) -> Seq<char> {
    ip_text(e.ip) + ":"@ + decimal(e.port as int)
}

/// Addresses between commas.
pub open spec fn endpoints_text(es: Seq<Endpoint>) -> Seq<char>
    decreases es.len(),
{
    if es.len() == 0 {
        Seq::empty()
    } else if es.len() == 1 {
        endpoint_text(es[0])
    } else {
        endpoints_text(es.drop_last()) + ", "@ + endpoint_text(es.last())
    }
}

/// Groups are 224.0.0.0 to 239.255.255.255.
pub open spec fn is_group(ip: u32) -> bool {
    224 <= octet(ip, 0) <= 239
}

pub fn push_ip(s: &mut String, ip: u32)
    ensures
        final(s)@ == old(s)@ + ip_text(ip),
{
    push_decimal(s, (ip / 0x100_0000) as u64);
    s.append(".");
    push_decimal(s, (ip / 0x1_0000 % 0x100) as u64);
    s.append(".");
    push_decimal(s, (ip / 0x100 % 0x100) as u64);
    s.append(".");
    push_decimal(s, (ip % 0x100) as u64);
    assert(s@ =~= old(s)@ + ip_text(ip));
}

pub fn push_endpoint(s: &mut String, e: Endpoint)
    ensures
        final(s)@ == old(s)@ + endpoint_text(e),
{
    push_ip(s, e.ip);
    s.append(":");
    push_decimal(s, e.port as u64);
    assert(s@ =~= old(s)@ + endpoint_text(e));
}

/// Whether an address is a group's.
pub fn is_multicast(ip: u32) -> (r: bool)
    ensures
        r == is_group(ip),
{
    let top: u32 = ip / 0x100_0000;
    224 <= top && top <= 239
}

/// How a channel's sockets are set up.
#[derive(Debug, Clone, Copy, PartialEq, Eq, Structural)]
pub struct SocketOptions {
    pub interface: u32,
    pub ttl: u32,
    pub loopback: bool,
    pub buffer_bytes: usize,
}

impl Default for SocketOptions {
    fn default() -> (r: Self)
        ensures
            r == (SocketOptions {
                interface: 0,
                ttl: 1,
                loopback: true,
                buffer_bytes: 4_194_304,
            }),
    {
        SocketOptions { interface: 0, ttl: 1, loopback: true, buffer_bytes: 4_194_304 }
    }
}

/// Why a channel could not be opened as asked.
#[derive(Debug, Clone, Copy, PartialEq, Eq, Structural)]
pub enum TargetError {
    NoTarget,
    ManyGroups,
    NotMulticast(u32),
    /// An address that a receiver cannot join.
    NotJoinable(u32),
}

impl TargetError {
    pub open spec fn text(self) -> Seq<char> {
        match self {
            TargetError::NoTarget => "a publisher needs at least one target address"@,
            TargetError::ManyGroups => "multicast takes exactly one group address per channel"@,
            TargetError::NotMulticast(ip) => ip_text(ip)
                + " is not a multicast address; 239.0.0.0/8 is the administratively-scoped range this project uses"@,
            TargetError::NotJoinable(ip) => ip_text(ip) + " is not a multicast address"@,
        }
    }

    pub fn describe(self) -> (r: String)
        ensures
            r@ == self.text(),
    {
        match self {
            TargetError::NoTarget => String::from_str("a publisher needs at least one target address"),
            TargetError::ManyGroups => String::from_str(
                "multicast takes exactly one group address per channel",
            ),
            TargetError::NotMulticast(ip) => {
                let mut s: String = String::from_str("");
                push_ip(&mut s, ip);
                s.append(
                    " is not a multicast address; 239.0.0.0/8 is the administratively-scoped range this project uses",
                );
                proof {
                    reveal_strlit("");
                    assert(s@ =~= self.text());
                }
                s
            },
            TargetError::NotJoinable(ip) => {
                let mut s: String = String::from_str("");
                push_ip(&mut s, ip);
                s.append(" is not a multicast address");
                proof {
                    reveal_strlit("");
                    assert(s@ =~= self.text());
                }
                s
            },
        }
    }
}

/// What a publisher may send to in a mode.
pub open spec fn targets_outcome(mode: TransportMode, targets: Seq<Endpoint>) -> Result<
    (),
    TargetError,
> {
    if targets.len() == 0 {
        Err(TargetError::NoTarget)
    } else if mode is Multicast && targets.len() != 1 {
        Err(TargetError::ManyGroups)
    } else if mode is Multicast && !is_group(targets[0].ip) {
        Err(TargetError::NotMulticast(targets[0].ip))
    } else {
        Ok(())
    }
}

/// The sending end of a channel.
#[derive(Debug)]
pub struct Publisher {
    targets: Vec<Endpoint>,
    mode: TransportMode,
    granted_send_buffer: usize,
}

impl Publisher {
    pub closed spec fn sends_to(self) -> Seq<Endpoint> {
        self.targets@
    }

    pub closed spec fn travels(self) -> TransportMode {
        self.mode
    }

    pub closed spec fn granted(self) -> usize {
        self.granted_send_buffer
    }

    /// A publisher to these targets, over a socket that was given this much buffer.
    pub fn bind(mode: TransportMode, targets: Vec<Endpoint>, granted_send_buffer: usize) -> (r:
        Result<Self, TargetError>)
        ensures
            r matches Err(e) ==> targets_outcome(mode, targets@) == Err::<(), TargetError>(e),
            r matches Ok(p) ==> {
                &&& targets_outcome(mode, targets@) is Ok
                &&& p.sends_to() == targets@
                &&& p.travels() == mode
                &&& p.granted() == granted_send_buffer
            },
    {
        if targets.len() == 0 {
            return Err(TargetError::NoTarget);
        }
        if mode == TransportMode::Multicast {
            if targets.len() != 1 {
                return Err(TargetError::ManyGroups);
            }
            let ip: u32 = targets[0].ip;
            if !is_multicast(ip) {
                return Err(TargetError::NotMulticast(ip));
            }
        }
        Ok(Publisher { targets, mode, granted_send_buffer })
    }

    pub fn mode(&self) -> (r: TransportMode)
        ensures
            r == self.travels(),
    {
        self.mode
    }

    pub fn targets(&self) -> (r: &Vec<Endpoint>)
        ensures
            r@ == self.sends_to(),
    {
        &self.targets
    }

    pub open spec fn text(self) -> Seq<char> {
        self.travels().text() + " -> ["@ + endpoints_text(self.sends_to()) + "] (send buffer "@
            + decimal(self.granted() as int / 1024) + " KiB)"@
    }

    pub fn describe(&self) -> (r: String)
        ensures
            r@ == self.text(),
    {
        let mut s: String = String::from_str(self.mode.as_str());
        s.append(" -> [");
        let ghost head = s@;
        let mut i: usize = 0;
        assert(s@ =~= head + endpoints_text(self.targets@.take(0)));
        while i < self.targets.len()
            invariant
                i <= self.targets@.len(),
                s@ == head + endpoints_text(self.targets@.take(i as int)),
            decreases self.targets@.len() - i,
        {
            let ghost t = self.targets@.take(i as int + 1);
            assert(t.drop_last() =~= self.targets@.take(i as int));
            if i > 0 {
                s.append(", ");
            }
            push_endpoint(&mut s, self.targets[i]);
            assert(s@ =~= head + endpoints_text(t));
            i = i + 1;
        }
        assert(self.targets@.take(self.targets@.len() as int) =~= self.targets@);
        s.append("] (send buffer ");
        push_decimal(&mut s, (self.granted_send_buffer / 1024) as u64);
        s.append(" KiB)");
        s
    }
}

/// A datagram that did not go out whole.
#[derive(Debug, Clone, Copy, PartialEq, Eq, Structural)]
pub struct ShortSend {
    pub sent: usize,
    pub len: usize,
    pub target: Endpoint,
}

impl ShortSend {
    /// Refuses a send that took less than the whole datagram.
    pub fn check(sent: usize, len: usize, target: Endpoint) -> (r: Result<(), ShortSend>)
        ensures
            r == (if sent == len {
                Ok::<(), ShortSend>(())
            } else {
                Err(ShortSend { sent, len, target })
            }),
    {
        if sent != len {
            return Err(ShortSend { sent, len, target });
        }
        Ok(())
    }

    pub fn describe(&self) -> (r: String)
        ensures
            r@ == "sent "@ + decimal(self.sent as int) + " of "@ + decimal(self.len as int)
                + " bytes to "@ + endpoint_text(self.target) + "; the datagram was truncated"@,
    {
        let mut s: String = String::from_str("sent ");
        push_decimal(&mut s, self.sent as u64);
        s.append(" of ");
        push_decimal(&mut s, self.len as u64);
        s.append(" bytes to ");
        push_endpoint(&mut s, self.target);
        s.append("; the datagram was truncated");
        s
    }
}

/// The receiving end of a channel.
#[derive(Debug, Clone, Copy, PartialEq, Eq, Structural)]
pub struct Receiver {
    pub bound: Endpoint,
    pub mode: TransportMode,
    pub granted_recv_buffer: usize,
}

impl Receiver {
    /// A receiver on an address, over a socket that was given this much buffer. Only
    /// a group can be joined.
    pub fn bind(mode: TransportMode, bound: Endpoint, granted_recv_buffer: usize) -> (r: Result<
        Self,
        TargetError,
    >)
        ensures
            r == (if mode is Multicast && !is_group(bound.ip) {
                Err::<Receiver, TargetError>(TargetError::NotJoinable(bound.ip))
            } else {
                Ok(Receiver { bound, mode, granted_recv_buffer })
            }),
    {
        if mode == TransportMode::Multicast && !is_multicast(bound.ip) {
            return Err(TargetError::NotJoinable(bound.ip));
        }
        Ok(Receiver { bound, mode, granted_recv_buffer })
    }

    pub fn mode(&self) -> (r: TransportMode)
        ensures
            r == self.mode,
    {
        self.mode
    }

    pub fn bound_addr(&self) -> (r: Endpoint)
        ensures
            r == self.bound,
    {
        self.bound
    }

    pub fn granted_recv_buffer(&self) -> (r: usize)
        ensures
            r == self.granted_recv_buffer,
    {
        self.granted_recv_buffer
    }

    /// Whether the system gave less buffer than was asked for.
    pub fn buffer_was_clamped(&self, requested: usize) -> (r: bool)
        ensures
            r == (self.granted_recv_buffer < requested),
    {
        self.granted_recv_buffer < requested
    }

    pub fn describe(&self) -> (r: String)
        ensures
            r@ == self.mode.text() + " <- "@ + endpoint_text(self.bound) + " (receive buffer "@
                + decimal(self.granted_recv_buffer as int / 1024) + " KiB)"@,
    {
        let mut s: String = String::from_str(self.mode.as_str());
        s.append(" <- ");
        push_endpoint(&mut s, self.bound);
        s.append(" (receive buffer ");
        push_decimal(&mut s, (self.granted_recv_buffer / 1024) as u64);
        s.append(" KiB)");
        s
    }
}

/// The octets of an address are its bytes, the most significant first, and it is that of a
/// group from 224.0.0.0 to 239.255.255.255.
pub proof fn law_octets_make_the_address(ip: u32)
    ensures
        ip == ((octet(ip, 0) * 256 + octet(ip, 1)) * 256 + octet(ip, 2)) * 256 + octet(ip, 3),
        forall|i: int| 0 <= i < 4 ==> 0 <= #[trigger] octet(ip, i) < 256,
        is_group(ip) <==> 0xe000_0000 <= ip <= 0xefff_ffff,
{
}

/// A publisher needs a target; in multicast it has exactly one, which is a group's address.
pub proof fn law_what_a_publisher_needs(mode: TransportMode, targets: Seq<Endpoint>)
    ensures
        targets_outcome(mode, targets) is Ok <==> targets.len() > 0 && (mode
            == TransportMode::Multicast ==> targets.len() == 1 && 0xe000_0000 <= targets[0].ip
            <= 0xefff_ffff),
        targets.len() == 0 ==> targets_outcome(mode, targets) == Err::<(), TargetError>(
            TargetError::NoTarget,
        ),
{
    if targets.len() > 0 {
        law_octets_make_the_address(targets[0].ip);
    }
}

} // verus!
