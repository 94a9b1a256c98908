//! The line from the publisher to the replay service: what is counted of it, and
//! whether it stands.

use crate::protocol::{hello_bytes, write_hello, Schema};
use vstd::prelude::*;
use vstd::wrapping::u64_specs::wrapping_add;

verus! {

/// What became of the datagrams that were offered. The counts wrap.
#[derive(Debug, Clone, Copy, PartialEq, Eq, Structural)]
pub struct UplinkStats {
    pub datagrams_sent: u64,
    pub datagrams_dropped: u64,
    pub reconnects: u64,
    pub connected: bool,
}

/// What happened to the line.
#[derive(Debug, Clone, Copy, PartialEq, Eq, Structural)]
pub enum UplinkEvent {
    /// There was no room to queue a datagram.
    Full,
    /// The service could not be reached.
    ConnectFailed,
    /// The service was reached and greeted.
    Greeted,
    /// The service was reached and could not be greeted.
    GreetingFailed,
    Sent,
    SendFailed,
}

/// What the writer does next with the datagram it holds.
#[derive(Debug, Clone, Copy, PartialEq, Eq, Structural)]
pub enum UplinkStep {
    Connect,
    Send,
    /// It is done with.
    Next,
}

impl Default for UplinkStats {
    fn default() -> (r: Self)
        ensures
            r == (UplinkStats {
                datagrams_sent: 0,
                datagrams_dropped: 0,
                reconnects: 0,
                connected: false,
            }),
    {
        UplinkStats { datagrams_sent: 0, datagrams_dropped: 0, reconnects: 0, connected: false }
    }
}

/// The writer's end of the line.
#[derive(Debug, Clone, Copy, PartialEq, Eq, Structural)]
pub struct Uplink {
    pub stats: UplinkStats,
    /// There is a stream to write to.
    pub open: bool,
}

impl Uplink {
    pub fn new() -> (r: Self)
        ensures
            r == (Uplink {
                stats: UplinkStats {
                    datagrams_sent: 0,
                    datagrams_dropped: 0,
                    reconnects: 0,
                    connected: false,
                },
                open: false,
            }),
    {
        Uplink { stats: UplinkStats::default(), open: false }
    }

    /// What a datagram that came off the queue needs first.
    pub fn begin(&self) -> (r: UplinkStep)
        ensures
            r == (if self.open {
                UplinkStep::Send
            } else {
                UplinkStep::Connect
            }),
    {
        if self.open {
            UplinkStep::Send
        } else {
            UplinkStep::Connect
        }
    }

    /// The line after an event, and what follows it.
    pub open spec fn told(self, e: UplinkEvent) -> (Uplink, UplinkStep) {
        let s = self.stats;
        match e {
            UplinkEvent::Full => (
                Uplink {
                    stats: UplinkStats {
                        datagrams_dropped: wrapping_add(s.datagrams_dropped, 1),
                        ..s
                    },
                    ..self
                },
                UplinkStep::Next,
            ),
            UplinkEvent::ConnectFailed => (
                Uplink {
                    stats: UplinkStats {
                        datagrams_dropped: wrapping_add(s.datagrams_dropped, 1),
                        connected: false,
                        ..s
                    },
                    ..self
                },
                UplinkStep::Next,
            ),
            UplinkEvent::Greeted => (
                Uplink {
                    stats: UplinkStats {
                        reconnects: wrapping_add(s.reconnects, 1),
                        connected: true,
                        ..s
                    },
                    open: true,
                },
                UplinkStep::Send,
            ),
            UplinkEvent::GreetingFailed => (self, UplinkStep::Next),
            UplinkEvent::Sent => (
                Uplink {
                    stats: UplinkStats { datagrams_sent: wrapping_add(s.datagrams_sent, 1), ..s },
                    ..self
                },
                UplinkStep::Next,
            ),
            UplinkEvent::SendFailed => (
                Uplink { stats: UplinkStats { connected: false, ..s }, open: false },
                UplinkStep::Next,
            ),
        }
    }

    /// Takes in what happened, and says what follows.
    pub fn on(&mut self, e: UplinkEvent) -> (r: UplinkStep)
        ensures
            *final(self) == old(self).told(e).0,
            r == old(self).told(e).1,
    {
        match e {
            UplinkEvent::Full => {
                self.stats.datagrams_dropped = self.stats.datagrams_dropped.wrapping_add(1);
                UplinkStep::Next
            },
            UplinkEvent::ConnectFailed => {
                self.stats.datagrams_dropped = self.stats.datagrams_dropped.wrapping_add(1);
                self.stats.connected = false;
                UplinkStep::Next
            },
            UplinkEvent::Greeted => {
                self.stats.reconnects = self.stats.reconnects.wrapping_add(1);
                self.stats.connected = true;
                self.open = true;
                UplinkStep::Send
            },
            UplinkEvent::GreetingFailed => UplinkStep::Next,
            UplinkEvent::Sent => {
                self.stats.datagrams_sent = self.stats.datagrams_sent.wrapping_add(1);
                UplinkStep::Next
            },
            UplinkEvent::SendFailed => {
                self.stats.connected = false;
                self.open = false;
                UplinkStep::Next
            },
        }
    }

    pub fn sent(&self) -> (r: u64)
        ensures
            r == self.stats.datagrams_sent,
    {
        self.stats.datagrams_sent
    }

    pub fn dropped(&self) -> (r: u64)
        ensures
            r == self.stats.datagrams_dropped,
    {
        self.stats.datagrams_dropped
    }

    pub fn is_connected(&self) -> (r: bool)
        ensures
            r == self.stats.connected,
    {
        self.stats.connected
    }
}

/// What the service is greeted with.
pub fn hello(w: &mut Vec<u8>, schema: Schema)
    ensures
        final(w)@ == old(w)@ + hello_bytes(schema),
{
    write_hello(w, schema)
}

/// A line that has a stream to write to counts as connected, and the other way round,
/// through every event that can come: a datagram is sent only on an open line, and a
/// connection is made only on a closed one.
pub proof fn law_open_is_connected(u: Uplink, e: UplinkEvent)
    requires
        u.open == u.stats.connected,
        e is ConnectFailed || e is Greeted || e is GreetingFailed ==> !u.open,
        e is Sent || e is SendFailed ==> u.open,
    ensures
        u.told(e).0.open == u.told(e).0.stats.connected,
{
}

/// What an event of the line counts for and leads to: a datagram that finds no room, or no
/// service, is dropped; a service that was reached is a reconnect, and the datagram is sent
/// then; one that is sent is counted; and a line that breaks is closed.
pub proof fn law_what_an_event_leads_to(u: Uplink, e: UplinkEvent)
    ensures
        ({
            let (v, step) = u.told(e);
            &&& v.stats.datagrams_sent == (if e is Sent {
                wrapping_add(u.stats.datagrams_sent, 1)
            } else {
                u.stats.datagrams_sent
            })
            &&& v.stats.datagrams_dropped == (if e is Full || e is ConnectFailed {
                wrapping_add(u.stats.datagrams_dropped, 1)
            } else {
                u.stats.datagrams_dropped
            })
            &&& v.stats.reconnects == (if e is Greeted {
                wrapping_add(u.stats.reconnects, 1)
            } else {
                u.stats.reconnects
            })
            &&& step == (if e is Greeted {
                UplinkStep::Send
            } else {
                UplinkStep::Next
            })
            &&& e is Greeted ==> v.open && v.stats.connected
            &&& e is SendFailed ==> !v.open && !v.stats.connected
            &&& e is ConnectFailed ==> !v.stats.connected
            &&& !(e is Greeted || e is SendFailed) ==> v.open == u.open
            &&& e is Full || e is Sent || e is GreetingFailed ==> v.stats.connected
                == u.stats.connected
        }),
{
}

} // verus!
