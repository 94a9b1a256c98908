//! Configuration as plain values, and what makes one usable.

use crate::rng::Chance;
use crate::text::{decimal, push_decimal, push_signed, signed_decimal};
use crate::transport::{Endpoint, SocketOptions, TransportMode};
use vstd::prelude::*;
use vstd::string::StringExecFns;

verus! {

/// The smallest datagram that holds a packet header and one trade.
pub const DATAGRAM_FLOOR: usize = 72;

/// Why a configuration cannot be used.
#[derive(Debug)]
pub enum ConfigError {
    Invalid(String),
}

impl ConfigError {
    pub open spec fn text(self) -> Seq<char> {
        match self {
            ConfigError::Invalid(m) => m@,
        }
    }
}

/// A symbol that is traded.
#[derive(Debug, Clone)]
pub struct Symbol {
    pub id: u16,
    pub name: String,
    pub reference_price: i64,
    pub tick_size: i64,
}

#[derive(Debug)]
pub struct Config {
    pub transport: Transport,
    pub feed: Feed,
    pub market: Market,
    pub engine: Engine,
    pub handler: Handler,
}

#[derive(Debug)]
pub struct Transport {
    pub mode: String,
    pub interface: u32,
    pub ttl: u32,
    pub loopback: bool,
    pub buffer_bytes: usize,
}

/// One of the two arms of the feed.
#[derive(Debug)]
pub struct Channel {
    pub group: Endpoint,
    pub unicast_targets: Vec<Endpoint>,
    pub unicast_bind: Endpoint,
}

#[derive(Debug)]
pub struct Feed {
    pub a: Channel,
    pub b: Channel,
    pub batch_size: u16,
    pub max_datagram_bytes: usize,
    pub flush_interval_micros: u64,
    pub heartbeat_millis: u64,
    /// 0 turns the snapshot cycle off.
    pub snapshot_interval_millis: u64,
    pub snapshot_linger_millis: u64,
}

#[derive(Debug)]
pub struct Market {
    pub symbols: Vec<Symbol>,
}

#[derive(Debug)]
pub struct Engine {
    pub seed: u64,
    /// 0 sets no limit.
    pub messages: u64,
    /// 0 sets no limit.
    pub duration_seconds: u64,
    /// 0 sets no limit.
    pub rate_per_second: u64,
    pub digest_interval: u64,
    pub digest_path: Option<String>,
    pub self_check: bool,
    pub target_depth: usize,
    pub price_spread_ticks: i64,
    pub aggressive_chance: Chance,
    pub cancel_chance: Chance,
    pub modify_chance: Chance,
    pub min_quantity: u32,
    pub max_quantity: u32,
    pub drop_rate: Chance,
    pub drop_mode: String,
    pub drop_seed: u64,
}

#[derive(Debug)]
pub struct Handler {
    pub digest_interval: u64,
    pub digest_path: Option<String>,
    pub stats_interval_millis: u64,
    /// 0 sets no limit.
    pub messages: u64,
    /// 0 sets no limit.
    pub idle_timeout_seconds: u64,
    pub reorder_window_datagrams: usize,
    pub gap_timeout_millis: u64,
    pub recovery_buffer_datagrams: usize,
    pub recovery_timeout_millis: u64,
}

/// The transport settings of an empty file.
pub open spec fn default_transport(t: Transport) -> bool {
    &&& t.mode@ == "multicast"@
    &&& t.interface == 0
    &&& t.ttl == 1
    &&& t.loopback
    &&& t.buffer_bytes == 4_194_304
}

/// The feed settings of an empty file.
pub open spec fn default_feed(f: Feed) -> bool {
    &&& f.a.stands(0xef01_0101, 31001)
    &&& f.b.stands(0xef01_0102, 31002)
    &&& f.batch_size == 32
    &&& f.max_datagram_bytes == 1400
    &&& f.flush_interval_micros == 500
    &&& f.heartbeat_millis == 1000
    &&& f.snapshot_interval_millis == 2000
    &&& f.snapshot_linger_millis == 3000
}

/// The market settings of an empty file.
pub open spec fn default_market(m: Market) -> bool {
    &&& m.symbols@.len() == 1
    &&& m.symbols@[0].id == 1
    &&& m.symbols@[0].name@ == "ACME"@
    &&& m.symbols@[0].reference_price == 1_000_000
    &&& m.symbols@[0].tick_size == 100
}

/// The engine settings of an empty file.
pub open spec fn default_engine(e: Engine) -> bool {
    &&& e.seed == 0x5EED_1234_ABCD_0001
    &&& e.messages == 0
    &&& e.duration_seconds == 0
    &&& e.rate_per_second == 0
    &&& e.digest_interval == 1000
    &&& e.digest_path is None
    &&& !e.self_check
    &&& e.target_depth == 40
    &&& e.price_spread_ticks == 8
    &&& e.aggressive_chance == Chance::Of(1_621_295_865_853_379)
    &&& e.cancel_chance == Chance::Of(2_251_799_813_685_248)
    &&& e.modify_chance == Chance::Of(1_351_079_888_211_149)
    &&& e.min_quantity == 1
    &&& e.max_quantity == 500
    &&& e.drop_rate == Chance::Never
    &&& e.drop_mode@ == "independent"@
    &&& e.drop_seed == 0x0105_0B10_5510_0000
}

/// The handler settings of an empty file.
pub open spec fn default_handler(h: Handler) -> bool {
    &&& h.digest_interval == 1000
    &&& h.digest_path is None
    &&& h.stats_interval_millis == 1000
    &&& h.messages == 0
    &&& h.idle_timeout_seconds == 0
    &&& h.reorder_window_datagrams == 256
    &&& h.gap_timeout_millis == 250
    &&& h.recovery_buffer_datagrams == 4096
    &&& h.recovery_timeout_millis == 10_000
}

impl Default for Transport {
    fn default() -> (r: Self)
        ensures
            default_transport(r),
    {
        Transport {
            mode: String::from_str("multicast"),
            interface: 0,
            ttl: 1,
            loopback: true,
            buffer_bytes: 4_194_304,
        }
    }
}

impl Transport {
    /// The mode that the file names.
    pub fn mode(&self) -> (r: Result<TransportMode, ConfigError>)
        ensures
            r is Ok <==> TransportMode::named(self.mode@) is Some,
            r matches Ok(m) ==> TransportMode::named(self.mode@) == Some(m),
            r matches Err(e) ==> e.text() == "unknown transport "@
                + crate::transport::quoted_text(self.mode@)
                + ": expected \"multicast\" or \"unicast-fanout\""@,
    {
        match TransportMode::from_str(self.mode.as_str()) {
            Ok(m) => Ok(m),
            Err(e) => Err(ConfigError::Invalid(e)),
        }
    }
}

impl Channel {
    /// The channel with this group, and this port on the local host.
    pub open spec fn stands(self, group: u32, port: u16) -> bool {
        let local = Endpoint { ip: 0x7f00_0001, port };
        &&& self.group == Endpoint { ip: group, port: 30001 }
        &&& self.unicast_targets@ == seq![local]
        &&& self.unicast_bind == local
    }

    fn local(group: u32, port: u16) -> (r: Self)
        ensures
            r.stands(group, port),
    {
        let local = Endpoint { ip: 0x7f00_0001, port };
        let mut unicast_targets: Vec<Endpoint> = Vec::new();
        unicast_targets.push(local);
        assert(unicast_targets@ =~= seq![local]);
        Channel { group: Endpoint { ip: group, port: 30001 }, unicast_targets, unicast_bind: local }
    }

    /// Where this channel is sent to in a mode.
    pub fn targets(&self, mode: TransportMode) -> (r: Vec<Endpoint>)
        ensures
            r@ == (match mode {
                TransportMode::Multicast => seq![self.group],
                TransportMode::UnicastFanout => self.unicast_targets@,
            }),
    {
        let mut out: Vec<Endpoint> = Vec::new();
        match mode {
            TransportMode::Multicast => {
                out.push(self.group);
                assert(out@ =~= seq![self.group]);
            },
            TransportMode::UnicastFanout => {
                let mut i: usize = 0;
                while i < self.unicast_targets.len()
                    invariant
                        i <= self.unicast_targets@.len(),
                        out@ == self.unicast_targets@.take(i as int),
                    decreases self.unicast_targets@.len() - i,
                {
                    out.push(self.unicast_targets[i]);
                    assert(out@ =~= self.unicast_targets@.take(i as int + 1));
                    i = i + 1;
                }
                assert(out@ =~= self.unicast_targets@);
            },
        }
        out
    }

    /// Where this channel is listened to in a mode, unless somewhere else is asked for.
    pub fn listens(&self, mode: TransportMode, asked: Option<Endpoint>) -> (r: Endpoint)
        ensures
            r == (match (asked, mode) {
                (Some(e), _) => e,
                (None, TransportMode::Multicast) => self.group,
                (None, TransportMode::UnicastFanout) => self.unicast_bind,
            }),
    {
        match asked {
            Some(e) => e,
            None => match mode {
                TransportMode::Multicast => self.group,
                TransportMode::UnicastFanout => self.unicast_bind,
            },
        }
    }
}

impl Default for Channel {
    fn default() -> (r: Self)
        ensures
            r.stands(0xef01_0101, 31001),
    {
        Channel::local(0xef01_0101, 31001)
    }
}

impl Default for Feed {
    fn default() -> (r: Self)
        ensures
            default_feed(r),
    {
        Feed {
            a: Channel::local(0xef01_0101, 31001),
            b: Channel::local(0xef01_0102, 31002),
            batch_size: 32,
            max_datagram_bytes: 1400,
            flush_interval_micros: 500,
            heartbeat_millis: 1000,
            snapshot_interval_millis: 2000,
            snapshot_linger_millis: 3000,
        }
    }
}

impl Default for Market {
    fn default() -> (r: Self)
        ensures
            default_market(r),
    {
        let mut symbols: Vec<Symbol> = Vec::new();
        symbols.push(
            Symbol {
                id: 1,
                name: String::from_str("ACME"),
                reference_price: 1_000_000,
                tick_size: 100,
            },
        );
        Market { symbols }
    }
}

impl Default for Engine {
    fn default() -> (r: Self)
        ensures
            default_engine(r),
    {
        Engine {
            seed: 0x5EED_1234_ABCD_0001,
            messages: 0,
            duration_seconds: 0,
            rate_per_second: 0,
            digest_interval: 1000,
            digest_path: None,
            self_check: false,
            target_depth: 40,
            price_spread_ticks: 8,
            aggressive_chance: Chance::Of(1_621_295_865_853_379),
            cancel_chance: Chance::Of(2_251_799_813_685_248),
            modify_chance: Chance::Of(1_351_079_888_211_149),
            min_quantity: 1,
            max_quantity: 500,
            drop_rate: Chance::Never,
            drop_mode: String::from_str("independent"),
            drop_seed: 0x0105_0B10_5510_0000,
        }
    }
}

impl Default for Handler {
    fn default() -> (r: Self)
        ensures
            default_handler(r),
    {
        Handler {
            digest_interval: 1000,
            digest_path: None,
            stats_interval_millis: 1000,
            messages: 0,
            idle_timeout_seconds: 0,
            reorder_window_datagrams: 256,
            gap_timeout_millis: 250,
            recovery_buffer_datagrams: 4096,
            recovery_timeout_millis: 10_000,
        }
    }
}

/// No two symbols have the same id.
pub open spec fn distinct_ids(symbols: Seq<Symbol>) -> bool {
    forall|i: int, j: int|
        0 <= i < j < symbols.len() ==> (#[trigger] symbols[i]).id != (#[trigger] symbols[j]).id
}

/// The first symbol whose tick is not positive is at this place.
pub open spec fn first_bad_tick(symbols: Seq<Symbol>, i: int) -> bool {
    &&& 0 <= i < symbols.len()
    &&& symbols[i].tick_size <= 0
    &&& forall|j: int| 0 <= j < i ==> (#[trigger] symbols[j]).tick_size > 0
}

pub open spec fn ticks_are_positive(symbols: Seq<Symbol>) -> bool {
    forall|i: int| 0 <= i < symbols.len() ==> (#[trigger] symbols[i]).tick_size > 0
}

impl Config {
    /// Recovery outlives two snapshot cycles, where there is a cycle.
    pub open spec fn outlives_snapshots(self) -> bool {
        self.feed.snapshot_interval_millis > 0 ==> self.handler.recovery_timeout_millis
            > self.feed.snapshot_interval_millis * 2
    }

    /// Whether this could run.
    pub open spec fn usable(self) -> bool {
        &&& self.market.symbols@.len() > 0
        &&& distinct_ids(self.market.symbols@)
        &&& ticks_are_positive(self.market.symbols@)
        &&& self.feed.batch_size > 0
        &&& self.feed.max_datagram_bytes >= DATAGRAM_FLOOR
        &&& self.outlives_snapshots()
    }

    /// The first thing that is wrong, of one that could not run.
    pub open spec fn complaint(self, text: Seq<char>) -> bool {
        let symbols = self.market.symbols@;
        if symbols.len() == 0 {
            text == "market.symbols is empty; the engine would have nothing to trade"@
        } else if !distinct_ids(symbols) {
            text == "market.symbols contains a duplicate id"@
        } else if !ticks_are_positive(symbols) {
            exists|i: int| #[trigger]
                first_bad_tick(symbols, i) && text == "symbol "@ + symbols[i].name@
                    + " has tick_size "@ + signed_decimal(symbols[i].tick_size as int)
                    + "; it must be positive"@
        } else if self.feed.batch_size == 0 {
            text == "feed.batch_size must be at least 1"@
        } else if self.feed.max_datagram_bytes < DATAGRAM_FLOOR {
            text == "feed.max_datagram_bytes is "@ + decimal(self.feed.max_datagram_bytes as int)
                + "; it must be at least 72 to hold a packet header and one Trade"@
        } else {
            text == "handler.recovery_timeout_millis is "@ + decimal(
                self.handler.recovery_timeout_millis as int,
            ) + " but the snapshot cycle is every "@ + decimal(
                self.feed.snapshot_interval_millis as int,
            )
                + "ms;                  recovery must outlive two cycles or it can time out before the first                  snapshot that could close the gap was ever due"@
        }
    }

    /// Refuses a configuration that could not run, naming the first thing wrong.
    pub fn validate(&self) -> (r: Result<(), ConfigError>)
        ensures
            r is Ok <==> self.usable(),
            r matches Err(e) ==> self.complaint(e.text()),
    {
        let symbols = &self.market.symbols;
        if symbols.len() == 0 {
            return Err(
                ConfigError::Invalid(
                    String::from_str(
                        "market.symbols is empty; the engine would have nothing to trade",
                    ),
                ),
            );
        }
        if !ids_differ(symbols) {
            return Err(
                ConfigError::Invalid(String::from_str("market.symbols contains a duplicate id")),
            );
        }
        let mut i: usize = 0;
        while i < symbols.len()
            invariant
                symbols@ == self.market.symbols@,
                symbols@.len() > 0,
                distinct_ids(symbols@),
                i <= symbols@.len(),
                forall|j: int| 0 <= j < i ==> (#[trigger] symbols@[j]).tick_size > 0,
            decreases symbols@.len() - i,
        {
            if symbols[i].tick_size <= 0 {
                let mut s: String = String::from_str("symbol ");
                s.append(symbols[i].name.as_str());
                s.append(" has tick_size ");
                push_signed(&mut s, symbols[i].tick_size);
                s.append("; it must be positive");
                assert(first_bad_tick(symbols@, i as int));
                return Err(ConfigError::Invalid(s));
            }
            i = i + 1;
        }
        if self.feed.batch_size == 0 {
            return Err(
                ConfigError::Invalid(String::from_str("feed.batch_size must be at least 1")),
            );
        }
        if self.feed.max_datagram_bytes < DATAGRAM_FLOOR {
            let mut s: String = String::from_str("feed.max_datagram_bytes is ");
            push_decimal(&mut s, self.feed.max_datagram_bytes as u64);
            s.append("; it must be at least 72 to hold a packet header and one Trade");
            return Err(ConfigError::Invalid(s));
        }
        let interval: u64 = self.feed.snapshot_interval_millis;
        let timeout: u64 = self.handler.recovery_timeout_millis;
        if interval > 0 && (timeout / 2 < interval || (timeout / 2 == interval && timeout % 2
            == 0)) {
            let mut s: String = String::from_str("handler.recovery_timeout_millis is ");
            push_decimal(&mut s, self.handler.recovery_timeout_millis);
            s.append(" but the snapshot cycle is every ");
            push_decimal(&mut s, self.feed.snapshot_interval_millis);
            s.append(
                "ms;                  recovery must outlive two cycles or it can time out before the first                  snapshot that could close the gap was ever due",
            );
            return Err(ConfigError::Invalid(s));
        }
        Ok(())
    }

    pub fn socket_options(&self) -> (r: SocketOptions)
        ensures
            r == (SocketOptions {
                interface: self.transport.interface,
                ttl: self.transport.ttl,
                loopback: self.transport.loopback,
                buffer_bytes: self.transport.buffer_bytes,
            }),
    {
        SocketOptions {
            interface: self.transport.interface,
            ttl: self.transport.ttl,
            loopback: self.transport.loopback,
            buffer_bytes: self.transport.buffer_bytes,
        }
    }

    /// The name of the first symbol with this id.
    pub fn symbol_name(&self, id: u16) -> (r: Option<&str>)
        ensures
            r is Some <==> exists|i: int|
                0 <= i < self.market.symbols@.len() && (#[trigger] self.market.symbols@[i]).id
                    == id,
            r matches Some(name) ==> exists|i: int|
                {
                    &&& 0 <= i < self.market.symbols@.len()
                    &&& (#[trigger] self.market.symbols@[i]).id == id
                    &&& self.market.symbols@[i].name@ == name@
                    &&& forall|j: int|
                        0 <= j < i ==> (#[trigger] self.market.symbols@[j]).id != id
                },
    {
        let symbols = &self.market.symbols;
        let mut i: usize = 0;
        while i < symbols.len()
            invariant
                symbols@ == self.market.symbols@,
                i <= symbols@.len(),
                forall|j: int| 0 <= j < i ==> (#[trigger] symbols@[j]).id != id,
            decreases symbols@.len() - i,
        {
            if symbols[i].id == id {
                return Some(symbols[i].name.as_str());
            }
            i = i + 1;
        }
        None
    }

    /// Puts what was asked for on the command line in place of what the file says.
    pub fn override_engine(&mut self, asked: EngineOverrides)
        ensures
            final(self).transport == old(self).transport,
            final(self).market == old(self).market,
            final(self).handler == old(self).handler,
            asked.feed_a matches Some(e) ==> {
                &&& final(self).feed.a.group == e
                &&& final(self).feed.a.unicast_targets@ == seq![e]
                &&& final(self).feed.a.unicast_bind == old(self).feed.a.unicast_bind
            },
            asked.feed_a is None ==> final(self).feed.a == old(self).feed.a,
            asked.feed_b matches Some(e) ==> {
                &&& final(self).feed.b.group == e
                &&& final(self).feed.b.unicast_targets@ == seq![e]
                &&& final(self).feed.b.unicast_bind == old(self).feed.b.unicast_bind
            },
            asked.feed_b is None ==> final(self).feed.b == old(self).feed.b,
            final(self).feed == (Feed {
                a: final(self).feed.a,
                b: final(self).feed.b,
                batch_size: match asked.batch_size {
                    Some(v) => if v == 0 {
                        1
                    } else {
                        v
                    },
                    None => old(self).feed.batch_size,
                },
                snapshot_interval_millis: or_else(
                    asked.snapshot_interval,
                    old(self).feed.snapshot_interval_millis,
                ),
                ..old(self).feed
            }),
            final(self).engine == (Engine {
                messages: or_else(asked.messages, old(self).engine.messages),
                duration_seconds: or_else(asked.duration, old(self).engine.duration_seconds),
                rate_per_second: or_else(asked.rate, old(self).engine.rate_per_second),
                seed: or_else(asked.seed, old(self).engine.seed),
                digest_interval: or_else(asked.digest_interval, old(self).engine.digest_interval),
                drop_rate: match asked.drop_rate {
                    Some(p) => p,
                    None => old(self).engine.drop_rate,
                },
                drop_mode: match asked.drop_mode {
                    Some(m) => m,
                    None => old(self).engine.drop_mode,
                },
                drop_seed: or_else(asked.drop_seed, old(self).engine.drop_seed),
                digest_path: match asked.digest_path {
                    Some(p) => Some(p),
                    None => old(self).engine.digest_path,
                },
                ..old(self).engine
            }),
    {
        if let Some(e) = asked.feed_a {
            self.feed.a.redirect(e);
        }
        if let Some(e) = asked.feed_b {
            self.feed.b.redirect(e);
        }
        if let Some(v) = asked.batch_size {
            self.feed.batch_size = if v == 0 {
                1
            } else {
                v
            };
        }
        self.engine.messages = given(asked.messages, self.engine.messages);
        self.engine.duration_seconds = given(asked.duration, self.engine.duration_seconds);
        self.engine.rate_per_second = given(asked.rate, self.engine.rate_per_second);
        self.engine.seed = given(asked.seed, self.engine.seed);
        self.engine.digest_interval = given(asked.digest_interval, self.engine.digest_interval);
        self.engine.drop_seed = given(asked.drop_seed, self.engine.drop_seed);
        self.feed.snapshot_interval_millis = given(
            asked.snapshot_interval,
            self.feed.snapshot_interval_millis,
        );
        if let Some(v) = asked.drop_rate {
            self.engine.drop_rate = v;
        }
        if let Some(v) = asked.drop_mode {
            self.engine.drop_mode = v;
        }
        if let Some(v) = asked.digest_path {
            self.engine.digest_path = Some(v);
        }
    }

    /// Puts what was asked for on the command line in place of what the file says.
    pub fn override_handler(&mut self, asked: HandlerOverrides)
        ensures
            final(self).transport == old(self).transport,
            final(self).market == old(self).market,
            final(self).feed == old(self).feed,
            final(self).engine == old(self).engine,
            final(self).handler == (Handler {
                messages: or_else(asked.messages, old(self).handler.messages),
                idle_timeout_seconds: or_else(
                    asked.idle_timeout,
                    old(self).handler.idle_timeout_seconds,
                ),
                digest_interval: or_else(asked.digest_interval, old(self).handler.digest_interval),
                digest_path: match asked.digest_path {
                    Some(p) => Some(p),
                    None => old(self).handler.digest_path,
                },
                ..old(self).handler
            }),
    {
        self.handler.messages = given(asked.messages, self.handler.messages);
        self.handler.idle_timeout_seconds = given(
            asked.idle_timeout,
            self.handler.idle_timeout_seconds,
        );
        self.handler.digest_interval = given(asked.digest_interval, self.handler.digest_interval);
        if let Some(v) = asked.digest_path {
            self.handler.digest_path = Some(v);
        }
    }
}

impl Default for Config {
    fn default() -> (r: Self)
        ensures
            r.usable(),
            default_transport(r.transport),
            default_feed(r.feed),
            default_market(r.market),
            default_engine(r.engine),
            default_handler(r.handler),
    {
        Config {
            transport: Transport::default(),
            feed: Feed::default(),
            market: Market::default(),
            engine: Engine::default(),
            handler: Handler::default(),
        }
    }
}

pub open spec fn or_else(asked: Option<u64>, have: u64) -> u64 {
    match asked {
        Some(v) => v,
        None => have,
    }
}

fn given(asked: Option<u64>, have: u64) -> (r: u64)
    ensures
        r == or_else(asked, have),
{
    match asked {
        Some(v) => v,
        None => have,
    }
}

impl Channel {
    fn redirect(&mut self, e: Endpoint)
        ensures
            final(self).group == e,
            final(self).unicast_targets@ == seq![e],
            final(self).unicast_bind == old(self).unicast_bind,
    {
        let mut targets: Vec<Endpoint> = Vec::new();
        targets.push(e);
        assert(targets@ =~= seq![e]);
        self.group = e;
        self.unicast_targets = targets;
    }
}

fn ids_differ(symbols: &Vec<Symbol>) -> (r: bool)
    ensures
        r == distinct_ids(symbols@),
{
    let mut i: usize = 0;
    while i < symbols.len()
        invariant
            i <= symbols@.len(),
            forall|a: int, b: int|
                0 <= a < b < symbols@.len() && a < i ==> (#[trigger] symbols@[a]).id != (
                #[trigger] symbols@[b]).id,
        decreases symbols@.len() - i,
    {
        let mut j: usize = i + 1;
        while j < symbols.len()
            invariant
                i < j <= symbols@.len(),
                forall|b: int| i < b < j ==> (#[trigger] symbols@[b]).id != symbols@[i as int].id,
            decreases symbols@.len() - j,
        {
            if symbols[i].id == symbols[j].id {
                assert(symbols@[i as int].id == symbols@[j as int].id);
                return false;
            }
            j = j + 1;
        }
        i = i + 1;
    }
    true
}

/// What can be asked of the engine on its command line.
#[derive(Debug)]
pub struct EngineOverrides {
    pub feed_a: Option<Endpoint>,
    pub feed_b: Option<Endpoint>,
    pub batch_size: Option<u16>,
    pub messages: Option<u64>,
    pub duration: Option<u64>,
    pub rate: Option<u64>,
    pub seed: Option<u64>,
    pub digest_path: Option<String>,
    pub digest_interval: Option<u64>,
    pub drop_rate: Option<Chance>,
    pub drop_mode: Option<String>,
    pub drop_seed: Option<u64>,
    pub snapshot_interval: Option<u64>,
}

/// What can be asked of the handler on its command line.
#[derive(Debug)]
pub struct HandlerOverrides {
    pub messages: Option<u64>,
    pub idle_timeout: Option<u64>,
    pub digest_path: Option<String>,
    pub digest_interval: Option<u64>,
}

/// What a configuration needs to run: something to trade, under ids that differ, at ticks
/// above zero; a batch of at least one message; room for a header and the largest message;
/// and time to recover over more than two snapshot cycles, where there are any.
pub proof fn law_what_a_configuration_needs(c: Config)
    ensures
        c.usable() <==> {
            let s = c.market.symbols@;
            &&& s.len() >= 1
            &&& forall|i: int, j: int|
                0 <= i < s.len() && 0 <= j < s.len() && i != j ==> (#[trigger] s[i]).id != (
                #[trigger] s[j]).id
            &&& forall|i: int| 0 <= i < s.len() ==> (#[trigger] s[i]).tick_size >= 1
            &&& c.feed.batch_size >= 1
            &&& c.feed.max_datagram_bytes >= 72
            &&& c.feed.snapshot_interval_millis == 0 || c.handler.recovery_timeout_millis > 2
                * c.feed.snapshot_interval_millis
        },
{
    let s = c.market.symbols@;
    if distinct_ids(s) {
        assert forall|i: int, j: int|
            0 <= i < s.len() && 0 <= j < s.len() && i != j implies (#[trigger] s[i]).id != (
        #[trigger] s[j]).id by {
            if i > j {
                assert(s[j].id != s[i].id);
            }
        }
    }
}

/// What was asked for goes before what stands there, and what was not asked for leaves it.
pub proof fn law_asked_goes_first(asked: Option<u64>, stands: u64)
    ensures
        asked matches Some(v) ==> or_else(asked, stands) == v,
        asked is None ==> or_else(asked, stands) == stands,
{
}

} // verus!
