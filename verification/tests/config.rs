use mdstack::config::{Channel, Config, ConfigError, EngineOverrides, HandlerOverrides, Symbol};
use mdstack::rng::Chance;
use mdstack::transport::{Endpoint, TransportMode};

#[test]
fn an_empty_file_yields_working_defaults() {
    let cfg = Config::default();
    cfg.validate().expect("defaults are usable");
    assert_eq!(cfg.transport.mode().unwrap(), TransportMode::Multicast);
    assert_eq!(cfg.feed.a.group.port, 30001);
    assert_eq!(cfg.feed.batch_size, 32);
}

#[test]
fn transport_mode_round_trips_through_the_file() {
    let mut cfg = Config::default();
    cfg.transport.mode = "unicast-fanout".to_string();
    assert_eq!(cfg.transport.mode().unwrap(), TransportMode::UnicastFanout);
    cfg.transport.mode = "udp".to_string();
    assert!(cfg.transport.mode().is_err());
}

#[test]
fn validation_rejects_configurations_that_could_not_run() {
    let mut cfg = Config::default();
    cfg.market.symbols.clear();
    assert!(cfg.validate().is_err(), "no symbols means nothing to trade");

    let mut cfg = Config::default();
    cfg.feed.batch_size = 0;
    assert!(cfg.validate().is_err());

    let mut cfg = Config::default();
    cfg.feed.max_datagram_bytes = 32;
    assert!(
        cfg.validate().is_err(),
        "a datagram that cannot hold one Trade is unusable"
    );

    let mut cfg = Config::default();
    cfg.market.symbols[0].tick_size = 0;
    assert!(cfg.validate().is_err());

    let mut cfg = Config::default();
    cfg.market.symbols.push(cfg.market.symbols[0].clone());
    assert!(cfg.validate().is_err(), "duplicate symbol ids");
}

fn complaint(cfg: &Config) -> String {
    let ConfigError::Invalid(m) = cfg.validate().unwrap_err();
    m
}

#[test]
fn a_complaint_names_the_first_thing_wrong() {
    let mut cfg = Config::default();
    cfg.market.symbols.push(Symbol {
        id: 2,
        name: "BETA".to_string(),
        reference_price: 1,
        tick_size: -3,
    });
    cfg.feed.batch_size = 0;
    assert_eq!(
        complaint(&cfg),
        "symbol BETA has tick_size -3; it must be positive"
    );
    cfg.market.symbols[1].tick_size = 1;
    assert_eq!(complaint(&cfg), "feed.batch_size must be at least 1");
    cfg.feed.batch_size = 1;
    cfg.feed.max_datagram_bytes = 71;
    assert_eq!(
        complaint(&cfg),
        "feed.max_datagram_bytes is 71; it must be at least 72 to hold a packet header and one Trade"
    );
    cfg.feed.max_datagram_bytes = 72;
    cfg.handler.recovery_timeout_millis = 4000;
    assert!(complaint(&cfg).starts_with(
        "handler.recovery_timeout_millis is 4000 but the snapshot cycle is every 2000ms;"
    ));
    cfg.handler.recovery_timeout_millis = 4001;
    cfg.validate().unwrap();
    cfg.feed.snapshot_interval_millis = 0;
    cfg.handler.recovery_timeout_millis = 0;
    cfg.validate().unwrap();
    cfg.market.symbols[1].id = 1;
    assert_eq!(complaint(&cfg), "market.symbols contains a duplicate id");
    cfg.market.symbols.clear();
    assert_eq!(
        complaint(&cfg),
        "market.symbols is empty; the engine would have nothing to trade"
    );
}

#[test]
fn names_and_socket_options_come_from_the_file() {
    let mut cfg = Config::default();
    cfg.transport.ttl = 9;
    assert_eq!(cfg.symbol_name(1), Some("ACME"));
    assert_eq!(cfg.symbol_name(2), None);
    let o = cfg.socket_options();
    assert_eq!((o.interface, o.ttl, o.loopback, o.buffer_bytes), (0, 9, true, 4 * 1024 * 1024));
}

fn nothing_asked() -> EngineOverrides {
    EngineOverrides {
        feed_a: None,
        feed_b: None,
        batch_size: None,
        messages: None,
        duration: None,
        rate: None,
        seed: None,
        digest_path: None,
        digest_interval: None,
        drop_rate: None,
        drop_mode: None,
        drop_seed: None,
        snapshot_interval: None,
    }
}

#[test]
fn the_command_line_overrides_only_what_it_names() {
    let there = Endpoint { ip: 0x0a00_0002, port: 5 };
    let mut cfg = Config::default();
    cfg.override_engine(EngineOverrides {
        feed_a: Some(there),
        batch_size: Some(0),
        seed: Some(42),
        drop_rate: Some(Chance::Always),
        drop_mode: Some("correlated".to_string()),
        ..nothing_asked()
    });
    assert_eq!(cfg.feed.a.group, there);
    assert_eq!(cfg.feed.a.unicast_targets, vec![there]);
    assert_eq!(cfg.feed.a.unicast_bind.port, 31001);
    assert_eq!(cfg.feed.b.group.ip, 0xef01_0102);
    assert_eq!(cfg.feed.batch_size, 1, "a batch holds at least one message");
    assert_eq!(cfg.engine.seed, 42);
    assert_eq!(cfg.engine.messages, 0);
    assert_eq!(cfg.engine.drop_rate, Chance::Always);
    assert_eq!(cfg.engine.drop_mode, "correlated");
    assert_eq!(cfg.engine.digest_interval, 1000);

    cfg.override_handler(HandlerOverrides {
        messages: Some(5),
        idle_timeout: None,
        digest_path: Some("out.log".to_string()),
        digest_interval: None,
    });
    assert_eq!(cfg.handler.messages, 5);
    assert_eq!(cfg.handler.idle_timeout_seconds, 0);
    assert_eq!(cfg.handler.digest_path.as_deref(), Some("out.log"));
}

#[test]
fn a_channel_goes_where_its_mode_says() {
    let c = Channel::default();
    assert_eq!(c.targets(TransportMode::Multicast), vec![c.group]);
    assert_eq!(c.targets(TransportMode::UnicastFanout), c.unicast_targets);
    assert_eq!(c.listens(TransportMode::Multicast, None), c.group);
    assert_eq!(c.listens(TransportMode::UnicastFanout, None), c.unicast_bind);
    let e = Endpoint { ip: 1, port: 2 };
    assert_eq!(c.listens(TransportMode::Multicast, Some(e)), e);
}

#[test]
fn an_interval_may_be_as_long_as_there_is() {
    let mut cfg = Config::default();
    cfg.feed.snapshot_interval_millis = u64::MAX;
    cfg.handler.recovery_timeout_millis = u64::MAX;
    assert!(cfg.validate().is_err());
    cfg.feed.snapshot_interval_millis = 1_000;
    cfg.handler.recovery_timeout_millis = 2_000;
    assert!(cfg.validate().is_err(), "two cycles are not outlived");
    cfg.handler.recovery_timeout_millis = 2_001;
    assert!(cfg.validate().is_ok());
}
