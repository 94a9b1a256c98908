use mdstack::config::Config;
use mdstack::digest::BookDigest;
use mdstack::engine::Engine;
use mdstack::feed::{FeedPublisher, Shadow, WireSizes};
use mdstack::generator::{Generator, Shape};
use mdstack::runner::{turn, Pace, Schedule, TurnError};
use mdstack::uplink::{Uplink, UplinkEvent, UplinkStep};

#[test]
fn a_schedule_comes_from_the_configuration() {
    let mut cfg = Config::default();
    let s = Schedule::new(&cfg, 0);
    assert_eq!(s.flush_every, 500_000);
    assert_eq!(s.heartbeat_every, 1_000_000_000);
    assert_eq!(s.snapshot_every, Some(2_000_000_000));
    assert_eq!(s.deadline, None);
    assert!(!s.is_over(u128::MAX, u64::MAX));

    cfg.feed.flush_interval_micros = 0;
    cfg.feed.snapshot_interval_millis = 0;
    cfg.engine.duration_seconds = 3;
    cfg.engine.messages = 10;
    let s = Schedule::new(&cfg, 100);
    assert_eq!(s.flush_every, 1_000);
    assert_eq!(s.snapshot_every, None);
    assert_eq!(s.deadline, Some(3_000_000_100));
    assert!(!s.is_over(3_000_000_099, 9));
    assert!(s.is_over(3_000_000_100, 0));
    assert!(s.is_over(0, 10));
}

#[test]
fn each_thing_is_done_once_per_interval() {
    let s = Schedule::new(&Config::default(), 0);
    let mut p = Pace::new(0);
    let d = p.due(&s, 499_999);
    assert!(!d.flush && !d.heartbeat && !d.snapshot && !d.report);
    assert!(p.due(&s, 500_000).flush);
    assert!(!p.due(&s, 600_000).flush);
    let d = p.due(&s, 5_000_000_000);
    assert!(d.flush && d.heartbeat && d.snapshot && d.report);
    let d = p.due(&s, 5_000_000_000);
    assert!(!d.flush && !d.heartbeat && !d.snapshot && !d.report);
}

#[test]
fn an_uplink_connects_when_there_is_something_to_send() {
    let mut u = Uplink::new();
    assert_eq!(u.begin(), UplinkStep::Connect);
    assert_eq!(u.on(UplinkEvent::ConnectFailed), UplinkStep::Next);
    assert_eq!(u.dropped(), 1);
    assert_eq!(u.on(UplinkEvent::Greeted), UplinkStep::Send);
    assert!(u.is_connected());
    assert_eq!(u.on(UplinkEvent::Sent), UplinkStep::Next);
    assert_eq!(u.begin(), UplinkStep::Send);
    assert_eq!(u.on(UplinkEvent::SendFailed), UplinkStep::Next);
    assert!(!u.is_connected());
    assert_eq!(u.begin(), UplinkStep::Connect);
    assert_eq!(u.on(UplinkEvent::GreetingFailed), UplinkStep::Next);
    assert_eq!(u.on(UplinkEvent::Full), UplinkStep::Next);
    assert_eq!((u.sent(), u.dropped(), u.stats.reconnects), (1, 2, 1));
}

const SIZES: WireSizes = WireSizes {
    packet_header: 24,
    add_order: 32,
    modify_order: 32,
    delete_order: 24,
    trade: 48,
    heartbeat: 16,
};

fn crowd(seed: u64) -> (Engine, FeedPublisher, Generator) {
    let cfg = Config::default();
    (
        Engine::new(&cfg.market.symbols),
        FeedPublisher::new(32, 1400, SIZES),
        Generator::new(seed, Shape::of(&cfg.engine)),
    )
}

#[test]
fn the_same_seed_makes_the_same_run() {
    let (mut e1, mut f1, mut g1) = crowd(42);
    let (mut e2, mut f2, mut g2) = crowd(42);
    for _ in 0..3000 {
        let a = turn(&mut e1, &mut f1, &mut g1, 100).unwrap();
        let b = turn(&mut e2, &mut f2, &mut g2, 100).unwrap();
        assert_eq!(a, b);
    }
    assert_eq!(e1.digest(), e2.digest());
    assert!(f1.last_sequence() > 3000);
    assert!(e1.stats().trades > 0 && e1.stats().cancels > 0 && e1.stats().modifies > 0);

    let (mut e3, mut f3, mut g3) = crowd(43);
    for _ in 0..3000 {
        turn(&mut e3, &mut f3, &mut g3, 0).unwrap();
    }
    assert_ne!(e1.digest(), e3.digest());
}

#[test]
fn a_run_is_rebuilt_from_its_feed() {
    let (mut e, mut f, mut g) = crowd(7);
    let mut shadow = Shadow::new();
    for _ in 0..2000 {
        turn(&mut e, &mut f, &mut g, 0).unwrap();
        for d in f.take_outbox() {
            shadow.check(&d).unwrap();
        }
    }
    f.flush();
    for d in f.take_outbox() {
        shadow.check(&d).unwrap();
    }
    assert_eq!(e.digest(), BookDigest::of(shadow.shadow()));
}

#[test]
fn a_mid_at_the_end_of_the_price_range_stops_the_run() {
    let (mut e, mut f, mut g) = crowd(7);
    e.set_mid(0, i64::MAX);
    assert!(matches!(
        turn(&mut e, &mut f, &mut g, 0),
        Err(TurnError::MidOutOfRange { symbol_id: 1 })
    ));
    assert_eq!(f.last_sequence(), 0);
}
