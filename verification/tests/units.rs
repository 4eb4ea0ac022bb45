use packet_engine::apps::{App, AppConfig, Config};
use packet_engine::engine::Engine;
use packet_engine::link::{Link, Packet, LINK_MAX_PACKETS, PULL_NPACKETS};
use packet_engine::linkspec::{parse_link, LinkSpec};
use packet_engine::stats::loss_rate;
use packet_engine::table::Table;

#[derive(Clone)]
struct NullConf;

struct NullApp;

impl App for NullApp {}

impl AppConfig<NullApp> for NullConf {
    fn identity(&self) -> String {
        format!("null")
    }

    fn new(&self) -> NullApp {
        NullApp
    }

    fn dup(&self) -> NullConf {
        NullConf
    }
}

#[test]
fn loss_rate_values() {
    assert_eq!(loss_rate(0, 0), 0);
    assert_eq!(loss_rate(0, 17), 0);
    assert_eq!(loss_rate(3, 0), 100);
    assert_eq!(loss_rate(1, 3), 25);
    assert_eq!(loss_rate(5, 5), 50);
    assert_eq!(loss_rate(u64::MAX, u64::MAX), 50);
}

#[test]
fn parse_and_format() {
    let ls = parse_link("source.output -> sink.input").expect("well-formed");
    assert_eq!(ls.from, "source");
    assert_eq!(ls.output, "output");
    assert_eq!(ls.to, "sink");
    assert_eq!(ls.input, "input");
    assert_eq!(ls.key_string(), "source.output -> sink.input");
    let ls2 = LinkSpec {
        from: "a".to_string(),
        output: "out2".to_string(),
        to: "b".to_string(),
        input: "in2".to_string(),
    };
    let key = ls2.key_string();
    assert_eq!(key, "a.out2 -> b.in2");
    let back = parse_link(&key).expect("round trip");
    assert_eq!(back.from, "a");
    assert_eq!(back.output, "out2");
    assert_eq!(back.to, "b");
    assert_eq!(back.input, "in2");
}

#[test]
fn parse_rejects_malformed() {
    for bad in [
        "",
        "nonsense",
        "a.b -> c",
        "a -> c.d",
        "a.b -> c.d.e",
        "a..b -> c.d",
        ".b -> c.d",
        "a.b -> c.",
        "a b.c -> d.e",
        "a.b ->c.d",
        "a.b- > c.d",
        "a.b -> c d.e",
    ] {
        assert!(parse_link(bad).is_none(), "accepted {:?}", bad);
    }
    // Dashes and angle brackets are allowed inside identifiers.
    assert!(parse_link("a->x.b -> c.d").is_some());
}

#[test]
fn link_capacity_and_counters() {
    let mut l = Link::new();
    assert!(l.is_empty());
    for _ in 0..LINK_MAX_PACKETS {
        assert!(l.transmit(Packet { data: vec![1, 2, 3] }));
    }
    assert!(l.is_full());
    assert!(!l.transmit(Packet { data: vec![9] }));
    assert_eq!(l.txpackets, LINK_MAX_PACKETS as u64);
    assert_eq!(l.txdrop, 1);
    let p = l.receive().expect("queued");
    assert_eq!(p.data, vec![1, 2, 3]);
    assert_eq!(l.rxpackets, 1);
    assert_eq!(PULL_NPACKETS, LINK_MAX_PACKETS / 10);
}

#[test]
fn table_semantics() {
    let mut t: Table<u64> = Table::new();
    assert_eq!(t.len(), 0);
    t.insert("a".to_string(), 1);
    t.insert("b".to_string(), 2);
    t.insert("a".to_string(), 3);
    assert_eq!(t.len(), 2);
    assert_eq!(t.get(&"a".to_string()), Some(&3));
    assert_eq!(t.get(&"b".to_string()), Some(&2));
    assert_eq!(t.get(&"c".to_string()), None);
    t.remove(&"a".to_string());
    assert_eq!(t.get(&"a".to_string()), None);
    assert_eq!(t.len(), 1);
    t.remove(&"missing".to_string());
    assert_eq!(t.len(), 1);
}

#[test]
fn timers() {
    let engine: Engine<NullApp, NullConf> = Engine::new();
    let expired = engine.timeout(0);
    let far = engine.timeout(60_000_000);
    let mut throttle = engine.throttle(60_000_000);
    // A zero timeout fires as soon as the clock moves; a one-minute one does
    // not, and a throttle fires at most once per interval.
    let mut fired = false;
    for _ in 0..1_000_000 {
        if expired.check() {
            fired = true;
            break;
        }
    }
    assert!(fired);
    assert!(!far.check());
    let mut tfired = false;
    for _ in 0..1_000_000 {
        if throttle.check() {
            tfired = true;
            break;
        }
    }
    assert!(tfired);
    assert!(!throttle.check());
}

#[test]
fn load_report_deltas() {
    let mut engine: Engine<NullApp, NullConf> = Engine::new();
    // The very first call only records the baseline.
    assert!(engine.report_load().is_none());
    for _ in 0..10 {
        engine.add_frees();
    }
    engine.add_freebytes(600);
    engine.add_freebits(4800);
    let r = engine.report_load().expect("second report has an interval");
    assert_eq!(r.newfrees, 10);
    assert_eq!(r.newfreebytes, 600);
    assert_eq!(r.newfreebits, 4800);
    assert_eq!(r.newbreaths, 0);
    assert_eq!(r.fpb, 0);
    assert_eq!(r.bpp, 60);
    // Deltas reset after each report.
    let r2 = engine.report_load().expect("third report");
    assert_eq!(r2.newfrees, 0);
}

#[test]
fn app_report_counts() {
    let mut engine: Engine<NullApp, NullConf> = Engine::new();
    let c: Config<NullConf> = Config::new();
    assert!(engine.configure(&c));
    assert!(engine.report_apps().is_empty());
}
