use packet_engine::apps::{App, AppConfig, Config};
use packet_engine::engine::{Engine, MAXSLEEP};
use packet_engine::link::{receive_on, transmit_on, Link, Packet};
use packet_engine::stats::EngineStats;
use packet_engine::table::Table;

#[derive(Clone)]
enum TestConf {
    Source { size: u64 },
    Sink,
    Tee,
    PseudoIo,
}

enum TestApp {
    Source { size: u64 },
    Sink,
    Tee,
    PseudoIo,
}

impl AppConfig<TestApp> for TestConf {
    fn identity(&self) -> String {
        match self {
            TestConf::Source { size } => format!("source:{}", size),
            TestConf::Sink => format!("sink"),
            TestConf::Tee => format!("tee"),
            TestConf::PseudoIo => format!("pseudo_io"),
        }
    }

    fn new(&self) -> TestApp {
        match self {
            TestConf::Source { size } => TestApp::Source { size: *size },
            TestConf::Sink => TestApp::Sink,
            TestConf::Tee => TestApp::Tee,
            TestConf::PseudoIo => TestApp::PseudoIo,
        }
    }

    fn dup(&self) -> TestConf {
        self.clone()
    }
}

impl App for TestApp {
    fn has_pull(&self) -> bool {
        matches!(self, TestApp::Source { .. } | TestApp::PseudoIo)
    }

    fn has_push(&self) -> bool {
        matches!(self, TestApp::Sink | TestApp::Tee | TestApp::PseudoIo)
    }

    fn pull(
        &self,
        _input: &Table<String>,
        output: &Table<String>,
        links: &mut Table<Link>,
        _stats: &mut EngineStats,
    ) {
        let size: usize = match self {
            TestApp::Source { size } => *size as usize,
            _ => 60,
        };
        for key in output.vals.iter() {
            for _ in 0..4 {
                let _ = transmit_on(links, key, Packet { data: vec![0u8; size] });
            }
        }
    }

    fn push(
        &self,
        input: &Table<String>,
        output: &Table<String>,
        links: &mut Table<Link>,
        stats: &mut EngineStats,
    ) {
        match self {
            TestApp::Sink => {
                for key in input.vals.iter() {
                    while let Some(p) = receive_on(links, key) {
                        stats.frees = stats.frees.saturating_add(1);
                        stats.freebytes = stats.freebytes.saturating_add(p.data.len() as u64);
                        stats.freebits = stats.freebits.saturating_add(8 * p.data.len() as u64);
                    }
                }
            }
            _ => {
                // Forward everything from the inputs to the first output.
                let out = output.vals.first().cloned();
                for key in input.vals.iter() {
                    while let Some(p) = receive_on(links, key) {
                        if let Some(ref ok) = out {
                            let _ = transmit_on(links, ok, p);
                        }
                    }
                }
            }
        }
    }
}

fn comma_value(n: u64) -> String {
    let s = n.to_string();
    let mut out = String::new();
    for (i, ch) in s.chars().enumerate() {
        if i > 0 && (s.len() - i) % 3 == 0 {
            out.push(',');
        }
        out.push(ch);
    }
    out
}

fn print_reports(engine: &mut Engine<TestApp, TestConf>, load: bool, links: bool) {
    if load {
        if let Some(r) = engine.report_load() {
            let secs = r.interval_micros as f64 / 1e6;
            let fps = if secs > 0.0 { r.newfrees as f64 / secs } else { 0.0 };
            let fbps = if secs > 0.0 { r.newfreebits as f64 / secs } else { 0.0 };
            println!(
                "load: time: {:.2} fps: {} fpGbps: {:.3} fpb: {} bpp: {} sleep: {}",
                secs,
                comma_value(fps as u64),
                fbps / 1e9,
                comma_value(r.fpb),
                comma_value(r.bpp),
                r.sleep
            );
        }
    }
    if links {
        println!("Link report:");
        for (name, tx, loss) in engine.report_links() {
            println!("  {} sent on {} (loss rate: {}%)", comma_value(tx), name, loss);
        }
    }
}

/// Run the breathe loop as the host would: one unconditional breath, then
/// breathe until the duration passes, ignoring the requested sleeps (tests
/// spin instead of sleeping).
fn run_for(engine: &mut Engine<TestApp, TestConf>, duration_micros: u64) {
    let done = engine.timeout(duration_micros);
    engine.breathe();
    while !done.check() {
        let _zzz = engine.pace_breathing();
        engine.breathe();
    }
}

#[test]
fn engine() {
    let mut c: Config<TestConf> = Config::new();
    c.add_app("source", TestConf::Source { size: 60 });
    c.add_app("sink", TestConf::Sink);
    c.add_link("source.output -> sink.input");
    let mut engine: Engine<TestApp, TestConf> = Engine::new();
    assert!(engine.configure(&c));
    println!("Configured the app network: source(60).output -> sink.input");
    run_for(&mut engine, 0);
    print_reports(&mut engine, true, true);
    let mut c = c.clone();
    c.add_app("source", TestConf::Source { size: 120 });
    assert!(engine.configure(&c));
    println!("Cloned, mutated, and applied new configuration:");
    println!("source(120).output -> sink.input");
    engine.breathe();
    print_reports(&mut engine, true, true);
    let stats = engine.stats();
    println!(
        "engine: frees={} freebytes={} freebits={}",
        stats.frees, stats.freebytes, stats.freebits
    );
}

fn order_config(case: u32) -> Config<TestConf> {
    let mut c: Config<TestConf> = Config::new();
    c.add_app("a_io1", TestConf::PseudoIo);
    c.add_app("b_t1", TestConf::Tee);
    c.add_app("c_t2", TestConf::Tee);
    if case != 3 {
        c.add_app("d_t3", TestConf::Tee);
    }
    match case {
        1 => {
            c.add_link("a_io1.output -> b_t1.input");
            c.add_link("b_t1.output -> c_t2.input");
            c.add_link("b_t1.output2 -> d_t3.input");
            c.add_link("d_t3.output -> b_t1.input2");
        }
        2 => {
            c.add_link("a_io1.output -> b_t1.input");
            c.add_link("b_t1.output -> c_t2.input");
            c.add_link("b_t1.output2 -> d_t3.input");
            c.add_link("c_t2.output -> d_t3.input2");
        }
        _ => {
            c.add_link("a_io1.output -> b_t1.input");
            c.add_link("a_io1.output2 -> c_t2.input");
            c.add_link("b_t1.output -> a_io1.input");
            c.add_link("b_t1.output2 -> c_t2.input2");
            c.add_link("c_t2.output -> a_io1.input2");
        }
    }
    c
}

#[test]
fn breathe_order() {
    println!("Case 1:");
    let mut engine: Engine<TestApp, TestConf> = Engine::new();
    assert!(engine.configure(&order_config(1)));
    print_reports(&mut engine, false, true);
    for name in &engine.state().inhale {
        println!("pull {}", &name);
    }
    for name in &engine.state().exhale {
        println!("push {}", &name);
    }
    println!("Case 2:");
    let mut engine: Engine<TestApp, TestConf> = Engine::new();
    assert!(engine.configure(&order_config(2)));
    print_reports(&mut engine, false, true);
    for name in &engine.state().inhale {
        println!("pull {}", &name);
    }
    for name in &engine.state().exhale {
        println!("push {}", &name);
    }
    println!("Case 3:");
    let mut engine: Engine<TestApp, TestConf> = Engine::new();
    assert!(engine.configure(&order_config(3)));
    print_reports(&mut engine, false, true);
    for name in &engine.state().inhale {
        println!("pull {}", &name);
    }
    for name in &engine.state().exhale {
        println!("push {}", &name);
    }
}

#[test]
fn linear_chain_order() {
    // A pull+push app feeding a chain with a back-edge: the planner tolerates
    // the cycle and schedules each pushing app exactly once.
    let mut engine: Engine<TestApp, TestConf> = Engine::new();
    assert!(engine.configure(&order_config(1)));
    assert_eq!(engine.state().inhale, vec!["a_io1".to_string()]);
    let exhale = &engine.state().exhale;
    let pos =
        |n: &str| exhale.iter().position(|x| x == n).unwrap_or_else(|| panic!("missing {}", n));
    assert!(pos("b_t1") < pos("c_t2"));
    assert!(pos("b_t1") < pos("d_t3"));
    for n in ["b_t1", "c_t2", "d_t3"] {
        assert_eq!(exhale.iter().filter(|x| x.as_str() == n).count(), 1);
    }
}

#[test]
fn diamond_order() {
    let mut engine: Engine<TestApp, TestConf> = Engine::new();
    assert!(engine.configure(&order_config(2)));
    assert_eq!(engine.state().inhale, vec!["a_io1".to_string()]);
    assert_eq!(
        engine.state().exhale,
        vec!["b_t1".to_string(), "c_t2".to_string(), "d_t3".to_string()]
    );
}

#[test]
fn all_cycle_order() {
    let mut engine: Engine<TestApp, TestConf> = Engine::new();
    assert!(engine.configure(&order_config(3)));
    assert_eq!(engine.state().inhale, vec!["a_io1".to_string()]);
    let exhale = &engine.state().exhale;
    for n in ["b_t1", "c_t2"] {
        assert_eq!(exhale.iter().filter(|x| x.as_str() == n).count(), 1);
    }
    // Each app appears at most once across inhale and exhale: the pull+push
    // app a_io1 inhales and is not re-emitted into exhale by the back-edges.
    assert!(!exhale.iter().any(|x| x.as_str() == "a_io1"));
}

#[test]
fn planner_deterministic() {
    let mut e1: Engine<TestApp, TestConf> = Engine::new();
    let mut e2: Engine<TestApp, TestConf> = Engine::new();
    let c = order_config(1);
    assert!(e1.configure(&c));
    assert!(e2.configure(&c));
    assert_eq!(e1.state().inhale, e2.state().inhale);
    assert_eq!(e1.state().exhale, e2.state().exhale);
    // Recomputing over the same registries changes nothing either.
    let inhale = e1.state().inhale.clone();
    let exhale = e1.state().exhale.clone();
    e1.state.compute_breathe_order();
    assert_eq!(e1.state().inhale, inhale);
    assert_eq!(e1.state().exhale, exhale);
}

#[test]
fn configure_is_idempotent() {
    let mut engine: Engine<TestApp, TestConf> = Engine::new();
    let c = order_config(1);
    assert!(engine.configure(&c));
    engine.breathe();
    let apps = engine.state().app_table.keys.clone();
    let links = engine.state().link_table.keys.clone();
    let tx: Vec<u64> = engine.state().link_table.vals.iter().map(|l| l.txpackets).collect();
    let inhale = engine.state().inhale.clone();
    let exhale = engine.state().exhale.clone();
    assert!(engine.configure(&c));
    assert_eq!(engine.state().app_table.keys, apps);
    assert_eq!(engine.state().link_table.keys, links);
    let tx2: Vec<u64> = engine.state().link_table.vals.iter().map(|l| l.txpackets).collect();
    assert_eq!(tx2, tx);
    assert_eq!(engine.state().inhale, inhale);
    assert_eq!(engine.state().exhale, exhale);
}

#[test]
fn disjoint_reconfigure() {
    let mut engine: Engine<TestApp, TestConf> = Engine::new();
    let mut c1: Config<TestConf> = Config::new();
    c1.add_app("alpha", TestConf::Source { size: 60 });
    c1.add_app("beta", TestConf::Sink);
    c1.add_link("alpha.output -> beta.input");
    assert!(engine.configure(&c1));
    let mut c2: Config<TestConf> = Config::new();
    c2.add_app("gamma", TestConf::Source { size: 60 });
    c2.add_app("delta", TestConf::Sink);
    c2.add_link("gamma.output -> delta.input");
    assert!(engine.configure(&c2));
    let mut names: Vec<String> = engine.state().app_table.keys.clone();
    names.sort();
    assert_eq!(names, vec!["delta".to_string(), "gamma".to_string()]);
}

#[test]
fn reconfigure_mid_flight() {
    // Changing the source size restarts the source, keeps the sink, and
    // keeps the link with its counters.
    let mut engine: Engine<TestApp, TestConf> = Engine::new();
    let mut c: Config<TestConf> = Config::new();
    c.add_app("source", TestConf::Source { size: 60 });
    c.add_app("sink", TestConf::Sink);
    c.add_link("source.output -> sink.input");
    assert!(engine.configure(&c));
    engine.breathe();
    let tx_before = engine.state().link_table.vals[0].txpackets;
    assert!(tx_before > 0);
    let frees_before = engine.stats().frees;
    assert!(frees_before > 0);
    let mut c2 = c.clone();
    c2.add_app("source", TestConf::Source { size: 120 });
    assert!(engine.configure(&c2));
    // Link and its counters persist across the reconfigure.
    assert_eq!(engine.state().link_table.keys, vec!["source.output -> sink.input".to_string()]);
    assert_eq!(engine.state().link_table.vals[0].txpackets, tx_before);
    let mut names: Vec<String> = engine.state().app_table.keys.clone();
    names.sort();
    assert_eq!(names, vec!["sink".to_string(), "source".to_string()]);
    engine.breathe();
    assert!(engine.stats().frees > frees_before);
}

#[test]
fn source_sink_smoke() {
    let mut engine: Engine<TestApp, TestConf> = Engine::new();
    let mut c: Config<TestConf> = Config::new();
    c.add_app("source", TestConf::Source { size: 60 });
    c.add_app("sink", TestConf::Sink);
    c.add_link("source.output -> sink.input");
    assert!(engine.configure(&c));
    run_for(&mut engine, 0);
    assert!(engine.stats().breaths >= 1);
    let report = engine.report_links();
    assert_eq!(report.len(), 1);
    assert_eq!(report[0].0, "source.output -> sink.input");
}

#[test]
fn bindings_after_configure() {
    // Every configured link is bound at both endpoints' slots, to its own
    // key, and there are no other bindings.
    let mut engine: Engine<TestApp, TestConf> = Engine::new();
    assert!(engine.configure(&order_config(2)));
    let state = engine.state();
    for (i, name) in state.app_table.keys.iter().enumerate() {
        let st = &state.app_table.vals[i];
        for (si, slot) in st.output.keys.iter().enumerate() {
            let key = &st.output.vals[si];
            assert!(state.link_table.keys.contains(key));
            assert!(key.starts_with(&format!("{}.{}", name, slot)));
        }
        for (si, slot) in st.input.keys.iter().enumerate() {
            let key = &st.input.vals[si];
            assert!(state.link_table.keys.contains(key));
            assert!(key.ends_with(&format!("{}.{}", name, slot)));
        }
    }
    // Each link bound on both sides: 4 links, so 4 output and 4 input
    // bindings in total.
    let nout: usize = state.app_table.vals.iter().map(|a| a.output.keys.len()).sum();
    let nin: usize = state.app_table.vals.iter().map(|a| a.input.keys.len()).sum();
    assert_eq!(nout, 4);
    assert_eq!(nin, 4);
}

#[test]
fn invalid_configurations_rejected() {
    let mut engine: Engine<TestApp, TestConf> = Engine::new();
    // Malformed link spec.
    let mut c: Config<TestConf> = Config::new();
    c.add_app("a", TestConf::Sink);
    c.add_link("nonsense");
    assert!(!engine.configure(&c));
    // Unknown endpoint.
    let mut c: Config<TestConf> = Config::new();
    c.add_app("a", TestConf::Source { size: 60 });
    c.add_link("a.output -> ghost.input");
    assert!(!engine.configure(&c));
    // Duplicate output slot.
    let mut c: Config<TestConf> = Config::new();
    c.add_app("a", TestConf::Source { size: 60 });
    c.add_app("b", TestConf::Sink);
    c.add_app("d", TestConf::Sink);
    c.add_link("a.output -> b.input");
    c.add_link("a.output -> d.input");
    assert!(!engine.configure(&c));
    // The failed configure left the engine untouched.
    assert_eq!(engine.state().app_table.keys.len(), 0);
    // An empty configuration is fine (an empty network).
    let c: Config<TestConf> = Config::new();
    assert!(engine.configure(&c));
    engine.breathe();
    assert_eq!(engine.stats().breaths, 1);
}

#[test]
fn idle_backoff() {
    // Empty network: the sleep level ramps to MAXSLEEP one microsecond per
    // idle breath, and a breath that frees a packet halves it.
    let mut engine: Engine<TestApp, TestConf> = Engine::new();
    let c: Config<TestConf> = Config::new();
    assert!(engine.configure(&c));
    engine.breathe();
    for i in 1..=MAXSLEEP {
        let zzz = engine.pace_breathing();
        assert_eq!(zzz, Some(i));
        assert_eq!(engine.sleep, i);
        engine.breathe();
    }
    for _ in 0..20 {
        let zzz = engine.pace_breathing();
        assert_eq!(zzz, Some(MAXSLEEP));
        engine.breathe();
    }
    assert_eq!(engine.sleep, MAXSLEEP);
    engine.add_frees();
    assert_eq!(engine.pace_breathing(), None);
    assert_eq!(engine.sleep, MAXSLEEP / 2);
    engine.add_frees();
    assert_eq!(engine.pace_breathing(), None);
    assert_eq!(engine.sleep, MAXSLEEP / 4);
}

#[test]
fn inhale_sorted() {
    let mut engine: Engine<TestApp, TestConf> = Engine::new();
    let mut c: Config<TestConf> = Config::new();
    c.add_app("zeta", TestConf::Source { size: 60 });
    c.add_app("alpha", TestConf::Source { size: 60 });
    c.add_app("mid", TestConf::PseudoIo);
    c.add_app("sink", TestConf::Sink);
    assert!(engine.configure(&c));
    assert_eq!(
        engine.state().inhale,
        vec!["alpha".to_string(), "mid".to_string(), "zeta".to_string()]
    );
    assert!(engine.state().exhale.is_empty());
}
