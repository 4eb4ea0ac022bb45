//! The engine: global statistics, the live app network, the latched per-breath
//! clock, the breathe dispatch, and the adaptive idle backoff.

use vstd::prelude::*;
use crate::apps::App;
use crate::apps::AppConfig;
use crate::clock::copy_instant;
use crate::clock::instant_now;
use crate::clock::micros_since;
use crate::clock::Throttle;
use crate::clock::Timeout;
use crate::names::le_fn;
use crate::names::sorted_insert;
use crate::names::views;
use crate::state::EngineState;
use crate::stats::counter_add;
use crate::stats::sat_add;
use crate::stats::spec_loss_rate;
use crate::stats::loss_rate;
use crate::stats::EngineStats;
use vstd::relations::sorted_by;

verus! {

/// Upper bound, in microseconds, for the sleep between breaths.
pub const MAXSLEEP: u64 = 100;

/// The engine: statistics, the app network, and breathing state. One engine
/// exists per process; the host passes it around explicitly.
pub struct Engine<A, C> {
    pub stats: EngineStats,
    pub state: EngineState<A, C>,
    /// The anchor all microsecond readings are measured from.
    pub anchor: std::time::Instant,
    /// The latched per-breath time, so every app in one breath sees the same
    /// `now`.
    pub monotonic_now: Option<u64>,
    pub lastfrees: u64,
    pub sleep: u64,
    pub lastloadreport: Option<u64>,
    pub reportedfrees: u64,
    pub reportedfreebits: u64,
    pub reportedfreebytes: u64,
    pub reportedbreaths: u64,
}

/// Options for running the breathe loop: an optional duration (the loop stops
/// once it has passed), and which end-of-run reports to emit. A caller that
/// wants a custom stop predicate polls it between breaths itself; a duration
/// and such a predicate are mutually exclusive.
pub struct Options {
    pub duration_micros: Option<u64>,
    pub no_report: bool,
    pub report_load: bool,
    pub report_links: bool,
    pub report_apps: bool,
}

impl Options {
    pub fn new() -> (r: Options)
        ensures
            r.duration_micros is None,
            !r.no_report,
            !r.report_load,
            !r.report_links,
            !r.report_apps,
    {
        Options {
            duration_micros: None,
            no_report: false,
            report_load: false,
            report_links: false,
            report_apps: false,
        }
    }
}

/// Deltas of the engine counters over one load-report interval.
pub struct LoadReport {
    pub interval_micros: u64,
    pub newfrees: u64,
    pub newfreebits: u64,
    pub newfreebytes: u64,
    pub newbreaths: u64,
    /// Frees per breath over the interval.
    pub fpb: u64,
    /// Bytes per packet over the interval.
    pub bpp: u64,
    pub sleep: u64,
}

/// Saturating subtraction, for counter deltas.
pub open spec fn sat_sub(a: u64, b: u64) -> u64 {
    if a >= b {
        (a - b) as u64
    } else {
        0u64
    }
}

fn counter_sub(a: u64, b: u64) -> (r: u64)
    ensures
        r == sat_sub(a, b),
{
    if a >= b {
        a - b
    } else {
        0
    }
}

impl<A: App, C: AppConfig<A>> Engine<A, C> {
    /// The engine invariant: the network is structurally sound, every link is
    /// bound at both ends with no orphan bindings, the breathe order names
    /// present apps, and the sleep level respects its bound.
    pub open spec fn wf(&self) -> bool {
        &&& self.state.wf()
        &&& self.state.bindings_consistent()
        &&& self.state.fully_linked()
        &&& self.state.order_wf()
        &&& self.sleep <= MAXSLEEP
    }

    pub fn new() -> (r: Engine<A, C>)
        ensures
            r.wf(),
            r.stats.breaths == 0 && r.stats.frees == 0 && r.stats.freebits == 0
                && r.stats.freebytes == 0,
            r.state.app_table.spec_len() == 0,
            r.state.link_table.spec_len() == 0,
            r.state.inhale@.len() == 0,
            r.state.exhale@.len() == 0,
            r.monotonic_now is None,
            r.lastfrees == 0,
            r.sleep == 0,
            r.lastloadreport is None,
            r.reportedfrees == 0 && r.reportedfreebits == 0 && r.reportedfreebytes == 0
                && r.reportedbreaths == 0,
    {
        Engine {
            stats: EngineStats::new(),
            state: EngineState::new(),
            anchor: instant_now(),
            monotonic_now: None,
            lastfrees: 0,
            sleep: 0,
            lastloadreport: None,
            reportedfrees: 0,
            reportedfreebits: 0,
            reportedfreebytes: 0,
            reportedbreaths: 0,
        }
    }

    /// The engine's monotonic time in microseconds: the latched per-breath
    /// value while a breath is in progress, a fresh clock reading otherwise.
    pub fn now(&self) -> (r: u64)
        ensures
            self.monotonic_now is Some ==> r == self.monotonic_now->0,
    {
        match self.monotonic_now {
            Some(t) => t,
            None => micros_since(&self.anchor, &instant_now()),
        }
    }

    /// A one-shot timer that fires once the monotonic clock passes now plus
    /// `duration_micros`.
    pub fn timeout(&self, duration_micros: u64) -> (r: Timeout)
        ensures
            r.anchor == self.anchor,
            self.monotonic_now is Some ==> r.deadline_micros == sat_add(
                self.monotonic_now->0,
                duration_micros,
            ),
    {
        let deadline: u64 = counter_add(self.now(), duration_micros);
        Timeout { anchor: copy_instant(&self.anchor), deadline_micros: deadline }
    }

    /// A throttle that fires at most once per `duration_micros`.
    pub fn throttle(&self, duration_micros: u64) -> (r: Throttle)
        ensures
            r.anchor == self.anchor,
            r.interval_micros == duration_micros,
            self.monotonic_now is Some ==> r.deadline_micros == self.monotonic_now->0,
    {
        Throttle {
            anchor: copy_instant(&self.anchor),
            deadline_micros: self.now(),
            interval_micros: duration_micros,
        }
    }

    pub fn add_frees(&mut self)
        ensures
            final(self).stats.frees == sat_add(old(self).stats.frees, 1),
            final(self).stats == (EngineStats { frees: final(self).stats.frees, ..old(self).stats }),
            final(self).state == old(self).state,
            unchanged_pace(old(self), final(self)),
    {
        self.stats.frees = counter_add(self.stats.frees, 1);
    }

    pub fn add_freebytes(&mut self, bytes: u64)
        ensures
            final(self).stats.freebytes == sat_add(old(self).stats.freebytes, bytes),
            final(self).stats == (EngineStats {
                freebytes: final(self).stats.freebytes,
                ..old(self).stats
            }),
            final(self).state == old(self).state,
            unchanged_pace(old(self), final(self)),
    {
        self.stats.freebytes = counter_add(self.stats.freebytes, bytes);
    }

    pub fn add_freebits(&mut self, bits: u64)
        ensures
            final(self).stats.freebits == sat_add(old(self).stats.freebits, bits),
            final(self).stats == (EngineStats {
                freebits: final(self).stats.freebits,
                ..old(self).stats
            }),
            final(self).state == old(self).state,
            unchanged_pace(old(self), final(self)),
    {
        self.stats.freebits = counter_add(self.stats.freebits, bits);
    }

    /// Clear the latched per-breath clock, so subsequent `now` calls return
    /// true monotonic time. The host calls this when the breathe loop exits.
    pub fn clear_now(&mut self)
        ensures
            final(self).monotonic_now is None,
            final(self).stats == old(self).stats,
            final(self).state == old(self).state,
            final(self).sleep == old(self).sleep,
            final(self).lastfrees == old(self).lastfrees,
    {
        self.monotonic_now = None;
    }

    pub fn stats(&self) -> (r: &EngineStats)
        ensures
            *r == self.stats,
    {
        &self.stats
    }

    pub fn state(&self) -> (r: &EngineState<A, C>)
        ensures
            *r == self.state,
    {
        &self.state
    }

    /// One breath: latch the per-breath clock, run every inhaler's pull hook
    /// in order, then every exhaler's push hook in order, and count the
    /// breath. The network's shape (apps, link keys, breathe order) is
    /// untouched; only link contents, link counters and the free counters
    /// move.
    pub fn breathe(&mut self)
        requires
            old(self).wf(),
        ensures
            final(self).wf(),
            final(self).state.app_table == old(self).state.app_table,
            final(self).state.link_table.keys@ == old(self).state.link_table.keys@,
            final(self).state.inhale@ == old(self).state.inhale@,
            final(self).state.exhale@ == old(self).state.exhale@,
            final(self).stats.breaths == sat_add(old(self).stats.breaths, 1),
            final(self).monotonic_now is Some,
            final(self).sleep == old(self).sleep,
            final(self).lastfrees == old(self).lastfrees,
    {
        let t: u64 = micros_since(&self.anchor, &instant_now());
        self.monotonic_now = Some(t);
        let ghost t0 = self.state.app_table;
        let ghost keys0 = self.state.link_table.keys@;
        let n: usize = self.state.inhale.len();
        let mut i: usize = 0;
        while i < n
            invariant
                i <= n,
                n == self.state.inhale@.len(),
                old(self).wf(),
                self.wf(),
                t0 == old(self).state.app_table,
                keys0 == old(self).state.link_table.keys@,
                self.state.app_table == t0,
                self.state.link_table.keys@ == keys0,
                self.state.inhale@ == old(self).state.inhale@,
                self.state.exhale@ == old(self).state.exhale@,
                self.stats.breaths == old(self).stats.breaths,
                self.monotonic_now is Some,
                self.sleep == old(self).sleep,
                self.lastfrees == old(self).lastfrees,
                self.anchor == old(self).anchor,
            decreases n - i,
        {
            let name = self.state.inhale[i].clone();
            proof {
                assert(views(self.state.inhale@)[i as int] == self.state.inhale@[i as int]@);
            }
            match self.state.app_table.index_of(&name) {
                Some(ai) => {
                    if self.state.app_table.vals[ai].caps.pull {
                        let st = &self.state.app_table.vals[ai];
                        st.app.pull(&st.input, &st.output, &mut self.state.link_table, &mut self.stats);
                        proof {
                            lemma_keys_preserved(old(self).state, self.state);
                        }
                    }
                },
                None => {},
            }
            i = i + 1;
        }
        let m: usize = self.state.exhale.len();
        let mut j: usize = 0;
        while j < m
            invariant
                j <= m,
                m == self.state.exhale@.len(),
                old(self).wf(),
                self.wf(),
                t0 == old(self).state.app_table,
                keys0 == old(self).state.link_table.keys@,
                self.state.app_table == t0,
                self.state.link_table.keys@ == keys0,
                self.state.inhale@ == old(self).state.inhale@,
                self.state.exhale@ == old(self).state.exhale@,
                self.stats.breaths == old(self).stats.breaths,
                self.monotonic_now is Some,
                self.sleep == old(self).sleep,
                self.lastfrees == old(self).lastfrees,
                self.anchor == old(self).anchor,
            decreases m - j,
        {
            let name = self.state.exhale[j].clone();
            proof {
                assert(views(self.state.exhale@)[j as int] == self.state.exhale@[j as int]@);
            }
            match self.state.app_table.index_of(&name) {
                Some(ai) => {
                    if self.state.app_table.vals[ai].caps.push {
                        let st = &self.state.app_table.vals[ai];
                        st.app.push(&st.input, &st.output, &mut self.state.link_table, &mut self.stats);
                        proof {
                            lemma_keys_preserved(old(self).state, self.state);
                        }
                    }
                },
                None => {},
            }
            j = j + 1;
        }
        self.stats.breaths = counter_add(self.stats.breaths, 1);
    }

    /// Adaptive idle backoff. When the previous breath freed no packet, the
    /// sleep level rises by one microsecond up to MAXSLEEP and the caller is
    /// asked to sleep that long; when packets were freed, the level halves
    /// and no sleep is requested.
    pub fn pace_breathing(&mut self) -> (zzz: Option<u64>)
        requires
            old(self).sleep <= MAXSLEEP,
        ensures
            final(self).sleep <= MAXSLEEP,
            old(self).lastfrees == old(self).stats.frees ==> ({
                &&& final(self).sleep == if old(self).sleep + 1 <= MAXSLEEP {
                    old(self).sleep + 1
                } else {
                    MAXSLEEP as int
                }
                &&& zzz == Some(final(self).sleep)
            }),
            old(self).lastfrees != old(self).stats.frees ==> final(self).sleep == old(self).sleep
                / 2 && zzz is None,
            final(self).lastfrees == old(self).stats.frees,
            final(self).stats == old(self).stats,
            final(self).state == old(self).state,
            final(self).monotonic_now == old(self).monotonic_now,
    {
        let zzz: Option<u64>;
        if self.lastfrees == self.stats.frees {
            self.sleep = if self.sleep + 1 <= MAXSLEEP {
                self.sleep + 1
            } else {
                MAXSLEEP
            };
            zzz = Some(self.sleep);
        } else {
            self.sleep = self.sleep / 2;
            zzz = None;
        }
        self.lastfrees = self.stats.frees;
        zzz
    }

    /// Record a load-report interval: returns the counter deltas since the
    /// previous load report, or `None` for the very first report, and records
    /// the current counters for the next interval.
    pub fn report_load(&mut self) -> (r: Option<LoadReport>)
        ensures
            final(self).reportedfrees == old(self).stats.frees,
            final(self).reportedfreebits == old(self).stats.freebits,
            final(self).reportedfreebytes == old(self).stats.freebytes,
            final(self).reportedbreaths == old(self).stats.breaths,
            final(self).lastloadreport is Some,
            final(self).stats == old(self).stats,
            final(self).state == old(self).state,
            final(self).sleep == old(self).sleep,
            old(self).lastloadreport is None ==> r is None,
            old(self).lastloadreport is Some ==> r == Some((LoadReport {
                interval_micros: sat_sub(final(self).lastloadreport->0, old(self).lastloadreport->0),
                newfrees: sat_sub(old(self).stats.frees, old(self).reportedfrees),
                newfreebits: sat_sub(old(self).stats.freebits, old(self).reportedfreebits),
                newfreebytes: sat_sub(old(self).stats.freebytes, old(self).reportedfreebytes),
                newbreaths: sat_sub(old(self).stats.breaths, old(self).reportedbreaths),
                fpb: spec_fpb(old(self)),
                bpp: spec_bpp(old(self)),
                sleep: old(self).sleep,
            })),
    {
        let now: u64 = self.now();
        let r: Option<LoadReport> = match self.lastloadreport {
            Some(prev) => {
                let newfrees: u64 = counter_sub(self.stats.frees, self.reportedfrees);
                let newfreebits: u64 = counter_sub(self.stats.freebits, self.reportedfreebits);
                let newfreebytes: u64 = counter_sub(self.stats.freebytes, self.reportedfreebytes);
                let newbreaths: u64 = counter_sub(self.stats.breaths, self.reportedbreaths);
                Some(
                    LoadReport {
                        interval_micros: counter_sub(now, prev),
                        newfrees,
                        newfreebits,
                        newfreebytes,
                        newbreaths,
                        fpb: if newbreaths > 0 {
                            newfrees / newbreaths
                        } else {
                            0
                        },
                        bpp: if newfrees > 0 {
                            newfreebytes / newfrees
                        } else {
                            0
                        },
                        sleep: self.sleep,
                    },
                )
            },
            None => None,
        };
        self.lastloadreport = Some(now);
        self.reportedfrees = self.stats.frees;
        self.reportedfreebits = self.stats.freebits;
        self.reportedfreebytes = self.stats.freebytes;
        self.reportedbreaths = self.stats.breaths;
        r
    }

    /// The link report: every link in name-sorted order, with its transmit
    /// count and its loss rate.
    pub fn report_links(&self) -> (r: Vec<(String, u64, u64)>)
        requires
            self.wf(),
        ensures
            r@.len() == self.state.link_table.spec_len(),
            forall|i: int|
                0 <= i < r@.len() ==> ({
                    let (name, tx, loss) = #[trigger] r@[i];
                    &&& self.state.link_table.has_key(name@)
                    &&& tx == self.state.link_table.spec_get(name@).txpackets
                    &&& loss == spec_loss_rate(
                        self.state.link_table.spec_get(name@).txdrop,
                        self.state.link_table.spec_get(name@).txpackets,
                    )
                }),
            sorted_by(views(spec_firsts(r@)), le_fn()),
            views(spec_firsts(r@)).to_multiset() == self.state.link_table.keys_view().to_multiset(),
            views(spec_firsts(r@)).no_duplicates(),
    {
        let mut names: Vec<String> = Vec::new();
        let nl: usize = self.state.link_table.len();
        proof {
            assert(views(names@).to_multiset() =~= self.state.link_table.keys_view().take(
                0,
            ).to_multiset()) by {
                assert(views(names@) =~= self.state.link_table.keys_view().take(0));
            }
        }
        let mut i: usize = 0;
        while i < nl
            invariant
                i <= nl,
                nl == self.state.link_table.spec_len(),
                self.wf(),
                names@.len() == i,
                sorted_by(views(names@), le_fn()),
                views(names@).to_multiset() == self.state.link_table.keys_view().take(
                    i as int,
                ).to_multiset(),
                forall|j: int|
                    0 <= j < names@.len() ==> self.state.link_table.has_key(
                        #[trigger] views(names@)[j],
                    ),
            decreases nl - i,
        {
            let name = self.state.link_table.keys[i].clone();
            proof {
                assert(self.state.link_table.keys_view()[i as int] == name@);
                crate::table::lemma_table_index_facts(self.state.link_table);
                let kv = self.state.link_table.keys_view();
                assert(kv.take(i + 1) =~= kv.take(i as int).push(kv[i as int]));
                kv.take(i as int).to_multiset_ensures();
            }
            let ghost before = names@;
            sorted_insert(&mut names, name);
            proof {
                assert forall|j: int| 0 <= j < names@.len() implies self.state.link_table.has_key(
                    #[trigger] views(names@)[j],
                ) by {
                    assert(views(names@).contains(views(names@)[j]));
                    views(names@).to_multiset_ensures();
                    views(before).to_multiset_ensures();
                    if views(names@)[j] != self.state.link_table.keys_view()[i as int] {
                        assert(views(before).contains(views(names@)[j]));
                    }
                }
            }
            i = i + 1;
        }
        proof {
            let kv = self.state.link_table.keys_view();
            assert(kv.take(nl as int) =~= kv);
            assert(kv.no_duplicates());
            kv.lemma_multiset_has_no_duplicates();
            views(names@).to_multiset_ensures();
            kv.to_multiset_ensures();
            views(names@).lemma_multiset_has_no_duplicates_conv();
        }
        let mut out: Vec<(String, u64, u64)> = Vec::new();
        let mut j: usize = 0;
        while j < names.len()
            invariant
                j <= names@.len(),
                names@.len() == nl,
                nl == self.state.link_table.spec_len(),
                self.wf(),
                sorted_by(views(names@), le_fn()),
                forall|m: int|
                    0 <= m < names@.len() ==> self.state.link_table.has_key(
                        #[trigger] views(names@)[m],
                    ),
                out@.len() == j,
                forall|m: int|
                    0 <= m < out@.len() ==> ({
                        let (name, tx, loss) = #[trigger] out@[m];
                        &&& name == names@[m]
                        &&& self.state.link_table.has_key(name@)
                        &&& tx == self.state.link_table.spec_get(name@).txpackets
                        &&& loss == spec_loss_rate(
                            self.state.link_table.spec_get(name@).txdrop,
                            self.state.link_table.spec_get(name@).txpackets,
                        )
                    }),
            decreases names@.len() - j,
        {
            proof {
                assert(views(names@)[j as int] == names@[j as int]@);
            }
            match self.state.link_table.get(&names[j]) {
                Some(l) => {
                    let tx: u64 = l.txpackets;
                    let loss: u64 = loss_rate(l.txdrop, l.txpackets);
                    out.push((names[j].clone(), tx, loss));
                },
                None => {},
            }
            j = j + 1;
        }
        proof {
            assert(views(spec_firsts(out@)) =~= views(names@));
        }
        out
    }

    /// The app report: for every app, its name, how many input and output
    /// links it has, and whether it offers a custom report.
    pub fn report_apps(&self) -> (r: Vec<(String, usize, usize, bool)>)
        requires
            self.wf(),
        ensures
            r@.len() == self.state.app_table.spec_len(),
            forall|i: int|
                0 <= i < r@.len() ==> ({
                    let (name, nin, nout, rep) = #[trigger] r@[i];
                    &&& name@ == self.state.app_table.keys_view()[i]
                    &&& nin == self.state.app_table.vals@[i].input.spec_len()
                    &&& nout == self.state.app_table.vals@[i].output.spec_len()
                    &&& rep == self.state.app_table.vals@[i].caps.report
                }),
    {
        let mut out: Vec<(String, usize, usize, bool)> = Vec::new();
        let na: usize = self.state.app_table.len();
        let mut i: usize = 0;
        while i < na
            invariant
                i <= na,
                na == self.state.app_table.spec_len(),
                self.wf(),
                out@.len() == i,
                forall|m: int|
                    0 <= m < out@.len() ==> ({
                        let (name, nin, nout, rep) = #[trigger] out@[m];
                        &&& name@ == self.state.app_table.keys_view()[m]
                        &&& nin == self.state.app_table.vals@[m].input.spec_len()
                        &&& nout == self.state.app_table.vals@[m].output.spec_len()
                        &&& rep == self.state.app_table.vals@[m].caps.report
                    }),
            decreases na - i,
        {
            let name = self.state.app_table.keys[i].clone();
            let nin: usize = self.state.app_table.vals[i].input.len();
            let nout: usize = self.state.app_table.vals[i].output.len();
            let rep: bool = self.state.app_table.vals[i].caps.report;
            out.push((name, nin, nout, rep));
            i = i + 1;
        }
        out
    }
}

/// The frees-per-breath figure of the next load report.
pub open spec fn spec_fpb<A, C>(e: &Engine<A, C>) -> u64 {
    let newfrees = sat_sub(e.stats.frees, e.reportedfrees);
    let newbreaths = sat_sub(e.stats.breaths, e.reportedbreaths);
    if newbreaths > 0 {
        (newfrees as int / newbreaths as int) as u64
    } else {
        0u64
    }
}

/// The bytes-per-packet figure of the next load report.
pub open spec fn spec_bpp<A, C>(e: &Engine<A, C>) -> u64 {
    let newfrees = sat_sub(e.stats.frees, e.reportedfrees);
    let newbytes = sat_sub(e.stats.freebytes, e.reportedfreebytes);
    if newfrees > 0 {
        (newbytes as int / newfrees as int) as u64
    } else {
        0u64
    }
}

/// The first components of a report row sequence.
pub open spec fn spec_firsts(r: Seq<(String, u64, u64)>) -> Seq<String> {
    r.map_values(|x: (String, u64, u64)| x.0)
}

/// The pacing fields other than the counters do not move.
pub open spec fn unchanged_pace<A, C>(e0: &Engine<A, C>, e1: &Engine<A, C>) -> bool {
    &&& e1.monotonic_now == e0.monotonic_now
    &&& e1.lastfrees == e0.lastfrees
    &&& e1.sleep == e0.sleep
    &&& e1.lastloadreport == e0.lastloadreport
    &&& e1.reportedfrees == e0.reportedfrees
    &&& e1.reportedfreebits == e0.reportedfreebits
    &&& e1.reportedfreebytes == e0.reportedfreebytes
    &&& e1.reportedbreaths == e0.reportedbreaths
}

/// Breathing leaves the registries' keys in place: used to carry the binding
/// invariants across app callbacks, which may change link contents only.
proof fn lemma_keys_preserved<A, C>(s0: EngineState<A, C>, s1: EngineState<A, C>)
    requires
        s0.wf(),
        s1.app_table == s0.app_table,
        s1.link_table.keys@ == s0.link_table.keys@,
        s1.link_table.wf(),
        crate::link::links_wf(s1.link_table),
        s1.inhale@ == s0.inhale@,
        s1.exhale@ == s0.exhale@,
        s0.bindings_consistent(),
        s0.fully_linked(),
        s0.order_wf(),
    ensures
        s1.wf(),
        s1.bindings_consistent(),
        s1.fully_linked(),
        s1.order_wf(),
{
    crate::state::lemma_same_keys_index(s0.link_table, s1.link_table);
    assert(s1.link_table.keys_view() == s0.link_table.keys_view());
    assert forall|ai: int, si: int|
        0 <= ai < s1.app_table.vals@.len() && 0 <= si
            < s1.app_table.vals@[ai].output.vals@.len() implies crate::state::binding_ok(
        s1.link_table,
        s1.app_table.keys_view()[ai],
        s1.app_table.vals@[ai].output.keys_view()[si],
        (#[trigger] s1.app_table.vals@[ai].output.vals@[si])@,
        true,
    ) by {
        assert(crate::state::binding_ok(
            s0.link_table,
            s0.app_table.keys_view()[ai],
            s0.app_table.vals@[ai].output.keys_view()[si],
            s0.app_table.vals@[ai].output.vals@[si]@,
            true,
        ));
    }
    assert forall|ai: int, si: int|
        0 <= ai < s1.app_table.vals@.len() && 0 <= si
            < s1.app_table.vals@[ai].input.vals@.len() implies crate::state::binding_ok(
        s1.link_table,
        s1.app_table.keys_view()[ai],
        s1.app_table.vals@[ai].input.keys_view()[si],
        (#[trigger] s1.app_table.vals@[ai].input.vals@[si])@,
        false,
    ) by {
        assert(crate::state::binding_ok(
            s0.link_table,
            s0.app_table.keys_view()[ai],
            s0.app_table.vals@[ai].input.keys_view()[si],
            s0.app_table.vals@[ai].input.vals@[si]@,
            false,
        ));
    }
}

} // verus!
