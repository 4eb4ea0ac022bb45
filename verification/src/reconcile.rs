//! The reconciler: `configure` diffs a desired configuration against the live
//! network, drops dead links, stops removed or changed apps, starts new ones,
//! rebuilds the link bindings, and recomputes the breathe order. Invalid
//! configurations are rejected before any live state is touched.

use vstd::prelude::*;
use crate::apps::App;
use crate::apps::AppConfig;
use crate::apps::Config;
use crate::engine::Engine;
use crate::link::Link;
use crate::linkspec::parse_link;
use crate::linkspec::spec_parse;
use crate::linkspec::spec_well_formed;
use crate::names::contains_name;
use crate::names::views;
use crate::state::app_core_eq;
use crate::state::EngineState;

verus! {

/// A configuration the engine accepts: every link spec is well-formed, both
/// endpoint apps are declared, and no two links feed the same output slot or
/// the same input slot.
pub open spec fn cfg_valid<C>(c: &Config<C>) -> bool {
    &&& (forall|li: int|
        0 <= li < c.links@.len() ==> ({
            let k = #[trigger] c.links_view()[li];
            &&& spec_well_formed(k)
            &&& c.apps.has_key(spec_parse(k).0)
            &&& c.apps.has_key(spec_parse(k).2)
        }))
    &&& (forall|li: int, lj: int|
        #![trigger c.links_view()[li], c.links_view()[lj]]
        0 <= li < lj < c.links@.len() ==> ({
            let a = spec_parse(c.links_view()[li]);
            let b = spec_parse(c.links_view()[lj]);
            &&& !(a.0 == b.0 && a.1 == b.1)
            &&& !(a.2 == b.2 && a.3 == b.3)
        }))
}

/// An app of the old state that the new configuration keeps unchanged: same
/// name, same configuration identity.
pub open spec fn retained<A: App, C: AppConfig<A>>(
    s0: EngineState<A, C>,
    c: &Config<C>,
    n: Seq<char>,
) -> bool {
    &&& s0.app_table.has_key(n)
    &&& c.apps.has_key(n)
    &&& s0.app_table.spec_get(n).conf.id() == c.apps.spec_get(n).id()
}

/// A link that was just created: empty, with zeroed counters.
pub open spec fn fresh_link(l: Link) -> bool {
    l.packets@.len() == 0 && l.txpackets == 0 && l.txdrop == 0 && l.rxpackets == 0
}

/// What one successful `configure` guarantees about the new live state, in
/// terms of the old state and the configuration: the app set matches the
/// configuration with retained instances kept whole, and the link set matches
/// the configuration with counters of kept links preserved.
pub open spec fn reconciled<A: App, C: AppConfig<A>>(
    s0: EngineState<A, C>,
    c: &Config<C>,
    s1: EngineState<A, C>,
) -> bool {
    &&& (forall|n: Seq<char>| s1.app_table.has_key(n) <==> c.apps.has_key(n))
    &&& (forall|n: Seq<char>|
        c.apps.has_key(n) ==> (#[trigger] s1.app_table.spec_get(n)).conf.id()
            == c.apps.spec_get(n).id())
    &&& (forall|n: Seq<char>|
        retained(s0, c, n) ==> app_core_eq(
            #[trigger] s1.app_table.spec_get(n),
            s0.app_table.spec_get(n),
        ))
    &&& (forall|k: Seq<char>| s1.link_table.has_key(k) <==> c.links_view().contains(k))
    &&& (forall|k: Seq<char>|
        c.links_view().contains(k) && s0.link_table.has_key(k) ==> #[trigger] s1.link_table.spec_get(
            k,
        ) == s0.link_table.spec_get(k))
    &&& (forall|k: Seq<char>|
        c.links_view().contains(k) && !s0.link_table.has_key(k) ==> fresh_link(
            #[trigger] s1.link_table.spec_get(k),
        ))
}

/// Decide whether a configuration is acceptable.
fn validate_config<A: App, C: AppConfig<A>>(c: &Config<C>) -> (r: bool)
    requires
        c.wf(),
    ensures
        r == cfg_valid(c),
{
    let n: usize = c.links.len();
    let mut li: usize = 0;
    while li < n
        invariant
            li <= n,
            n == c.links@.len(),
            c.wf(),
            forall|j: int|
                0 <= j < li ==> ({
                    let k = #[trigger] c.links_view()[j];
                    &&& spec_well_formed(k)
                    &&& c.apps.has_key(spec_parse(k).0)
                    &&& c.apps.has_key(spec_parse(k).2)
                }),
            forall|i: int, j: int|
                #![trigger c.links_view()[i], c.links_view()[j]]
                0 <= i < j < li ==> ({
                    let a = spec_parse(c.links_view()[i]);
                    let b = spec_parse(c.links_view()[j]);
                    &&& !(a.0 == b.0 && a.1 == b.1)
                    &&& !(a.2 == b.2 && a.3 == b.3)
                }),
        decreases n - li,
    {
        proof {
            assert(c.links_view()[li as int] == c.links@[li as int]@);
        }
        match parse_link(c.links[li].as_str()) {
            None => {
                return false;
            },
            Some(ls) => {
                if !(c.apps.contains(&ls.from) && c.apps.contains(&ls.to)) {
                    return false;
                }
                let mut lj: usize = 0;
                while lj < li
                    invariant
                        lj <= li < n,
                        n == c.links@.len(),
                        c.wf(),
                        forall|j: int|
                            0 <= j < li ==> ({
                                let k = #[trigger] c.links_view()[j];
                                &&& spec_well_formed(k)
                                &&& c.apps.has_key(spec_parse(k).0)
                                &&& c.apps.has_key(spec_parse(k).2)
                            }),
                        ls.wf(),
                        ls.key() == c.links_view()[li as int],
                        ls.from@ == spec_parse(c.links_view()[li as int]).0,
                        ls.output@ == spec_parse(c.links_view()[li as int]).1,
                        ls.to@ == spec_parse(c.links_view()[li as int]).2,
                        ls.input@ == spec_parse(c.links_view()[li as int]).3,
                        forall|j: int|
                            0 <= j < lj ==> ({
                                let a = spec_parse(#[trigger] c.links_view()[j]);
                                let b = spec_parse(c.links_view()[li as int]);
                                &&& !(a.0 == b.0 && a.1 == b.1)
                                &&& !(a.2 == b.2 && a.3 == b.3)
                            }),
                    decreases li - lj,
                {
                    proof {
                        assert(c.links_view()[lj as int] == c.links@[lj as int]@);
                    }
                    match parse_link(c.links[lj].as_str()) {
                        Some(ls2) => {
                            if (ls2.from.eq(&ls.from) && ls2.output.eq(&ls.output)) || (ls2.to.eq(
                                &ls.to,
                            ) && ls2.input.eq(&ls.input)) {
                                return false;
                            }
                        },
                        None => {},
                    }
                    lj = lj + 1;
                }
            },
        }
        li = li + 1;
    }
    true
}

impl<A: App, C: AppConfig<A>> Engine<A, C> {
    /// Reconcile the live app network against `config`.
    ///
    /// Returns false and leaves the engine untouched when the configuration
    /// is invalid (a malformed link spec, a link endpoint that is not a
    /// declared app, or two links feeding the same slot). Otherwise the live
    /// state afterwards matches the configuration: exactly its apps (retained
    /// when their identity is unchanged, freshly started otherwise), exactly
    /// its links (with counters kept on retained links), every link bound at
    /// both endpoints, and a recomputed breathe order.
    #[verifier::rlimit(100)]
    pub fn configure(&mut self, config: &Config<C>) -> (ok: bool)
        requires
            old(self).wf(),
            config.wf(),
        ensures
            final(self).wf(),
            ok == cfg_valid(config),
            !ok ==> *final(self) == *old(self),
            ok ==> reconciled(old(self).state, config, final(self).state),
            ok ==> views(final(self).state.inhale@) == crate::planner::pull_names(
                final(self).state.app_table,
            ).sort_by(crate::names::le_fn()),
            ok ==> forall|q: Seq<char>|
                views(final(self).state.inhale@).contains(q) <==> crate::planner::is_pull(
                    final(self).state.app_table,
                    q,
                ),
            ok ==> views(final(self).state.exhale@).no_duplicates(),
            ok ==> forall|q: Seq<char>|
                views(final(self).state.exhale@).contains(q) <==> crate::planner::scheduled(
                    final(self).state.app_table,
                    final(self).state.link_table.keys_view(),
                    q,
                ),
            ok ==> forall|q: Seq<char>|
                views(final(self).state.exhale@).contains(q) ==> !views(
                    final(self).state.inhale@,
                ).contains(q),
            final(self).stats == old(self).stats,
            final(self).sleep == old(self).sleep,
            final(self).lastfrees == old(self).lastfrees,
            final(self).monotonic_now == old(self).monotonic_now,
    {
        if !validate_config(config) {
            return false;
        }
        let ghost s0 = self.state;

        // Drop the links that the new configuration no longer has.
        let mut dead: Vec<String> = Vec::new();
        let nl: usize = self.state.link_table.len();
        let mut li: usize = 0;
        while li < nl
            invariant
                li <= nl,
                nl == s0.link_table.spec_len(),
                s0 == self.state,
                s0.wf(),
                forall|w: int|
                    0 <= w < dead@.len() ==> (s0.link_table.has_key(#[trigger] views(dead@)[w])
                        && !c_has_link(config, views(dead@)[w]) && spec_well_formed(
                        views(dead@)[w],
                    )),
                forall|j: int|
                    0 <= j < li ==> (c_has_link(config, #[trigger] s0.link_table.keys_view()[j])
                        || views(dead@).contains(s0.link_table.keys_view()[j])),
            decreases nl - li,
        {
            let k = self.state.link_table.keys[li].clone();
            proof {
                assert(k@ == s0.link_table.keys_view()[li as int]);
                crate::table::lemma_table_index_facts(s0.link_table);
            }
            if !contains_name(&config.links, &k) {
                let ghost predead = dead@;
                let ghost kv = k@;
                proof {
                    assert(s0.link_table.has_key(kv)) by {
                        assert(s0.link_table.keys_view()[li as int] == kv);
                    }
                    assert(spec_well_formed(kv));
                }
                dead.push(k);
                proof {
                    assert(views(dead@) =~= views(predead).push(kv));
                    assert forall|w: int| 0 <= w < dead@.len() implies (s0.link_table.has_key(
                        #[trigger] views(dead@)[w],
                    ) && !c_has_link(config, views(dead@)[w]) && spec_well_formed(
                        views(dead@)[w],
                    )) by {
                        if w < predead.len() {
                            assert(views(dead@)[w] == views(predead)[w]);
                        } else {
                            assert(views(dead@)[w] == kv);
                        }
                    }
                    assert(views(dead@)[predead.len() as int] == kv);
                    assert forall|j: int| 0 <= j < li + 1 implies (c_has_link(
                        config,
                        #[trigger] s0.link_table.keys_view()[j],
                    ) || views(dead@).contains(s0.link_table.keys_view()[j])) by {
                        if j < li {
                            if views(predead).contains(s0.link_table.keys_view()[j]) {
                                let w = choose|w: int|
                                    0 <= w < views(predead).len() && #[trigger] views(predead)[w]
                                        == s0.link_table.keys_view()[j];
                                assert(views(dead@)[w] == s0.link_table.keys_view()[j]);
                            }
                        } else {
                            assert(views(dead@).contains(kv));
                        }
                    }
                }
            } else {
                proof {
                    assert(c_has_link(config, k@));
                }
            }
            li = li + 1;
        }
        let nd: usize = dead.len();
        let mut di: usize = 0;
        while di < nd
            invariant
                di <= nd,
                nd == dead@.len(),
                old(self).wf(),
                s0 == old(self).state,
                config.wf(),
                self.state.wf(),
                self.state.bindings_consistent(),
                forall|w: int|
                    0 <= w < dead@.len() ==> (s0.link_table.has_key(#[trigger] views(dead@)[w])
                        && !c_has_link(config, views(dead@)[w]) && spec_well_formed(
                        views(dead@)[w],
                    )),
                forall|j: int|
                    0 <= j < nl ==> (c_has_link(config, #[trigger] s0.link_table.keys_view()[j])
                        || views(dead@).contains(s0.link_table.keys_view()[j])),
                nl == s0.link_table.spec_len(),
                forall|q: Seq<char>|
                    #[trigger] self.state.link_table.has_key(q) ==> s0.link_table.has_key(q),
                forall|q: Seq<char>|
                    self.state.link_table.has_key(q) ==> (#[trigger] self.state.link_table.spec_get(
                        q,
                    )) == s0.link_table.spec_get(q),
                forall|q: Seq<char>|
                    s0.link_table.has_key(q) && c_has_link(config, q)
                        ==> #[trigger] self.state.link_table.has_key(q),
                forall|w: int|
                    0 <= w < di ==> !self.state.link_table.has_key(#[trigger] views(dead@)[w]),
                forall|q: Seq<char>|
                    self.state.app_table.has_key(q) <==> s0.app_table.has_key(q),
                forall|q: Seq<char>|
                    s0.app_table.has_key(q) ==> app_core_eq(
                        #[trigger] self.state.app_table.spec_get(q),
                        s0.app_table.spec_get(q),
                    ),
                unchanged_rest(old(self), self),
            decreases nd - di,
        {
            proof {
                assert(views(dead@)[di as int] == dead@[di as int]@);
            }
            let ghost pre = self.state;
            let ghost dv = dead@[di as int]@;
            self.state.unlink_apps(&dead[di]);
            proof {
                assert forall|q: Seq<char>| s0.app_table.has_key(q) implies app_core_eq(
                    #[trigger] self.state.app_table.spec_get(q),
                    s0.app_table.spec_get(q),
                ) by {
                    assert(app_core_eq(self.state.app_table.spec_get(q), pre.app_table.spec_get(q)));
                    assert(app_core_eq(pre.app_table.spec_get(q), s0.app_table.spec_get(q)));
                }
                assert forall|q: Seq<char>| #[trigger] self.state.link_table.has_key(q) implies
                    s0.link_table.has_key(q) by {
                    assert(pre.link_table.has_key(q) && q != dv);
                }
                assert forall|q: Seq<char>| self.state.link_table.has_key(q) implies (
                #[trigger] self.state.link_table.spec_get(q)) == s0.link_table.spec_get(q) by {
                    assert(pre.link_table.has_key(q) && q != dv);
                    assert(self.state.link_table.spec_get(q) == pre.link_table.spec_get(q));
                    assert(pre.link_table.spec_get(q) == s0.link_table.spec_get(q));
                }
                assert forall|q: Seq<char>|
                    s0.link_table.has_key(q) && c_has_link(config, q) implies #[trigger] self.state.link_table.has_key(
                    q,
                ) by {
                    assert(q != dv);
                    assert(pre.link_table.has_key(q));
                }
                assert forall|w: int| 0 <= w < di + 1 implies !self.state.link_table.has_key(
                    #[trigger] views(dead@)[w],
                ) by {
                    if w < di {
                        assert(!pre.link_table.has_key(views(dead@)[w]));
                    }
                }
            }
            di = di + 1;
        }
        proof {
            assert forall|q: Seq<char>|
                self.state.link_table.has_key(q) <==> (s0.link_table.has_key(q) && c_has_link(
                    config,
                    q,
                )) by {
                if self.state.link_table.has_key(q) {
                    assert(s0.link_table.has_key(q));
                    crate::table::lemma_table_index_facts(s0.link_table);
                    let j = s0.link_table.key_index(q);
                    assert(s0.link_table.keys_view()[j] == q);
                    if !c_has_link(config, q) {
                        assert(views(dead@).contains(q));
                        let w = choose|w: int|
                            0 <= w < views(dead@).len() && #[trigger] views(dead@)[w] == q;
                        assert(!self.state.link_table.has_key(views(dead@)[w]));
                    }
                }
            }
        }
        let ghost s1 = self.state;

        // Stop the apps that are gone or whose configuration changed.
        let mut gone: Vec<String> = Vec::new();
        let na: usize = self.state.app_table.len();
        let mut ai: usize = 0;
        while ai < na
            invariant
                ai <= na,
                na == s1.app_table.spec_len(),
                s1 == self.state,
                self.state.wf(),
                config.wf(),
                forall|w: int|
                    0 <= w < gone@.len() ==> (s1.app_table.has_key(#[trigger] views(gone@)[w])
                        && !c_has_app_match(s1, config, views(gone@)[w])),
                forall|j: int|
                    0 <= j < ai ==> (c_has_app_match(
                        s1,
                        config,
                        #[trigger] s1.app_table.keys_view()[j],
                    ) || views(gone@).contains(s1.app_table.keys_view()[j])),
            decreases na - ai,
        {
            let name = self.state.app_table.keys[ai].clone();
            let ghost nv = name@;
            proof {
                assert(nv == s1.app_table.keys_view()[ai as int]);
                crate::table::lemma_table_index_facts(s1.app_table);
                assert(s1.app_table.has_key(nv)) by {
                    assert(s1.app_table.keys_view()[ai as int] == nv);
                }
                assert(s1.app_table.spec_get(nv) == s1.app_table.vals@[ai as int]);
            }
            let stale: bool = match config.apps.get(&name) {
                Some(newconf) => !self.state.app_table.vals[ai].conf.equal(newconf),
                None => true,
            };
            if stale {
                let ghost pregone = gone@;
                gone.push(name);
                proof {
                    assert(views(gone@) =~= views(pregone).push(nv));
                    assert forall|w: int| 0 <= w < gone@.len() implies (s1.app_table.has_key(
                        #[trigger] views(gone@)[w],
                    ) && !c_has_app_match(s1, config, views(gone@)[w])) by {
                        if w < pregone.len() {
                            assert(views(gone@)[w] == views(pregone)[w]);
                        } else {
                            assert(views(gone@)[w] == nv);
                        }
                    }
                    assert(views(gone@)[pregone.len() as int] == nv);
                    assert forall|j: int| 0 <= j < ai + 1 implies (c_has_app_match(
                        s1,
                        config,
                        #[trigger] s1.app_table.keys_view()[j],
                    ) || views(gone@).contains(s1.app_table.keys_view()[j])) by {
                        if j < ai {
                            if views(pregone).contains(s1.app_table.keys_view()[j]) {
                                let w = choose|w: int|
                                    0 <= w < views(pregone).len() && #[trigger] views(pregone)[w]
                                        == s1.app_table.keys_view()[j];
                                assert(views(gone@)[w] == s1.app_table.keys_view()[j]);
                            }
                        } else {
                            assert(views(gone@).contains(nv));
                        }
                    }
                }
            } else {
                proof {
                    assert(c_has_app_match(s1, config, nv));
                }
            }
            ai = ai + 1;
        }
        let ng: usize = gone.len();
        let mut gi: usize = 0;
        while gi < ng
            invariant
                gi <= ng,
                ng == gone@.len(),
                old(self).wf(),
                s0 == old(self).state,
                config.wf(),
                self.state.wf(),
                self.state.bindings_consistent(),
                forall|w: int|
                    0 <= w < gone@.len() ==> (s1.app_table.has_key(#[trigger] views(gone@)[w])
                        && !c_has_app_match(s1, config, views(gone@)[w])),
                forall|j: int|
                    0 <= j < s1.app_table.spec_len() ==> (c_has_app_match(
                        s1,
                        config,
                        #[trigger] s1.app_table.keys_view()[j],
                    ) || views(gone@).contains(s1.app_table.keys_view()[j])),
                self.state.link_table == s1.link_table,
                forall|q: Seq<char>|
                    self.state.app_table.has_key(q) ==> #[trigger] s1.app_table.has_key(q),
                forall|q: Seq<char>|
                    s1.app_table.has_key(q) && c_has_app_match(s1, config, q)
                        ==> #[trigger] self.state.app_table.has_key(q),
                forall|w: int|
                    0 <= w < gi ==> !self.state.app_table.has_key(#[trigger] views(gone@)[w]),
                forall|q: Seq<char>|
                    self.state.app_table.has_key(q) ==> #[trigger] self.state.app_table.spec_get(q)
                        == s1.app_table.spec_get(q),
                unchanged_rest(old(self), self),
            decreases ng - gi,
        {
            proof {
                assert(views(gone@)[gi as int] == gone@[gi as int]@);
            }
            let ghost pre = self.state;
            let ghost gv = gone@[gi as int]@;
            self.state.stop_app(&gone[gi]);
            proof {
                assert forall|q: Seq<char>| self.state.app_table.has_key(q) implies #[trigger]
                    s1.app_table.has_key(q) by {
                    assert(pre.app_table.has_key(q));
                }
                assert forall|q: Seq<char>|
                    s1.app_table.has_key(q) && c_has_app_match(s1, config, q) implies #[trigger]
                    self.state.app_table.has_key(q) by {
                    assert(q != gv);
                    assert(pre.app_table.has_key(q));
                }
                assert forall|w: int| 0 <= w < gi + 1 implies !self.state.app_table.has_key(
                    #[trigger] views(gone@)[w],
                ) by {
                    if w < gi {
                        assert(!pre.app_table.has_key(views(gone@)[w]));
                    }
                }
                assert forall|q: Seq<char>| self.state.app_table.has_key(q) implies #[trigger]
                    self.state.app_table.spec_get(q) == s1.app_table.spec_get(q) by {
                    assert(pre.app_table.has_key(q) && q != gv);
                    assert(self.state.app_table.spec_get(q) == pre.app_table.spec_get(q));
                }
            }
            gi = gi + 1;
        }
        proof {
            assert forall|q: Seq<char>|
                self.state.app_table.has_key(q) <==> (s1.app_table.has_key(q) && c_has_app_match(
                    s1,
                    config,
                    q,
                )) by {
                if self.state.app_table.has_key(q) {
                    assert(s1.app_table.has_key(q));
                    crate::table::lemma_table_index_facts(s1.app_table);
                    let j = s1.app_table.key_index(q);
                    assert(s1.app_table.keys_view()[j] == q);
                    if !c_has_app_match(s1, config, q) {
                        assert(views(gone@).contains(q));
                        let w = choose|w: int|
                            0 <= w < views(gone@).len() && #[trigger] views(gone@)[w] == q;
                        assert(!self.state.app_table.has_key(views(gone@)[w]));
                    }
                }
            }
        }
        let ghost s2 = self.state;

        // Start the apps of the configuration that are not running.
        let nc: usize = config.apps.len();
        let mut ci: usize = 0;
        while ci < nc
            invariant
                ci <= nc,
                nc == config.apps.spec_len(),
                old(self).wf(),
                s0 == old(self).state,
                config.wf(),
                self.state.wf(),
                self.state.bindings_consistent(),
                forall|q: Seq<char>|
                    s2.app_table.has_key(q) ==> #[trigger] self.state.app_table.has_key(q)
                        && self.state.app_table.spec_get(q) == s2.app_table.spec_get(q),
                forall|q: Seq<char>|
                    #[trigger] self.state.app_table.has_key(q) ==> (s2.app_table.has_key(q)
                        || config.apps.has_key(q)),
                forall|q: Seq<char>|
                    self.state.app_table.has_key(q) && !s2.app_table.has_key(q) ==> (
                    #[trigger] self.state.app_table.spec_get(q)).conf.id()
                        == config.apps.spec_get(q).id(),
                forall|j: int|
                    0 <= j < ci ==> self.state.app_table.has_key(
                        #[trigger] config.apps.keys_view()[j],
                    ),
                self.state.link_table == s2.link_table,
                unchanged_rest(old(self), self),
            decreases nc - ci,
        {
            let name = config.apps.keys[ci].clone();
            proof {
                assert(name@ == config.apps.keys_view()[ci as int]);
                crate::table::lemma_table_index_facts(config.apps);
            }
            let ghost nv = name@;
            let ghost pre = self.state;
            if !self.state.app_table.contains(&name) {
                let started = self.state.start_app(name.as_str(), &config.apps.vals[ci]);
                proof {
                    assert(started);
                    assert(config.apps.spec_get(nv) == config.apps.vals@[ci as int]);
                    assert(self.state.app_table.spec_get(nv).conf.id() == config.apps.spec_get(
                        nv,
                    ).id());
                    assert forall|q: Seq<char>| #[trigger] self.state.app_table.has_key(q) implies
                        (s2.app_table.has_key(q) || config.apps.has_key(q)) by {
                        if q != nv {
                            assert(pre.app_table.has_key(q));
                        }
                    }
                    assert forall|q: Seq<char>|
                        self.state.app_table.has_key(q) && !s2.app_table.has_key(q) implies (
                    #[trigger] self.state.app_table.spec_get(q)).conf.id()
                        == config.apps.spec_get(q).id() by {
                        if q != nv {
                            assert(pre.app_table.has_key(q));
                            assert(self.state.app_table.spec_get(q) == pre.app_table.spec_get(q));
                        }
                    }
                }
            }
            ci = ci + 1;
        }
        proof {
            crate::table::lemma_table_index_facts(config.apps);
            assert forall|q: Seq<char>|
                self.state.app_table.has_key(q) <==> config.apps.has_key(q) by {
                if config.apps.has_key(q) {
                    let j = config.apps.key_index(q);
                    assert(config.apps.keys_view()[j] == q);
                }
                if self.state.app_table.has_key(q) && !config.apps.has_key(q) {
                    assert(s2.app_table.has_key(q));
                    assert(c_has_app_match(s1, config, q));
                }
            }
        }
        let ghost s3 = self.state;

        // Rebuild every configured link and its two slot bindings.
        let nk: usize = config.links.len();
        let mut ki: usize = 0;
        while ki < nk
            invariant
                ki <= nk,
                nk == config.links@.len(),
                old(self).wf(),
                s0 == old(self).state,
                config.wf(),
                cfg_valid(config),
                self.state.wf(),
                self.state.bindings_consistent(),
                forall|q: Seq<char>|
                    self.state.app_table.has_key(q) <==> config.apps.has_key(q),
                forall|q: Seq<char>|
                    self.state.app_table.has_key(q) ==> app_core_eq(
                        #[trigger] self.state.app_table.spec_get(q),
                        s3.app_table.spec_get(q),
                    ) && s3.app_table.has_key(q),
                forall|q: Seq<char>|
                    self.state.link_table.has_key(q) ==> (s3.link_table.has_key(q) || exists|j: int|
                        0 <= j < ki && #[trigger] config.links_view()[j] == q),
                forall|q: Seq<char>|
                    s3.link_table.has_key(q) ==> #[trigger] self.state.link_table.has_key(q),
                forall|q: Seq<char>|
                    s3.link_table.has_key(q) ==> #[trigger] self.state.link_table.spec_get(q)
                        == s3.link_table.spec_get(q),
                forall|q: Seq<char>|
                    self.state.link_table.has_key(q) && !s3.link_table.has_key(q) ==> fresh_link(
                        #[trigger] self.state.link_table.spec_get(q),
                    ),
                forall|j: int|
                    0 <= j < ki ==> link_bound(self.state, #[trigger] config.links_view()[j]),
                unchanged_rest(old(self), self),
            decreases nk - ki,
        {
            proof {
                assert(config.links_view()[ki as int] == config.links@[ki as int]@);
            }
            let ghost pre = self.state;
            let ok2 = self.state.link_apps(&config.links[ki]);
            proof {
                let k = config.links_view()[ki as int];
                assert(spec_well_formed(k) && config.apps.has_key(spec_parse(k).0)
                    && config.apps.has_key(spec_parse(k).2));
                assert(ok2);
                let p = spec_parse(k);
                assert(link_bound(self.state, k)) by {
                    crate::linkspec::lemma_spec_parse(k);
                }
                assert forall|j: int| 0 <= j < ki + 1 implies link_bound(
                    self.state,
                    #[trigger] config.links_view()[j],
                ) by {
                    if j < ki {
                        let k2 = config.links_view()[j];
                        let p2 = spec_parse(k2);
                        assert(link_bound(pre, k2));
                        assert(!(p2.0 == p.0 && p2.1 == p.1));
                        assert(!(p2.2 == p.2 && p2.3 == p.3));
                        assert(crate::state::tbl_except(
                            self.state.app_table.spec_get(p2.0).output,
                            pre.app_table.spec_get(p2.0).output,
                            p.1,
                        ));
                        assert(crate::state::tbl_except(
                            self.state.app_table.spec_get(p2.2).input,
                            pre.app_table.spec_get(p2.2).input,
                            p.3,
                        ));
                        if p2.0 == p.0 && p2.1 != p.1 {
                        } else if p2.0 != p.0 {
                            assert(self.state.app_table.spec_get(p2.0).output == pre.app_table.spec_get(
                                p2.0,
                            ).output);
                        }
                        if p2.2 == p.2 && p2.3 != p.3 {
                        } else if p2.2 != p.2 {
                            assert(self.state.app_table.spec_get(p2.2).input == pre.app_table.spec_get(
                                p2.2,
                            ).input);
                        }
                    }
                }
            }
            ki = ki + 1;
        }
        proof {
            assert forall|q: Seq<char>|
                self.state.link_table.has_key(q) <==> c_has_link(config, q) by {
                if self.state.link_table.has_key(q) && !s3.link_table.has_key(q) {
                    let j = choose|j: int|
                        0 <= j < nk && #[trigger] config.links_view()[j] == q;
                    assert(config.links_view().contains(q));
                }
                if self.state.link_table.has_key(q) && s3.link_table.has_key(q) {
                    assert(s0.link_table.has_key(q) && c_has_link(config, q));
                }
                if c_has_link(config, q) {
                    let j = choose|j: int|
                        0 <= j < config.links_view().len() && config.links_view()[j] == q;
                    assert(link_bound(self.state, config.links_view()[j]));
                    crate::linkspec::lemma_spec_parse(q);
                }
            }
            // Full linkage: every present link is one of the configured ones,
            // and those are bound.
            assert forall|li2: int|
                0 <= li2 < self.state.link_table.spec_len() implies ({
                let k = #[trigger] self.state.link_table.keys_view()[li2];
                let p = spec_parse(k);
                &&& self.state.app_table.has_key(p.0)
                &&& self.state.app_table.spec_get(p.0).output.has_key(p.1)
                &&& self.state.app_table.spec_get(p.0).output.spec_get(p.1)@ == k
                &&& self.state.app_table.has_key(p.2)
                &&& self.state.app_table.spec_get(p.2).input.has_key(p.3)
                &&& self.state.app_table.spec_get(p.2).input.spec_get(p.3)@ == k
            }) by {
                let k = self.state.link_table.keys_view()[li2];
                assert(self.state.link_table.has_key(k)) by {
                    assert(self.state.link_table.keys_view().contains(k));
                }
                assert(c_has_link(config, k));
                let j = choose|j: int|
                    0 <= j < config.links_view().len() && config.links_view()[j] == k;
                assert(link_bound(self.state, config.links_view()[j]));
            }
            assert(self.state.fully_linked());
        }

        // Recompute the breathe order.
        let ghost s4 = self.state;
        self.state.compute_breathe_order();
        proof {
            assert(self.state.app_table == s4.app_table);
            assert(self.state.link_table == s4.link_table);
            crate::state::lemma_same_keys_index(s4.app_table, self.state.app_table);
            crate::state::lemma_same_keys_index(s4.link_table, self.state.link_table);
            // App set matches the configuration.
            assert forall|n: Seq<char>|
                self.state.app_table.has_key(n) <==> config.apps.has_key(n) by {
                assert(s4.app_table.has_key(n) <==> config.apps.has_key(n));
            }
            // Identities match the configuration.
            assert forall|n: Seq<char>| config.apps.has_key(n) implies (
            #[trigger] self.state.app_table.spec_get(n)).conf.id() == config.apps.spec_get(
                n,
            ).id() by {
                assert(s4.app_table.has_key(n));
                assert(app_core_eq(s4.app_table.spec_get(n), s3.app_table.spec_get(n)));
                if s2.app_table.has_key(n) {
                    assert(s3.app_table.spec_get(n) == s2.app_table.spec_get(n));
                    assert(s2.app_table.spec_get(n) == s1.app_table.spec_get(n));
                    assert(c_has_app_match(s1, config, n));
                } else {
                    assert(s3.app_table.spec_get(n).conf.id() == config.apps.spec_get(n).id());
                }
                assert(self.state.app_table.spec_get(n) == s4.app_table.spec_get(n));
            }
            // Retained apps keep their instance, configuration and caps.
            assert forall|n: Seq<char>| retained(s0, config, n) implies app_core_eq(
                #[trigger] self.state.app_table.spec_get(n),
                s0.app_table.spec_get(n),
            ) by {
                assert(s1.app_table.has_key(n));
                assert(app_core_eq(s1.app_table.spec_get(n), s0.app_table.spec_get(n)));
                assert(c_has_app_match(s1, config, n)) by {
                    assert(s1.app_table.spec_get(n).conf.id() == s0.app_table.spec_get(
                        n,
                    ).conf.id());
                }
                assert(s2.app_table.has_key(n) && s2.app_table.spec_get(n)
                    == s1.app_table.spec_get(n));
                assert(s3.app_table.has_key(n) && s3.app_table.spec_get(n)
                    == s2.app_table.spec_get(n));
                assert(app_core_eq(s4.app_table.spec_get(n), s3.app_table.spec_get(n)));
                assert(self.state.app_table.spec_get(n) == s4.app_table.spec_get(n));
            }
            // Link set matches the configuration.
            assert forall|k: Seq<char>|
                self.state.link_table.has_key(k) <==> c_has_link(config, k) by {
                assert(s4.link_table.has_key(k) <==> c_has_link(config, k));
            }
            // Counters of kept links persist; new links are fresh.
            assert forall|k: Seq<char>|
                c_has_link(config, k) && s0.link_table.has_key(k) implies #[trigger] self.state.link_table.spec_get(
                k,
            ) == s0.link_table.spec_get(k) by {
                assert(s1.link_table.has_key(k));
                assert(s1.link_table.spec_get(k) == s0.link_table.spec_get(k));
                assert(s3.link_table == s1.link_table);
                assert(s4.link_table.has_key(k));
                assert(s4.link_table.spec_get(k) == s3.link_table.spec_get(k));
                assert(self.state.link_table.spec_get(k) == s4.link_table.spec_get(k));
            }
            assert forall|k: Seq<char>|
                c_has_link(config, k) && !s0.link_table.has_key(k) implies fresh_link(
                #[trigger] self.state.link_table.spec_get(k),
            ) by {
                assert(s4.link_table.has_key(k));
                assert(s3.link_table == s1.link_table);
                assert(!s3.link_table.has_key(k)) by {
                    if s1.link_table.has_key(k) {
                        assert(s0.link_table.has_key(k));
                    }
                }
                assert(fresh_link(s4.link_table.spec_get(k)));
                assert(self.state.link_table.spec_get(k) == s4.link_table.spec_get(k));
            }
            assert(reconciled(s0, config, self.state)) by {
                assert(forall|n: Seq<char>|
                    self.state.app_table.has_key(n) <==> config.apps.has_key(n));
                assert(forall|n: Seq<char>|
                    config.apps.has_key(n) ==> (#[trigger] self.state.app_table.spec_get(
                        n,
                    )).conf.id() == config.apps.spec_get(n).id());
                assert(forall|n: Seq<char>|
                    retained(s0, config, n) ==> app_core_eq(
                        #[trigger] self.state.app_table.spec_get(n),
                        s0.app_table.spec_get(n),
                    ));
                assert forall|k: Seq<char>|
                    self.state.link_table.has_key(k) <==> config.links_view().contains(k) by {
                    assert(c_has_link(config, k) == config.links_view().contains(k));
                }
                assert forall|k: Seq<char>|
                    config.links_view().contains(k) && s0.link_table.has_key(k) implies (
                #[trigger] self.state.link_table.spec_get(k)) == s0.link_table.spec_get(k) by {
                    assert(c_has_link(config, k));
                }
                assert forall|k: Seq<char>|
                    config.links_view().contains(k) && !s0.link_table.has_key(k) implies fresh_link(
                    #[trigger] self.state.link_table.spec_get(k),
                ) by {
                    assert(c_has_link(config, k));
                }
            }
        }
        true
    }
}

/// The configuration declares this link spec.
pub open spec fn c_has_link<C>(c: &Config<C>, q: Seq<char>) -> bool {
    c.links_view().contains(q)
}

/// The configuration has an app of this name with the same identity as the
/// running one.
pub open spec fn c_has_app_match<A: App, C: AppConfig<A>>(
    s: EngineState<A, C>,
    c: &Config<C>,
    q: Seq<char>,
) -> bool {
    c.apps.has_key(q) && s.app_table.has_key(q) && s.app_table.spec_get(q).conf.id()
        == c.apps.spec_get(q).id()
}

/// A link spec is bound at both its endpoints, under its own key.
pub open spec fn link_bound<A, C>(s: EngineState<A, C>, k: Seq<char>) -> bool {
    let p = spec_parse(k);
    &&& s.link_table.has_key(k)
    &&& s.app_table.has_key(p.0)
    &&& s.app_table.spec_get(p.0).output.has_key(p.1)
    &&& s.app_table.spec_get(p.0).output.spec_get(p.1)@ == k
    &&& s.app_table.has_key(p.2)
    &&& s.app_table.spec_get(p.2).input.has_key(p.3)
    &&& s.app_table.spec_get(p.2).input.spec_get(p.3)@ == k
}

/// The engine fields outside the network do not move during reconciliation.
pub open spec fn unchanged_rest<A: App, C: AppConfig<A>>(e0: &Engine<A, C>, e1: &Engine<A, C>) -> bool {
    &&& e1.stats == e0.stats
    &&& e1.sleep == e0.sleep
    &&& e1.lastfrees == e0.lastfrees
    &&& e1.monotonic_now == e0.monotonic_now
    &&& e1.anchor == e0.anchor
    &&& e1.lastloadreport == e0.lastloadreport
    &&& e1.reportedfrees == e0.reportedfrees
    &&& e1.reportedfreebits == e0.reportedfreebits
    &&& e1.reportedfreebytes == e0.reportedfreebytes
    &&& e1.reportedbreaths == e0.reportedbreaths
}

} // verus!
