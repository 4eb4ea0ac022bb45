//! The live app network: the app and link registries, the breathe order, and
//! the registry operations the reconciler is built from.

use vstd::prelude::*;
use crate::apps::App;
use crate::apps::AppConfig;
use crate::apps::AppState;
use crate::apps::Caps;
use crate::link::Link;
use crate::link::links_wf;
use crate::linkspec::parse_link;
use crate::linkspec::spec_parse;
use crate::linkspec::spec_well_formed;
use crate::names::views;
use crate::table::Table;

verus! {

/// The set of all active apps and links, indexed by name, plus the current
/// breathe order.
pub struct EngineState<A, C> {
    pub app_table: Table<AppState<A, C>>,
    pub link_table: Table<Link>,
    pub inhale: Vec<String>,
    pub exhale: Vec<String>,
}

/// One slot binding is sound: it names a link that exists, whose spec names
/// this app and this slot on the expected side.
pub open spec fn binding_ok(
    links: Table<Link>,
    name: Seq<char>,
    slot: Seq<char>,
    k: Seq<char>,
    out: bool,
) -> bool {
    &&& links.has_key(k)
    &&& spec_well_formed(k)
    &&& (out ==> spec_parse(k).0 == name && spec_parse(k).1 == slot)
    &&& (!out ==> spec_parse(k).2 == name && spec_parse(k).3 == slot)
}

impl<A, C> EngineState<A, C> {
    /// Structural well-formedness: registries are well-formed tables, links
    /// respect their capacity, and every registered link spec is well-formed.
    pub open spec fn wf(&self) -> bool {
        &&& self.app_table.wf()
        &&& self.link_table.wf()
        &&& links_wf(self.link_table)
        &&& forall|i: int|
            0 <= i < self.app_table.vals@.len() ==> (#[trigger] self.app_table.vals@[i]).wf()
        &&& forall|i: int|
            0 <= i < self.link_table.spec_len() ==> spec_well_formed(
                #[trigger] self.link_table.keys_view()[i],
            )
    }

    /// No orphan bindings: every slot binding of every app points at a
    /// present link whose spec names that app and slot.
    pub open spec fn bindings_consistent(&self) -> bool {
        &&& forall|ai: int, si: int|
            0 <= ai < self.app_table.vals@.len() && 0 <= si
                < self.app_table.vals@[ai].output.vals@.len() ==> binding_ok(
                self.link_table,
                self.app_table.keys_view()[ai],
                self.app_table.vals@[ai].output.keys_view()[si],
                (#[trigger] self.app_table.vals@[ai].output.vals@[si])@,
                true,
            )
        &&& forall|ai: int, si: int|
            0 <= ai < self.app_table.vals@.len() && 0 <= si
                < self.app_table.vals@[ai].input.vals@.len() ==> binding_ok(
                self.link_table,
                self.app_table.keys_view()[ai],
                self.app_table.vals@[ai].input.keys_view()[si],
                (#[trigger] self.app_table.vals@[ai].input.vals@[si])@,
                false,
            )
    }

    /// Every registered link is bound at both endpoints' slots, under its own
    /// key.
    pub open spec fn fully_linked(&self) -> bool {
        forall|li: int|
            0 <= li < self.link_table.spec_len() ==> ({
                let k = #[trigger] self.link_table.keys_view()[li];
                let p = spec_parse(k);
                &&& self.app_table.has_key(p.0)
                &&& self.app_table.spec_get(p.0).output.has_key(p.1)
                &&& self.app_table.spec_get(p.0).output.spec_get(p.1)@ == k
                &&& self.app_table.has_key(p.2)
                &&& self.app_table.spec_get(p.2).input.has_key(p.3)
                &&& self.app_table.spec_get(p.2).input.spec_get(p.3)@ == k
            })
    }

    /// The breathe order only names apps that are present.
    pub open spec fn order_wf(&self) -> bool {
        &&& forall|i: int|
            0 <= i < self.inhale@.len() ==> self.app_table.has_key(
                #[trigger] views(self.inhale@)[i],
            )
        &&& forall|i: int|
            0 <= i < self.exhale@.len() ==> self.app_table.has_key(
                #[trigger] views(self.exhale@)[i],
            )
    }

    pub fn new() -> (r: EngineState<A, C>)
        ensures
            r.wf(),
            r.bindings_consistent(),
            r.fully_linked(),
            r.order_wf(),
            r.app_table.spec_len() == 0,
            r.link_table.spec_len() == 0,
            r.inhale@.len() == 0,
            r.exhale@.len() == 0,
    {
        EngineState {
            app_table: Table::new(),
            link_table: Table::new(),
            inhale: Vec::new(),
            exhale: Vec::new(),
        }
    }
}

impl<A: App, C: AppConfig<A>> EngineState<A, C> {
    /// Insert a new app instance, instantiated from `conf`, with empty slot
    /// tables. Fails (and changes nothing) when the name is taken.
    pub fn start_app(&mut self, name: &str, conf: &C) -> (r: bool)
        requires
            old(self).wf(),
        ensures
            final(self).wf(),
            r == !old(self).app_table.has_key(name@),
            !r ==> *final(self) == *old(self),
            r ==> ({
                &&& final(self).app_table.keys_view() == old(self).app_table.keys_view().push(
                    name@,
                )
                &&& final(self).app_table.spec_get(name@).conf.id() == conf.id()
                &&& final(self).app_table.spec_get(name@).input.spec_len() == 0
                &&& final(self).app_table.spec_get(name@).output.spec_len() == 0
            }),
            forall|q: Seq<char>|
                final(self).app_table.has_key(q) <==> (old(self).app_table.has_key(q) || (r && q
                    == name@)),
            forall|q: Seq<char>|
                old(self).app_table.has_key(q) ==> #[trigger] final(self).app_table.spec_get(q)
                    == old(self).app_table.spec_get(q),
            final(self).link_table == old(self).link_table,
            final(self).inhale@ == old(self).inhale@,
            final(self).exhale@ == old(self).exhale@,
            old(self).bindings_consistent() ==> final(self).bindings_consistent(),
            old(self).fully_linked() ==> final(self).fully_linked(),
    {
        let key: String = name.to_owned();
        if self.app_table.contains(&key) {
            return false;
        }
        let app = conf.new();
        let caps = Caps {
            pull: app.has_pull(),
            push: app.has_push(),
            report: app.has_report(),
            stop: app.has_stop(),
        };
        let st = AppState { app, conf: conf.dup(), caps, input: Table::new(), output: Table::new() };
        self.app_table.insert(key, st);
        proof {
            crate::table::lemma_table_index_facts(final(self).app_table);
            assert(final(self).app_table.keys_view() =~= old(self).app_table.keys_view().push(
                name@,
            ));
            let n = old(self).app_table.vals@.len() as int;
            assert(final(self).app_table.vals@[n] == st);
            assert(final(self).app_table.spec_get(name@) == st);
            assert forall|i: int| 0 <= i < final(self).app_table.vals@.len() implies (
            #[trigger] final(self).app_table.vals@[i]).wf() by {
                if i < n {
                    assert(final(self).app_table.vals@[i] == old(self).app_table.vals@[i]);
                }
            }
            if old(self).bindings_consistent() {
                assert forall|ai: int, si: int|
                    0 <= ai < final(self).app_table.vals@.len() && 0 <= si < final(self).app_table.vals@[ai].output.vals@.len() implies binding_ok(
                    final(self).link_table,
                    final(self).app_table.keys_view()[ai],
                    final(self).app_table.vals@[ai].output.keys_view()[si],
                    (#[trigger] final(self).app_table.vals@[ai].output.vals@[si])@,
                    true,
                ) by {
                    assert(ai < n);
                    assert(final(self).app_table.vals@[ai] == old(self).app_table.vals@[ai]);
                }
                assert forall|ai: int, si: int|
                    0 <= ai < final(self).app_table.vals@.len() && 0 <= si < final(self).app_table.vals@[ai].input.vals@.len() implies binding_ok(
                    final(self).link_table,
                    final(self).app_table.keys_view()[ai],
                    final(self).app_table.vals@[ai].input.keys_view()[si],
                    (#[trigger] final(self).app_table.vals@[ai].input.vals@[si])@,
                    false,
                ) by {
                    assert(ai < n);
                    assert(final(self).app_table.vals@[ai] == old(self).app_table.vals@[ai]);
                }
            }
        }
        true
    }

    /// Remove an app, invoking its stop hook first when it advertised one.
    /// Removing an absent name is a no-op.
    pub fn stop_app(&mut self, name: &String)
        requires
            old(self).wf(),
        ensures
            final(self).wf(),
            !old(self).app_table.has_key(name@) ==> *final(self) == *old(self),
            forall|q: Seq<char>|
                final(self).app_table.has_key(q) <==> (old(self).app_table.has_key(q) && q
                    != name@),
            forall|q: Seq<char>|
                old(self).app_table.has_key(q) && q != name@ ==> #[trigger] final(self).app_table.spec_get(q) == old(self).app_table.spec_get(q),
            final(self).link_table == old(self).link_table,
            final(self).inhale@ == old(self).inhale@,
            final(self).exhale@ == old(self).exhale@,
            old(self).bindings_consistent() ==> final(self).bindings_consistent(),
    {
        match self.app_table.index_of(name) {
            Some(i) => {
                if self.app_table.vals[i].caps.stop {
                    self.app_table.vals[i].app.stop();
                }
                self.app_table.remove(name);
                proof {
                    let ii = old(self).app_table.key_index(name@);
                    crate::table::lemma_table_index_facts(old(self).app_table);
                    assert forall|j: int| 0 <= j < final(self).app_table.vals@.len() implies (
                    #[trigger] final(self).app_table.vals@[j]).wf() by {
                        let j0 = if j < ii { j } else { j + 1 };
                        assert(final(self).app_table.vals@[j] == old(self).app_table.vals@[j0]);
                    }
                    if old(self).bindings_consistent() {
                        assert forall|ai: int, si: int|
                            0 <= ai < final(self).app_table.vals@.len() && 0 <= si < final(self).app_table.vals@[ai].output.vals@.len() implies binding_ok(
                            final(self).link_table,
                            final(self).app_table.keys_view()[ai],
                            final(self).app_table.vals@[ai].output.keys_view()[si],
                            (#[trigger] final(self).app_table.vals@[ai].output.vals@[si])@,
                            true,
                        ) by {
                            let a0 = if ai < ii { ai } else { ai + 1 };
                            assert(final(self).app_table.vals@[ai] == old(self).app_table.vals@[a0]);
                            assert(final(self).app_table.keys_view()[ai] == old(self).app_table.keys_view()[a0]);
                        }
                        assert forall|ai: int, si: int|
                            0 <= ai < final(self).app_table.vals@.len() && 0 <= si < final(self).app_table.vals@[ai].input.vals@.len() implies binding_ok(
                            final(self).link_table,
                            final(self).app_table.keys_view()[ai],
                            final(self).app_table.vals@[ai].input.keys_view()[si],
                            (#[trigger] final(self).app_table.vals@[ai].input.vals@[si])@,
                            false,
                        ) by {
                            let a0 = if ai < ii { ai } else { ai + 1 };
                            assert(final(self).app_table.vals@[ai] == old(self).app_table.vals@[a0]);
                            assert(final(self).app_table.keys_view()[ai] == old(self).app_table.keys_view()[a0]);
                        }
                    }
                }
            },
            None => {},
        }
    }
}


/// The app, configuration, and capabilities of two app states agree; only the
/// slot tables may differ.
pub open spec fn app_core_eq<A, C>(a1: AppState<A, C>, a0: AppState<A, C>) -> bool {
    a1.app == a0.app && a1.conf == a0.conf && a1.caps == a0.caps
}

/// `t1` agrees with `t0` on every slot other than `ex`.
pub open spec fn tbl_except(t1: Table<String>, t0: Table<String>, ex: Seq<char>) -> bool {
    forall|sk: Seq<char>|
        #![trigger t1.has_key(sk)]
        #![trigger t0.has_key(sk)]
        sk != ex ==> ((t1.has_key(sk) <==> t0.has_key(sk)) && (t0.has_key(sk) && t1.has_key(sk)
            ==> t1.spec_get(sk) == t0.spec_get(sk)))
}

/// Every binding of `t1` already stood in `t0`, with the same link key.
pub open spec fn tbl_subset(t1: Table<String>, t0: Table<String>) -> bool {
    forall|sk: Seq<char>|
        #![trigger t1.has_key(sk)]
        t1.has_key(sk) ==> t0.has_key(sk) && t1.spec_get(sk) == t0.spec_get(sk)
}

impl<A: App, C: AppConfig<A>> EngineState<A, C> {
    /// Remove a link and the bindings of its two endpoint slots. Removing an
    /// unknown spec is a no-op on the link registry; a slot is unbound only
    /// when it is currently bound to this very link.
    pub fn unlink_apps(&mut self, spec: &String)
        requires
            old(self).wf(),
            spec_well_formed(spec@),
        ensures
            final(self).wf(),
            forall|q: Seq<char>|
                final(self).link_table.has_key(q) <==> (old(self).link_table.has_key(q) && q
                    != spec@),
            forall|q: Seq<char>|
                old(self).link_table.has_key(q) && q != spec@ ==> #[trigger] final(self).link_table.spec_get(q) == old(self).link_table.spec_get(q),
            final(self).app_table.keys_view() == old(self).app_table.keys_view(),
            forall|q: Seq<char>|
                final(self).app_table.has_key(q) <==> old(self).app_table.has_key(q),
            forall|q: Seq<char>|
                old(self).app_table.has_key(q) ==> app_core_eq(
                    #[trigger] final(self).app_table.spec_get(q),
                    old(self).app_table.spec_get(q),
                ) && tbl_subset(
                    final(self).app_table.spec_get(q).output,
                    old(self).app_table.spec_get(q).output,
                ) && tbl_subset(
                    final(self).app_table.spec_get(q).input,
                    old(self).app_table.spec_get(q).input,
                ),
            final(self).inhale@ == old(self).inhale@,
            final(self).exhale@ == old(self).exhale@,
            old(self).bindings_consistent() ==> final(self).bindings_consistent(),
    {
        proof {
            crate::table::lemma_table_index_facts(old(self).app_table);
        }
        self.link_table.remove(spec);
        let ghost mid = *self;
        match parse_link(spec.as_str()) {
            Some(ls) => {
                match self.app_table.index_of(&ls.from) {
                    Some(fi) => {
                        proof {
                            assert(self.app_table.vals@[fi as int].wf());
                        }
                        let mut hit = false;
                        match self.app_table.vals[fi].output.get(&ls.output) {
                            Some(v) => {
                                hit = v.eq(spec);
                            },
                            None => {},
                        }
                        if hit {
                            self.app_table.vals[fi].output.remove(&ls.output);
                        }
                    },
                    None => {},
                }
                let ghost mid2 = *self;
                proof {
                    lemma_same_keys_index(mid.app_table, mid2.app_table);
                }
                match self.app_table.index_of(&ls.to) {
                    Some(ti) => {
                        proof {
                            assert(self.app_table.vals@[ti as int].wf());
                        }
                        let mut hit = false;
                        match self.app_table.vals[ti].input.get(&ls.input) {
                            Some(v) => {
                                hit = v.eq(spec);
                            },
                            None => {},
                        }
                        if hit {
                            self.app_table.vals[ti].input.remove(&ls.input);
                        }
                    },
                    None => {},
                }
            },
            None => {
                proof {
                    assert(false);
                }
            },
        }
        proof {
            lemma_same_keys_index(old(self).app_table, final(self).app_table);
            assert forall|j: int| 0 <= j < final(self).app_table.vals@.len() implies (
            #[trigger] final(self).app_table.vals@[j]).wf() by {
                assert(old(self).app_table.vals@[j].wf());
            }
            if old(self).link_table.has_key(spec@) {
                let ii = old(self).link_table.key_index(spec@);
                crate::table::lemma_table_index_facts(old(self).link_table);
                assert(final(self).link_table.keys_view() =~= old(self).link_table.keys_view().remove(ii)) by {
                    assert(views(old(self).link_table.keys@.remove(ii)) =~= views(
                        old(self).link_table.keys@,
                    ).remove(ii));
                }
                assert forall|i: int| 0 <= i < final(self).link_table.spec_len() implies
                    spec_well_formed(#[trigger] final(self).link_table.keys_view()[i]) by {
                    let i0 = if i < ii { i } else { i + 1 };
                    assert(final(self).link_table.keys_view()[i] == old(self).link_table.keys_view()[i0]);
                }
                assert forall|i: int| 0 <= i < final(self).link_table.vals@.len() implies
                    crate::link::link_wf(#[trigger] final(self).link_table.vals@[i]) by {
                    let i0 = if i < ii { i } else { i + 1 };
                    assert(final(self).link_table.vals@[i] == old(self).link_table.vals@[i0]);
                }
            }
            assert forall|q: Seq<char>| old(self).app_table.has_key(q) implies app_core_eq(
                #[trigger] final(self).app_table.spec_get(q),
                old(self).app_table.spec_get(q),
            ) && tbl_subset(
                final(self).app_table.spec_get(q).output,
                old(self).app_table.spec_get(q).output,
            ) && tbl_subset(
                final(self).app_table.spec_get(q).input,
                old(self).app_table.spec_get(q).input,
            ) by {
                let j = old(self).app_table.key_index(q);
                crate::table::lemma_table_index_facts(old(self).app_table);
                crate::table::lemma_table_index_facts(final(self).app_table);
            }
            if old(self).bindings_consistent() {
                assert forall|ai: int, si: int|
                    0 <= ai < final(self).app_table.vals@.len() && 0 <= si < final(self).app_table.vals@[ai].output.vals@.len() implies binding_ok(
                    final(self).link_table,
                    final(self).app_table.keys_view()[ai],
                    final(self).app_table.vals@[ai].output.keys_view()[si],
                    (#[trigger] final(self).app_table.vals@[ai].output.vals@[si])@,
                    true,
                ) by {
                    let name = final(self).app_table.keys_view()[ai];
                    let t1 = final(self).app_table.vals@[ai].output;
                    let t0 = old(self).app_table.vals@[ai].output;
                    let sk = t1.keys_view()[si];
                    let k = t1.vals@[si]@;
                    crate::table::lemma_table_index_facts(t1);
                    crate::table::lemma_table_index_facts(t0);
                    crate::table::lemma_table_index_facts(old(self).app_table);
                    crate::table::lemma_table_index_facts(final(self).app_table);
                    assert(t1.has_key(sk) && t1.spec_get(sk) == t1.vals@[si]);
                    assert(t0.has_key(sk) && t0.spec_get(sk) == t1.vals@[si]);
                    let s0 = t0.key_index(sk);
                    assert(binding_ok(
                        old(self).link_table,
                        old(self).app_table.keys_view()[ai],
                        t0.keys_view()[s0],
                        t0.vals@[s0]@,
                        true,
                    ));
                    assert(k != spec@) by {
                        if k == spec@ {
                            crate::linkspec::lemma_spec_parse(spec@);
                            assert(name == spec_parse(spec@).0);
                            assert(sk == spec_parse(spec@).1);
                        }
                    }
                }
                assert forall|ai: int, si: int|
                    0 <= ai < final(self).app_table.vals@.len() && 0 <= si < final(self).app_table.vals@[ai].input.vals@.len() implies binding_ok(
                    final(self).link_table,
                    final(self).app_table.keys_view()[ai],
                    final(self).app_table.vals@[ai].input.keys_view()[si],
                    (#[trigger] final(self).app_table.vals@[ai].input.vals@[si])@,
                    false,
                ) by {
                    let name = final(self).app_table.keys_view()[ai];
                    let t1 = final(self).app_table.vals@[ai].input;
                    let t0 = old(self).app_table.vals@[ai].input;
                    let sk = t1.keys_view()[si];
                    let k = t1.vals@[si]@;
                    crate::table::lemma_table_index_facts(t1);
                    crate::table::lemma_table_index_facts(t0);
                    crate::table::lemma_table_index_facts(old(self).app_table);
                    crate::table::lemma_table_index_facts(final(self).app_table);
                    assert(t1.has_key(sk) && t1.spec_get(sk) == t1.vals@[si]);
                    assert(t0.has_key(sk) && t0.spec_get(sk) == t1.vals@[si]);
                    let s0 = t0.key_index(sk);
                    assert(binding_ok(
                        old(self).link_table,
                        old(self).app_table.keys_view()[ai],
                        t0.keys_view()[s0],
                        t0.vals@[s0]@,
                        false,
                    ));
                    assert(k != spec@) by {
                        if k == spec@ {
                            crate::linkspec::lemma_spec_parse(spec@);
                            assert(name == spec_parse(spec@).2);
                            assert(sk == spec_parse(spec@).3);
                        }
                    }
                }
            }
        }
    }
}

/// Tables with equal keys have equal key indexes and membership.
pub proof fn lemma_same_keys_index<U, W>(t0: Table<U>, t1: Table<W>)
    requires
        t0.keys_view() == t1.keys_view(),
    ensures
        forall|q: Seq<char>| t0.has_key(q) <==> t1.has_key(q),
        forall|q: Seq<char>| #[trigger] t0.key_index(q) == t1.key_index(q),
{
}


impl<A: App, C: AppConfig<A>> EngineState<A, C> {
    /// Ensure a link exists for `spec` (creating a fresh empty one if absent)
    /// and bind the producer's output slot and the consumer's input slot to
    /// it. Fails, changing nothing, when the spec is malformed or an endpoint
    /// app is missing.
    pub fn link_apps(&mut self, spec: &String) -> (ok: bool)
        requires
            old(self).wf(),
        ensures
            final(self).wf(),
            ok == (spec_well_formed(spec@) && old(self).app_table.has_key(spec_parse(spec@).0)
                && old(self).app_table.has_key(spec_parse(spec@).2)),
            !ok ==> *final(self) == *old(self),
            ok ==> ({
                let p = spec_parse(spec@);
                &&& (forall|q: Seq<char>|
                    final(self).link_table.has_key(q) <==> (old(self).link_table.has_key(q) || q
                        == spec@))
                &&& (forall|q: Seq<char>|
                    old(self).link_table.has_key(q) ==> #[trigger] final(self).link_table.spec_get(
                        q,
                    ) == old(self).link_table.spec_get(q))
                &&& (!old(self).link_table.has_key(spec@) ==> ({
                    let l = final(self).link_table.spec_get(spec@);
                    l.packets@.len() == 0 && l.txpackets == 0 && l.txdrop == 0 && l.rxpackets == 0
                }))
                &&& final(self).app_table.keys_view() == old(self).app_table.keys_view()
                &&& (forall|q: Seq<char>|
                    final(self).app_table.has_key(q) <==> old(self).app_table.has_key(q))
                &&& (forall|q: Seq<char>|
                    old(self).app_table.has_key(q) ==> app_core_eq(
                        #[trigger] final(self).app_table.spec_get(q),
                        old(self).app_table.spec_get(q),
                    ))
                &&& final(self).app_table.spec_get(p.0).output.has_key(p.1)
                &&& final(self).app_table.spec_get(p.0).output.spec_get(p.1)@ == spec@
                &&& final(self).app_table.spec_get(p.2).input.has_key(p.3)
                &&& final(self).app_table.spec_get(p.2).input.spec_get(p.3)@ == spec@
                &&& (forall|q: Seq<char>|
                    old(self).app_table.has_key(q) ==> tbl_except(
                        (#[trigger] final(self).app_table.spec_get(q)).output,
                        old(self).app_table.spec_get(q).output,
                        p.1,
                    ) && tbl_except(
                        final(self).app_table.spec_get(q).input,
                        old(self).app_table.spec_get(q).input,
                        p.3,
                    ))
                &&& (forall|q: Seq<char>|
                    old(self).app_table.has_key(q) && q != p.0 ==> (#[trigger] final(self).app_table.spec_get(q)).output == old(self).app_table.spec_get(q).output)
                &&& (forall|q: Seq<char>|
                    old(self).app_table.has_key(q) && q != p.2 ==> (#[trigger] final(self).app_table.spec_get(q)).input == old(self).app_table.spec_get(q).input)
            }),
            final(self).inhale@ == old(self).inhale@,
            final(self).exhale@ == old(self).exhale@,
            old(self).bindings_consistent() ==> final(self).bindings_consistent(),
    {
        let parsed = match parse_link(spec.as_str()) {
            Some(ls) => ls,
            None => {
                return false;
            },
        };
        let fi: usize = match self.app_table.index_of(&parsed.from) {
            Some(i) => i,
            None => {
                return false;
            },
        };
        let ti: usize = match self.app_table.index_of(&parsed.to) {
            Some(i) => i,
            None => {
                return false;
            },
        };
        proof {
            crate::table::lemma_table_index_facts(old(self).app_table);
        }
        if !self.link_table.contains(spec) {
            self.link_table.insert(spec.clone(), Link::new());
            proof {
                assert forall|i: int| 0 <= i < self.link_table.spec_len() implies spec_well_formed(
                    #[trigger] self.link_table.keys_view()[i],
                ) by {
                    assert(self.link_table.keys_view() =~= old(self).link_table.keys_view().push(
                        spec@,
                    ));
                    if i < old(self).link_table.spec_len() {
                        assert(self.link_table.keys_view()[i] == old(self).link_table.keys_view()[
                            i
                        ]);
                    }
                }
                assert forall|i: int| 0 <= i < self.link_table.vals@.len() implies
                    crate::link::link_wf(#[trigger] self.link_table.vals@[i]) by {
                    if i < old(self).link_table.vals@.len() {
                        assert(self.link_table.vals@[i] == old(self).link_table.vals@[i]);
                    }
                }
            }
        }
        let ghost mid = *self;
        proof {
            assert(self.app_table.vals@[fi as int].wf());
            assert(self.app_table.vals@[ti as int].wf());
        }
        self.app_table.vals[fi].output.insert(parsed.output.clone(), spec.clone());
        let ghost mid2 = *self;
        self.app_table.vals[ti].input.insert(parsed.input.clone(), spec.clone());
        proof {
            crate::table::lemma_table_index_facts(final(self).app_table);
            crate::table::lemma_table_index_facts(old(self).app_table);
            let p = spec_parse(spec@);
            let fii = fi as int;
            let tii = ti as int;
            assert(final(self).app_table.keys_view() =~= old(self).app_table.keys_view());
            assert forall|j: int| 0 <= j < final(self).app_table.vals@.len() implies (
            #[trigger] final(self).app_table.vals@[j]).wf() by {
                if j != fii && j != tii {
                    assert(final(self).app_table.vals@[j] == old(self).app_table.vals@[j]);
                }
            }
            assert(final(self).app_table.spec_get(p.0) == final(self).app_table.vals@[fii]);
            assert(final(self).app_table.spec_get(p.2) == final(self).app_table.vals@[tii]);
            assert(final(self).app_table.vals@[fii].output.spec_get(p.1)@ == spec@);
            assert(final(self).app_table.vals@[tii].input.spec_get(p.3)@ == spec@);
            if old(self).bindings_consistent() {
                assert forall|ai: int, si: int|
                    0 <= ai < final(self).app_table.vals@.len() && 0 <= si < final(self).app_table.vals@[ai].output.vals@.len() implies binding_ok(
                    final(self).link_table,
                    final(self).app_table.keys_view()[ai],
                    final(self).app_table.vals@[ai].output.keys_view()[si],
                    (#[trigger] final(self).app_table.vals@[ai].output.vals@[si])@,
                    true,
                ) by {
                    let name = final(self).app_table.keys_view()[ai];
                    let t1 = final(self).app_table.vals@[ai].output;
                    let t0 = old(self).app_table.vals@[ai].output;
                    let sk = t1.keys_view()[si];
                    let k = t1.vals@[si]@;
                    crate::table::lemma_table_index_facts(t1);
                    crate::table::lemma_table_index_facts(t0);
                    assert(t1.has_key(sk) && t1.spec_get(sk) == t1.vals@[si]);
                    if ai == fii && sk == p.1 {
                        assert(k == spec@);
                        crate::linkspec::lemma_spec_parse(spec@);
                    } else {
                        assert(t0.has_key(sk) && t0.spec_get(sk) == t1.vals@[si]);
                        let s0 = t0.key_index(sk);
                        assert(binding_ok(
                            old(self).link_table,
                            old(self).app_table.keys_view()[ai],
                            t0.keys_view()[s0],
                            t0.vals@[s0]@,
                            true,
                        ));
                    }
                }
                assert forall|ai: int, si: int|
                    0 <= ai < final(self).app_table.vals@.len() && 0 <= si < final(self).app_table.vals@[ai].input.vals@.len() implies binding_ok(
                    final(self).link_table,
                    final(self).app_table.keys_view()[ai],
                    final(self).app_table.vals@[ai].input.keys_view()[si],
                    (#[trigger] final(self).app_table.vals@[ai].input.vals@[si])@,
                    false,
                ) by {
                    let name = final(self).app_table.keys_view()[ai];
                    let t1 = final(self).app_table.vals@[ai].input;
                    let t0 = old(self).app_table.vals@[ai].input;
                    let sk = t1.keys_view()[si];
                    let k = t1.vals@[si]@;
                    crate::table::lemma_table_index_facts(t1);
                    crate::table::lemma_table_index_facts(t0);
                    assert(t1.has_key(sk) && t1.spec_get(sk) == t1.vals@[si]);
                    if ai == tii && sk == p.3 {
                        assert(k == spec@);
                        crate::linkspec::lemma_spec_parse(spec@);
                    } else {
                        assert(t0.has_key(sk) && t0.spec_get(sk) == t1.vals@[si]);
                        let s0 = t0.key_index(sk);
                        assert(binding_ok(
                            old(self).link_table,
                            old(self).app_table.keys_view()[ai],
                            t0.keys_view()[s0],
                            t0.vals@[s0]@,
                            false,
                        ));
                    }
                }
            }
        }
        true
    }
}

} // verus!
