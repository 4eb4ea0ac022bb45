//! Engine-wide laws, stated over the reconciliation relation and the planner
//! model that `configure` establishes.

use vstd::prelude::*;
use crate::apps::App;
use crate::apps::AppConfig;
use crate::apps::AppState;
use crate::apps::Config;
use crate::names::le_fn;
use crate::planner::feeds;
use crate::planner::has_edge;
use crate::planner::is_pull;
use crate::planner::is_push;
use crate::planner::scheduled;
use crate::linkspec::spec_parse;
use crate::linkspec::spec_well_formed;
use crate::names::views;
use crate::reconcile::reconciled;
use crate::reconcile::retained;
use crate::state::app_core_eq;
use crate::state::EngineState;
use crate::table::Table;

verus! {

/// Law: configuring twice with the same configuration yields the same
/// registries as configuring once. Every app of the once-configured state is
/// kept whole (same instance, configuration and capabilities), and every link
/// keeps its counters.
pub proof fn lemma_configure_idempotent<A: App, C: AppConfig<A>>(
    s0: EngineState<A, C>,
    c: &Config<C>,
    s1: EngineState<A, C>,
    s2: EngineState<A, C>,
)
    requires
        reconciled(s0, c, s1),
        reconciled(s1, c, s2),
    ensures
        forall|n: Seq<char>| s2.app_table.has_key(n) <==> s1.app_table.has_key(n),
        forall|n: Seq<char>|
            s1.app_table.has_key(n) ==> app_core_eq(
                #[trigger] s2.app_table.spec_get(n),
                s1.app_table.spec_get(n),
            ),
        forall|k: Seq<char>| s2.link_table.has_key(k) <==> s1.link_table.has_key(k),
        forall|k: Seq<char>|
            s1.link_table.has_key(k) ==> #[trigger] s2.link_table.spec_get(k)
                == s1.link_table.spec_get(k),
{
    assert forall|n: Seq<char>| s2.app_table.has_key(n) <==> s1.app_table.has_key(n) by {
        assert(s2.app_table.has_key(n) <==> c.apps.has_key(n));
        assert(s1.app_table.has_key(n) <==> c.apps.has_key(n));
    }
    assert forall|k: Seq<char>| s2.link_table.has_key(k) <==> s1.link_table.has_key(k) by {
        assert(s2.link_table.has_key(k) <==> c.links_view().contains(k));
        assert(s1.link_table.has_key(k) <==> c.links_view().contains(k));
    }
    assert forall|n: Seq<char>| s1.app_table.has_key(n) implies app_core_eq(
        #[trigger] s2.app_table.spec_get(n),
        s1.app_table.spec_get(n),
    ) by {
        assert(c.apps.has_key(n));
        assert(s1.app_table.spec_get(n).conf.id() == c.apps.spec_get(n).id());
        assert(retained(s1, c, n));
    }
    assert forall|k: Seq<char>| s1.link_table.has_key(k) implies #[trigger] s2.link_table.spec_get(
        k,
    ) == s1.link_table.spec_get(k) by {
        assert(c.links_view().contains(k));
    }
}

/// Law: after reconfiguring with a configuration that shares no app names
/// with the previous one, the app set is exactly the new configuration's, and
/// nothing was retained: every app of the new network was started fresh.
pub proof fn lemma_configure_disjoint<A: App, C: AppConfig<A>>(
    s0: EngineState<A, C>,
    c1: &Config<C>,
    s1: EngineState<A, C>,
    c2: &Config<C>,
    s2: EngineState<A, C>,
)
    requires
        reconciled(s0, c1, s1),
        reconciled(s1, c2, s2),
        forall|n: Seq<char>| !(c1.apps.has_key(n) && c2.apps.has_key(n)),
    ensures
        forall|n: Seq<char>| s2.app_table.has_key(n) <==> c2.apps.has_key(n),
        forall|n: Seq<char>| !retained(s1, c2, n),
{
    assert forall|n: Seq<char>| !retained(s1, c2, n) by {
        if retained(s1, c2, n) {
            assert(s1.app_table.has_key(n));
            assert(c1.apps.has_key(n));
            assert(c2.apps.has_key(n));
        }
    }
}

/// Law: the inhale order is a deterministic function of the app registry:
/// planning twice over equal registries yields equal inhale sequences.
pub proof fn lemma_inhale_deterministic<A, C>(
    t1: Table<AppState<A, C>>,
    t2: Table<AppState<A, C>>,
    i1: Seq<String>,
    i2: Seq<String>,
)
    requires
        views(i1) == crate::planner::pull_names(t1).sort_by(le_fn()),
        views(i2) == crate::planner::pull_names(t2).sort_by(le_fn()),
        t1 == t2,
    ensures
        views(i1) == views(i2),
{
}


/// Two app registries agree for planning purposes: same names, same
/// capabilities per name.
pub open spec fn caps_agree<A: App, C: AppConfig<A>>(
    t1: Table<AppState<A, C>>,
    t2: Table<AppState<A, C>>,
) -> bool {
    &&& (forall|n: Seq<char>| t1.has_key(n) <==> t2.has_key(n))
    &&& (forall|n: Seq<char>|
        t1.has_key(n) ==> (#[trigger] t1.spec_get(n)).caps == t2.spec_get(n).caps)
}

proof fn lemma_feeds_equiv<A: App, C: AppConfig<A>>(
    t1: Table<AppState<A, C>>,
    t2: Table<AppState<A, C>>,
    k1: Seq<Seq<char>>,
    k2: Seq<Seq<char>>,
    n: Seq<char>,
    k: nat,
)
    requires
        caps_agree(t1, t2),
        forall|q: Seq<char>| k1.contains(q) <==> k2.contains(q),
        feeds(t1, k1, n, k),
    ensures
        feeds(t2, k2, n, k),
    decreases k,
{
    let m = choose|m: Seq<char>|
        #[trigger] has_edge(k1, m, n) && (is_pull(t1, m) || (is_push(t1, m) && !is_pull(t1, m)
            && feeds(t1, k1, m, (k - 1) as nat)));
    assert(has_edge(k2, m, n)) by {
        let li = choose|li: int|
            0 <= li < k1.len() && spec_well_formed(#[trigger] k1[li]) && spec_parse(k1[li]).0 == m
                && spec_parse(k1[li]).2 == n;
        assert(k1.contains(k1[li]));
        assert(k2.contains(k1[li]));
        let lj = choose|lj: int| 0 <= lj < k2.len() && k2[lj] == k1[li];
        assert(spec_well_formed(#[trigger] k2[lj]) && spec_parse(k2[lj]).0 == m && spec_parse(
            k2[lj],
        ).2 == n);
    }
    assert(is_pull(t1, m) == is_pull(t2, m) && is_push(t1, m) == is_push(t2, m)) by {
        if t1.has_key(m) {
            assert(t1.spec_get(m).caps == t2.spec_get(m).caps);
        }
    }
    if is_pull(t1, m) {
    } else {
        lemma_feeds_equiv(t1, t2, k1, k2, m, (k - 1) as nat);
    }
}

/// Law: the planner's scheduling target is a function of the registries:
/// app registries that agree on names and capabilities, over link registries
/// holding the same specs, schedule exactly the same apps into exhale.
pub proof fn lemma_exhale_membership_deterministic<A: App, C: AppConfig<A>>(
    t1: Table<AppState<A, C>>,
    t2: Table<AppState<A, C>>,
    k1: Seq<Seq<char>>,
    k2: Seq<Seq<char>>,
)
    requires
        caps_agree(t1, t2),
        forall|q: Seq<char>| k1.contains(q) <==> k2.contains(q),
    ensures
        forall|n: Seq<char>| scheduled(t1, k1, n) <==> scheduled(t2, k2, n),
{
    assert forall|n: Seq<char>| scheduled(t1, k1, n) <==> scheduled(t2, k2, n) by {
        assert(is_pull(t1, n) == is_pull(t2, n) && is_push(t1, n) == is_push(t2, n)) by {
            if t1.has_key(n) {
                assert(t1.spec_get(n).caps == t2.spec_get(n).caps);
            }
        }
        if scheduled(t1, k1, n) {
            let k = choose|k: nat| feeds(t1, k1, n, k);
            lemma_feeds_equiv(t1, t2, k1, k2, n, k);
        }
        if scheduled(t2, k2, n) {
            let k = choose|k: nat| feeds(t2, k2, n, k);
            lemma_feeds_equiv(t2, t1, k2, k1, n, k);
        }
    }
}

/// Law: configuring twice with one configuration leaves the scheduling
/// target unchanged, so the two states' exhale orders hold the same apps.
pub proof fn lemma_configure_idempotent_exhale<A: App, C: AppConfig<A>>(
    s0: EngineState<A, C>,
    c: &Config<C>,
    s1: EngineState<A, C>,
    s2: EngineState<A, C>,
)
    requires
        reconciled(s0, c, s1),
        reconciled(s1, c, s2),
        forall|q: Seq<char>|
            views(s1.exhale@).contains(q) <==> scheduled(
                s1.app_table,
                s1.link_table.keys_view(),
                q,
            ),
        forall|q: Seq<char>|
            views(s2.exhale@).contains(q) <==> scheduled(
                s2.app_table,
                s2.link_table.keys_view(),
                q,
            ),
    ensures
        forall|q: Seq<char>| views(s2.exhale@).contains(q) <==> views(s1.exhale@).contains(q),
{
    lemma_configure_idempotent(s0, c, s1, s2);
    assert(caps_agree(s1.app_table, s2.app_table)) by {
        assert forall|n: Seq<char>| s1.app_table.has_key(n) implies (
        #[trigger] s1.app_table.spec_get(n)).caps == s2.app_table.spec_get(n).caps by {
            assert(app_core_eq(s2.app_table.spec_get(n), s1.app_table.spec_get(n)));
        }
    }
    assert forall|q: Seq<char>|
        s1.link_table.keys_view().contains(q) <==> s2.link_table.keys_view().contains(q) by {
        assert(s1.link_table.has_key(q) <==> c.links_view().contains(q));
        assert(s2.link_table.has_key(q) <==> c.links_view().contains(q));
    }
    lemma_exhale_membership_deterministic(
        s1.app_table,
        s2.app_table,
        s1.link_table.keys_view(),
        s2.link_table.keys_view(),
    );
}

} // verus!
