//! The order planner: computes the deterministic inhale and exhale sequences
//! from the app capabilities and the link graph. Inhale is the sorted list of
//! pull-capable apps. Exhale schedules push-capable apps reachable from the
//! inhalers, each at most once, delaying an app after the apps that feed it
//! where possible and breaking cycles by keeping the lexicographically
//! smallest candidate.

use vstd::prelude::*;
use vstd::relations::sorted_by;
use crate::apps::AppState;
use crate::link::Link;
use crate::linkspec::parse_link;
use crate::linkspec::spec_parse;
use crate::linkspec::spec_well_formed;
use crate::names::contains_name;
use crate::names::le_fn;
use crate::names::lemma_le_total_ordering;
use crate::names::lemma_seq_le_trans;
use crate::names::lemma_seq_lt_total;
use crate::names::seq_le;
use crate::names::sorted_insert;
use crate::names::str_lt;
use crate::names::views;
use crate::state::EngineState;
use crate::table::Table;

verus! {

/// The names of the pull-capable apps among the first `n` table entries, in
/// table order.
pub open spec fn pull_names_upto<A, C>(t: Table<AppState<A, C>>, n: int) -> Seq<Seq<char>>
    decreases n,
{
    if n <= 0 {
        Seq::empty()
    } else if t.vals@[n - 1].caps.pull {
        pull_names_upto(t, n - 1).push(t.keys_view()[n - 1])
    } else {
        pull_names_upto(t, n - 1)
    }
}

/// The names of all pull-capable apps, in table order.
pub open spec fn pull_names<A, C>(t: Table<AppState<A, C>>) -> Seq<Seq<char>> {
    pull_names_upto(t, t.vals@.len() as int)
}

/// An app is present and advertises the push capability.
pub open spec fn is_push<A, C>(t: Table<AppState<A, C>>, n: Seq<char>) -> bool {
    t.has_key(n) && t.spec_get(n).caps.push
}

/// An app is present and advertises the pull capability.
pub open spec fn is_pull<A, C>(t: Table<AppState<A, C>>, n: Seq<char>) -> bool {
    t.has_key(n) && t.spec_get(n).caps.pull
}

/// Some registered link runs from app `f` to app `t`.
pub open spec fn has_edge(keys: Seq<Seq<char>>, f: Seq<char>, t: Seq<char>) -> bool {
    exists|li: int|
        0 <= li < keys.len() && spec_well_formed(#[trigger] keys[li]) && spec_parse(keys[li]).0 == f
            && spec_parse(keys[li]).2 == t
}

/// Pushing a name onto a vector pushes its view; membership and
/// duplicate-freedom follow.
pub proof fn lemma_views_push_pub(s: Seq<String>, x: String)
    ensures
        views(s.push(x)) =~= views(s).push(x@),
        forall|q: Seq<char>|
            views(s.push(x)).contains(q) <==> (views(s).contains(q) || q == x@),
        views(s).no_duplicates() && !views(s).contains(x@) ==> views(s.push(x)).no_duplicates(),
{
    let w = views(s.push(x));
    let vs = views(s);
    assert(w =~= vs.push(x@));
    assert forall|q: Seq<char>| w.contains(q) implies (vs.contains(q) || q == x@) by {
        let m = choose|m: int| 0 <= m < w.len() && w[m] == q;
        if m < vs.len() {
            assert(vs[m] == q);
        }
    }
    assert forall|q: Seq<char>| vs.contains(q) implies w.contains(q) by {
        let m = choose|m: int| 0 <= m < vs.len() && vs[m] == q;
        assert(w[m] == q);
    }
    assert(w[vs.len() as int] == x@);
    if vs.no_duplicates() && !vs.contains(x@) {
        assert forall|p: int, q: int| 0 <= p < w.len() && 0 <= q < w.len() && p != q implies w[p]
            != w[q] by {
            if p < vs.len() && q < vs.len() {
            } else if p == vs.len() {
                assert(vs.contains(vs[q]));
            } else if q == vs.len() {
                assert(vs.contains(vs[p]));
            }
        }
    }
}

/// Membership in a concatenation is membership in either part.
proof fn lemma_concat_contains(a: Seq<Seq<char>>, b: Seq<Seq<char>>)
    ensures
        forall|q: Seq<char>| #[trigger] (a + b).contains(q) <==> (a.contains(q) || b.contains(q)),
{
    assert forall|q: Seq<char>| #[trigger] (a + b).contains(q) <==> (a.contains(q) || b.contains(
        q,
    )) by {
        if (a + b).contains(q) {
            let w = choose|w: int| 0 <= w < (a + b).len() && (a + b)[w] == q;
            if w < a.len() {
                assert(a[w] == q);
            } else {
                assert(b[w - a.len()] == q);
            }
        }
        if a.contains(q) {
            let w = choose|w: int| 0 <= w < a.len() && a[w] == q;
            assert((a + b)[w] == q);
        }
        if b.contains(q) {
            let w = choose|w: int| 0 <= w < b.len() && b[w] == q;
            assert((a + b)[w + a.len()] == q);
        }
    }
}

/// `pull_names` holds exactly the pull-capable apps, each once.
pub proof fn lemma_pull_names_upto<A, C>(t: Table<AppState<A, C>>, n: int)
    requires
        t.wf(),
        0 <= n <= t.vals@.len(),
    ensures
        pull_names_upto(t, n).no_duplicates(),
        forall|q: Seq<char>|
            pull_names_upto(t, n).contains(q) <==> exists|j: int|
                0 <= j < n && #[trigger] t.keys_view()[j] == q && t.vals@[j].caps.pull,
    decreases n,
{
    if n > 0 {
        lemma_pull_names_upto(t, n - 1);
        let prev = pull_names_upto(t, n - 1);
        let cur = pull_names_upto(t, n);
        if t.vals@[n - 1].caps.pull {
            let k = t.keys_view()[n - 1];
            assert(!prev.contains(k)) by {
                if prev.contains(k) {
                    let j = choose|j: int|
                        0 <= j < n - 1 && #[trigger] t.keys_view()[j] == k && t.vals@[j].caps.pull;
                    assert(t.keys_view()[j] != t.keys_view()[n - 1]);
                }
            }
            assert(cur.no_duplicates());
            assert forall|q: Seq<char>| cur.contains(q) implies exists|j: int|
                0 <= j < n && #[trigger] t.keys_view()[j] == q && t.vals@[j].caps.pull by {
                let m = choose|m: int| 0 <= m < cur.len() && cur[m] == q;
                if m < prev.len() {
                    assert(prev.contains(q));
                } else {
                    assert(t.keys_view()[n - 1] == q && t.vals@[n - 1].caps.pull);
                }
            }
            assert forall|q: Seq<char>|
                (exists|j: int|
                    0 <= j < n && #[trigger] t.keys_view()[j] == q && t.vals@[j].caps.pull) implies
                cur.contains(q) by {
                let j = choose|j: int|
                    0 <= j < n && #[trigger] t.keys_view()[j] == q && t.vals@[j].caps.pull;
                if j < n - 1 {
                    assert(prev.contains(q));
                    let m = choose|m: int| 0 <= m < prev.len() && prev[m] == q;
                    assert(cur[m] == q);
                } else {
                    assert(cur[cur.len() - 1] == q);
                }
            }
        } else {
            assert forall|q: Seq<char>|
                (exists|j: int|
                    0 <= j < n && #[trigger] t.keys_view()[j] == q && t.vals@[j].caps.pull) implies
                cur.contains(q) by {
                let j = choose|j: int|
                    0 <= j < n && #[trigger] t.keys_view()[j] == q && t.vals@[j].caps.pull;
                assert(j < n - 1);
            }
        }
    }
}

/// Whether some registered link runs from `f` to `t`.
fn edge_exists(links: &Table<Link>, f: &String, t: &String) -> (r: bool)
    ensures
        r == has_edge(links.keys_view(), f@, t@),
{
    let n: usize = links.keys.len();
    let mut li: usize = 0;
    while li < n
        invariant
            li <= n,
            n == links.keys@.len(),
            forall|j: int|
                0 <= j < li ==> !(spec_well_formed(#[trigger] links.keys_view()[j]) && spec_parse(
                    links.keys_view()[j],
                ).0 == f@ && spec_parse(links.keys_view()[j]).2 == t@),
        decreases n - li,
    {
        proof {
            assert(links.keys_view()[li as int] == links.keys@[li as int]@);
        }
        match parse_link(links.keys[li].as_str()) {
            Some(ls) => {
                if ls.from.eq(f) && ls.to.eq(t) {
                    return true;
                }
            },
            None => {},
        }
        li = li + 1;
    }
    proof {
        if has_edge(links.keys_view(), f@, t@) {
            let j = choose|j: int|
                0 <= j < links.keys_view().len() && spec_well_formed(
                    #[trigger] links.keys_view()[j],
                ) && spec_parse(links.keys_view()[j]).0 == f@ && spec_parse(links.keys_view()[j]).2
                    == t@;
        }
    }
    false
}

/// A dependent should wait when another distinct, still unresolved dependent
/// feeds it through some link.
pub open spec fn spec_deferred(
    x: Seq<char>,
    dv: Seq<Seq<char>>,
    rv: Seq<Seq<char>>,
    keys: Seq<Seq<char>>,
) -> bool {
    exists|j: int|
        0 <= j < dv.len() && #[trigger] dv[j] != x && !rv.contains(dv[j]) && has_edge(
            keys,
            dv[j],
            x,
        )
}

fn is_deferred(x: &String, d: &Vec<String>, resolved: &Vec<String>, links: &Table<Link>) -> (r:
    bool)
    ensures
        r == spec_deferred(x@, views(d@), views(resolved@), links.keys_view()),
{
    let n: usize = d.len();
    let mut j: usize = 0;
    while j < n
        invariant
            j <= n,
            n == d@.len(),
            forall|m: int|
                0 <= m < j ==> !(#[trigger] views(d@)[m] != x@ && !views(resolved@).contains(
                    views(d@)[m],
                ) && has_edge(links.keys_view(), views(d@)[m], x@)),
        decreases n - j,
    {
        proof {
            assert(views(d@)[j as int] == d@[j as int]@);
        }
        if !d[j].eq(x) && !contains_name(resolved, &d[j]) && edge_exists(links, &d[j], x) {
            return true;
        }
        j = j + 1;
    }
    proof {
        if spec_deferred(x@, views(d@), views(resolved@), links.keys_view()) {
            let j = choose|j: int|
                0 <= j < views(d@).len() && #[trigger] views(d@)[j] != x@ && !views(
                    resolved@,
                ).contains(views(d@)[j]) && has_edge(links.keys_view(), views(d@)[j], x@);
        }
    }
    false
}

/// The lexicographically smallest name in a non-empty vector.
fn lex_min(d: &Vec<String>) -> (r: String)
    requires
        d@.len() > 0,
    ensures
        views(d@).contains(r@),
        forall|q: Seq<char>| views(d@).contains(q) ==> seq_le(r@, q),
{
    let mut best: String = d[0].clone();
    proof {
        assert(views(d@)[0] == d@[0]@);
    }
    let mut i: usize = 1;
    while i < d.len()
        invariant
            1 <= i <= d@.len(),
            views(d@).contains(best@),
            forall|j: int| 0 <= j < i ==> seq_le(best@, #[trigger] views(d@)[j]),
        decreases d@.len() - i,
    {
        proof {
            assert(views(d@)[i as int] == d@[i as int]@);
        }
        if str_lt(&d[i], &best) {
            let ghost prev = best@;
            best = d[i].clone();
            proof {
                assert forall|j: int| 0 <= j < i + 1 implies seq_le(
                    best@,
                    #[trigger] views(d@)[j],
                ) by {
                    if j < i {
                        lemma_seq_le_trans(best@, prev, views(d@)[j]);
                    }
                }
            }
        } else {
            proof {
                lemma_seq_lt_total(d@[i as int]@, best@);
            }
        }
        i = i + 1;
    }
    proof {
        assert forall|q: Seq<char>| views(d@).contains(q) implies seq_le(best@, q) by {
            let j = choose|j: int| 0 <= j < views(d@).len() && views(d@)[j] == q;
        }
    }
    best
}

/// A link whose consumer the planner may schedule: the spec is well-formed
/// and the consumer pushes without pulling (inhalers never re-enter exhale,
/// so each app appears at most once across the two orders).
pub open spec fn sched_edge<A, C>(t: Table<AppState<A, C>>, k: Seq<char>) -> bool {
    spec_well_formed(k) && is_push(t, spec_parse(k).2) && !is_pull(t, spec_parse(k).2)
}

/// `n` is fed from an inhaler within `k` link hops, along the planner's own
/// walk: the first hop leaves a pull-capable app, every later hop leaves a
/// push-capable non-pull app that is itself fed.
pub open spec fn feeds<A, C>(
    t: Table<AppState<A, C>>,
    keys: Seq<Seq<char>>,
    n: Seq<char>,
    k: nat,
) -> bool
    decreases k,
{
    k > 0 && exists|m: Seq<char>|
        #[trigger] has_edge(keys, m, n) && (is_pull(t, m) || (is_push(t, m) && !is_pull(t, m)
            && feeds(t, keys, m, (k - 1) as nat)))
}

/// The apps the planner schedules into exhale: push-capable apps that do not
/// inhale, fed (directly or transitively) from an inhaler.
pub open spec fn scheduled<A, C>(
    t: Table<AppState<A, C>>,
    keys: Seq<Seq<char>>,
    n: Seq<char>,
) -> bool {
    is_push(t, n) && !is_pull(t, n) && exists|k: nat| feeds(t, keys, n, k)
}

/// Every schedulable consumer of a link leaving an app of `src` is already
/// in `ex` or in the worklist `dv`.
pub open spec fn from_covered<A, C>(
    t: Table<AppState<A, C>>,
    keys: Seq<Seq<char>>,
    src: Seq<Seq<char>>,
    ex: Seq<Seq<char>>,
    dv: Seq<Seq<char>>,
) -> bool {
    forall|li: int|
        0 <= li < keys.len() ==> ((sched_edge(t, #[trigger] keys[li]) && src.contains(
            spec_parse(keys[li]).0,
        )) ==> (ex.contains(spec_parse(keys[li]).2) || dv.contains(spec_parse(keys[li]).2)))
}

/// One hop from a pull app, or from a scheduled app, feeds its consumer.
proof fn lemma_feeds_step<A, C>(
    t: Table<AppState<A, C>>,
    keys: Seq<Seq<char>>,
    m: Seq<char>,
    n: Seq<char>,
)
    requires
        has_edge(keys, m, n),
        is_pull(t, m) || scheduled(t, keys, m),
        is_push(t, n),
        !is_pull(t, n),
    ensures
        scheduled(t, keys, n),
{
    if is_pull(t, m) {
        assert(feeds(t, keys, n, 1));
    } else {
        let k = choose|k: nat| feeds(t, keys, m, k);
        assert(feeds(t, keys, n, k + 1));
    }
}

/// When every pull-sourced link and every exhale-sourced link already has its
/// schedulable consumer in `ex`, everything fed from an inhaler is in `ex`.
proof fn lemma_scheduled_exhaled<A, C>(
    t: Table<AppState<A, C>>,
    keys: Seq<Seq<char>>,
    ex: Seq<Seq<char>>,
    n: Seq<char>,
    k: nat,
)
    requires
        forall|li: int|
            0 <= li < keys.len() ==> ((sched_edge(t, #[trigger] keys[li]) && is_pull(
                t,
                spec_parse(keys[li]).0,
            )) ==> ex.contains(spec_parse(keys[li]).2)),
        forall|li: int|
            0 <= li < keys.len() ==> ((sched_edge(t, #[trigger] keys[li]) && ex.contains(
                spec_parse(keys[li]).0,
            )) ==> ex.contains(spec_parse(keys[li]).2)),
        feeds(t, keys, n, k),
        is_push(t, n),
        !is_pull(t, n),
    ensures
        ex.contains(n),
    decreases k,
{
    let m = choose|m: Seq<char>|
        #[trigger] has_edge(keys, m, n) && (is_pull(t, m) || (is_push(t, m) && !is_pull(t, m)
            && feeds(t, keys, m, (k - 1) as nat)));
    let li = choose|li: int|
        0 <= li < keys.len() && spec_well_formed(#[trigger] keys[li]) && spec_parse(keys[li]).0
            == m && spec_parse(keys[li]).2 == n;
    assert(sched_edge(t, keys[li]));
    if is_pull(t, m) {
    } else {
        lemma_scheduled_exhaled(t, keys, ex, m, (k - 1) as nat);
    }
}

/// Whether the app under `name` is pull-capable.
fn pull_cap<A, C>(t: &Table<AppState<A, C>>, name: &String) -> (r: bool)
    requires
        t.wf(),
    ensures
        r == is_pull(*t, name@),
{
    match t.index_of(name) {
        Some(i) => {
            proof {
                crate::table::lemma_table_index_facts(*t);
            }
            t.vals[i].caps.pull
        },
        None => false,
    }
}

/// Whether the app under `name` is push-capable.
fn push_cap<A, C>(t: &Table<AppState<A, C>>, name: &String) -> (r: bool)
    requires
        t.wf(),
    ensures
        r == is_push(*t, name@),
{
    match t.index_of(name) {
        Some(i) => {
            proof {
                crate::table::lemma_table_index_facts(*t);
            }
            t.vals[i].caps.push
        },
        None => false,
    }
}

impl<A, C> EngineState<A, C> {
    /// Recompute the breathe order from the current registries.
    ///
    /// `inhale` becomes the name-sorted list of pull-capable apps, so it is a
    /// deterministic function of the app registry. `exhale` holds exactly the
    /// push-capable apps that do not inhale and are fed from an inhaler
    /// through the link graph, each exactly once — so no app appears twice
    /// across the two orders. Within exhale, a batch of apps whose feeders
    /// are all resolved is emitted name-sorted at each round; an app is
    /// delayed while an unresolved dependent feeds it, which orders feeders
    /// first on graphs the rounds respect, though not on every acyclic graph
    /// (a consumer seeded directly from an inhaler can precede a feeder that
    /// is farther from the inhalers).
    pub fn compute_breathe_order(&mut self)
        requires
            old(self).wf(),
        ensures
            final(self).wf(),
            final(self).app_table == old(self).app_table,
            final(self).link_table == old(self).link_table,
            final(self).order_wf(),
            sorted_by(views(final(self).inhale@), le_fn()),
            views(final(self).inhale@) == pull_names(old(self).app_table).sort_by(le_fn()),
            views(final(self).inhale@).no_duplicates(),
            forall|q: Seq<char>|
                views(final(self).inhale@).contains(q) <==> is_pull(old(self).app_table, q),
            views(final(self).exhale@).no_duplicates(),
            forall|q: Seq<char>|
                views(final(self).exhale@).contains(q) <==> scheduled(
                    old(self).app_table,
                    old(self).link_table.keys_view(),
                    q,
                ),
            forall|q: Seq<char>|
                views(final(self).exhale@).contains(q) ==> is_push(old(self).app_table, q),
            forall|q: Seq<char>|
                views(final(self).exhale@).contains(q) ==> !views(final(self).inhale@).contains(q),
    {
        let napps: usize = self.app_table.len();
        let ghost t = self.app_table;

        // Inhale: sorted pull-capable app names.
        let mut inhale: Vec<String> = Vec::new();
        proof {
            assert(views(inhale@) =~= pull_names_upto(t, 0));
        }
        let mut i: usize = 0;
        while i < napps
            invariant
                i <= napps,
                napps == t.vals@.len(),
                t == self.app_table,
                self.wf(),
                sorted_by(views(inhale@), le_fn()),
                views(inhale@).to_multiset() == pull_names_upto(t, i as int).to_multiset(),
            decreases napps - i,
        {
            if self.app_table.vals[i].caps.pull {
                let name = self.app_table.keys[i].clone();
                proof {
                    assert(name@ == t.keys_view()[i as int]);
                    pull_names_upto(t, i as int).to_multiset_ensures();
                }
                sorted_insert(&mut inhale, name);
            }
            i = i + 1;
        }
        proof {
            lemma_le_total_ordering();
            pull_names(t).lemma_sort_by_ensures(le_fn());
            vstd::seq_lib::lemma_sorted_unique(
                views(inhale@),
                pull_names(t).sort_by(le_fn()),
                le_fn(),
            );
            lemma_pull_names_upto(t, napps as int);
            pull_names(t).lemma_multiset_has_no_duplicates();
            views(inhale@).to_multiset_ensures();
            pull_names(t).to_multiset_ensures();
            views(inhale@).lemma_multiset_has_no_duplicates_conv();
            crate::table::lemma_table_index_facts(t);
            assert forall|q: Seq<char>| views(inhale@).contains(q) implies is_pull(t, q) by {
                assert(views(inhale@).to_multiset().count(q) > 0);
                assert(pull_names(t).to_multiset().count(q) > 0);
                assert(pull_names(t).contains(q));
                let j = choose|j: int|
                    0 <= j < napps && #[trigger] t.keys_view()[j] == q && t.vals@[j].caps.pull;
            }
            assert forall|q: Seq<char>| is_pull(t, q) implies views(inhale@).contains(q) by {
                let j = t.key_index(q);
                assert(t.keys_view()[j] == q && t.vals@[j].caps.pull);
                assert(pull_names(t).contains(q));
                assert(pull_names(t).to_multiset().count(q) > 0);
                assert(views(inhale@).to_multiset().count(q) > 0);
            }
        }

        // Seed the dependents with the pushing, non-pulling successors of the
        // inhalers.
        let mut d: Vec<String> = Vec::new();
        let mut exhale: Vec<String> = Vec::new();
        let mut resolved: Vec<String> = Vec::new();
        let ghost keys = self.link_table.keys_view();
        let nlinks: usize = self.link_table.len();
        let ghost iv = views(inhale@);
        let mut ii: usize = 0;
        while ii < inhale.len()
            invariant
                ii <= inhale@.len(),
                self.wf(),
                t == self.app_table,
                keys == self.link_table.keys_view(),
                nlinks == keys.len(),
                iv == views(inhale@),
                forall|q: Seq<char>| iv.contains(q) <==> is_pull(t, q),
                views(d@).no_duplicates(),
                forall|q: Seq<char>|
                    views(d@).contains(q) ==> is_push(t, q) && scheduled(t, keys, q),
                from_covered(t, keys, iv.take(ii as int), views(exhale@), views(d@)),
                exhale@.len() == 0,
            decreases inhale@.len() - ii,
        {
            let mut li: usize = 0;
            while li < nlinks
                invariant
                    li <= nlinks,
                    ii < inhale@.len(),
                    self.wf(),
                    t == self.app_table,
                    keys == self.link_table.keys_view(),
                    nlinks == keys.len(),
                    iv == views(inhale@),
                    forall|q: Seq<char>| iv.contains(q) <==> is_pull(t, q),
                    views(d@).no_duplicates(),
                    forall|q: Seq<char>|
                        views(d@).contains(q) ==> is_push(t, q) && scheduled(t, keys, q),
                    from_covered(t, keys, iv.take(ii as int), views(exhale@), views(d@)),
                    forall|li2: int|
                        0 <= li2 < li ==> ((sched_edge(t, #[trigger] keys[li2]) && spec_parse(
                            keys[li2],
                        ).0 == iv[ii as int]) ==> views(d@).contains(spec_parse(keys[li2]).2)),
                    exhale@.len() == 0,
                decreases nlinks - li,
            {
                proof {
                    assert(keys[li as int] == self.link_table.keys@[li as int]@);
                }
                match parse_link(self.link_table.keys[li].as_str()) {
                    Some(ls) => {
                        if ls.from.eq(&inhale[ii]) && push_cap(&self.app_table, &ls.to)
                            && !pull_cap(&self.app_table, &ls.to) && !contains_name(&d, &ls.to) {
                            proof {
                                assert(iv[ii as int] == inhale@[ii as int]@);
                                assert(iv.contains(iv[ii as int]));
                                assert(has_edge(keys, ls.from@, ls.to@)) by {
                                    assert(spec_well_formed(#[trigger] keys[li as int])
                                        && spec_parse(keys[li as int]).0 == ls.from@ && spec_parse(
                                        keys[li as int],
                                    ).2 == ls.to@);
                                }
                                lemma_feeds_step(t, keys, ls.from@, ls.to@);
                                lemma_views_push_pub(d@, ls.to);
                            }
                            d.push(ls.to);
                        } else {
                            proof {
                                assert(iv[ii as int] == inhale@[ii as int]@);
                                if spec_well_formed(keys[li as int]) {
                                    assert(spec_parse(keys[li as int]).0 == ls.from@ && spec_parse(
                                        keys[li as int],
                                    ).2 == ls.to@);
                                }
                            }
                        }
                    },
                    None => {},
                }
                li = li + 1;
            }
            proof {
                assert(iv.take(ii + 1) =~= iv.take(ii as int).push(iv[ii as int]));
                assert forall|li2: int|
                    0 <= li2 < keys.len() implies ((sched_edge(t, #[trigger] keys[li2])
                    && iv.take(ii + 1).contains(spec_parse(keys[li2]).0)) ==> views(d@).contains(
                    spec_parse(keys[li2]).2,
                )) by {
                    if sched_edge(t, keys[li2]) && iv.take(ii + 1).contains(
                        spec_parse(keys[li2]).0,
                    ) {
                        let w = choose|w: int|
                            0 <= w < iv.take(ii + 1).len() && #[trigger] iv.take(ii + 1)[w]
                                == spec_parse(keys[li2]).0;
                        if w < ii {
                            assert(iv.take(ii as int)[w] == spec_parse(keys[li2]).0);
                            assert(iv.take(ii as int).contains(spec_parse(keys[li2]).0));
                        } else {
                            assert(spec_parse(keys[li2]).0 == iv[ii as int]);
                        }
                    }
                }
            }
            ii = ii + 1;
        }
        proof {
            assert(from_covered(t, keys, iv, views(exhale@), views(d@))) by {
                assert(iv.take(inhale@.len() as int) =~= iv);
            }
        }

        // Resolve the inhalers: their outgoing edges no longer defer anyone.
        let mut ri: usize = 0;
        while ri < inhale.len()
            invariant
                ri <= inhale@.len(),
            decreases inhale@.len() - ri,
        {
            resolved.push(inhale[ri].clone());
            ri = ri + 1;
        }

        proof {
            assert(t.keys_view().no_duplicates());
            crate::names::lemma_distinct_subset_len(views(d@), t.keys_view());
            assert(from_covered(t, keys, views(exhale@), views(exhale@), views(d@))) by {
                assert(views(exhale@).len() == 0);
            }
        }
        // Emit sorted batches until no dependents are left.
        while d.len() > 0
            invariant
                self.wf(),
                t == self.app_table,
                keys == self.link_table.keys_view(),
                nlinks == keys.len(),
                iv == views(inhale@),
                forall|q: Seq<char>| iv.contains(q) <==> is_pull(t, q),
                views(d@).no_duplicates(),
                views(exhale@).no_duplicates(),
                forall|q: Seq<char>| views(d@).contains(q) ==> is_push(t, q),
                forall|q: Seq<char>| views(exhale@).contains(q) ==> is_push(t, q),
                forall|q: Seq<char>| views(d@).contains(q) ==> scheduled(t, keys, q),
                forall|q: Seq<char>| views(exhale@).contains(q) ==> scheduled(t, keys, q),
                from_covered(t, keys, iv, views(exhale@), views(d@)),
                from_covered(t, keys, views(exhale@), views(exhale@), views(d@)),
                forall|q: Seq<char>| views(d@).contains(q) ==> !views(exhale@).contains(q),
                exhale@.len() + d@.len() <= t.vals@.len(),
            decreases t.vals@.len() - exhale@.len(),
        {
            let ghost exhale0 = exhale@;
            // Batch: dependents that no other unresolved dependent feeds.
            let mut batch: Vec<String> = Vec::new();
            let dn: usize = d.len();
            let mut j: usize = 0;
            while j < dn
                invariant
                    j <= dn,
                    dn == d@.len(),
                    sorted_by(views(batch@), le_fn()),
                    views(batch@).no_duplicates(),
                    forall|q: Seq<char>| views(batch@).contains(q) ==> views(d@).contains(q),
                    views(d@).no_duplicates(),
                decreases dn - j,
            {
                if !is_deferred(&d[j], &d, &resolved, &self.link_table) {
                    if !contains_name(&batch, &d[j]) {
                        proof {
                            assert(views(d@)[j as int] == d@[j as int]@);
                        }
                        sorted_insert(&mut batch, d[j].clone());
                    }
                }
                j = j + 1;
            }
            if batch.len() == 0 {
                let m = lex_min(&d);
                proof {
                    lemma_views_push_pub(batch@, m);
                }
                batch.push(m);
            }
            // Remove the batch from the dependents.
            let mut d2: Vec<String> = Vec::new();
            let mut m: usize = 0;
            while m < dn
                invariant
                    m <= dn,
                    dn == d@.len(),
                    views(d@).no_duplicates(),
                    views(d2@).no_duplicates(),
                    forall|q: Seq<char>|
                        views(d2@).contains(q) ==> views(d@).contains(q) && !views(
                            batch@,
                        ).contains(q),
                    forall|w: int|
                        0 <= w < m ==> (views(batch@).contains(#[trigger] views(d@)[w]) || views(
                            d2@,
                        ).contains(views(d@)[w])),
                decreases dn - m,
            {
                proof {
                    assert(views(d@)[m as int] == d@[m as int]@);
                }
                if !contains_name(&batch, &d[m]) {
                    if !contains_name(&d2, &d[m]) {
                        proof {
                            lemma_views_push_pub(d2@, d@[m as int]);
                        }
                        d2.push(d[m].clone());
                        proof {
                            assert(d@[m as int]@ == views(d@)[m as int]);
                            assert(views(d2@).contains(views(d@)[m as int]));
                        }
                    }
                }
                m = m + 1;
            }
            // Append the batch to the exhale order and mark it resolved.
            let bn: usize = batch.len();
            let mut b: usize = 0;
            while b < bn
                invariant
                    b <= bn,
                    bn == batch@.len(),
                    views(batch@).no_duplicates(),
                    forall|q: Seq<char>| views(batch@).contains(q) ==> views(d@).contains(q),
                    forall|q: Seq<char>| views(d@).contains(q) ==> is_push(t, q),
                    forall|q: Seq<char>| views(exhale0).contains(q) ==> is_push(t, q),
                    forall|q: Seq<char>| views(d@).contains(q) ==> !views(exhale0).contains(q),
                    views(exhale0).no_duplicates(),
                    views(exhale@) =~= views(exhale0) + views(batch@).take(b as int),
                decreases bn - b,
            {
                proof {
                    lemma_views_push_pub(exhale@, batch@[b as int]);
                    assert(views(batch@)[b as int] == batch@[b as int]@);
                }
                exhale.push(batch[b].clone());
                resolved.push(batch[b].clone());
                proof {
                    assert(views(exhale@) =~= views(exhale0) + views(batch@).take(b + 1)) by {
                        assert(views(batch@).take(b + 1) =~= views(batch@).take(b as int).push(
                            views(batch@)[b as int],
                        ));
                    }
                }
                b = b + 1;
            }
            proof {
                assert(views(batch@).take(bn as int) =~= views(batch@));
                let exhale1 = views(exhale@);
                assert(exhale1 =~= views(exhale0) + views(batch@));
                assert forall|p: int, q: int|
                    0 <= p < exhale1.len() && 0 <= q < exhale1.len() && p != q implies exhale1[p]
                    != exhale1[q] by {
                    let n0 = views(exhale0).len();
                    if p < n0 && q < n0 {
                    } else if p >= n0 && q >= n0 {
                        assert(exhale1[p] == views(batch@)[p - n0]);
                        assert(exhale1[q] == views(batch@)[q - n0]);
                    } else if p < n0 {
                        assert(exhale1[q] == views(batch@)[q - n0]);
                        assert(views(batch@).contains(exhale1[q]));
                        assert(views(d@).contains(exhale1[q]));
                        assert(views(exhale0).contains(exhale1[p]));
                    } else {
                        assert(exhale1[p] == views(batch@)[p - n0]);
                        assert(views(batch@).contains(exhale1[p]));
                        assert(views(d@).contains(exhale1[p]));
                        assert(views(exhale0).contains(exhale1[q]));
                    }
                }
                assert(exhale1.no_duplicates());
                assert forall|q: Seq<char>| exhale1.contains(q) implies is_push(t, q)
                    && scheduled(t, keys, q) by {
                    let w = choose|w: int| 0 <= w < exhale1.len() && exhale1[w] == q;
                    let n0 = views(exhale0).len();
                    if w < n0 {
                        assert(views(exhale0)[w] == q);
                        assert(views(exhale0).contains(q));
                    } else {
                        assert(views(batch@)[w - n0] == q);
                        assert(views(batch@).contains(q));
                        assert(views(d@).contains(q));
                    }
                }
                assert(exhale1.len() > exhale0.len()) by {
                    assert(views(batch@).len() > 0);
                }
            }
            let ghost exhale1 = exhale@;
            let ghost d2init = d2@;
            // Collect the pushing, non-pulling successors of the batch as new
            // dependents.
            let mut b2: usize = 0;
            while b2 < bn
                invariant
                    b2 <= bn,
                    bn == batch@.len(),
                    self.wf(),
                    t == self.app_table,
                    keys == self.link_table.keys_view(),
                    nlinks == keys.len(),
                    views(d2@).no_duplicates(),
                    forall|q: Seq<char>| views(d2@).contains(q) ==> is_push(t, q),
                    forall|q: Seq<char>| views(d2@).contains(q) ==> scheduled(t, keys, q),
                    forall|q: Seq<char>| views(d2@).contains(q) ==> !views(exhale@).contains(q),
                    forall|q: Seq<char>|
                        views(d2init).contains(q) ==> views(d2@).contains(q),
                    forall|q: Seq<char>| views(batch@).contains(q) ==> scheduled(t, keys, q),
                    exhale1 == exhale@,
                    forall|q: Seq<char>| views(exhale@).contains(q) ==> is_push(t, q),
                    views(exhale@).no_duplicates(),
                    forall|b3: int, li2: int|
                        #![trigger views(batch@)[b3], keys[li2]]
                        0 <= b3 < b2 && 0 <= li2 < keys.len() ==> ((sched_edge(t, keys[li2])
                            && spec_parse(keys[li2]).0 == views(batch@)[b3]) ==> (views(
                            exhale@,
                        ).contains(spec_parse(keys[li2]).2) || views(d2@).contains(
                            spec_parse(keys[li2]).2,
                        ))),
                decreases bn - b2,
            {
                let mut li: usize = 0;
                while li < nlinks
                    invariant
                        li <= nlinks,
                        b2 < bn,
                        bn == batch@.len(),
                        self.wf(),
                        t == self.app_table,
                        keys == self.link_table.keys_view(),
                        nlinks == keys.len(),
                        views(d2@).no_duplicates(),
                        forall|q: Seq<char>| views(d2@).contains(q) ==> is_push(t, q),
                        forall|q: Seq<char>| views(d2@).contains(q) ==> scheduled(t, keys, q),
                        forall|q: Seq<char>|
                            views(d2@).contains(q) ==> !views(exhale@).contains(q),
                        forall|q: Seq<char>|
                            views(d2init).contains(q) ==> views(d2@).contains(q),
                        forall|q: Seq<char>| views(batch@).contains(q) ==> scheduled(t, keys, q),
                        exhale1 == exhale@,
                        forall|q: Seq<char>| views(exhale@).contains(q) ==> is_push(t, q),
                        views(exhale@).no_duplicates(),
                        forall|b3: int, li2: int|
                            #![trigger views(batch@)[b3], keys[li2]]
                            0 <= b3 < b2 && 0 <= li2 < keys.len() ==> ((sched_edge(t, keys[li2])
                                && spec_parse(keys[li2]).0 == views(batch@)[b3]) ==> (views(
                                exhale@,
                            ).contains(spec_parse(keys[li2]).2) || views(d2@).contains(
                                spec_parse(keys[li2]).2,
                            ))),
                        forall|li2: int|
                            0 <= li2 < li ==> ((sched_edge(t, #[trigger] keys[li2]) && spec_parse(
                                keys[li2],
                            ).0 == views(batch@)[b2 as int]) ==> (views(exhale@).contains(
                                spec_parse(keys[li2]).2,
                            ) || views(d2@).contains(spec_parse(keys[li2]).2))),
                    decreases nlinks - li,
                {
                    proof {
                        assert(keys[li as int] == self.link_table.keys@[li as int]@);
                        assert(views(batch@)[b2 as int] == batch@[b2 as int]@);
                    }
                    match parse_link(self.link_table.keys[li].as_str()) {
                        Some(ls) => {
                            if ls.from.eq(&batch[b2]) && push_cap(&self.app_table, &ls.to)
                                && !pull_cap(&self.app_table, &ls.to) && !contains_name(
                                &exhale,
                                &ls.to,
                            ) && !contains_name(&d2, &ls.to) {
                                let ghost tv = ls.to@;
                                let ghost pre2 = d2@;
                                proof {
                                    assert(views(batch@).contains(views(batch@)[b2 as int]));
                                    assert(has_edge(keys, ls.from@, tv)) by {
                                        assert(spec_well_formed(#[trigger] keys[li as int])
                                            && spec_parse(keys[li as int]).0 == ls.from@
                                            && spec_parse(keys[li as int]).2 == tv);
                                    }
                                    lemma_feeds_step(t, keys, ls.from@, tv);
                                    lemma_views_push_pub(pre2, ls.to);
                                }
                                d2.push(ls.to);
                                proof {
                                    assert forall|q: Seq<char>| views(d2@).contains(q) implies
                                        scheduled(t, keys, q) by {
                                        if q != tv {
                                            assert(views(pre2).contains(q));
                                        }
                                    }
                                }
                            } else {
                                proof {
                                    if spec_well_formed(keys[li as int]) {
                                        assert(spec_parse(keys[li as int]).0 == ls.from@
                                            && spec_parse(keys[li as int]).2 == ls.to@);
                                    }
                                }
                            }
                        },
                        None => {},
                    }
                    li = li + 1;
                }
                b2 = b2 + 1;
            }
            proof {
                // Every old dependent now sits in the exhale order or in the
                // new worklist, so the coverage facts migrate.
                assert forall|q: Seq<char>| views(d@).contains(q) implies (views(
                    exhale@,
                ).contains(q) || views(d2@).contains(q)) by {
                    let w = choose|w: int| 0 <= w < views(d@).len() && #[trigger] views(d@)[w]
                        == q;
                    assert(views(batch@).contains(views(d@)[w]) || views(d2init).contains(
                        views(d@)[w],
                    ));
                    if views(batch@).contains(q) {
                        lemma_concat_contains(views(exhale0), views(batch@));
                        assert(views(exhale@) =~= views(exhale0) + views(batch@));
                    }
                }
                assert(views(exhale@) =~= views(exhale0) + views(batch@));
                lemma_concat_contains(views(exhale0), views(batch@));
                assert(from_covered(t, keys, iv, views(exhale@), views(d2@))) by {
                    assert forall|li2: int|
                        0 <= li2 < keys.len() implies ((sched_edge(t, #[trigger] keys[li2])
                        && iv.contains(spec_parse(keys[li2]).0)) ==> (views(exhale@).contains(
                        spec_parse(keys[li2]).2,
                    ) || views(d2@).contains(spec_parse(keys[li2]).2))) by {
                        if sched_edge(t, keys[li2]) && iv.contains(spec_parse(keys[li2]).0) {
                            assert(views(exhale0).contains(spec_parse(keys[li2]).2) || views(
                                d@,
                            ).contains(spec_parse(keys[li2]).2));
                        }
                    }
                }
                assert(from_covered(t, keys, views(exhale@), views(exhale@), views(d2@))) by {
                    assert forall|li2: int|
                        0 <= li2 < keys.len() implies ((sched_edge(t, #[trigger] keys[li2])
                        && views(exhale@).contains(spec_parse(keys[li2]).0)) ==> (views(
                        exhale@,
                    ).contains(spec_parse(keys[li2]).2) || views(d2@).contains(
                        spec_parse(keys[li2]).2,
                    ))) by {
                        if sched_edge(t, keys[li2]) && views(exhale@).contains(
                            spec_parse(keys[li2]).0,
                        ) {
                            if views(exhale0).contains(spec_parse(keys[li2]).0) {
                                assert(views(exhale0).contains(spec_parse(keys[li2]).2) || views(
                                    d@,
                                ).contains(spec_parse(keys[li2]).2));
                            } else {
                                assert(views(batch@).contains(spec_parse(keys[li2]).0));
                                let b3 = choose|b3: int|
                                    0 <= b3 < views(batch@).len() && #[trigger] views(batch@)[b3]
                                        == spec_parse(keys[li2]).0;
                            }
                        }
                    }
                }
            }
            d = d2;
            proof {
                let both = views(exhale@) + views(d@);
                assert forall|p: int, q: int|
                    0 <= p < both.len() && 0 <= q < both.len() && p != q implies both[p]
                    != both[q] by {
                    let n0 = views(exhale@).len();
                    if p < n0 && q < n0 {
                    } else if p >= n0 && q >= n0 {
                        assert(both[p] == views(d@)[p - n0]);
                        assert(both[q] == views(d@)[q - n0]);
                    } else if p < n0 {
                        assert(both[q] == views(d@)[q - n0]);
                        assert(views(d@).contains(both[q]));
                        assert(views(exhale@).contains(both[p]));
                    } else {
                        assert(both[p] == views(d@)[p - n0]);
                        assert(views(d@).contains(both[p]));
                        assert(views(exhale@).contains(both[q]));
                    }
                }
                assert(both.no_duplicates());
                assert(t.keys_view().no_duplicates());
                assert forall|q: Seq<char>| both.contains(q) implies t.keys_view().contains(q) by {
                    let w = choose|w: int| 0 <= w < both.len() && both[w] == q;
                    let n0 = views(exhale@).len();
                    if w < n0 {
                        assert(views(exhale@)[w] == q);
                        assert(views(exhale@).contains(q));
                    } else {
                        assert(views(d@)[w - n0] == q);
                        assert(views(d@).contains(q));
                    }
                    assert(is_push(t, q));
                }
                crate::names::lemma_distinct_subset_len(both, t.keys_view());
            }
        }
        proof {
            crate::table::lemma_table_index_facts(t);
            // The worklist is empty, so the coverage facts close over the
            // exhale order alone, and everything fed from an inhaler is in it.
            assert(views(d@).len() == 0);
            assert forall|li2: int|
                0 <= li2 < keys.len() implies ((sched_edge(t, #[trigger] keys[li2]) && is_pull(
                t,
                spec_parse(keys[li2]).0,
            )) ==> views(exhale@).contains(spec_parse(keys[li2]).2)) by {
                if sched_edge(t, keys[li2]) && is_pull(t, spec_parse(keys[li2]).0) {
                    assert(iv.contains(spec_parse(keys[li2]).0));
                    assert(views(exhale@).contains(spec_parse(keys[li2]).2) || views(d@).contains(
                        spec_parse(keys[li2]).2,
                    ));
                    assert(!views(d@).contains(spec_parse(keys[li2]).2));
                }
            }
            assert forall|li2: int|
                0 <= li2 < keys.len() implies ((sched_edge(t, #[trigger] keys[li2]) && views(
                exhale@,
            ).contains(spec_parse(keys[li2]).0)) ==> views(exhale@).contains(
                spec_parse(keys[li2]).2,
            )) by {
                if sched_edge(t, keys[li2]) && views(exhale@).contains(spec_parse(keys[li2]).0) {
                    assert(views(exhale@).contains(spec_parse(keys[li2]).2) || views(d@).contains(
                        spec_parse(keys[li2]).2,
                    ));
                    assert(!views(d@).contains(spec_parse(keys[li2]).2));
                }
            }
            assert forall|q: Seq<char>| scheduled(t, keys, q) implies views(exhale@).contains(
                q,
            ) by {
                let k = choose|k: nat| feeds(t, keys, q, k);
                lemma_scheduled_exhaled(t, keys, views(exhale@), q, k);
            }
            assert forall|q: Seq<char>| views(exhale@).contains(q) implies !views(
                inhale@,
            ).contains(q) by {
                assert(scheduled(t, keys, q));
            }
        }
        self.inhale = inhale;
        self.exhale = exhale;
        proof {
            assert forall|i2: int| 0 <= i2 < final(self).inhale@.len() implies final(self).app_table.has_key(#[trigger] views(final(self).inhale@)[i2]) by {
                assert(views(final(self).inhale@).contains(views(final(self).inhale@)[i2]));
            }
            assert forall|i2: int| 0 <= i2 < final(self).exhale@.len() implies final(self).app_table.has_key(#[trigger] views(final(self).exhale@)[i2]) by {
                assert(views(final(self).exhale@).contains(views(final(self).exhale@)[i2]));
            }
        }
    }
}

} // verus!
