//! Apps and app configurations: the capability set the engine requires of
//! hosted components, the per-instance state it keeps for each, and the
//! desired-state configuration handed to `configure`.

use vstd::prelude::*;
use crate::link::Link;
use crate::link::links_wf;
use crate::stats::EngineStats;
use crate::table::Table;

verus! {

/// The capabilities an app advertised when it was started.
#[derive(Clone, Copy)]
pub struct Caps {
    pub pull: bool,
    pub push: bool,
    pub report: bool,
    pub stop: bool,
}

/// Callbacks an app may implement. `pull` sources packets onto output links;
/// `push` forwards packets from input links; `stop` tears the app down;
/// `report` returns a custom report section. A hook is invoked only when the
/// matching `has_` capability returned true at start time.
pub trait App: Sized {
    fn has_pull(&self) -> bool {
        false
    }

    fn has_push(&self) -> bool {
        false
    }

    fn has_report(&self) -> bool {
        false
    }

    fn has_stop(&self) -> bool {
        false
    }

    /// Inhale packets into the network: enqueue onto the links named by the
    /// output slot table. Must keep the link registry's keys intact.
    fn pull(
        &self,
        input: &Table<String>,
        output: &Table<String>,
        links: &mut Table<Link>,
        stats: &mut EngineStats,
    )
        requires
            old(links).wf(),
            links_wf(*old(links)),
        ensures
            final(links).wf(),
            links_wf(*final(links)),
            final(links).keys@ == old(links).keys@,
            final(stats).breaths == old(stats).breaths,
    {
    }

    /// Exhale packets: move them from input links to output links or out of
    /// the network. Must keep the link registry's keys intact.
    fn push(
        &self,
        input: &Table<String>,
        output: &Table<String>,
        links: &mut Table<Link>,
        stats: &mut EngineStats,
    )
        requires
            old(links).wf(),
            links_wf(*old(links)),
        ensures
            final(links).wf(),
            links_wf(*final(links)),
            final(links).keys@ == old(links).keys@,
            final(stats).breaths == old(stats).breaths,
    {
    }

    /// A custom report section, shown by the app report.
    fn report(&self) -> String {
        String::new()
    }

    /// Teardown hook, called exactly once when the app is stopped. It must
    /// not reach for any link.
    fn stop(&self) {
    }
}

/// An immutable value describing how to instantiate an app. Identity strings
/// decide configuration equality; the engine treats them as opaque.
pub trait AppConfig<A: App>: Sized {
    /// The identity fingerprint, as a specification value. Implementations
    /// that want contracts over their identity override it; the default is
    /// a fixed empty fingerprint.
    open spec fn id(&self) -> Seq<char> {
        Seq::empty()
    }

    /// Stable identity string. Two configurations are equal exactly when
    /// their identity strings match.
    fn identity(&self) -> (r: String)
        ensures
            r@ == self.id(),
    ;

    /// Instantiate a fresh app from this configuration.
    fn new(&self) -> (a: A);

    /// A copy with the same identity; the engine retains one per started app.
    fn dup(&self) -> (r: Self)
        ensures
            r.id() == self.id(),
    ;

    /// Configuration equality: the identity strings match.
    fn equal(&self, other: &Self) -> (r: bool)
        ensures
            r == (self.id() == other.id()),
    {
        let a = self.identity();
        let b = other.identity();
        a.eq(&b)
    }
}

/// Per-instance state for one app in the network: the behaviour object, the
/// configuration it was started from, its advertised capabilities, and its
/// slot tables (slot name to link registry key).
pub struct AppState<A, C> {
    pub app: A,
    pub conf: C,
    pub caps: Caps,
    pub input: Table<String>,
    pub output: Table<String>,
}

impl<A, C> AppState<A, C> {
    pub open spec fn wf(&self) -> bool {
        self.input.wf() && self.output.wf()
    }
}

/// A desired app network: app configurations by name, and the link specs that
/// connect them.
#[derive(Clone)]
pub struct Config<C> {
    pub apps: Table<C>,
    pub links: Vec<String>,
}

impl<C> Config<C> {
    /// App names are distinct and link specs are distinct.
    pub open spec fn wf(&self) -> bool {
        &&& self.apps.wf()
        &&& forall|i: int, j: int|
            0 <= i < j < self.links@.len() ==> crate::names::views(self.links@)[i]
                != crate::names::views(self.links@)[j]
    }

    pub open spec fn links_view(&self) -> Seq<Seq<char>> {
        crate::names::views(self.links@)
    }

    pub fn new() -> (r: Config<C>)
        ensures
            r.wf(),
            r.apps.spec_len() == 0,
            r.links@.len() == 0,
    {
        Config { apps: Table::new(), links: Vec::new() }
    }

    /// Declare an app under `name`; replaces any earlier declaration of the
    /// same name.
    pub fn add_app(&mut self, name: &str, conf: C)
        requires
            old(self).wf(),
        ensures
            final(self).wf(),
            final(self).links@ == old(self).links@,
            final(self).apps.has_key(name@),
            final(self).apps.spec_get(name@) == conf,
            forall|q: Seq<char>|
                final(self).apps.has_key(q) <==> (old(self).apps.has_key(q) || q == name@),
            forall|q: Seq<char>|
                old(self).apps.has_key(q) && q != name@ ==> #[trigger] final(self).apps.spec_get(q)
                    == old(self).apps.spec_get(q),
    {
        let key: String = name.to_owned();
        self.apps.insert(key, conf);
    }

    /// Declare a link spec; duplicates are kept once.
    pub fn add_link(&mut self, spec: &str)
        requires
            old(self).wf(),
        ensures
            final(self).wf(),
            final(self).apps == old(self).apps,
            final(self).links_view().contains(spec@),
            old(self).links_view().contains(spec@) ==> final(self).links@ == old(self).links@,
            !old(self).links_view().contains(spec@) ==> final(self).links_view() == old(
                self,
            ).links_view().push(spec@) && final(self).links@.len() == old(self).links@.len() + 1,
            forall|q: Seq<char>|
                final(self).links_view().contains(q) <==> (old(self).links_view().contains(q) || q
                    == spec@),
    {
        let key: String = spec.to_owned();
        let n: usize = self.links.len();
        let mut i: usize = 0;
        while i < n
            invariant
                i <= n,
                n == self.links@.len(),
                self.wf(),
                forall|j: int| 0 <= j < i ==> self.links_view()[j] != key@,
                key@ == spec@,
            decreases n - i,
        {
            if self.links[i].eq(&key) {
                proof {
                    assert(self.links_view()[i as int] == self.links@[i as int]@);
                }
                return ;
            }
            proof {
                assert(self.links_view()[i as int] == self.links@[i as int]@);
            }
            i = i + 1;
        }
        proof {
            if old(self).links_view().contains(spec@) {
                let j = choose|j: int|
                    0 <= j < old(self).links_view().len() && old(self).links_view()[j] == spec@;
                assert(self.links_view()[j] != key@);
            }
        }
        self.links.push(key);
        proof {
            assert(self.links_view() =~= old(self).links_view().push(spec@));
            assert(final(self).links_view()[old(self).links@.len() as int] == spec@);
            assert forall|q: Seq<char>|
                final(self).links_view().contains(q) <==> (old(self).links_view().contains(q) || q
                    == spec@) by {
                if old(self).links_view().contains(q) {
                    let j = choose|j: int|
                        0 <= j < old(self).links_view().len() && old(self).links_view()[j] == q;
                    assert(final(self).links_view()[j] == q);
                }
                if final(self).links_view().contains(q) && q != spec@ {
                    let j = choose|j: int|
                        0 <= j < final(self).links_view().len() && final(self).links_view()[j] == q;
                    assert(j < old(self).links_view().len());
                    assert(old(self).links_view()[j] == q);
                }
            }
        }
    }
}

} // verus!
