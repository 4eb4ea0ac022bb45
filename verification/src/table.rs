//! A small name-keyed table: the verified replacement for the registries'
//! hash maps. Keys are strings, kept distinct by view; iteration order is
//! insertion order, which keeps reconciliation deterministic.

use vstd::prelude::*;
use crate::names::views;

verus! {

#[derive(Clone)]
pub struct Table<V> {
    pub keys: Vec<String>,
    pub vals: Vec<V>,
}

impl<V> Table<V> {
    /// Key views, in table order.
    pub open spec fn keys_view(&self) -> Seq<Seq<char>> {
        views(self.keys@)
    }

    /// Same number of keys and values, and no two keys with the same view.
    pub open spec fn wf(&self) -> bool {
        &&& self.keys@.len() == self.vals@.len()
        &&& forall|i: int, j: int|
            0 <= i < j < self.keys@.len() ==> self.keys_view()[i] != self.keys_view()[j]
    }

    pub open spec fn spec_len(&self) -> nat {
        self.keys@.len()
    }

    pub open spec fn has_key(&self, k: Seq<char>) -> bool {
        self.keys_view().contains(k)
    }

    /// The index of a key that is present. Unique when the table is well
    /// formed.
    pub open spec fn key_index(&self, k: Seq<char>) -> int {
        self.keys_view().index_of(k)
    }

    /// The value stored under a key that is present.
    pub open spec fn spec_get(&self, k: Seq<char>) -> V {
        self.vals@[self.key_index(k)]
    }

    pub fn new() -> (r: Table<V>)
        ensures
            r.wf(),
            r.spec_len() == 0,
    {
        Table { keys: Vec::new(), vals: Vec::new() }
    }

    pub fn len(&self) -> (r: usize)
        ensures
            r == self.spec_len(),
    {
        self.keys.len()
    }

    /// Find the position of a key, or `None` when it is absent.
    pub fn index_of(&self, k: &String) -> (r: Option<usize>)
        requires
            self.wf(),
        ensures
            match r {
                Some(i) => i < self.spec_len() && self.keys_view()[i as int] == k@ && self.has_key(
                    k@,
                ) && i == self.key_index(k@),
                None => !self.has_key(k@),
            },
    {
        let n: usize = self.keys.len();
        let mut i: usize = 0;
        while i < n
            invariant
                self.wf(),
                i <= n,
                n == self.spec_len(),
                forall|j: int| 0 <= j < i ==> self.keys_view()[j] != k@,
            decreases n - i,
        {
            if self.keys[i].eq(k) {
                proof {
                    assert(self.keys_view()[i as int] == self.keys@[i as int]@);
                    lemma_table_index_facts(*self);
                }
                return Some(i);
            }
            proof {
                assert(self.keys_view()[i as int] == self.keys@[i as int]@);
            }
            i = i + 1;
        }
        proof {
            if self.has_key(k@) {
                let j = choose|j: int| 0 <= j < self.keys_view().len() && self.keys_view()[j] == k@;
                assert(self.keys_view()[j] != k@);
            }
        }
        None
    }

    pub fn contains(&self, k: &String) -> (r: bool)
        requires
            self.wf(),
        ensures
            r == self.has_key(k@),
    {
        match self.index_of(k) {
            Some(_) => true,
            None => false,
        }
    }

    /// Borrow the value under a key.
    pub fn get(&self, k: &String) -> (r: Option<&V>)
        requires
            self.wf(),
        ensures
            match r {
                Some(v) => self.has_key(k@) && *v == self.spec_get(k@),
                None => !self.has_key(k@),
            },
    {
        match self.index_of(k) {
            Some(i) => Some(&self.vals[i]),
            None => None,
        }
    }

    /// Bind `k` to `v`: overwrite the value in place when the key is present,
    /// append a fresh entry otherwise.
    pub fn insert(&mut self, k: String, v: V)
        requires
            old(self).wf(),
        ensures
            final(self).wf(),
            final(self).has_key(k@),
            old(self).has_key(k@) ==> {
                &&& final(self).keys@ == old(self).keys@
                &&& final(self).vals@ == old(self).vals@.update(old(self).key_index(k@), v)
            },
            !old(self).has_key(k@) ==> {
                &&& final(self).keys@ == old(self).keys@.push(k)
                &&& final(self).vals@ == old(self).vals@.push(v)
            },
            final(self).spec_get(k@) == v,
            forall|q: Seq<char>| final(self).has_key(q) <==> (old(self).has_key(q) || q == k@),
            forall|q: Seq<char>|
                old(self).has_key(q) && q != k@ ==> #[trigger] final(self).spec_get(q) == old(
                    self,
                ).spec_get(q) && final(self).key_index(q) == old(self).key_index(q),
    {
        let ghost oldt = *self;
        match self.index_of(&k) {
            Some(i) => {
                self.vals[i] = v;
                proof {
                    lemma_views_unchanged(oldt.keys@, self.keys@);
                    assert(final(self).keys_view() =~= oldt.keys_view());
                    lemma_table_index_facts(*self);
                    assert(final(self).spec_get(k@) == v);
                }
            },
            None => {
                self.keys.push(k);
                self.vals.push(v);
                proof {
                    assert(self.keys_view() =~= oldt.keys_view().push(k@)) by {
                        assert(views(oldt.keys@.push(k)) =~= views(oldt.keys@).push(k@));
                    }
                    assert forall|i: int, j: int| 0 <= i < j < self.keys@.len() implies self
                        .keys_view()[i] != self.keys_view()[j] by {
                        if j == self.keys@.len() - 1 {
                            assert(!oldt.has_key(k@));
                            assert(oldt.keys_view()[i] != k@);
                        }
                    }
                    lemma_table_index_facts(*self);
                    assert(self.keys_view()[self.keys@.len() - 1] == k@);
                    lemma_table_index_facts(oldt);
                }
            },
        }
        proof {
            assert forall|q: Seq<char>|
                final(self).has_key(q) <==> (oldt.has_key(q) || q == k@) by {
                lemma_table_index_facts(*self);
                lemma_table_index_facts(oldt);
                if oldt.has_key(q) {
                    let j = oldt.key_index(q);
                    assert(final(self).keys_view()[j] == q);
                }
                if final(self).has_key(q) && q != k@ {
                    let j = final(self).key_index(q);
                    if j < oldt.keys@.len() {
                        assert(oldt.keys_view()[j] == q);
                    }
                }
            }
            assert forall|q: Seq<char>| oldt.has_key(q) && q != k@ implies (#[trigger] final(self).spec_get(q)) == oldt.spec_get(q) && final(self).key_index(q) == oldt.key_index(q) by {
                lemma_table_index_facts(*self);
                lemma_table_index_facts(oldt);
                let j = oldt.key_index(q);
                assert(final(self).keys_view()[j] == q);
                assert(final(self).key_index(q) == j);
            }
        }
    }

    /// Drop the entry under `k`, if any. Removing an absent key is a no-op.
    pub fn remove(&mut self, k: &String)
        requires
            old(self).wf(),
        ensures
            final(self).wf(),
            !final(self).has_key(k@),
            !old(self).has_key(k@) ==> *final(self) == *old(self),
            old(self).has_key(k@) ==> {
                &&& final(self).keys@ == old(self).keys@.remove(old(self).key_index(k@))
                &&& final(self).vals@ == old(self).vals@.remove(old(self).key_index(k@))
            },
            forall|q: Seq<char>| final(self).has_key(q) <==> (old(self).has_key(q) && q != k@),
            forall|q: Seq<char>|
                old(self).has_key(q) && q != k@ ==> #[trigger] final(self).spec_get(q) == old(
                    self,
                ).spec_get(q),
    {
        let ghost oldt = *self;
        match self.index_of(k) {
            Some(i) => {
                self.keys.remove(i);
                self.vals.remove(i);
                proof {
                    let ii = i as int;
                    assert(self.keys_view() =~= oldt.keys_view().remove(ii)) by {
                        assert(views(oldt.keys@.remove(ii)) =~= views(oldt.keys@).remove(ii));
                    }
                    lemma_table_index_facts(oldt);
                    assert forall|p: int, q: int| 0 <= p < q < self.keys@.len() implies self
                        .keys_view()[p] != self.keys_view()[q] by {
                        let p0 = if p < ii { p } else { p + 1 };
                        let q0 = if q < ii { q } else { q + 1 };
                        assert(oldt.keys_view()[p0] != oldt.keys_view()[q0]);
                    }
                    lemma_table_index_facts(*self);
                    assert forall|q: Seq<char>|
                        final(self).has_key(q) <==> (oldt.has_key(q) && q != k@) by {
                        if oldt.has_key(q) && q != k@ {
                            let j = oldt.key_index(q);
                            if j < ii {
                                assert(final(self).keys_view()[j] == q);
                            } else {
                                assert(final(self).keys_view()[j - 1] == q);
                            }
                        }
                        if final(self).has_key(q) {
                            let j = final(self).key_index(q);
                            if j < ii {
                                assert(oldt.keys_view()[j] == q);
                            } else {
                                assert(oldt.keys_view()[j + 1] == q);
                            }
                            assert(q != k@) by {
                                if q == k@ {
                                    let j0 = if j < ii { j } else { j + 1 };
                                    assert(oldt.keys_view()[j0] == oldt.keys_view()[ii]);
                                }
                            }
                        }
                    }
                    assert forall|q: Seq<char>| oldt.has_key(q) && q != k@ implies #[trigger]
                        final(self).spec_get(q) == oldt.spec_get(q) by {
                        let j = oldt.key_index(q);
                        if j < ii {
                            assert(final(self).keys_view()[j] == q);
                            assert(final(self).key_index(q) == j);
                        } else {
                            assert(final(self).keys_view()[j - 1] == q);
                            assert(final(self).key_index(q) == j - 1);
                        }
                    }
                }
            },
            None => {},
        }
    }
}

/// Views are stable under replacing the string vector by an equal one.
proof fn lemma_views_unchanged(a: Seq<String>, b: Seq<String>)
    requires
        a == b,
    ensures
        views(a) == views(b),
{
}

/// In a well-formed table, `key_index` is the unique position of a present
/// key.
pub proof fn lemma_table_index_facts<V>(t: Table<V>)
    requires
        t.wf(),
    ensures
        forall|q: Seq<char>|
            t.has_key(q) ==> 0 <= #[trigger] t.key_index(q) < t.spec_len() && t.keys_view()[
                t.key_index(q)
            ] == q,
        forall|j: int|
            0 <= j < t.spec_len() ==> t.key_index(#[trigger] t.keys_view()[j]) == j,
{
    let kv = t.keys_view();
    assert forall|q: Seq<char>| t.has_key(q) implies 0 <= #[trigger] t.key_index(q)
        < t.spec_len() && t.keys_view()[t.key_index(q)] == q by {
        assert(exists|i: int| 0 <= i < kv.len() && kv[i] == q);
    }
    assert forall|j: int|
        0 <= j < t.spec_len() implies t.key_index(#[trigger] t.keys_view()[j]) == j by {
        let q = kv[j];
        assert(exists|i: int| 0 <= i < kv.len() && kv[i] == q);
        let j2 = t.key_index(q);
        if j2 != j {
            assert(t.keys_view()[j] != t.keys_view()[j2]);
        }
    }
}

} // verus!
