//! Lexicographic order on names, with an executable comparison and a verified
//! insertion into a sorted vector. The planner sorts app names with these to
//! make the breathe order deterministic. All specifications are stated over
//! views (`Seq<char>`), where extensional equality is available.

use vstd::prelude::*;
use vstd::relations::sorted_by;
use vstd::relations::total_ordering;

verus! {

/// Strict lexicographic order on character sequences, by code point.
pub open spec fn seq_lt(a: Seq<char>, b: Seq<char>) -> bool
    decreases a.len(),
{
    if b.len() == 0 {
        false
    } else if a.len() == 0 {
        true
    } else if a[0] != b[0] {
        (a[0] as u32) < (b[0] as u32)
    } else {
        seq_lt(a.skip(1), b.skip(1))
    }
}

/// Non-strict lexicographic order.
pub open spec fn seq_le(a: Seq<char>, b: Seq<char>) -> bool {
    seq_lt(a, b) || a == b
}

/// `seq_le` as a first-class relation, for `vstd::relations::sorted_by`.
pub open spec fn le_fn() -> spec_fn(Seq<char>, Seq<char>) -> bool {
    |a: Seq<char>, b: Seq<char>| seq_le(a, b)
}

/// The views of a sequence of strings.
pub open spec fn views(s: Seq<String>) -> Seq<Seq<char>> {
    s.map_values(|x: String| x@)
}

pub proof fn lemma_seq_lt_total(a: Seq<char>, b: Seq<char>)
    ensures
        seq_lt(a, b) || seq_lt(b, a) || a == b,
    decreases a.len(),
{
    if b.len() == 0 || a.len() == 0 {
        if a.len() == b.len() {
            assert(a =~= b);
        }
    } else if a[0] == b[0] {
        lemma_seq_lt_total(a.skip(1), b.skip(1));
        if a.skip(1) == b.skip(1) {
            assert(a =~= b) by {
                assert(a.skip(1).len() == b.skip(1).len());
                assert(a.len() == b.len());
                assert forall|j: int| 0 <= j < a.len() implies a[j] == b[j] by {
                    if j >= 1 {
                        assert(a.skip(1)[j - 1] == a[j]);
                        assert(b.skip(1)[j - 1] == b[j]);
                    }
                }
            }
        }
    } else {
        vstd::utf8::char_u32_cast(a[0], a[0] as u32);
        vstd::utf8::char_u32_cast(b[0], b[0] as u32);
    }
}

pub proof fn lemma_seq_lt_asym(a: Seq<char>, b: Seq<char>)
    ensures
        !(seq_lt(a, b) && seq_lt(b, a)),
        seq_lt(a, b) ==> a != b,
    decreases a.len(),
{
    if a.len() != 0 && b.len() != 0 && a[0] == b[0] {
        lemma_seq_lt_asym(a.skip(1), b.skip(1));
        if seq_lt(a, b) && a == b {
            assert(seq_lt(a.skip(1), b.skip(1)) && a.skip(1) == b.skip(1));
        }
    } else {
        if seq_lt(a, b) && a == b {
            assert(a.len() == b.len());
        }
    }
}

pub proof fn lemma_seq_lt_trans(a: Seq<char>, b: Seq<char>, c: Seq<char>)
    requires
        seq_lt(a, b),
        seq_lt(b, c),
    ensures
        seq_lt(a, c),
    decreases a.len(),
{
    if a.len() != 0 && b.len() != 0 && c.len() != 0 {
        if a[0] == b[0] && b[0] == c[0] {
            lemma_seq_lt_trans(a.skip(1), b.skip(1), c.skip(1));
        }
    }
}

pub proof fn lemma_seq_le_trans(a: Seq<char>, b: Seq<char>, c: Seq<char>)
    requires
        seq_le(a, b),
        seq_le(b, c),
    ensures
        seq_le(a, c),
{
    if a != b && b != c {
        lemma_seq_lt_trans(a, b, c);
    }
}

/// `seq_le` is a total order, in the form `vstd::relations` uses.
pub proof fn lemma_le_total_ordering()
    ensures
        total_ordering(le_fn()),
{
    let leq = le_fn();
    assert forall|a: Seq<char>, b: Seq<char>| #[trigger] leq(a, b) || #[trigger] leq(b, a) by {
        lemma_seq_lt_total(a, b);
    }
    assert forall|a: Seq<char>, b: Seq<char>| #[trigger] leq(a, b) && #[trigger] leq(b, a)
        implies a == b by {
        lemma_seq_lt_asym(a, b);
    }
    assert forall|a: Seq<char>, b: Seq<char>, c: Seq<char>|
        #[trigger] leq(a, b) && #[trigger] leq(b, c) implies leq(a, c) by {
        lemma_seq_le_trans(a, b, c);
    }
    assert(vstd::relations::reflexive(leq));
    assert(vstd::relations::antisymmetric(leq));
    assert(vstd::relations::transitive(leq));
    assert(vstd::relations::strongly_connected(leq));
}

proof fn lemma_seq_lt_common_prefix(a: Seq<char>, b: Seq<char>, i: int)
    requires
        0 <= i <= a.len(),
        i <= b.len(),
        forall|j: int| 0 <= j < i ==> a[j] == b[j],
    ensures
        seq_lt(a, b) == seq_lt(a.skip(i), b.skip(i)),
    decreases i,
{
    if i == 0 {
        assert(a.skip(0) =~= a);
        assert(b.skip(0) =~= b);
    } else {
        lemma_seq_lt_common_prefix(a.skip(1), b.skip(1), i - 1);
        assert(a.skip(1).skip(i - 1) =~= a.skip(i));
        assert(b.skip(1).skip(i - 1) =~= b.skip(i));
    }
}

/// Decide the strict lexicographic order on two strings.
pub fn str_lt(a: &String, b: &String) -> (r: bool)
    ensures
        r == seq_lt(a@, b@),
{
    let alen: usize = a.as_str().unicode_len();
    let blen: usize = b.as_str().unicode_len();
    let mut i: usize = 0;
    loop
        invariant
            i <= alen,
            i <= blen,
            alen == a@.len(),
            blen == b@.len(),
            forall|j: int| 0 <= j < i ==> a@[j] == b@[j],
        decreases alen - i,
    {
        if i == alen || i == blen {
            proof {
                lemma_seq_lt_common_prefix(a@, b@, i as int);
            }
            return alen < blen;
        }
        let ca: char = a.as_str().get_char(i);
        let cb: char = b.as_str().get_char(i);
        if ca as u32 != cb as u32 {
            proof {
                lemma_seq_lt_common_prefix(a@, b@, i as int);
                assert(a@.skip(i as int)[0] == ca);
                assert(b@.skip(i as int)[0] == cb);
            }
            return (ca as u32) < (cb as u32);
        }
        proof {
            assert(ca == cb) by {
                vstd::utf8::char_u32_cast(ca, ca as u32);
                vstd::utf8::char_u32_cast(cb, cb as u32);
            }
        }
        i = i + 1;
    }
}

proof fn lemma_multiset_insert_mid<T>(a: Seq<T>, i: int, x: T)
    requires
        0 <= i <= a.len(),
    ensures
        a.insert(i, x).to_multiset() == a.to_multiset().insert(x),
{
    vstd::seq_lib::lemma_multiset_commutative(a.take(i).push(x), a.skip(i));
    vstd::seq_lib::lemma_multiset_commutative(a.take(i), a.skip(i));
    a.take(i).to_multiset_ensures();
    assert(a.take(i) + a.skip(i) =~= a);
    assert(a.insert(i, x) =~= a.take(i).push(x) + a.skip(i));
    assert(a.insert(i, x).to_multiset() =~= a.to_multiset().insert(x)) by {
        assert(a.take(i).push(x).to_multiset() == a.take(i).to_multiset().insert(x));
        assert(a.take(i).push(x).to_multiset().add(a.skip(i).to_multiset()) =~= a.take(
            i,
        ).to_multiset().insert(x).add(a.skip(i).to_multiset()));
        assert((a.take(i) + a.skip(i)).to_multiset() == a.to_multiset());
    }
}

/// The first position in `v` whose name is not lexicographically below `x`.
fn find_insert_pos(v: &Vec<String>, x: &String) -> (i: usize)
    ensures
        i <= v@.len(),
        forall|j: int| 0 <= j < i ==> seq_lt(#[trigger] views(v@)[j], x@),
        i < v@.len() ==> !seq_lt(views(v@)[i as int], x@),
{
    let mut i: usize = 0;
    while i < v.len()
        invariant
            i <= v@.len(),
            forall|j: int| 0 <= j < i ==> seq_lt(#[trigger] views(v@)[j], x@),
        decreases v@.len() - i,
    {
        if !str_lt(&v[i], x) {
            return i;
        }
        i = i + 1;
    }
    i
}

/// Insert a name into a vector sorted by `seq_le` on views, keeping it
/// sorted; the result holds the same names with one occurrence of `x` added.
pub fn sorted_insert(v: &mut Vec<String>, x: String)
    requires
        sorted_by(views(old(v)@), le_fn()),
    ensures
        sorted_by(views(final(v)@), le_fn()),
        views(final(v)@).to_multiset() == views(old(v)@).to_multiset().insert(x@),
        final(v)@.len() == old(v)@.len() + 1,
        forall|q: Seq<char>|
            views(final(v)@).contains(q) <==> (views(old(v)@).contains(q) || q == x@),
        views(old(v)@).no_duplicates() && !views(old(v)@).contains(x@) ==> views(
            final(v)@,
        ).no_duplicates(),
{
    let ghost leq = le_fn();
    let ghost orig = v@;
    let ghost vs = views(orig);
    let i: usize = find_insert_pos(v, &x);
    proof {
        if i < v@.len() {
            lemma_seq_lt_total(vs[i as int], x@);
            assert(seq_le(x@, vs[i as int]));
        }
    }
    v.insert(i, x);
    proof {
        let w = views(v@);
        assert(v@ == orig.insert(i as int, x));
        assert(v@ =~= orig.take(i as int).push(x) + orig.skip(i as int));
        assert(w =~= vs.take(i as int).push(x@) + vs.skip(i as int));
        let ii = i as int;
        assert forall|p: int, q: int| 0 <= p < q < w.len() implies #[trigger] leq(w[p], w[q]) by {
            assert(forall|j: int| 0 <= j < ii ==> w[j] == vs[j]);
            assert(w[ii] == x@);
            assert(forall|j: int| ii < j < w.len() ==> w[j] == vs[j - 1]);
            if q < ii {
                assert(leq(vs[p], vs[q]));
            } else if p > ii {
                assert(leq(vs[p - 1], vs[q - 1]));
            } else if p < ii && q == ii {
                assert(seq_lt(vs[p], x@));
            } else if p == ii {
                assert(seq_le(x@, vs[ii]));
                assert(ii == q - 1 || leq(vs[ii], vs[q - 1]));
                lemma_seq_le_trans(x@, vs[ii], vs[q - 1]);
            } else {
                assert(p < ii && q > ii);
                assert(seq_lt(vs[p], x@));
                assert(seq_le(x@, vs[ii]));
                assert(ii == q - 1 || leq(vs[ii], vs[q - 1]));
                lemma_seq_le_trans(x@, vs[ii], vs[q - 1]);
                lemma_seq_le_trans(vs[p], x@, vs[q - 1]);
            }
        }
        assert(w =~= vs.insert(ii, x@)) by {
            assert(vs.insert(ii, x@) =~= vs.take(ii).push(x@) + vs.skip(ii));
        }
        lemma_multiset_insert_mid(vs, ii, x@);
        assert forall|q: Seq<char>|
            views(v@).contains(q) <==> (vs.contains(q) || q == x@) by {
            if vs.contains(q) {
                let j = choose|j: int| 0 <= j < vs.len() && vs[j] == q;
                if j < ii {
                    assert(views(v@)[j] == q);
                } else {
                    assert(views(v@)[j + 1] == q);
                }
            }
            if views(v@).contains(q) && q != x@ {
                let j = choose|j: int| 0 <= j < views(v@).len() && views(v@)[j] == q;
                if j < ii {
                    assert(vs[j] == q);
                } else {
                    assert(vs[j - 1] == q);
                }
            }
            assert(views(v@)[ii] == x@);
        }
        if vs.no_duplicates() && !vs.contains(x@) {
            assert forall|p: int, q: int|
                0 <= p < views(v@).len() && 0 <= q < views(v@).len() && p != q implies views(v@)[p]
                != views(v@)[q] by {
                if p != ii && q != ii {
                    let p0 = if p < ii { p } else { p - 1 };
                    let q0 = if q < ii { q } else { q - 1 };
                    assert(views(v@)[p] == vs[p0]);
                    assert(views(v@)[q] == vs[q0]);
                } else if p == ii {
                    let q0 = if q < ii { q } else { q - 1 };
                    assert(views(v@)[q] == vs[q0]);
                    assert(vs.contains(vs[q0]));
                } else {
                    let p0 = if p < ii { p } else { p - 1 };
                    assert(views(v@)[p] == vs[p0]);
                    assert(vs.contains(vs[p0]));
                }
            }
            assert(views(v@).no_duplicates());
        }
    }
}

/// Whether a vector of names holds one with the given view.
pub fn contains_name(v: &Vec<String>, x: &String) -> (r: bool)
    ensures
        r == views(v@).contains(x@),
{
    let n: usize = v.len();
    let mut i: usize = 0;
    while i < n
        invariant
            i <= n,
            n == v@.len(),
            forall|j: int| 0 <= j < i ==> views(v@)[j] != x@,
        decreases n - i,
    {
        if v[i].eq(x) {
            proof {
                assert(views(v@)[i as int] == v@[i as int]@);
            }
            return true;
        }
        proof {
            assert(views(v@)[i as int] == v@[i as int]@);
        }
        i = i + 1;
    }
    proof {
        if views(v@).contains(x@) {
            let j = choose|j: int| 0 <= j < views(v@).len() && views(v@)[j] == x@;
            assert(views(v@)[j] != x@);
        }
    }
    false
}

/// A duplicate-free sequence of names drawn from another duplicate-free
/// sequence is no longer than it.
pub proof fn lemma_distinct_subset_len(a: Seq<Seq<char>>, b: Seq<Seq<char>>)
    requires
        a.no_duplicates(),
        b.no_duplicates(),
        forall|q: Seq<char>| a.contains(q) ==> b.contains(q),
    ensures
        a.len() <= b.len(),
{
    a.unique_seq_to_set();
    b.unique_seq_to_set();
    assert(a.to_set().subset_of(b.to_set()));
    vstd::set_lib::lemma_len_subset(a.to_set(), b.to_set());
}

} // verus!
