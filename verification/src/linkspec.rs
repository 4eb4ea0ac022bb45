//! The link-spec grammar `FROM.OUT -> TO.IN`: identifiers are non-empty and
//! hold no dot and no whitespace. The canonical string is the link registry
//! key; parsing and formatting are proved inverse to each other.

use vstd::prelude::*;

verus! {

/// Characters that cannot appear in an identifier.
pub open spec fn is_sep(c: char) -> bool {
    c == '.' || c == ' ' || c == '\t' || c == '\n' || c == '\r'
}

/// A non-empty name without dots or whitespace.
pub open spec fn is_ident(s: Seq<char>) -> bool {
    s.len() > 0 && forall|k: int| 0 <= k < s.len() ==> !is_sep(#[trigger] s[k])
}

/// The ` -> ` separator between the two endpoints.
pub open spec fn arrow() -> Seq<char> {
    seq![' ', '-', '>', ' ']
}

pub open spec fn dot() -> Seq<char> {
    seq!['.']
}

/// The canonical form of a link spec with the given parts.
pub open spec fn spec_format(f: Seq<char>, o: Seq<char>, t: Seq<char>, i: Seq<char>) -> Seq<char> {
    f + dot() + o + arrow() + t + dot() + i
}

/// A string is a well-formed link spec when it is the canonical form of some
/// four identifiers.
pub open spec fn spec_well_formed(s: Seq<char>) -> bool {
    exists|f: Seq<char>, o: Seq<char>, t: Seq<char>, i: Seq<char>|
        is_ident(f) && is_ident(o) && is_ident(t) && is_ident(i) && s == #[trigger] spec_format(
            f,
            o,
            t,
            i,
        )
}

/// The unique decomposition of a well-formed link spec string, as a
/// specification value: (from, output, to, input).
pub open spec fn spec_parse(s: Seq<char>) -> (Seq<char>, Seq<char>, Seq<char>, Seq<char>) {
    choose|f: Seq<char>, o: Seq<char>, t: Seq<char>, i: Seq<char>|
        is_ident(f) && is_ident(o) && is_ident(t) && is_ident(i) && s == #[trigger] spec_format(
            f,
            o,
            t,
            i,
        )
}

/// On a well-formed string, `spec_parse` yields identifiers that format back
/// to the string.
pub proof fn lemma_spec_parse(s: Seq<char>)
    requires
        spec_well_formed(s),
    ensures
        is_ident(spec_parse(s).0),
        is_ident(spec_parse(s).1),
        is_ident(spec_parse(s).2),
        is_ident(spec_parse(s).3),
        s == spec_format(spec_parse(s).0, spec_parse(s).1, spec_parse(s).2, spec_parse(s).3),
{
}

/// The four-tuple (from, output, to, input) of a link spec.
pub struct LinkSpec {
    /// Producing app name.
    pub from: String,
    /// Output slot name on the producing app.
    pub output: String,
    /// Consuming app name.
    pub to: String,
    /// Input slot name on the consuming app.
    pub input: String,
}

impl LinkSpec {
    /// All four parts are identifiers.
    pub open spec fn wf(&self) -> bool {
        is_ident(self.from@) && is_ident(self.output@) && is_ident(self.to@) && is_ident(
            self.input@,
        )
    }

    /// The canonical registry key of this spec.
    pub open spec fn key(&self) -> Seq<char> {
        spec_format(self.from@, self.output@, self.to@, self.input@)
    }

    /// Render the canonical string form of this spec.
    pub fn key_string(&self) -> (r: String)
        ensures
            r@ == self.key(),
    {
        let mut s = String::new();
        s.append(self.from.as_str());
        s.append(".");
        s.append(self.output.as_str());
        s.append(" -> ");
        s.append(self.to.as_str());
        s.append(".");
        s.append(self.input.as_str());
        proof {
            reveal_strlit(".");
            reveal_strlit(" -> ");
            assert((".")@ =~= dot());
            assert((" -> ")@ =~= arrow());
            assert(s@ =~= self.key());
        }
        s
    }
}

/// Index-by-index description of a canonical link spec string, and the
/// uniqueness of its separator positions.
pub proof fn lemma_format_structure(f: Seq<char>, o: Seq<char>, t: Seq<char>, i: Seq<char>)
    requires
        is_ident(f),
        is_ident(o),
        is_ident(t),
        is_ident(i),
    ensures
        ({
            let s = spec_format(f, o, t, i);
            let p: int = f.len() as int + 1 + o.len() as int;
            let d2: int = p + 4 + t.len() as int;
            &&& s.len() == f.len() + o.len() + t.len() + i.len() + 6
            &&& (forall|k: int| 0 <= k < f.len() ==> s[k] == f[k])
            &&& s[f.len() as int] == '.'
            &&& (forall|k: int| 0 <= k < o.len() ==> s[f.len() as int + 1 + k] == o[k])
            &&& s[p] == ' '
            &&& s[p + 1] == '-'
            &&& s[p + 2] == '>'
            &&& s[p + 3] == ' '
            &&& (forall|k: int| 0 <= k < t.len() ==> s[p + 4 + k] == t[k])
            &&& s[d2] == '.'
            &&& (forall|k: int| 0 <= k < i.len() ==> s[d2 + 1 + k] == i[k])
            &&& (forall|j: int| 0 <= j < p ==> s[j] != ' ')
            &&& (forall|j: int| p + 4 <= j < s.len() ==> s[j] != ' ')
            &&& (forall|j: int| 0 <= j < f.len() ==> s[j] != '.')
            &&& (forall|j: int| f.len() < j < p ==> s[j] != '.')
            &&& (forall|j: int| p + 4 <= j < d2 ==> s[j] != '.')
            &&& (forall|j: int| d2 < j < s.len() ==> s[j] != '.')
        }),
{
    let s = spec_format(f, o, t, i);
    let p: int = f.len() as int + 1 + o.len() as int;
    let d2: int = p + 4 + t.len() as int;
    assert forall|j: int| 0 <= j < p implies s[j] != ' ' by {
        if j < f.len() {
            assert(!is_sep(f[j]));
        } else if j > f.len() {
            assert(s[j] == o[j - f.len() - 1]);
            assert(!is_sep(o[j - f.len() - 1]));
        }
    }
    assert forall|j: int| p + 4 <= j < s.len() implies s[j] != ' ' by {
        if j < d2 {
            assert(s[j] == t[j - p - 4]);
            assert(!is_sep(t[j - p - 4]));
        } else if j > d2 {
            assert(s[j] == i[j - d2 - 1]);
            assert(!is_sep(i[j - d2 - 1]));
        }
    }
    assert forall|j: int| 0 <= j < f.len() implies s[j] != '.' by {
        assert(!is_sep(f[j]));
    }
    assert forall|j: int| f.len() < j < p implies s[j] != '.' by {
        assert(s[j] == o[j - f.len() - 1]);
        assert(!is_sep(o[j - f.len() - 1]));
    }
    assert forall|j: int| p + 4 <= j < d2 implies s[j] != '.' by {
        assert(s[j] == t[j - p - 4]);
        assert(!is_sep(t[j - p - 4]));
    }
    assert forall|j: int| d2 < j < s.len() implies s[j] != '.' by {
        assert(s[j] == i[j - d2 - 1]);
        assert(!is_sep(i[j - d2 - 1]));
    }
}

/// Two canonical strings over identifiers are equal only when their parts are.
pub proof fn lemma_format_injective(
    f1: Seq<char>,
    o1: Seq<char>,
    t1: Seq<char>,
    i1: Seq<char>,
    f2: Seq<char>,
    o2: Seq<char>,
    t2: Seq<char>,
    i2: Seq<char>,
)
    requires
        is_ident(f1),
        is_ident(o1),
        is_ident(t1),
        is_ident(i1),
        is_ident(f2),
        is_ident(o2),
        is_ident(t2),
        is_ident(i2),
        spec_format(f1, o1, t1, i1) == spec_format(f2, o2, t2, i2),
    ensures
        f1 == f2,
        o1 == o2,
        t1 == t2,
        i1 == i2,
{
    lemma_format_structure(f1, o1, t1, i1);
    lemma_format_structure(f2, o2, t2, i2);
    let s = spec_format(f1, o1, t1, i1);
    let p1: int = f1.len() as int + 1 + o1.len() as int;
    let p2: int = f2.len() as int + 1 + o2.len() as int;
    assert(p1 == p2) by {
        if p1 < p2 {
            assert(s[p1] == ' ');
        } else if p2 < p1 {
            assert(s[p2] == ' ');
        }
    }
    assert(f1.len() == f2.len()) by {
        if f1.len() < f2.len() {
            assert(s[f1.len() as int] == '.');
        } else if f2.len() < f1.len() {
            assert(s[f2.len() as int] == '.');
        }
    }
    let d1: int = p1 + 4 + t1.len() as int;
    let d2: int = p2 + 4 + t2.len() as int;
    assert(d1 == d2) by {
        if d1 < d2 {
            assert(s[d1] == '.');
        } else if d2 < d1 {
            assert(s[d2] == '.');
        }
    }
    assert(i1.len() == i2.len());
    assert(f1 =~= f2);
    assert(o1 =~= o2);
    assert(t1 =~= t2);
    assert(i1 =~= i2);
}

/// The first occurrence of `c` in `s` at or after `from`.
fn find_char(s: &str, from: usize, c: char) -> (r: Option<usize>)
    requires
        from <= s@.len(),
    ensures
        match r {
            Some(p) => from <= p < s@.len() && s@[p as int] == c && forall|j: int|
                from <= j < p ==> s@[j] != c,
            None => forall|j: int| from <= j < s@.len() ==> s@[j] != c,
        },
{
    let n: usize = s.unicode_len();
    let mut p: usize = from;
    while p < n
        invariant
            from <= p <= n,
            n == s@.len(),
            forall|j: int| from <= j < p ==> s@[j] != c,
        decreases n - p,
    {
        if s.get_char(p) == c {
            return Some(p);
        }
        p = p + 1;
    }
    None
}

/// Decide whether a string is an identifier of the grammar.
fn check_ident(s: &str) -> (r: bool)
    ensures
        r == is_ident(s@),
{
    let n: usize = s.unicode_len();
    if n == 0 {
        return false;
    }
    let mut k: usize = 0;
    while k < n
        invariant
            k <= n,
            n == s@.len(),
            forall|j: int| 0 <= j < k ==> !is_sep(#[trigger] s@[j]),
        decreases n - k,
    {
        let c: char = s.get_char(k);
        if c == '.' || c == ' ' || c == '\t' || c == '\n' || c == '\r' {
            return false;
        }
        k = k + 1;
    }
    true
}

/// Parse a canonical link spec string into its four parts. Returns the parts
/// exactly when the string is well-formed, and `None` otherwise.
pub fn parse_link(s: &str) -> (r: Option<LinkSpec>)
    ensures
        match r {
            Some(ls) => ls.wf() && ls.key() == s@ && spec_well_formed(s@) && ls.from@ == spec_parse(
                s@,
            ).0 && ls.output@ == spec_parse(s@).1 && ls.to@ == spec_parse(s@).2 && ls.input@
                == spec_parse(s@).3,
            None => !spec_well_formed(s@),
        },
{
    let n: usize = s.unicode_len();
    let ghost gs = s@;
    proof {
        if spec_well_formed(gs) {
            let (f, o, t, i) = choose|f: Seq<char>, o: Seq<char>, t: Seq<char>, i: Seq<char>|
                is_ident(f) && is_ident(o) && is_ident(t) && is_ident(i) && gs == #[trigger]
                spec_format(f, o, t, i);
            lemma_format_structure(f, o, t, i);
        }
    }
    let sp: usize = match find_char(s, 0, ' ') {
        Some(p) => p,
        None => {
            return None;
        },
    };
    if n - sp <= 3 {
        return None;
    }
    if !(s.get_char(sp + 1) == '-' && s.get_char(sp + 2) == '>' && s.get_char(sp + 3) == ' ') {
        return None;
    }
    let d1: usize = match find_char(s, 0, '.') {
        Some(p) => p,
        None => {
            return None;
        },
    };
    if d1 >= sp {
        return None;
    }
    let d2: usize = match find_char(s, sp + 4, '.') {
        Some(p) => p,
        None => {
            return None;
        },
    };
    let from_s: &str = s.substring_char(0, d1);
    let output_s: &str = s.substring_char(d1 + 1, sp);
    let to_s: &str = s.substring_char(sp + 4, d2);
    let input_s: &str = s.substring_char(d2 + 1, n);
    proof {
        if spec_well_formed(gs) {
            let (f, o, t, i) = choose|f: Seq<char>, o: Seq<char>, t: Seq<char>, i: Seq<char>|
                is_ident(f) && is_ident(o) && is_ident(t) && is_ident(i) && gs == #[trigger]
                spec_format(f, o, t, i);
            lemma_format_structure(f, o, t, i);
            assert(sp == f.len() + 1 + o.len());
            assert(d1 == f.len());
            assert(d2 == sp + 4 + t.len());
            assert(from_s@ =~= f);
            assert(output_s@ =~= o);
            assert(to_s@ =~= t);
            assert(input_s@ =~= i);
        }
    }
    if !(check_ident(from_s) && check_ident(output_s) && check_ident(to_s) && check_ident(input_s))
    {
        return None;
    }
    let ls = LinkSpec {
        from: from_s.to_owned(),
        output: output_s.to_owned(),
        to: to_s.to_owned(),
        input: input_s.to_owned(),
    };
    proof {
        assert(ls.key() =~= gs);
        assert(spec_well_formed(gs)) by {
            assert(gs == spec_format(ls.from@, ls.output@, ls.to@, ls.input@));
        }
        lemma_spec_parse(gs);
        lemma_format_injective(
            ls.from@,
            ls.output@,
            ls.to@,
            ls.input@,
            spec_parse(gs).0,
            spec_parse(gs).1,
            spec_parse(gs).2,
            spec_parse(gs).3,
        );
    }
    Some(ls)
}

} // verus!
