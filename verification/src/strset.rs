//! Ordered sets of strings kept as strictly increasing vectors; the order is
//! that of `String`'s `Ord`.

use vstd::prelude::*;

use crate::text::{chars_of, seq_lt, str_eq};

verus! {

pub open spec fn strictly_sorted(s: Seq<Seq<char>>) -> bool {
    forall|i: int, j: int| 0 <= i < j < s.len() ==> seq_lt(s[i], s[j])
}

/// No text comes before itself.
pub proof fn lemma_lt_irreflexive(a: Seq<char>)
    ensures
        !seq_lt(a, a),
    decreases a.len(),
{
    if a.len() > 0 {
        lemma_lt_irreflexive(a.drop_first());
    }
}

/// The text order is transitive.
pub proof fn lemma_lt_transitive(a: Seq<char>, b: Seq<char>, c: Seq<char>)
    requires
        seq_lt(a, b),
        seq_lt(b, c),
    ensures
        seq_lt(a, c),
    decreases a.len(),
{
    if a.len() > 0 && b.len() > 0 && c.len() > 0 {
        if a[0] == b[0] && b[0] == c[0] {
            lemma_lt_transitive(a.drop_first(), b.drop_first(), c.drop_first());
        }
    }
}

/// Of two different texts, one comes first.
pub proof fn lemma_lt_total(a: Seq<char>, b: Seq<char>)
    ensures
        a == b || seq_lt(a, b) || seq_lt(b, a),
    decreases a.len(),
{
    if a.len() > 0 && b.len() > 0 && a[0] == b[0] {
        lemma_lt_total(a.drop_first(), b.drop_first());
        if a.drop_first() == b.drop_first() {
            assert(a =~= seq![a[0]] + a.drop_first());
            assert(b =~= seq![b[0]] + b.drop_first());
        }
    } else if a.len() == 0 && b.len() == 0 {
        assert(a =~= b);
    }
}

/// `a` comes strictly before `b`.
pub fn chars_lt(a: &[char], b: &[char]) -> (r: bool)
    ensures
        r == seq_lt(a@, b@),
{
    let mut i: usize = 0;
    assert(a@.skip(0) =~= a@);
    assert(b@.skip(0) =~= b@);
    while i < a.len() && i < b.len() && a[i] == b[i]
        invariant
            i <= a.len(),
            i <= b.len(),
            seq_lt(a@, b@) == seq_lt(a@.skip(i as int), b@.skip(i as int)),
        decreases a.len() - i,
    {
        assert(a@.skip(i as int).drop_first() =~= a@.skip(i + 1));
        assert(b@.skip(i as int).drop_first() =~= b@.skip(i + 1));
        i += 1;
    }
    if i == a.len() {
        i < b.len()
    } else if i == b.len() {
        false
    } else {
        a[i] < b[i]
    }
}

/// `a` comes strictly before `b`.
pub fn str_lt(a: &str, b: &str) -> (r: bool)
    ensures
        r == seq_lt(a@, b@),
{
    let av = chars_of(a);
    let bv = chars_of(b);
    chars_lt(av.as_slice(), bv.as_slice())
}

/// Adds `x` to the ordered set `v`.
pub fn sorted_insert(v: &mut Vec<String>, x: String)
    requires
        strictly_sorted(old(v).deep_view()),
    ensures
        strictly_sorted(final(v).deep_view()),
        forall|y: Seq<char>| #[trigger]
            final(v).deep_view().contains(y) <==> (old(v).deep_view().contains(y) || y == x@),
{
    let ghost old_v = v.deep_view();
    let mut i: usize = 0;
    while i < v.len() && str_lt(v[i].as_str(), x.as_str())
        invariant
            i <= v.len(),
            v.deep_view() == old_v,
            strictly_sorted(old_v),
            forall|j: int| 0 <= j < i ==> seq_lt(#[trigger] old_v[j], x@),
        decreases v.len() - i,
    {
        i += 1;
    }
    if i < v.len() && v[i] == x {
        assert(old_v[i as int] == x@);
        return ;
    }
    proof {
        if i < v.len() {
            lemma_lt_total(old_v[i as int], x@);
        }
    }
    v.insert(i, x);
    let ghost nv = v.deep_view();
    assert(nv =~= old_v.insert(i as int, x@));
    assert forall|a: int, b: int| 0 <= a < b < nv.len() implies seq_lt(nv[a], nv[b]) by {
        if b < i {
        } else if b == i {
        } else if a < i {
            lemma_lt_transitive(nv[a], x@, old_v[i as int]);
            if b - 1 > i {
                lemma_lt_transitive(nv[a], old_v[i as int], nv[b]);
            }
        } else if a == i {
            if b - 1 > i {
                lemma_lt_transitive(x@, old_v[i as int], nv[b]);
            }
        } else {
        }
    }
    assert forall|y: Seq<char>| #[trigger] nv.contains(y) <==> (old_v.contains(y) || y == x@) by {
        if nv.contains(y) {
            let k = choose|k: int| 0 <= k < nv.len() && nv[k] == y;
            if k < i {
                assert(old_v[k] == y);
            } else if k > i {
                assert(old_v[k - 1] == y);
            }
        }
        if old_v.contains(y) {
            let k = choose|k: int| 0 <= k < old_v.len() && old_v[k] == y;
            if k < i {
                assert(nv[k] == y);
            } else {
                assert(nv[k + 1] == y);
            }
        }
        if y == x@ {
            assert(nv[i as int] == y);
        }
    }
}

/// `v` holds the string `s`.
pub fn contains_str(v: &Vec<String>, s: &str) -> (r: bool)
    ensures
        r == v.deep_view().contains(s@),
{
    let mut i: usize = 0;
    while i < v.len()
        invariant
            i <= v.len(),
            forall|j: int| 0 <= j < i ==> v.deep_view()[j] != s@,
        decreases v.len() - i,
    {
        if str_eq(v[i].as_str(), s) {
            assert(v.deep_view()[i as int] == s@);
            return true;
        }
        i += 1;
    }
    false
}

/// A filter of an ordered set is ordered.
pub proof fn lemma_filter_sorted(s: Seq<Seq<char>>, p: spec_fn(Seq<char>) -> bool)
    requires
        strictly_sorted(s),
    ensures
        strictly_sorted(s.filter(p)),
    decreases s.len(),
{
    reveal(Seq::filter);
    if s.len() > 0 {
        let init = s.drop_last();
        assert(strictly_sorted(init)) by {
            assert forall|i: int, j: int| 0 <= i < j < init.len() implies seq_lt(init[i], init[j]) by {
                assert(init[i] == s[i] && init[j] == s[j]);
            }
        }
        lemma_filter_sorted(init, p);
        let f = init.filter(p);
        if p(s.last()) {
            assert(s.filter(p) == f.push(s.last()));
            assert forall|i: int, j: int| 0 <= i < j < f.len() + 1 implies seq_lt(f.push(s.last())[i], f.push(s.last())[j]) by {
                if j == f.len() {
                    let x = f[i];
                    assert(f.contains(x));
                    init.lemma_filter_contains_rev(p, x);
                    let c = choose|c: int| 0 <= c < init.len() && init[c] == x;
                    assert(s[c] == x);
                    assert(seq_lt(s[c], s[s.len() - 1]));
                }
            }
        } else {
            assert(s.filter(p) == f);
        }
    }
}

/// Removes `x` from the ordered set `v`.
pub fn sorted_remove(v: &mut Vec<String>, x: &str)
    requires
        strictly_sorted(old(v).deep_view()),
    ensures
        strictly_sorted(final(v).deep_view()),
        forall|y: Seq<char>| #[trigger]
            final(v).deep_view().contains(y) <==> (old(v).deep_view().contains(y) && y != x@),
{
    let ghost s = v.deep_view();
    let ghost p = |y: Seq<char>| y != x@;
    let mut out: Vec<String> = Vec::new();
    let mut i: usize = 0;
    while i < v.len()
        invariant
            i <= v.len(),
            s == v.deep_view(),
            p == (|y: Seq<char>| y != x@),
            out.deep_view() == s.take(i as int).filter(p),
        decreases v.len() - i,
    {
        proof {
            crate::seqs::lemma_filter_take_step(s, p, i as int);
        }
        if !str_eq(v[i].as_str(), x) {
            let ghost before = out.deep_view();
            out.push(v[i].clone());
            assert(out.deep_view() =~= before.push(s[i as int]));
        }
        i += 1;
    }
    proof {
        crate::seqs::lemma_take_full(s);
        lemma_filter_sorted(s, p);
        assert forall|y: Seq<char>| #[trigger] out.deep_view().contains(y) <==> (s.contains(y) && y != x@) by {
            if out.deep_view().contains(y) {
                s.lemma_filter_contains_rev(p, y);
                let c = choose|c: int| 0 <= c < out.deep_view().len() && out.deep_view()[c] == y;
                s.lemma_filter_pred(p, c);
                assert(p(s.filter(p)[c]));
            }
            if s.contains(y) && y != x@ {
                let c = choose|c: int| 0 <= c < s.len() && s[c] == y;
                s.lemma_filter_contains(p, c);
                assert(s.filter(p).contains(s[c]));
            }
        }
    }
    *v = out;
}

} // verus!
