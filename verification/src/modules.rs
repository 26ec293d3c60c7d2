//! Grouping symbols by module for the architecture section: each module
//! once, in text order, with its symbol entries once each, in text order.

use vstd::prelude::*;
use crate::report::{fqn_module, fqn_module_spec};
use crate::table::strs;

verus! {

/// Text order: the order of the first differing character, a proper prefix
/// first (the order of `String`'s `<`).
pub open spec fn text_lt(a: Seq<char>, b: Seq<char>) -> bool
    decreases a.len(),
{
    if a.len() == 0 {
        b.len() > 0
    } else if b.len() == 0 {
        false
    } else if a[0] != b[0] {
        (a[0] as int) < (b[0] as int)
    } else {
        text_lt(a.drop_first(), b.drop_first())
    }
}

pub proof fn lemma_text_lt_irreflexive(a: Seq<char>)
    ensures
        !text_lt(a, a),
    decreases a.len(),
{
    if a.len() > 0 {
        lemma_text_lt_irreflexive(a.drop_first());
    }
}

pub proof fn lemma_text_lt_transitive(a: Seq<char>, b: Seq<char>, c: Seq<char>)
    requires
        text_lt(a, b),
        text_lt(b, c),
    ensures
        text_lt(a, c),
    decreases a.len(),
{
    if a.len() > 0 && b.len() > 0 && c.len() > 0 {
        if a[0] == b[0] && b[0] == c[0] {
            lemma_text_lt_transitive(a.drop_first(), b.drop_first(), c.drop_first());
        }
    }
}

pub proof fn lemma_text_lt_total(a: Seq<char>, b: Seq<char>)
    ensures
        a == b || text_lt(a, b) || text_lt(b, a),
    decreases a.len(),
{
    if a.len() > 0 && b.len() > 0 && a[0] == b[0] {
        lemma_text_lt_total(a.drop_first(), b.drop_first());
        if a.drop_first() == b.drop_first() {
            assert(a =~= seq![a[0]] + a.drop_first());
            assert(b =~= seq![b[0]] + b.drop_first());
        }
    } else if a.len() == 0 && b.len() == 0 {
        assert(a =~= b);
    }
}

pub proof fn lemma_text_lt_asymmetric(a: Seq<char>, b: Seq<char>)
    requires
        text_lt(a, b),
    ensures
        !text_lt(b, a),
{
    if text_lt(b, a) {
        lemma_text_lt_transitive(a, b, a);
        lemma_text_lt_irreflexive(a);
    }
}

fn text_less(a: &String, b: &String) -> (r: bool)
    ensures
        r == text_lt(a@, b@),
{
    let av = crate::text::chars_of(a.as_str());
    let bv = crate::text::chars_of(b.as_str());
    let mut i: usize = 0;
    assert(a@.skip(0) =~= a@);
    assert(b@.skip(0) =~= b@);
    while i < av.len() && i < bv.len() && av[i] == bv[i]
        invariant
            i <= av.len(),
            i <= bv.len(),
            av@ == a@,
            bv@ == b@,
            text_lt(a@, b@) == text_lt(a@.skip(i as int), b@.skip(i as int)),
        decreases av.len() - i,
    {
        let ghost sa = a@.skip(i as int);
        let ghost sb = b@.skip(i as int);
        assert(sa.drop_first() =~= a@.skip(i + 1));
        assert(sb.drop_first() =~= b@.skip(i + 1));
        i = i + 1;
    }
    let ghost sa = a@.skip(i as int);
    let ghost sb = b@.skip(i as int);
    if i == av.len() {
        assert(sa.len() == 0);
        i < bv.len()
    } else if i == bv.len() {
        assert(sb.len() == 0);
        false
    } else {
        assert(sa[0] == av@[i as int] && sb[0] == bv@[i as int]);
        assert(sa[0] != sb[0]);
        av[i] < bv[i]
    }
}

/// Strictly increasing in text order.
pub open spec fn strictly_sorted(s: Seq<Seq<char>>) -> bool {
    forall|i: int, j: int| 0 <= i < j < s.len() ==> text_lt(#[trigger] s[i], #[trigger] s[j])
}

proof fn lemma_sorted_distinct(s: Seq<Seq<char>>)
    requires
        strictly_sorted(s),
    ensures
        s.no_duplicates(),
{
    assert forall|i: int, j: int| 0 <= i < s.len() && 0 <= j < s.len() && i != j implies s[i] != s[j] by {
        if i < j {
            lemma_text_lt_irreflexive(s[i]);
        } else {
            lemma_text_lt_irreflexive(s[j]);
        }
    }
}

/// Adds `x` to a strictly sorted list unless it is already there, keeping
/// the list strictly sorted.
pub fn insert_sorted(v: &mut Vec<String>, x: String)
    requires
        strictly_sorted(strs(old(v)@)),
    ensures
        strictly_sorted(strs(final(v)@)),
        forall|y: Seq<char>| #[trigger] strs(final(v)@).contains(y) <==> strs(old(v)@).contains(y) || y == x@,
{
    let ghost s0 = strs(v@);
    let mut p: usize = 0;
    while p < v.len() && text_less(&v[p], &x)
        invariant
            p <= v.len(),
            s0 == strs(v@),
            forall|k: int| 0 <= k < p ==> text_lt(#[trigger] s0[k], x@),
        decreases v.len() - p,
    {
        p = p + 1;
    }
    if p < v.len() && v[p] == x {
        assert(s0[p as int] == x@);
        return;
    }
    proof {
        if p < s0.len() {
            lemma_text_lt_total(s0[p as int], x@);
            assert(text_lt(x@, s0[p as int]));
        }
    }
    v.insert(p, x);
    let ghost s1 = strs(v@);
    assert(s1 =~= s0.take(p as int).push(x@) + s0.skip(p as int));
    assert forall|i: int, j: int| 0 <= i < j < s1.len() implies text_lt(#[trigger] s1[i], #[trigger] s1[j]) by {
        if j < p {
            assert(s1[i] == s0[i] && s1[j] == s0[j]);
        } else if j == p {
            assert(s1[i] == s0[i]);
        } else if i == p {
            assert(s1[j] == s0[j - 1]);
            if j - 1 > p {
                lemma_text_lt_transitive(x@, s0[p as int], s0[j - 1]);
            }
        } else if i < p {
            assert(s1[i] == s0[i] && s1[j] == s0[j - 1]);
        } else {
            assert(s1[i] == s0[i - 1] && s1[j] == s0[j - 1]);
        }
    }
    assert forall|y: Seq<char>| #[trigger] s1.contains(y) <==> s0.contains(y) || y == x@ by {
        if s1.contains(y) {
            let w = choose|w: int| 0 <= w < s1.len() && s1[w] == y;
            if w < p {
                assert(s0[w] == y);
            } else if w > p {
                assert(s0[w - 1] == y);
            }
        }
        if s0.contains(y) {
            let w = choose|w: int| 0 <= w < s0.len() && s0[w] == y;
            if w < p {
                assert(s1[w] == y);
            } else {
                assert(s1[w + 1] == y);
            }
        }
        if y == x@ {
            assert(s1[p as int] == y);
        }
    }
}

/// A symbol as the architecture section lists it: its fully qualified
/// name and the entry shown for it.
pub type EntryV = (Seq<char>, Seq<char>);

/// Entry `e` is listed under module `m`.
pub open spec fn listed(syms: Seq<EntryV>, m: Seq<char>, e: Seq<char>) -> bool {
    exists|i: int| 0 <= i < syms.len() && fqn_module_spec((#[trigger] syms[i]).0) == Some(m) && syms[i].1 == e
}

pub open spec fn groups_view(v: Seq<(String, Vec<String>)>) -> Seq<(Seq<char>, Seq<Seq<char>>)> {
    v.map_values(|g: (String, Vec<String>)| (g.0@, strs(g.1@)))
}

/// The grouping is the sorted listing of `listed`: modules strictly
/// sorted, each with its entries strictly sorted, and an entry appears
/// under a module exactly when `listed` says so.
pub open spec fn grouped(g: Seq<(Seq<char>, Seq<Seq<char>>)>, syms: Seq<EntryV>) -> bool {
    &&& strictly_sorted(g.map_values(|x: (Seq<char>, Seq<Seq<char>>)| x.0))
    &&& forall|k: int| 0 <= k < g.len() ==> strictly_sorted(#[trigger] g[k].1) && g[k].1.len() > 0
    &&& forall|m: Seq<char>, e: Seq<char>|
        #[trigger] listed(syms, m, e) <==> exists|k: int| 0 <= k < g.len() && (#[trigger] g[k]).0 == m && g[k].1.contains(e)
}

/// Groups symbol entries by the module of their fully qualified name
/// (names without a `/` have none and are left out).
pub fn group_by_module(syms: &Vec<(String, String)>) -> (r: Vec<(String, Vec<String>)>)
    ensures
        grouped(groups_view(r@), syms@.map_values(|s: (String, String)| (s.0@, s.1@))),
{
    let ghost sv = syms@.map_values(|s: (String, String)| (s.0@, s.1@));
    let mut r: Vec<(String, Vec<String>)> = Vec::new();
    let mut i: usize = 0;
    while i < syms.len()
        invariant
            i <= syms.len(),
            sv == syms@.map_values(|s: (String, String)| (s.0@, s.1@)),
            grouped(groups_view(r@), sv.take(i as int)),
        decreases syms.len() - i,
    {
        let ghost before = groups_view(r@);
        let ghost pre = sv.take(i as int);
        let ghost post = sv.take(i + 1);
        assert(post =~= pre.push(sv[i as int]));
        match fqn_module(syms[i].0.as_str()) {
            None => {
                assert forall|m: Seq<char>, e: Seq<char>| #[trigger] listed(post, m, e) <==> listed(pre, m, e) by {
                    if listed(post, m, e) {
                        let w = choose|w: int| 0 <= w < post.len() && fqn_module_spec((#[trigger] post[w]).0) == Some(m) && post[w].1 == e;
                        assert(w < i);
                        assert(pre[w] == post[w]);
                    }
                    if listed(pre, m, e) {
                        let w = choose|w: int| 0 <= w < pre.len() && fqn_module_spec((#[trigger] pre[w]).0) == Some(m) && pre[w].1 == e;
                        assert(pre[w] == post[w]);
                    }
                }
            },
            Some(m) => {
                let entry = syms[i].1.clone();
                add_entry(&mut r, m, entry, Ghost(pre), Ghost(post));
            },
        }
        i = i + 1;
    }
    assert(sv.take(syms.len() as int) =~= sv);
    r
}

/// Adds entry `e` under module `m`, where `post` is `pre` plus one symbol
/// whose module is `m` and whose entry is `e`.
fn add_entry(r: &mut Vec<(String, Vec<String>)>, m: String, e: String, Ghost(pre): Ghost<Seq<EntryV>>, Ghost(post): Ghost<Seq<EntryV>>)
    requires
        grouped(groups_view(old(r)@), pre),
        post.len() == pre.len() + 1,
        forall|w: int| 0 <= w < pre.len() ==> post[w] == pre[w],
        fqn_module_spec(post[pre.len() as int].0) == Some(m@),
        post[pre.len() as int].1 == e@,
    ensures
        grouped(groups_view(final(r)@), post),
{
    let ghost g0 = groups_view(r@);
    let ghost names0 = g0.map_values(|x: (Seq<char>, Seq<Seq<char>>)| x.0);
    proof {
        assert forall|mm: Seq<char>, ee: Seq<char>| #[trigger] listed(post, mm, ee) <==> listed(pre, mm, ee) || (mm == m@ && ee == e@) by {
            if listed(post, mm, ee) {
                let w = choose|w: int| 0 <= w < post.len() && fqn_module_spec((#[trigger] post[w]).0) == Some(mm) && post[w].1 == ee;
                if w < pre.len() {
                    assert(pre[w] == post[w]);
                }
            }
            if listed(pre, mm, ee) {
                let w = choose|w: int| 0 <= w < pre.len() && fqn_module_spec((#[trigger] pre[w]).0) == Some(mm) && pre[w].1 == ee;
                assert(pre[w] == post[w]);
            }
            if mm == m@ && ee == e@ {
                assert(0 <= pre.len() < post.len() && fqn_module_spec(post[pre.len() as int].0) == Some(mm) && post[pre.len() as int].1 == ee);
            }
        }
    }
    let mut p: usize = 0;
    while p < r.len() && text_less(&r[p].0, &m)
        invariant
            p <= r.len(),
            g0 == groups_view(r@),
            names0 == g0.map_values(|x: (Seq<char>, Seq<Seq<char>>)| x.0),
            forall|k: int| 0 <= k < p ==> text_lt(#[trigger] names0[k], m@),
        decreases r.len() - p,
    {
        assert(names0[p as int] == r@[p as int].0@);
        p = p + 1;
    }
    if p < r.len() && r[p].0 == m {
        let mut entries = r[p].1.clone();
        assert(strs(entries@) == g0[p as int].1);
        insert_sorted(&mut entries, e);
        let ghost new_set = strs(entries@);
        let name = r[p].0.clone();
        r.set(p, (name, entries));
        let ghost g1 = groups_view(r@);
        assert(g1 =~= g0.update(p as int, (m@, new_set)));
        assert(g1.map_values(|x: (Seq<char>, Seq<Seq<char>>)| x.0) =~= names0);
        assert forall|mm: Seq<char>, ee: Seq<char>| #[trigger] listed(post, mm, ee) <==> exists|k: int|
            0 <= k < g1.len() && (#[trigger] g1[k]).0 == mm && g1[k].1.contains(ee) by {
            if listed(pre, mm, ee) {
                let k = choose|k: int| 0 <= k < g0.len() && (#[trigger] g0[k]).0 == mm && g0[k].1.contains(ee);
                if k == p {
                    assert(g1[k].1.contains(ee));
                } else {
                    assert(g1[k] == g0[k]);
                }
            }
            if mm == m@ && ee == e@ {
                assert(g1[p as int].1.contains(ee));
            }
            if exists|k: int| 0 <= k < g1.len() && (#[trigger] g1[k]).0 == mm && g1[k].1.contains(ee) {
                let k = choose|k: int| 0 <= k < g1.len() && (#[trigger] g1[k]).0 == mm && g1[k].1.contains(ee);
                if k != p {
                    assert(g1[k] == g0[k]);
                } else if !(ee == e@) {
                    assert(g0[p as int].1.contains(ee));
                }
            }
        }
        assert forall|k: int| 0 <= k < g1.len() implies strictly_sorted(#[trigger] g1[k].1) && g1[k].1.len() > 0 by {
            if k != p {
                assert(g1[k] == g0[k]);
            } else {
                assert(new_set.contains(e@));
            }
        }
    } else {
        proof {
            if p < names0.len() {
                assert(names0[p as int] == r@[p as int].0@);
                lemma_text_lt_total(names0[p as int], m@);
            }
        }
        let mut entries: Vec<String> = Vec::new();
        entries.push(e);
        let ghost es = strs(entries@);
        assert(es =~= seq![e@]);
        r.insert(p, (m, entries));
        let ghost g1 = groups_view(r@);
        assert(g1 =~= g0.take(p as int).push((m@, es)) + g0.skip(p as int));
        let ghost names1 = g1.map_values(|x: (Seq<char>, Seq<Seq<char>>)| x.0);
        assert(names1 =~= names0.take(p as int).push(m@) + names0.skip(p as int));
        assert forall|i: int, j: int| 0 <= i < j < names1.len() implies text_lt(#[trigger] names1[i], #[trigger] names1[j]) by {
            if j < p {
                assert(names1[i] == names0[i] && names1[j] == names0[j]);
            } else if j == p {
                assert(names1[i] == names0[i]);
            } else if i == p {
                assert(names1[j] == names0[j - 1]);
                if j - 1 > p {
                    lemma_text_lt_transitive(m@, names0[p as int], names0[j - 1]);
                }
            } else if i < p {
                assert(names1[i] == names0[i] && names1[j] == names0[j - 1]);
            } else {
                assert(names1[i] == names0[i - 1] && names1[j] == names0[j - 1]);
            }
        }
        assert forall|k: int| 0 <= k < g1.len() implies strictly_sorted(#[trigger] g1[k].1) && g1[k].1.len() > 0 by {
            if k < p {
                assert(g1[k] == g0[k]);
            } else if k > p {
                assert(g1[k] == g0[k - 1]);
            }
        }
        proof {
            lemma_sorted_distinct(names0);
        }
        assert forall|mm: Seq<char>, ee: Seq<char>| #[trigger] listed(post, mm, ee) <==> exists|k: int|
            0 <= k < g1.len() && (#[trigger] g1[k]).0 == mm && g1[k].1.contains(ee) by {
            if listed(pre, mm, ee) {
                let k = choose|k: int| 0 <= k < g0.len() && (#[trigger] g0[k]).0 == mm && g0[k].1.contains(ee);
                if k < p {
                    assert(g1[k] == g0[k]);
                } else {
                    assert(g1[k + 1] == g0[k]);
                }
            }
            if mm == m@ && ee == e@ {
                assert(g1[p as int].1.contains(ee)) by {
                    assert(es[0] == e@);
                }
            }
            if exists|k: int| 0 <= k < g1.len() && (#[trigger] g1[k]).0 == mm && g1[k].1.contains(ee) {
                let k = choose|k: int| 0 <= k < g1.len() && (#[trigger] g1[k]).0 == mm && g1[k].1.contains(ee);
                if k < p {
                    assert(g1[k] == g0[k]);
                } else if k > p {
                    assert(g1[k] == g0[k - 1]);
                } else {
                    assert(mm == m@);
                    let w = choose|w: int| 0 <= w < es.len() && es[w] == ee;
                    assert(ee == e@);
                }
            }
        }
    }
}

} // verus!
