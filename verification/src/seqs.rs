//! Counting, filtering and repetition over sequences, with the facts about
//! them that the import graph needs.

use vstd::prelude::*;

verus! {

/// How many times `x` occurs in `s`.
pub open spec fn count<A>(s: Seq<A>, x: A) -> nat
    decreases s.len(),
{
    if s.len() == 0 {
        0
    } else {
        count(s.drop_last(), x) + if s.last() == x {
            1nat
        } else {
            0nat
        }
    }
}

/// `s` without any occurrence of `x`, order kept.
pub open spec fn remove_all<A>(s: Seq<A>, x: A) -> Seq<A>
    decreases s.len(),
{
    if s.len() == 0 {
        Seq::empty()
    } else if s.last() == x {
        remove_all(s.drop_last(), x)
    } else {
        remove_all(s.drop_last(), x).push(s.last())
    }
}

/// `n` copies of `x`.
pub open spec fn repeat<A>(x: A, n: nat) -> Seq<A> {
    Seq::new(n, |i: int| x)
}

pub proof fn lemma_count_push<A>(s: Seq<A>, y: A, x: A)
    ensures
        count(s.push(y), x) == count(s, x) + if y == x {
            1nat
        } else {
            0nat
        },
{
    assert(s.push(y).drop_last() =~= s);
}

pub proof fn lemma_count_concat<A>(s: Seq<A>, t: Seq<A>, x: A)
    ensures
        count(s + t, x) == count(s, x) + count(t, x),
    decreases t.len(),
{
    if t.len() > 0 {
        assert((s + t).drop_last() =~= s + t.drop_last());
        lemma_count_concat(s, t.drop_last(), x);
    } else {
        assert(s + t =~= s);
    }
}

pub proof fn lemma_count_repeat<A>(y: A, n: nat, x: A)
    ensures
        count(repeat(y, n), x) == if y == x {
            n
        } else {
            0
        },
    decreases n,
{
    if n > 0 {
        assert(repeat(y, n).drop_last() =~= repeat(y, (n - 1) as nat));
        lemma_count_repeat(y, (n - 1) as nat, x);
    }
}

pub proof fn lemma_count_remove_all<A>(s: Seq<A>, y: A, x: A)
    ensures
        count(remove_all(s, y), x) == if y == x {
            0
        } else {
            count(s, x)
        },
    decreases s.len(),
{
    if s.len() > 0 {
        lemma_count_remove_all(s.drop_last(), y, x);
        if s.last() != y {
            lemma_count_push(remove_all(s.drop_last(), y), s.last(), x);
        }
    }
}

pub proof fn lemma_count_contains<A>(s: Seq<A>, x: A)
    ensures
        (count(s, x) > 0) <==> s.contains(x),
    decreases s.len(),
{
    if s.len() > 0 {
        lemma_count_contains(s.drop_last(), x);
        if s.drop_last().contains(x) {
            let j = choose|j: int| 0 <= j < s.drop_last().len() && s.drop_last()[j] == x;
            assert(s[j] == x);
        }
        if s.contains(x) && s.last() != x {
            let j = choose|j: int| 0 <= j < s.len() && s[j] == x;
            assert(s.drop_last()[j] == x);
        }
    }
}

pub proof fn lemma_remove_all_idem<A>(s: Seq<A>, y: A)
    ensures
        remove_all(remove_all(s, y), y) == remove_all(s, y),
    decreases s.len(),
{
    if s.len() > 0 {
        lemma_remove_all_idem(s.drop_last(), y);
        if s.last() != y {
            let r = remove_all(s.drop_last(), y);
            assert(r.push(s.last()).drop_last() =~= r);
        }
    }
}

/// Whether `x` occurs in `v`, by its characters.
pub fn contains_str(v: &Vec<String>, x: &String) -> (r: bool)
    ensures
        r == v@.map_values(|s: String| s@).contains(x@),
{
    let ghost w = v@.map_values(|s: String| s@);
    let mut i: usize = 0;
    while i < v.len()
        invariant
            i <= v.len(),
            w == v@.map_values(|s: String| s@),
            forall|j: int| 0 <= j < i ==> w[j] != x@,
        decreases v.len() - i,
    {
        if v[i] == *x {
            assert(w[i as int] == x@);
            return true;
        }
        i = i + 1;
    }
    false
}

/// A sequence has no duplicates exactly when nothing occurs in it twice.
pub proof fn lemma_no_duplicates_count<A>(s: Seq<A>)
    ensures
        s.no_duplicates() <==> forall|x: A| #[trigger] count(s, x) <= 1,
    decreases s.len(),
{
    if s.len() > 0 {
        let init = s.drop_last();
        let y = s.last();
        lemma_no_duplicates_count(init);
        assert(s =~= init.push(y));
        assert forall|x: A| #[trigger] count(s, x) == count(init, x) + (if y == x { 1nat } else { 0nat }) by {
            lemma_count_push(init, y, x);
        }
        lemma_count_contains(init, y);
        if s.no_duplicates() {
            assert forall|i: int, j: int| 0 <= i < init.len() && 0 <= j < init.len() && i != j implies init[i] != init[j] by {
                assert(init[i] == s[i] && init[j] == s[j]);
            }
            assert(!init.contains(y)) by {
                if init.contains(y) {
                    let w = choose|w: int| 0 <= w < init.len() && init[w] == y;
                    assert(s[w] == s[s.len() - 1]);
                }
            }
            assert forall|x: A| #[trigger] count(s, x) <= 1 by {
                assert(count(init, x) <= 1);
            }
        }
        if forall|x: A| #[trigger] count(s, x) <= 1 {
            assert forall|x: A| #[trigger] count(init, x) <= 1 by {
                assert(count(s, x) <= 1);
            }
            assert(count(s, y) <= 1);
            assert(!init.contains(y));
            assert forall|i: int, j: int| 0 <= i < s.len() && 0 <= j < s.len() && i != j implies s[i] != s[j] by {
                if i < init.len() && j < init.len() {
                    assert(init[i] == s[i] && init[j] == s[j]);
                } else if i < init.len() {
                    assert(init[i] == s[i]);
                } else {
                    assert(init[j] == s[j]);
                }
            }
        }
    }
}

/// `s` with every repeat of an earlier element left out, first occurrences
/// in order.
pub open spec fn dedup<A>(s: Seq<A>) -> Seq<A>
    decreases s.len(),
{
    if s.len() == 0 {
        Seq::empty()
    } else {
        let d = dedup(s.drop_last());
        if d.contains(s.last()) {
            d
        } else {
            d.push(s.last())
        }
    }
}

/// `dedup` holds each element of `s` exactly once.
pub proof fn lemma_dedup<A>(s: Seq<A>)
    ensures
        dedup(s).no_duplicates(),
        forall|x: A| #[trigger] dedup(s).contains(x) <==> s.contains(x),
    decreases s.len(),
{
    if s.len() > 0 {
        let init = s.drop_last();
        lemma_dedup(init);
        let d = dedup(init);
        assert(s =~= init.push(s.last()));
        assert forall|x: A| #[trigger] dedup(s).contains(x) <==> s.contains(x) by {
            vstd::seq_lib::lemma_seq_contains_after_push(d, s.last(), x);
            vstd::seq_lib::lemma_seq_contains_after_push(init, s.last(), x);
        }
        if !d.contains(s.last()) {
            let e = d.push(s.last());
            assert forall|i: int, j: int| 0 <= i < e.len() && 0 <= j < e.len() && i != j implies e[i] != e[j] by {
                if i == d.len() as int {
                    assert(d[j] == e[j]);
                } else if j == d.len() as int {
                    assert(d[i] == e[i]);
                }
            }
        }
    }
}

/// Appends `x` unless an equal string is already there.
pub fn push_unique(v: &mut Vec<String>, x: String)
    ensures
        final(v)@.map_values(|s: String| s@) == (if old(v)@.map_values(|s: String| s@).contains(x@) {
            old(v)@.map_values(|s: String| s@)
        } else {
            old(v)@.map_values(|s: String| s@).push(x@)
        }),
{
    if !contains_str(v, &x) {
        let ghost before = v@.map_values(|s: String| s@);
        v.push(x);
        assert(v@.map_values(|s: String| s@) =~= before.push(x@));
    }
}

} // verus!
