//! Association lists keyed by text: the representation behind the import
//! graph. A table is read as a map in which a later entry for a key
//! overrides an earlier one, so lookups scan from the end.

use vstd::prelude::*;
use crate::seqs::remove_all;

verus! {

/// The map that a sequence of `(key, value)` entries denotes.
pub open spec fn tbl_map<V>(t: Seq<(Seq<char>, V)>) -> Map<Seq<char>, V>
    decreases t.len(),
{
    if t.len() == 0 {
        Map::empty()
    } else {
        tbl_map(t.drop_last()).insert(t.last().0, t.last().1)
    }
}

/// `i` is the last position of `t` whose key is `k`.
pub open spec fn is_last_key<V>(t: Seq<(Seq<char>, V)>, k: Seq<char>, i: int) -> bool {
    &&& 0 <= i < t.len()
    &&& t[i].0 == k
    &&& forall|j: int| i < j < t.len() ==> t[j].0 != k
}

pub open spec fn has_key<V>(t: Seq<(Seq<char>, V)>, k: Seq<char>) -> bool {
    exists|j: int| 0 <= j < t.len() && t[j].0 == k
}

pub proof fn lemma_tbl_last<V>(t: Seq<(Seq<char>, V)>, k: Seq<char>, i: int)
    requires
        is_last_key(t, k, i),
    ensures
        tbl_map(t).dom().contains(k),
        tbl_map(t)[k] == t[i].1,
    decreases t.len(),
{
    if i < t.len() - 1 {
        assert(t.drop_last()[i] == t[i]);
        lemma_tbl_last(t.drop_last(), k, i);
    }
}

pub proof fn lemma_tbl_absent<V>(t: Seq<(Seq<char>, V)>, k: Seq<char>)
    requires
        !has_key(t, k),
    ensures
        !tbl_map(t).dom().contains(k),
    decreases t.len(),
{
    if t.len() > 0 {
        assert(t.last() == t[t.len() - 1]);
        assert forall|j: int| 0 <= j < t.drop_last().len() implies t.drop_last()[j].0 != k by {
            assert(t.drop_last()[j] == t[j]);
        }
        lemma_tbl_absent(t.drop_last(), k);
    }
}

pub proof fn lemma_tbl_update<V>(t: Seq<(Seq<char>, V)>, i: int, v: V)
    requires
        is_last_key(t, t[i].0, i),
    ensures
        tbl_map(t.update(i, (t[i].0, v))) == tbl_map(t).insert(t[i].0, v),
    decreases t.len(),
{
    let k = t[i].0;
    let u = t.update(i, (k, v));
    if i == t.len() - 1 {
        assert(u.drop_last() =~= t.drop_last());
        assert(tbl_map(u) =~= tbl_map(t).insert(k, v));
    } else {
        assert(u.drop_last() =~= t.drop_last().update(i, (k, v)));
        assert(t.drop_last()[i] == t[i]);
        lemma_tbl_update(t.drop_last(), i, v);
        assert(t.last() == t[t.len() - 1]);
        assert(tbl_map(u) =~= tbl_map(t).insert(k, v));
    }
}

/// Views of owned text.
pub open spec fn strs(v: Seq<String>) -> Seq<Seq<char>> {
    v.map_values(|s: String| s@)
}

/// A table from text to lists of text, by its characters.
pub open spec fn ptab(t: Seq<(String, Vec<String>)>) -> Seq<(Seq<char>, Seq<Seq<char>>)> {
    t.map_values(|e: (String, Vec<String>)| (e.0@, strs(e.1@)))
}

/// The value stored for `k`, or the empty list.
pub open spec fn lookup(m: Map<Seq<char>, Seq<Seq<char>>>, k: Seq<char>) -> Seq<Seq<char>> {
    if m.dom().contains(k) {
        m[k]
    } else {
        Seq::empty()
    }
}

/// A copy of a list of strings.
pub fn clone_strings(v: &Vec<String>) -> (r: Vec<String>)
    ensures
        strs(r@) == strs(v@),
{
    let mut r: Vec<String> = Vec::new();
    let mut i: usize = 0;
    while i < v.len()
        invariant
            i <= v.len(),
            r@.len() == i,
            forall|j: int| 0 <= j < i ==> r@[j]@ == v@[j]@,
        decreases v.len() - i,
    {
        r.push(v[i].clone());
        i = i + 1;
    }
    assert(strs(r@) =~= strs(v@));
    r
}

/// The last position whose key is `key`, if any.
pub fn find_key(t: &Vec<(String, Vec<String>)>, key: &String) -> (r: Option<usize>)
    ensures
        match r {
            Some(i) => is_last_key(ptab(t@), key@, i as int),
            None => !has_key(ptab(t@), key@),
        },
{
    let mut i: usize = t.len();
    while i > 0
        invariant
            i <= t.len(),
            forall|j: int| i <= j < t.len() ==> ptab(t@)[j].0 != key@,
        decreases i,
    {
        i = i - 1;
        if t[i].0 == *key {
            return Some(i);
        }
    }
    None
}

/// The list stored under `key` (empty when there is none).
pub fn table_get(t: &Vec<(String, Vec<String>)>, key: &String) -> (r: Vec<String>)
    ensures
        strs(r@) == lookup(tbl_map(ptab(t@)), key@),
{
    match find_key(t, key) {
        Some(i) => {
            proof {
                lemma_tbl_last(ptab(t@), key@, i as int);
            }
            clone_strings(&t[i].1)
        },
        None => {
            proof {
                lemma_tbl_absent(ptab(t@), key@);
            }
            Vec::new()
        },
    }
}

/// Stores `val` under `key`, replacing what was there.
pub fn table_set(t: &mut Vec<(String, Vec<String>)>, key: String, val: Vec<String>)
    ensures
        tbl_map(ptab(final(t)@)) == tbl_map(ptab(old(t)@)).insert(key@, strs(val@)),
{
    match find_key(t, &key) {
        Some(i) => {
            proof {
                lemma_tbl_update(ptab(old(t)@), i as int, strs(val@));
            }
            t.set(i, (key, val));
            assert(ptab(t@) =~= ptab(old(t)@).update(i as int, (ptab(old(t)@)[i as int].0, strs(val@))));
        },
        None => {
            t.push((key, val));
            assert(ptab(t@).drop_last() =~= ptab(old(t)@));
        },
    }
}

/// `v` without any string equal to `x`, order kept.
pub fn remove_str(v: &Vec<String>, x: &String) -> (r: Vec<String>)
    ensures
        strs(r@) == remove_all(strs(v@), x@),
{
    let ghost w = strs(v@);
    let mut r: Vec<String> = Vec::new();
    let mut i: usize = 0;
    while i < v.len()
        invariant
            i <= v.len(),
            w == strs(v@),
            strs(r@) == remove_all(w.take(i as int), x@),
        decreases v.len() - i,
    {
        assert(w.take(i + 1).drop_last() =~= w.take(i as int));
        assert(w.take(i + 1).last() == v@[i as int]@);
        let ghost before = r@;
        if v[i] != *x {
            r.push(v[i].clone());
            assert(strs(r@) =~= strs(before).push(v@[i as int]@));
        }
        i = i + 1;
    }
    assert(w.take(v.len() as int) =~= w);
    r
}

/// Drops every occurrence of `x` from the list stored under `key`.
pub fn table_remove_value(t: &mut Vec<(String, Vec<String>)>, key: &String, x: &String)
    ensures
        tbl_map(ptab(final(t)@)).dom() == tbl_map(ptab(old(t)@)).dom(),
        forall|k: Seq<char>|
            #[trigger] lookup(tbl_map(ptab(final(t)@)), k) == if k == key@ {
                remove_all(lookup(tbl_map(ptab(old(t)@)), k), x@)
            } else {
                lookup(tbl_map(ptab(old(t)@)), k)
            },
{
    match find_key(t, key) {
        Some(i) => {
            let kept = remove_str(&t[i].1, x);
            proof {
                lemma_tbl_last(ptab(old(t)@), key@, i as int);
                lemma_tbl_update(ptab(old(t)@), i as int, strs(kept@));
            }
            t.set(i, (key.clone(), kept));
            assert(ptab(t@) =~= ptab(old(t)@).update(i as int, (key@, strs(kept@))));
            assert(tbl_map(ptab(t@)).dom() =~= tbl_map(ptab(old(t)@)).dom());
        },
        None => {
            proof {
                lemma_tbl_absent(ptab(old(t)@), key@);
            }
        },
    }
}

/// Appends `x` to the list stored under `key`, creating the list if needed.
pub fn table_push_value(t: &mut Vec<(String, Vec<String>)>, key: &String, x: String)
    ensures
        tbl_map(ptab(final(t)@)) == tbl_map(ptab(old(t)@)).insert(
            key@,
            lookup(tbl_map(ptab(old(t)@)), key@).push(x@),
        ),
{
    match find_key(t, key) {
        Some(i) => {
            let mut list = clone_strings(&t[i].1);
            let ghost before = list@;
            list.push(x);
            assert(strs(list@) =~= strs(before).push(x@));
            proof {
                lemma_tbl_last(ptab(old(t)@), key@, i as int);
                lemma_tbl_update(ptab(old(t)@), i as int, strs(list@));
            }
            t.set(i, (key.clone(), list));
            assert(ptab(t@) =~= ptab(old(t)@).update(i as int, (key@, strs(list@))));
        },
        None => {
            proof {
                lemma_tbl_absent(ptab(old(t)@), key@);
            }
            let mut list: Vec<String> = Vec::new();
            list.push(x);
            assert(strs(list@) =~= Seq::<Seq<char>>::empty().push(x@));
            t.push((key.clone(), list));
            assert(ptab(t@).drop_last() =~= ptab(old(t)@));
        },
    }
}

} // verus!
