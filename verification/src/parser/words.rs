//! Word-level text operations the parsers use: prefixes, the first
//! whitespace-separated word, trimming characters by a predicate.

use vstd::prelude::*;
use crate::pathmodel::split_on;
use crate::text::{chars_of, find_char, lemma_find_char, find_char_from, is_ws, is_ws_exec, trim_start, occurs_at, occurs_at_exec};
use crate::parser::pattern::{is_alnum, char_is_alphanumeric};

verus! {

/// Whether `s` starts with `p`.
pub open spec fn starts_with(s: Seq<char>, p: Seq<char>) -> bool {
    occurs_at(s, p, 0)
}

/// Whether `s` ends with `p`.
pub open spec fn ends_with(s: Seq<char>, p: Seq<char>) -> bool {
    occurs_at(s, p, s.len() - p.len())
}

/// Position of the first occurrence of `p` in `s` at or after `from`, or -1.
pub open spec fn find_sub_from(s: Seq<char>, p: Seq<char>, from: int) -> int
    decreases s.len() + 1 - from,
{
    if from < 0 || from + p.len() > s.len() {
        -1
    } else if occurs_at(s, p, from) {
        from
    } else {
        find_sub_from(s, p, from + 1)
    }
}

pub open spec fn find_sub(s: Seq<char>, p: Seq<char>) -> int {
    find_sub_from(s, p, 0)
}

pub open spec fn contains_sub(s: Seq<char>, p: Seq<char>) -> bool {
    find_sub(s, p) >= 0
}

/// Position of the first occurrence of `p` in `v[from..]`, if any.
pub fn find_sub_exec(v: &Vec<char>, p: &[char], from: usize) -> (r: Option<usize>)
    requires
        from <= v.len(),
    ensures
        match r {
            Some(i) => i == find_sub_from(v@, p@, from as int) && occurs_at(v@, p@, i as int) && from <= i,
            None => find_sub_from(v@, p@, from as int) == -1,
        },
{
    let mut i = from;
    while p.len() <= v.len() - i
        invariant
            from <= i <= v.len(),
            find_sub_from(v@, p@, i as int) == find_sub_from(v@, p@, from as int),
        decreases v.len() - i,
    {
        if occurs_at_exec(v.as_slice(), p, i) {
            return Some(i);
        }
        if p.len() == 0 {
            assert(v@.subrange(i as int, i as int) =~= p@);
        }
        i = i + 1;
    }
    None
}

/// The first whitespace-separated word of `s`, as
/// `s.split_whitespace().next()` gives it.
pub open spec fn first_word(s: Seq<char>) -> Option<Seq<char>> {
    let t = trim_start(s);
    if t.len() == 0 {
        None
    } else {
        Some(t.take(word_end(t, 0)))
    }
}

/// Where the run of non-whitespace starting at `i` ends.
pub open spec fn word_end(t: Seq<char>, i: int) -> int
    decreases t.len() - i,
{
    if i < 0 || i >= t.len() || is_ws(t[i]) {
        if i < 0 {
            0
        } else if i > t.len() {
            t.len() as int
        } else {
            i
        }
    } else {
        word_end(t, i + 1)
    }
}

/// Bounds in `v` of the first word of `v[a..b]`.
pub fn first_word_range(v: &Vec<char>, a: usize, b: usize) -> (r: Option<(usize, usize)>)
    requires
        a <= b <= v.len(),
    ensures
        match r {
            None => first_word(v@.subrange(a as int, b as int)) is None,
            Some(w) => w.0 <= w.1 <= b && a <= w.0 && first_word(v@.subrange(a as int, b as int)) == Some(
                v@.subrange(w.0 as int, w.1 as int),
            ),
        },
{
    let mut i = a;
    while i < b && is_ws_exec(v[i])
        invariant
            a <= i <= b <= v.len(),
            trim_start(v@.subrange(i as int, b as int)) == trim_start(v@.subrange(a as int, b as int)),
        decreases b - i,
    {
        assert(v@.subrange(i as int, b as int).drop_first() =~= v@.subrange(i + 1, b as int));
        i = i + 1;
    }
    let ghost t = v@.subrange(i as int, b as int);
    assert(trim_start(t) == t);
    if i == b {
        return None;
    }
    let mut j = i;
    while j < b && !is_ws_exec(v[j])
        invariant
            i <= j <= b <= v.len(),
            t == v@.subrange(i as int, b as int),
            word_end(t, (j - i) as int) == word_end(t, 0),
        decreases b - j,
    {
        assert(t[(j - i) as int] == v@[j as int]);
        j = j + 1;
    }
    if j < b {
        assert(t[(j - i) as int] == v@[j as int]);
    }
    assert(word_end(t, (j - i) as int) == j - i);
    assert(t.take(j - i) =~= v@.subrange(i as int, j as int));
    Some((i, j))
}

/// A character kept in an imported name: alphanumeric or `_`.
pub open spec fn is_name_char(c: char) -> bool {
    is_alnum(c) || c == '_'
}

/// `s` with characters that are not name characters stripped from both ends.
pub open spec fn strip_non_name(s: Seq<char>) -> Seq<char>
    decreases s.len(),
{
    if s.len() > 0 && !is_name_char(s[0]) {
        strip_non_name(s.drop_first())
    } else if s.len() > 0 && !is_name_char(s.last()) {
        strip_non_name(s.drop_last())
    } else {
        s
    }
}

/// `s` with non-alphanumeric characters stripped from both ends.
pub open spec fn strip_non_alnum(s: Seq<char>) -> Seq<char>
    decreases s.len(),
{
    if s.len() > 0 && !is_alnum(s[0]) {
        strip_non_alnum(s.drop_first())
    } else if s.len() > 0 && !is_alnum(s.last()) {
        strip_non_alnum(s.drop_last())
    } else {
        s
    }
}

/// Bounds of `strip_non_name(v[a..b])` (with `underscore`) or
/// `strip_non_alnum(v[a..b])` (without) inside `v`.
pub fn strip_range(v: &Vec<char>, a: usize, b: usize, underscore: bool) -> (r: (usize, usize))
    requires
        a <= b <= v.len(),
    ensures
        a <= r.0 <= r.1 <= b,
        underscore ==> v@.subrange(r.0 as int, r.1 as int) == strip_non_name(v@.subrange(a as int, b as int)),
        !underscore ==> v@.subrange(r.0 as int, r.1 as int) == strip_non_alnum(v@.subrange(a as int, b as int)),
{
    let mut i = a;
    let mut j = b;
    loop
        invariant
            a <= i <= j <= b <= v.len(),
            underscore ==> strip_non_name(v@.subrange(i as int, j as int)) == strip_non_name(v@.subrange(a as int, b as int)),
            !underscore ==> strip_non_alnum(v@.subrange(i as int, j as int)) == strip_non_alnum(v@.subrange(a as int, b as int)),
        decreases j - i,
    {
        let ghost w = v@.subrange(i as int, j as int);
        if i < j {
            let c = v[i];
            let keep_first = char_is_alphanumeric(c) || (underscore && c == '_');
            assert(w[0] == c);
            if !keep_first {
                assert(w.drop_first() =~= v@.subrange(i + 1, j as int));
                i = i + 1;
                continue;
            }
            let d = v[j - 1];
            let keep_last = char_is_alphanumeric(d) || (underscore && d == '_');
            assert(w.last() == d);
            if !keep_last {
                assert(w.drop_last() =~= v@.subrange(i as int, j - 1));
                j = j - 1;
                continue;
            }
        }
        return (i, j);
    }
}

/// Bounds of the pieces of `v[a..b]` between occurrences of `c`.
pub fn split_ranges(v: &Vec<char>, a: usize, b: usize, c: char) -> (r: Vec<(usize, usize)>)
    requires
        a <= b <= v.len(),
    ensures
        r@.len() == split_on(v@.subrange(a as int, b as int), c).len(),
        forall|k: int|
            0 <= k < r@.len() ==> {
                &&& a <= (#[trigger] r@[k]).0 <= r@[k].1 <= b
                &&& v@.subrange(r@[k].0 as int, r@[k].1 as int) == split_on(v@.subrange(a as int, b as int), c)[k]
            },
{
    let ghost whole = split_on(v@.subrange(a as int, b as int), c);
    let mut r: Vec<(usize, usize)> = Vec::new();
    let mut st: usize = a;
    let mut done = false;
    while !done
        invariant
            a <= st <= b <= v.len(),
            whole == split_on(v@.subrange(a as int, b as int), c),
            !done ==> r@.len() + split_on(v@.subrange(st as int, b as int), c).len() == whole.len(),
            !done ==> forall|k: int| 0 <= k < split_on(v@.subrange(st as int, b as int), c).len() ==> #[trigger] split_on(v@.subrange(st as int, b as int), c)[k]
                == whole[r@.len() + k],
            done ==> r@.len() == whole.len(),
            forall|k: int|
                0 <= k < r@.len() ==> {
                    &&& a <= (#[trigger] r@[k]).0 <= r@[k].1 <= b
                    &&& v@.subrange(r@[k].0 as int, r@[k].1 as int) == whole[k]
                },
        decreases (if done { 0int } else { 1int }) + b - st,
    {
        let ghost rest = v@.subrange(st as int, b as int);
        proof {
            lemma_find_char(rest, c);
        }
        let mut e = st;
        while e < b && v[e] != c
            invariant
                st <= e <= b <= v.len(),
                rest == v@.subrange(st as int, b as int),
                forall|j: int| st <= j < e ==> v@[j] != c,
            decreases b - e,
        {
            e = e + 1;
        }
        let ghost ps = split_on(rest, c);
        let ghost old_r = r@;
        if e < b {
            assert(rest[e - st] == c);
            assert forall|j: int| 0 <= j < e - st implies rest[j] != c by {
                assert(rest[j] == v@[st + j]);
            }
            assert(find_char(rest, c) == e - st);
            assert(rest.take(e - st) =~= v@.subrange(st as int, e as int));
            assert(rest.skip(e - st + 1) =~= v@.subrange(e + 1, b as int));
            r.push((st, e));
            assert(ps[0] == v@.subrange(st as int, e as int));
            assert(whole[old_r.len() as int] == ps[0]);
            assert forall|k: int| 0 <= k < split_on(v@.subrange(e + 1, b as int), c).len() implies #[trigger] split_on(v@.subrange(e + 1, b as int), c)[k]
                == whole[r@.len() + k] by {
                assert(ps[k + 1] == split_on(v@.subrange(e + 1, b as int), c)[k]);
                assert(ps[k + 1] == whole[old_r.len() + k + 1]);
            }
            st = e + 1;
        } else {
            assert forall|j: int| 0 <= j < rest.len() implies rest[j] != c by {
                assert(rest[j] == v@[st + j]);
            }
            assert(ps == seq![rest]);
            assert(ps[0] == rest);
            assert(split_on(v@.subrange(st as int, b as int), c)[0] == whole[r@.len() as int + 0]);
            assert(whole[old_r.len() as int] == rest);
            r.push((st, b));
            done = true;
        }
    }
    r
}

pub proof fn lemma_find_sub_from(s: Seq<char>, p: Seq<char>, from: int)
    ensures
        find_sub_from(s, p, from) == -1 || (from <= find_sub_from(s, p, from) && occurs_at(
            s,
            p,
            find_sub_from(s, p, from),
        )),
    decreases s.len() + 1 - from,
{
    if !(from < 0 || from + p.len() > s.len()) && !occurs_at(s, p, from) {
        lemma_find_sub_from(s, p, from + 1);
    }
}

/// The pieces of `s` between non-overlapping occurrences of `p`.
pub open spec fn split_sub(s: Seq<char>, p: Seq<char>) -> Seq<Seq<char>>
    decreases s.len(),
{
    let i = find_sub(s, p);
    if p.len() == 0 || i < 0 || i + p.len() > s.len() {
        seq![s]
    } else {
        seq![s.take(i)] + split_sub(s.skip(i + p.len()), p)
    }
}

/// The pieces of `v` between non-overlapping occurrences of `p`.
pub fn split_sub_exec(v: &Vec<char>, p: &[char]) -> (r: Vec<String>)
    requires
        p@.len() > 0,
    ensures
        r@.map_values(|x: String| x@) == split_sub(v@, p@),
{
    let mut out: Vec<String> = Vec::new();
    let mut st: usize = 0;
    assert(v@.skip(0) =~= v@);
    loop
        invariant
            st <= v.len(),
            p@.len() > 0,
            out@.map_values(|x: String| x@) + split_sub(v@.skip(st as int), p@) == split_sub(v@, p@),
        decreases v.len() - st,
    {
        let ghost rest = v@.skip(st as int);
        let ghost before = out@.map_values(|x: String| x@);
        match find_sub_exec(v, p, st) {
            Some(i) => {
                proof {
                    lemma_find_sub_shift(v@, p@, st as int, 0);
                }
                assert(find_sub(rest, p@) == i - st);
                assert(rest.take(i - st) =~= v@.subrange(st as int, i as int));
                assert(rest.skip(i - st + p@.len()) =~= v@.skip(i + p@.len()));
                let piece = string_of_range_w(v, st, i);
                out.push(piece);
                assert(out@.map_values(|x: String| x@) =~= before.push(v@.subrange(st as int, i as int)));
                st = i + p.len();
            },
            None => {
                proof {
                    lemma_find_sub_shift(v@, p@, st as int, 0);
                }
                assert(find_sub(rest, p@) == -1);
                assert(rest =~= v@.subrange(st as int, v.len() as int));
                let piece = string_of_range_w(v, st, v.len());
                out.push(piece);
                assert(out@.map_values(|x: String| x@) =~= before.push(rest));
                return out;
            },
        }
    }
}

fn string_of_range_w(v: &Vec<char>, a: usize, b: usize) -> (s: String)
    requires
        a <= b <= v.len(),
    ensures
        s@ == v@.subrange(a as int, b as int),
{
    crate::text::string_of_range(v, a, b)
}

/// Searching a suffix is searching the whole from a later start.
pub proof fn lemma_find_sub_shift(s: Seq<char>, p: Seq<char>, st: int, from: int)
    requires
        0 <= st <= s.len(),
        0 <= from,
    ensures
        find_sub_from(s.skip(st), p, from) == if find_sub_from(s, p, st + from) < 0 {
            -1
        } else {
            find_sub_from(s, p, st + from) - st
        },
    decreases s.len() + 1 - st - from,
{
    let t = s.skip(st);
    if from + p.len() > t.len() {
    } else {
        assert(t.subrange(from, from + p.len()) =~= s.subrange(st + from, st + from + p.len()));
        if !occurs_at(t, p, from) {
            lemma_find_sub_shift(s, p, st, from + 1);
        }
    }
}

/// Whether `p` occurs in `s`.
pub fn contains_text(s: &str, p: &str) -> (r: bool)
    ensures
        r == contains_sub(s@, p@),
{
    let v = chars_of(s);
    let pv = chars_of(p);
    match find_sub_exec(&v, &pv, 0) {
        Some(_) => true,
        None => false,
    }
}

} // verus!
