//! Pieces of the generated `project.ctx`: the working agreements
//! ("nest") section and the list of recently written files.

use vstd::prelude::*;
use crate::rate::{RateTable, rtab, count_after, count_stamps_after, now_timestamp, file_activity_label_spec};
use crate::pathmodel::{parse_path, strip_prefix, strip_prefix_spec, render, render_path, is_absolute, segments};
use crate::decimal::{decimal, push_decimal};
use crate::text::{push_str, chars_of, string_of_range, find_char, find_char_from, lemma_find_char, rfind_char, rfind_char_exec};

verus! {

/// The working agreements a new project starts with.
pub open spec fn nest_text() -> Seq<char> {
    "structure:\n  modules should be deep \u{2014} few large modules, not many shallow ones\n  screaming architecture \u{2014} folders scream the domain, not the framework\n  dependency rule \u{2014} imports point inward, never outward\n\nnaming:\n  one word per concept\n  intention-revealing names\n  if hard to name \u{2192} redesign\n\nfunctions:\n  small, one thing\n  0-2 arguments ideal\n  command OR query, never both\n  no side effects\n\nstate:\n  prefer immutable\n  return new copies, don't mutate\n\nerrors:\n  crash early\n  separate error handling from business logic\n  never return null\n\nchanges:\n  easier to change \u{2014} every decision serves this\n  boy scout rule \u{2014} leave code cleaner than you found it"@
}

pub fn default_nest() -> (r: String)
    ensures
        r@ == nest_text(),
{
    "structure:\n  modules should be deep \u{2014} few large modules, not many shallow ones\n  screaming architecture \u{2014} folders scream the domain, not the framework\n  dependency rule \u{2014} imports point inward, never outward\n\nnaming:\n  one word per concept\n  intention-revealing names\n  if hard to name \u{2192} redesign\n\nfunctions:\n  small, one thing\n  0-2 arguments ideal\n  command OR query, never both\n  no side effects\n\nstate:\n  prefer immutable\n  return new copies, don't mutate\n\nerrors:\n  crash early\n  separate error handling from business logic\n  never return null\n\nchanges:\n  easier to change \u{2014} every decision serves this\n  boy scout rule \u{2014} leave code cleaner than you found it".to_owned()
}

/// Appends the nest section: a `---NEST` header, the text, and a closing
/// `---` followed by a blank line.
pub fn write_nest(out: &mut String, nest: &str)
    ensures
        final(out)@ == old(out)@ + "---NEST\n"@ + nest@ + "\n---\n\n"@,
{
    push_str(out, "---NEST\n");
    push_str(out, nest);
    push_str(out, "\n---\n\n");
}

/// The module of a fully qualified name: everything before its last `/`;
/// `None` for a name without one.
pub open spec fn fqn_module_spec(fqn: Seq<char>) -> Option<Seq<char>> {
    let i = rfind_char(fqn, '/');
    if i < 0 {
        None
    } else {
        Some(fqn.take(i))
    }
}

pub fn fqn_module(fqn: &str) -> (r: Option<String>)
    ensures
        match r {
            None => fqn_module_spec(fqn@) is None,
            Some(m) => fqn_module_spec(fqn@) == Some(m@),
        },
{
    let v = chars_of(fqn);
    match rfind_char_exec(&v, '/') {
        None => None,
        Some(i) => {
            assert(v@.subrange(0, i as int) =~= v@.take(i as int));
            Some(string_of_range(&v, 0, i))
        },
    }
}

/// The top-level part of a fully qualified name: everything before its
/// first `/`, or the whole name.
pub open spec fn fqn_head_spec(fqn: Seq<char>) -> Seq<char> {
    let i = find_char(fqn, '/');
    if i < 0 {
        fqn
    } else {
        fqn.take(i)
    }
}

pub fn fqn_head(fqn: &str) -> (r: String)
    ensures
        r@ == fqn_head_spec(fqn@),
{
    let v = chars_of(fqn);
    proof {
        lemma_find_char(v@, '/');
    }
    match find_char_from(&v, 0, '/') {
        None => {
            assert(find_char(v@, '/') == -1);
            fqn.to_owned()
        },
        Some(i) => {
            assert(find_char(v@, '/') == i);
            assert(v@.subrange(0, i as int) =~= v@.take(i as int));
            string_of_range(&v, 0, i)
        },
    }
}

/// A recently written file: its path, how many seconds ago it was last
/// written, and how many writes it had in the last minute.
pub type ActiveV = (Seq<char>, int, nat);

pub struct ActiveFile {
    pub file: String,
    pub secs_ago: i128,
    pub writes_1m: usize,
}

pub open spec fn active_view(a: ActiveFile) -> ActiveV {
    (a.file@, a.secs_ago as int, a.writes_1m as nat)
}

pub open spec fn actives_view(v: Seq<ActiveFile>) -> Seq<ActiveV> {
    v.map_values(|a: ActiveFile| active_view(a))
}

/// Entry `i` of the table is hidden by a later entry for the same key.
pub open spec fn shadowed(t: Seq<(Seq<char>, Seq<i64>)>, i: int) -> bool {
    exists|j: int| i < j < t.len() && (#[trigger] t[j]).0 == t[i].0
}

/// The last timestamp, or 0 for none.
pub open spec fn last_or_zero(s: Seq<i64>) -> int {
    if s.len() > 0 {
        s.last() as int
    } else {
        0
    }
}

/// A file counts as active when its last write was at most five minutes
/// before `now`.
pub open spec fn active_entry(e: (Seq<char>, Seq<i64>), now: i64) -> Option<ActiveV> {
    let secs = now - last_or_zero(e.1);
    if secs <= 300 {
        Some((e.0, secs, count_after(e.1, now - 60)))
    } else {
        None
    }
}

/// The active files among the table entries from `i` on, in table order.
pub open spec fn active_from(t: Seq<(Seq<char>, Seq<i64>)>, now: i64, i: int) -> Seq<ActiveV>
    decreases t.len() - i,
{
    if i < 0 || i >= t.len() {
        Seq::empty()
    } else {
        let rest = active_from(t, now, i + 1);
        if !shadowed(t, i) && active_entry(t[i], now) is Some {
            seq![active_entry(t[i], now)->0] + rest
        } else {
            rest
        }
    }
}

/// `x` placed after every entry of `s` that is not older than it.
pub open spec fn insert_by_age(s: Seq<ActiveV>, x: ActiveV) -> Seq<ActiveV>
    decreases s.len(),
{
    if s.len() == 0 {
        seq![x]
    } else if s.last().1 <= x.1 {
        s.push(x)
    } else {
        insert_by_age(s.drop_last(), x).push(s.last())
    }
}

/// `s` ordered by seconds since the last write, most recent first; entries
/// written equally long ago keep their order.
pub open spec fn sort_by_age(s: Seq<ActiveV>) -> Seq<ActiveV>
    decreases s.len(),
{
    if s.len() == 0 {
        Seq::empty()
    } else {
        insert_by_age(sort_by_age(s.drop_last()), s.last())
    }
}

/// A path shown relative to the project root, or as given when it is not
/// under the root.
pub open spec fn rel_text(file: Seq<char>, root: Seq<char>) -> Seq<char> {
    match strip_prefix_spec(is_absolute(file), segments(file), is_absolute(root), segments(root)) {
        Some(rest) => render(false, rest),
        None => file,
    }
}

/// `12s ago` under a minute, `3m ago` (whole minutes) from then on.
pub open spec fn ago_text(secs: int) -> Seq<char> {
    if secs < 60 {
        decimal(secs) + "s ago"@
    } else {
        decimal(secs / 60) + "m ago"@
    }
}

pub open spec fn editing_mark(writes_1m: nat) -> Seq<char> {
    if file_activity_label_spec(writes_1m) == "editing"@ {
        " \u{26a1}"@
    } else {
        ""@
    }
}

pub open spec fn active_line(a: ActiveV, root: Seq<char>) -> Seq<char> {
    rel_text(a.0, root) + "  last_write:"@ + ago_text(a.1) + "  writes_1m:"@ + decimal(a.2 as int) + "  "@
        + file_activity_label_spec(a.2) + editing_mark(a.2) + "\n"@
}

pub open spec fn active_lines(s: Seq<ActiveV>, root: Seq<char>) -> Seq<char>
    decreases s.len(),
{
    if s.len() == 0 {
        Seq::empty()
    } else {
        active_lines(s.drop_last(), root) + active_line(s.last(), root)
    }
}

/// The `---ACTIVE` section for the file write table at time `now`: nothing
/// when no file is active, otherwise one line per active file, most
/// recently written first.
pub open spec fn active_section(t: Seq<(Seq<char>, Seq<i64>)>, root: Seq<char>, now: i64) -> Seq<char> {
    let s = sort_by_age(active_from(t, now, 0));
    if s.len() == 0 {
        Seq::empty()
    } else {
        "---ACTIVE\n"@ + active_lines(s, root) + "---\n\n"@
    }
}

/// Inserting at the first position whose entry is older than `x` is
/// `insert_by_age`.
proof fn lemma_insert_at(s: Seq<ActiveV>, x: ActiveV, p: int)
    requires
        0 <= p <= s.len(),
        forall|k: int| p <= k < s.len() ==> (#[trigger] s[k]).1 > x.1,
        p == 0 || s[p - 1].1 <= x.1,
    ensures
        insert_by_age(s, x) == s.take(p).push(x) + s.skip(p),
    decreases s.len(),
{
    if s.len() == 0 {
        assert(s.take(p).push(x) + s.skip(p) =~= seq![x]);
    } else if s.last().1 <= x.1 {
        assert(p == s.len()) by {
            if p < s.len() {
                assert(s[s.len() - 1].1 > x.1);
            }
        }
        assert(s.take(p).push(x) + s.skip(p) =~= s.push(x));
    } else {
        let init = s.drop_last();
        assert(p < s.len()) by {
            if p == s.len() {
                assert(s[p - 1] == s.last());
            }
        }
        assert forall|k: int| p <= k < init.len() implies (#[trigger] init[k]).1 > x.1 by {
            assert(init[k] == s[k]);
        }
        if p > 0 {
            assert(init[p - 1] == s[p - 1]);
        }
        lemma_insert_at(init, x, p);
        assert((init.take(p).push(x) + init.skip(p)).push(s.last()) =~= s.take(p).push(x) + s.skip(p));
    }
}

/// `file` shown relative to `root`, or as given when it is not under it.
pub fn rel_display(file: &String, root: &str) -> (r: String)
    ensures
        r@ == rel_text(file@, root@),
{
    let f = parse_path(file.as_str());
    let base = parse_path(root);
    match strip_prefix(&f, &base) {
        Some(rest) => render_path(&rest),
        None => file.clone(),
    }
}

/// The active files of the table at time `now`, in table order.
fn collect_active(file_rates: &RateTable, now: i64) -> (r: Vec<ActiveFile>)
    ensures
        actives_view(r@) == active_from(rtab(file_rates.entries@), now, 0),
{
    let ghost t = rtab(file_rates.entries@);
    let n = file_rates.entries.len();
    let mut r: Vec<ActiveFile> = Vec::new();
    let mut i: usize = 0;
    while i < n
        invariant
            i <= n,
            n == file_rates.entries.len(),
            t == rtab(file_rates.entries@),
            actives_view(r@) + active_from(t, now, i as int) == active_from(t, now, 0),
        decreases n - i,
    {
        let mut hidden = false;
        let mut j: usize = i + 1;
        while j < n
            invariant
                i < j <= n,
                n == file_rates.entries.len(),
                t == rtab(file_rates.entries@),
                hidden == exists|k: int| i < k < j && (#[trigger] t[k]).0 == t[i as int].0,
            decreases n - j,
        {
            assert(t[j as int].0 == file_rates.entries@[j as int].0@);
            assert(t[i as int].0 == file_rates.entries@[i as int].0@);
            if file_rates.entries[j].0 == file_rates.entries[i].0 {
                hidden = true;
            }
            j = j + 1;
        }
        assert(hidden == shadowed(t, i as int));
        let ts = &file_rates.entries[i].1;
        assert(t[i as int].1 == ts@);
        let last: i64 = if ts.len() > 0 {
            ts[ts.len() - 1]
        } else {
            0
        };
        let secs: i128 = now as i128 - last as i128;
        let ghost before = actives_view(r@);
        if !hidden && secs <= 300 {
            let w = count_stamps_after(ts, now as i128 - 60);
            r.push(ActiveFile { file: file_rates.entries[i].0.clone(), secs_ago: secs, writes_1m: w });
            assert(actives_view(r@) =~= before.push(active_entry(t[i as int], now)->0));
            assert(seq![active_entry(t[i as int], now)->0] + active_from(t, now, i + 1) =~= active_from(
                t,
                now,
                i as int,
            ));
            assert(actives_view(r@) + active_from(t, now, i + 1) =~= before + active_from(t, now, i as int));
        }
        i = i + 1;
    }
    assert(actives_view(r@) =~= active_from(t, now, 0));
    r
}

fn copy_active(a: &ActiveFile) -> (r: ActiveFile)
    ensures
        active_view(r) == active_view(*a),
{
    ActiveFile { file: a.file.clone(), secs_ago: a.secs_ago, writes_1m: a.writes_1m }
}

/// Orders active files by seconds since their last write, most recent
/// first, keeping the order of ties.
fn sort_active(v: &Vec<ActiveFile>) -> (r: Vec<ActiveFile>)
    ensures
        actives_view(r@) == sort_by_age(actives_view(v@)),
{
    let ghost vv = actives_view(v@);
    let mut r: Vec<ActiveFile> = Vec::new();
    let mut k: usize = 0;
    assert(actives_view(r@) =~= sort_by_age(vv.take(0)));
    while k < v.len()
        invariant
            k <= v.len(),
            vv == actives_view(v@),
            actives_view(r@) == sort_by_age(vv.take(k as int)),
        decreases v.len() - k,
    {
        let ghost s0 = actives_view(r@);
        let x = copy_active(&v[k]);
        assert(active_view(x) == vv[k as int]);
        let mut p: usize = r.len();
        while p > 0 && r[p - 1].secs_ago > x.secs_ago
            invariant
                p <= r.len(),
                actives_view(r@) == s0,
                forall|q: int| p <= q < s0.len() ==> (#[trigger] s0[q]).1 > active_view(x).1,
            decreases p,
        {
            p = p - 1;
        }
        proof {
            lemma_insert_at(s0, active_view(x), p as int);
        }
        r.insert(p, x);
        assert(actives_view(r@) =~= s0.take(p as int).push(active_view(x)) + s0.skip(p as int));
        assert(vv.take(k + 1).drop_last() =~= vv.take(k as int));
        assert(vv.take(k + 1).last() == vv[k as int]);
        k = k + 1;
    }
    assert(vv.take(v.len() as int) =~= vv);
    r
}

fn push_active_line(out: &mut String, a: &ActiveFile, root: &str)
    ensures
        final(out)@ == old(out)@ + active_line(active_view(*a), root@),
{
    proof {
        reveal_strlit("idle");
        reveal_strlit("recent");
        reveal_strlit("editing");
        reveal_strlit("");
    }
    let ghost av = active_view(*a);
    let rel = rel_display(&a.file, root);
    push_str(out, rel.as_str());
    push_str(out, "  last_write:");
    let ghost o1 = out@;
    if a.secs_ago < 60 {
        push_decimal(out, a.secs_ago);
        push_str(out, "s ago");
    } else {
        push_decimal(out, a.secs_ago / 60);
        push_str(out, "m ago");
    }
    assert(out@ =~= o1 + ago_text(av.1));
    push_str(out, "  writes_1m:");
    push_decimal(out, a.writes_1m as i128);
    push_str(out, "  ");
    let ghost o2 = out@;
    let w = a.writes_1m;
    if w == 0 {
        push_str(out, "idle");
        assert("idle"@ != "editing"@);
    } else if w <= 2 {
        push_str(out, "recent");
        assert("recent"@ != "editing"@);
    } else {
        push_str(out, "editing");
        push_str(out, " \u{26a1}");
    }
    assert(out@ =~= o2 + file_activity_label_spec(av.2) + editing_mark(av.2));
    push_str(out, "\n");
    assert(final(out)@ =~= old(out)@ + active_line(av, root@));
}

/// Appends the `---ACTIVE` section for the file write table at time `now`.
pub fn write_active_at(out: &mut String, file_rates: &RateTable, root: &str, now: i64)
    ensures
        final(out)@ == old(out)@ + active_section(rtab(file_rates.entries@), root@, now),
{
    let found = collect_active(file_rates, now);
    let sorted = sort_active(&found);
    let ghost sv = actives_view(sorted@);
    if sorted.len() == 0 {
        assert(old(out)@ + active_section(rtab(file_rates.entries@), root@, now) =~= old(out)@);
        return;
    }
    push_str(out, "---ACTIVE\n");
    let ghost head = out@;
    let mut i: usize = 0;
    while i < sorted.len()
        invariant
            i <= sorted.len(),
            sv == actives_view(sorted@),
            out@ == head + active_lines(sv.take(i as int), root@),
        decreases sorted.len() - i,
    {
        push_active_line(out, &sorted[i], root);
        assert(sv.take(i + 1).drop_last() =~= sv.take(i as int));
        assert(sv.take(i + 1).last() == active_view(sorted@[i as int]));
        i = i + 1;
    }
    assert(sv.take(sorted.len() as int) =~= sv);
    push_str(out, "---\n\n");
}

/// Appends the `---ACTIVE` section for the file write table as of now, and
/// returns the time it was written for; appends nothing and returns `None`
/// when the clock cannot be read.
pub fn write_active(out: &mut String, file_rates: &RateTable, root: &str) -> (t: Option<i64>)
    ensures
        match t {
            Some(t) => final(out)@ == old(out)@ + active_section(rtab(file_rates.entries@), root@, t),
            None => final(out)@ == old(out)@,
        },
{
    let now = now_timestamp();
    if let Some(t) = now {
        write_active_at(out, file_rates, root, t);
    }
    now
}

/// Ordered by seconds since the last write.
pub open spec fn by_age(s: Seq<ActiveV>) -> bool {
    forall|i: int, j: int| 0 <= i < j < s.len() ==> (#[trigger] s[i]).1 <= (#[trigger] s[j]).1
}

proof fn lemma_insert_by_age(s: Seq<ActiveV>, x: ActiveV)
    requires
        by_age(s),
    ensures
        by_age(insert_by_age(s, x)),
        insert_by_age(s, x).to_multiset() == s.to_multiset().insert(x),
        forall|k: int| 0 <= k < insert_by_age(s, x).len() ==> #[trigger] insert_by_age(s, x)[k] == x || s.contains(insert_by_age(s, x)[k]),
    decreases s.len(),
{
    broadcast use vstd::seq_lib::group_to_multiset_ensures;
    if s.len() == 0 {
        assert(seq![x] =~= Seq::<ActiveV>::empty().push(x));
    } else if s.last().1 <= x.1 {
        assert forall|i: int, j: int| 0 <= i < j < s.push(x).len() implies (#[trigger] s.push(x)[i]).1 <= (#[trigger] s.push(x)[j]).1 by {
            if j == s.len() {
                assert(s[i].1 <= s[s.len() - 1].1 || i == s.len() - 1);
            }
        }
        assert forall|k: int| 0 <= k < s.push(x).len() implies #[trigger] s.push(x)[k] == x || s.contains(s.push(x)[k]) by {
            if k < s.len() {
                assert(s.push(x)[k] == s[k]);
            }
        }
    } else {
        let init = s.drop_last();
        assert forall|i: int, j: int| 0 <= i < j < init.len() implies (#[trigger] init[i]).1 <= (#[trigger] init[j]).1 by {
            assert(init[i] == s[i] && init[j] == s[j]);
        }
        lemma_insert_by_age(init, x);
        let m = insert_by_age(init, x);
        let r = m.push(s.last());
        assert forall|k: int| 0 <= k < m.len() implies (#[trigger] m[k]).1 <= s.last().1 by {
            if m[k] == x {
            } else {
                let w = choose|w: int| 0 <= w < init.len() && init[w] == m[k];
                assert(init[w] == s[w]);
            }
        }
        assert forall|i: int, j: int| 0 <= i < j < r.len() implies (#[trigger] r[i]).1 <= (#[trigger] r[j]).1 by {
            if j == m.len() {
                assert(r[i] == m[i]);
            } else {
                assert(r[i] == m[i] && r[j] == m[j]);
            }
        }
        assert(s =~= init.push(s.last()));
        assert forall|k: int| 0 <= k < r.len() implies #[trigger] r[k] == x || s.contains(r[k]) by {
            if k < m.len() {
                assert(r[k] == m[k]);
                if m[k] != x {
                    let w = choose|w: int| 0 <= w < init.len() && init[w] == m[k];
                    assert(s[w] == m[k]);
                }
            } else {
                assert(s[s.len() - 1] == r[k]);
            }
        }
    }
}

/// The active files come out ordered by age and are exactly the active
/// files found, none added or lost.
pub proof fn lemma_sort_by_age(s: Seq<ActiveV>)
    ensures
        by_age(sort_by_age(s)),
        sort_by_age(s).to_multiset() == s.to_multiset(),
    decreases s.len(),
{
    broadcast use vstd::seq_lib::group_to_multiset_ensures;
    if s.len() > 0 {
        lemma_sort_by_age(s.drop_last());
        lemma_insert_by_age(sort_by_age(s.drop_last()), s.last());
        assert(s =~= s.drop_last().push(s.last()));
    }
}

} // verus!
