//! What the `brief` and `deps` commands pick out for one file: the
//! neighbouring files written in the last five minutes, and the latest log
//! entries that mention the file.

use vstd::prelude::*;
use crate::graph::ImportGraph;
use crate::parser::words::{contains_sub, contains_text};
use crate::rate::{RateTable, stamps, count_after, file_last_write, file_writes_last_n_secs_at};
use crate::report::{rel_text, rel_display, ago_text, editing_mark};
use crate::rate::file_activity_label_spec;
use crate::decimal::{decimal, push_decimal};
use crate::text::{push_str, chars_of, string_of_range};
use crate::table::strs;

verus! {

/// A neighbour written recently: its path relative to the root, seconds
/// since its last write, and its writes in the last minute.
pub type NearbyV = (Seq<char>, int, nat);

pub open spec fn nearby_entry(m: Map<Seq<char>, Seq<i64>>, dep: Seq<char>, root: Seq<char>, now: i64) -> Option<NearbyV> {
    let ts = stamps(m, dep);
    if ts.len() > 0 && now - ts.last() <= 300 {
        Some((rel_text(dep, root), now - ts.last(), count_after(ts, now - 60)))
    } else {
        None
    }
}

pub open spec fn nearby_list(m: Map<Seq<char>, Seq<i64>>, deps: Seq<Seq<char>>, root: Seq<char>, now: i64) -> Seq<NearbyV>
    decreases deps.len(),
{
    if deps.len() == 0 {
        Seq::empty()
    } else {
        let rest = nearby_list(m, deps.drop_last(), root, now);
        match nearby_entry(m, deps.last(), root, now) {
            Some(e) => rest.push(e),
            None => rest,
        }
    }
}

pub open spec fn nearby_view(v: Seq<(String, i128, usize)>) -> Seq<NearbyV> {
    v.map_values(|e: (String, i128, usize)| (e.0@, e.1 as int, e.2 as nat))
}

/// The files `file` imports, then the files importing it, that were written
/// at most five minutes before `now`, in that order.
pub fn nearby_active_at(graph: &ImportGraph, file_rates: &RateTable, file: &String, root: &str, now: i64) -> (r: Vec<(String, i128, usize)>)
    ensures
        nearby_view(r@) == nearby_list(file_rates.view_map(), graph.imports(file@) + graph.dependents(file@), root@, now),
{
    let mut deps = graph.imports_of(file);
    let mut more = graph.dependents_of(file);
    let ghost dv0 = strs(deps@) + strs(more@);
    deps.append(&mut more);
    assert(strs(deps@) =~= dv0);
    let ghost dv = strs(deps@);
    let ghost m = file_rates.view_map();
    let mut r: Vec<(String, i128, usize)> = Vec::new();
    let mut i: usize = 0;
    while i < deps.len()
        invariant
            i <= deps.len(),
            dv == strs(deps@),
            m == file_rates.view_map(),
            nearby_view(r@) == nearby_list(m, dv.take(i as int), root@, now),
        decreases deps.len() - i,
    {
        assert(dv.take(i + 1).drop_last() =~= dv.take(i as int));
        assert(dv.take(i + 1).last() == deps@[i as int]@);
        match file_last_write(file_rates, deps[i].as_str()) {
            Some(t) => {
                let ago: i128 = now as i128 - t as i128;
                if ago <= 300 {
                    let rel = rel_display(&deps[i], root);
                    let w = file_writes_last_n_secs_at(file_rates, deps[i].as_str(), 60, now);
                    let ghost before = nearby_view(r@);
                    r.push((rel, ago, w));
                    assert(nearby_view(r@) =~= before.push((rel@, ago as int, w as nat)));
                }
            },
            None => {},
        }
        i = i + 1;
    }
    assert(dv.take(deps.len() as int) =~= dv);
    r
}

/// A log entry mentions `needle` when its path or one of the paths it
/// rippled to contains it.
pub open spec fn mentions(e: (Seq<char>, Seq<Seq<char>>), needle: Seq<char>) -> bool {
    contains_sub(e.0, needle) || exists|k: int| 0 <= k < e.1.len() && contains_sub(#[trigger] e.1[k], needle)
}

/// Positions of the entries that mention `needle`, newest (last) first.
pub open spec fn newest_mentions(es: Seq<(Seq<char>, Seq<Seq<char>>)>, needle: Seq<char>) -> Seq<int>
    decreases es.len(),
{
    if es.len() == 0 {
        Seq::empty()
    } else {
        (if mentions(es.last(), needle) {
            seq![es.len() - 1]
        } else {
            Seq::empty()
        }) + newest_mentions(es.drop_last(), needle)
    }
}

pub open spec fn entries_view(v: Seq<(String, Vec<String>)>) -> Seq<(Seq<char>, Seq<Seq<char>>)> {
    v.map_values(|e: (String, Vec<String>)| (e.0@, strs(e.1@)))
}

fn mentions_exec(e: &(String, Vec<String>), needle: &str) -> (r: bool)
    ensures
        r == mentions((e.0@, strs(e.1@)), needle@),
{
    if contains_text(e.0.as_str(), needle) {
        return true;
    }
    let mut k: usize = 0;
    while k < e.1.len()
        invariant
            k <= e.1.len(),
            !contains_sub(e.0@, needle@),
            forall|j: int| 0 <= j < k ==> !contains_sub(#[trigger] strs(e.1@)[j], needle@),
        decreases e.1.len() - k,
    {
        if contains_text(e.1[k].as_str(), needle) {
            let ghost ev = (e.0@, strs(e.1@));
            assert(contains_sub(ev.1[k as int], needle@));
            assert(mentions(ev, needle@));
            return true;
        }
        k = k + 1;
    }
    false
}

/// The positions of the at most `limit` newest log entries that mention
/// `needle`, newest first.
pub fn recent_mentions(entries: &Vec<(String, Vec<String>)>, needle: &str, limit: usize) -> (r: Vec<usize>)
    ensures
        r@.map_values(|i: usize| i as int) == (if newest_mentions(entries_view(entries@), needle@).len() <= limit {
            newest_mentions(entries_view(entries@), needle@)
        } else {
            newest_mentions(entries_view(entries@), needle@).take(limit as int)
        }),
{
    let ghost ev = entries_view(entries@);
    let ghost all = newest_mentions(ev, needle@);
    let mut r: Vec<usize> = Vec::new();
    let mut i: usize = entries.len();
    assert(ev.take(i as int) =~= ev);
    while i > 0 && r.len() < limit
        invariant
            i <= entries.len(),
            ev == entries_view(entries@),
            all == newest_mentions(ev, needle@),
            r.len() <= limit,
            r@.map_values(|x: usize| x as int) + newest_mentions(ev.take(i as int), needle@) == all,
        decreases i,
    {
        i = i - 1;
        let ghost before = r@.map_values(|x: usize| x as int);
        assert(ev.take(i + 1).drop_last() =~= ev.take(i as int));
        assert(ev.take(i + 1).last() == ev[i as int]);
        assert(ev[i as int] == (entries@[i as int].0@, strs(entries@[i as int].1@)));
        if mentions_exec(&entries[i], needle) {
            r.push(i);
            assert(r@.map_values(|x: usize| x as int) =~= before.push(i as int));
            assert(before.push(i as int) + newest_mentions(ev.take(i as int), needle@) =~= before + (seq![i as int]
                + newest_mentions(ev.take(i as int), needle@)));
        } else {
            assert(newest_mentions(ev.take(i + 1), needle@) =~= newest_mentions(ev.take(i as int), needle@));
        }
    }
    let ghost rv = r@.map_values(|x: usize| x as int);
    if r.len() < limit {
        assert(i == 0);
        assert(ev.take(0) =~= Seq::<(Seq<char>, Seq<Seq<char>>)>::empty());
        assert(rv =~= all);
    } else {
        assert(all.take(limit as int) =~= rv);
    }
    r
}

/// Seconds or whole minutes, for a neighbour's age: `5s`, `3m`.
pub open spec fn short_age(secs: int) -> Seq<char> {
    if secs < 60 {
        decimal(secs) + "s"@
    } else {
        decimal(secs / 60) + "m"@
    }
}

pub open spec fn nearby_line(e: NearbyV) -> Seq<char> {
    "    "@ + e.0 + " "@ + short_age(e.1) + "ago writes_1m:"@ + decimal(e.2 as int)
}

/// Lines appended one by one, each followed by a newline, until the text
/// reaches `budget` characters.
pub open spec fn add_lines(out: Seq<char>, lines: Seq<Seq<char>>, budget: nat) -> Seq<char>
    decreases lines.len(),
{
    if lines.len() == 0 || out.len() >= budget {
        out
    } else {
        add_lines(out + lines[0] + "\n"@, lines.drop_first(), budget)
    }
}

/// Whether the file itself was written in the last five minutes.
pub open spec fn recent(last_write_age: Option<i128>) -> bool {
    match last_write_age {
        Some(a) => a <= 300,
        None => false,
    }
}

/// The brief before it is cut to the budget: nothing when the file had no
/// recent write, has no active neighbour and no symbol; otherwise a header,
/// the file's own activity, the active neighbours and the symbol lines, the
/// last two sections stopping once the budget is reached.
pub open spec fn brief_spec(
    rel: Seq<char>,
    last_write_age: Option<i128>,
    writes_1m: usize,
    nearby: Seq<NearbyV>,
    symbol_lines: Seq<Seq<char>>,
    budget: nat,
) -> Seq<char> {
    if !recent(last_write_age) && nearby.len() == 0 && symbol_lines.len() == 0 {
        Seq::empty()
    } else {
        let s0 = "[ctx] "@ + rel + "\n"@;
        let s1 = if recent(last_write_age) {
            s0 + "  last_write:"@ + ago_text(last_write_age->0 as int) + "  writes_1m:"@ + decimal(writes_1m as int)
                + "  "@ + file_activity_label_spec(writes_1m as nat) + editing_mark(writes_1m as nat) + "\n"@
        } else {
            s0
        };
        let s2 = if nearby.len() > 0 {
            add_lines(s1 + "  nearby active:\n"@, nearby.map_values(|e: NearbyV| nearby_line(e)), budget)
        } else {
            s1
        };
        if symbol_lines.len() > 0 && s2.len() < budget {
            add_lines(s2 + "  symbols:\n"@, symbol_lines, budget)
        } else {
            s2
        }
    }
}

fn char_len(s: &String) -> (n: usize)
    ensures
        n == s@.len(),
{
    chars_of(s.as_str()).len()
}

fn push_lines(out: &mut String, lines: &Vec<String>, budget: usize)
    ensures
        final(out)@ == add_lines(old(out)@, strs(lines@), budget as nat),
{
    let ghost lv = strs(lines@);
    let mut i: usize = 0;
    assert(lv.skip(0) =~= lv);
    while i < lines.len() && char_len(out) < budget
        invariant
            i <= lines.len(),
            lv == strs(lines@),
            add_lines(out@, lv.skip(i as int), budget as nat) == add_lines(old(out)@, lv, budget as nat),
        decreases lines.len() - i,
    {
        let ghost rest = lv.skip(i as int);
        assert(rest[0] == lines@[i as int]@);
        assert(rest.drop_first() =~= lv.skip(i + 1));
        push_str(out, lines[i].as_str());
        push_str(out, "\n");
        i = i + 1;
    }
    proof {
        if i == lines.len() {
            assert(lv.skip(i as int).len() == 0);
        }
    }
}

fn push_short_age(out: &mut String, secs: i128)
    ensures
        final(out)@ == old(out)@ + short_age(secs as int),
{
    if secs < 60 {
        push_decimal(out, secs);
        push_str(out, "s");
    } else {
        push_decimal(out, secs / 60);
        push_str(out, "m");
    }
}

/// The `brief` text for one file, cut to at most `budget` characters.
/// `symbol_lines` are the file's symbol lines, already in the order they are
/// shown.
pub fn brief_text(
    rel: &str,
    last_write_age: Option<i128>,
    writes_1m: usize,
    nearby: &Vec<(String, i128, usize)>,
    symbol_lines: &Vec<String>,
    budget: usize,
) -> (r: String)
    ensures
        r@ == brief_spec(rel@, last_write_age, writes_1m, nearby_view(nearby@), strs(symbol_lines@), budget as nat).take(
            if brief_spec(rel@, last_write_age, writes_1m, nearby_view(nearby@), strs(symbol_lines@), budget as nat).len()
                <= budget {
                brief_spec(rel@, last_write_age, writes_1m, nearby_view(nearby@), strs(symbol_lines@), budget as nat).len() as int
            } else {
                budget as int
            },
        ),
        r@.len() <= budget,
{
    proof {
        reveal_strlit("idle");
        reveal_strlit("recent");
        reveal_strlit("editing");
        reveal_strlit("");
    }
    let ghost full = brief_spec(rel@, last_write_age, writes_1m, nearby_view(nearby@), strs(symbol_lines@), budget as nat);
    let is_recent = match last_write_age {
        Some(a) => a <= 300,
        None => false,
    };
    if !is_recent && nearby.len() == 0 && symbol_lines.len() == 0 {
        assert(full.take(0) =~= Seq::<char>::empty());
        return String::new();
    }
    let mut out = String::new();
    push_str(&mut out, "[ctx] ");
    push_str(&mut out, rel);
    push_str(&mut out, "\n");
    if is_recent {
        let a = match last_write_age {
            Some(a) => a,
            None => 0,
        };
        let ghost o1 = out@;
        push_str(&mut out, "  last_write:");
        if a < 60 {
            push_decimal(&mut out, a);
            push_str(&mut out, "s ago");
        } else {
            push_decimal(&mut out, a / 60);
            push_str(&mut out, "m ago");
        }
        push_str(&mut out, "  writes_1m:");
        push_decimal(&mut out, writes_1m as i128);
        push_str(&mut out, "  ");
        let ghost o2 = out@;
        if writes_1m == 0 {
            push_str(&mut out, "idle");
            assert("idle"@ != "editing"@);
        } else if writes_1m <= 2 {
            push_str(&mut out, "recent");
            assert("recent"@ != "editing"@);
        } else {
            push_str(&mut out, "editing");
            push_str(&mut out, " \u{26a1}");
        }
        assert(out@ =~= o2 + file_activity_label_spec(writes_1m as nat) + editing_mark(writes_1m as nat));
        push_str(&mut out, "\n");
    }
    let ghost s1 = out@;
    let ghost s0_spec = "[ctx] "@ + rel@ + "\n"@;
    let ghost s1_spec = if recent(last_write_age) {
        s0_spec + "  last_write:"@ + ago_text(last_write_age->0 as int) + "  writes_1m:"@ + decimal(writes_1m as int)
            + "  "@ + file_activity_label_spec(writes_1m as nat) + editing_mark(writes_1m as nat) + "\n"@
    } else {
        s0_spec
    };
    assert(s1 =~= s1_spec);
    if nearby.len() > 0 {
        push_str(&mut out, "  nearby active:\n");
        let mut lines: Vec<String> = Vec::new();
        let ghost nv = nearby_view(nearby@);
        let mut k: usize = 0;
        while k < nearby.len()
            invariant
                k <= nearby.len(),
                nv == nearby_view(nearby@),
                strs(lines@) == nv.take(k as int).map_values(|e: NearbyV| nearby_line(e)),
            decreases nearby.len() - k,
        {
            let mut l = String::new();
            push_str(&mut l, "    ");
            push_str(&mut l, nearby[k].0.as_str());
            push_str(&mut l, " ");
            push_short_age(&mut l, nearby[k].1);
            push_str(&mut l, "ago writes_1m:");
            push_decimal(&mut l, nearby[k].2 as i128);
            assert(l@ =~= nearby_line(nv[k as int]));
            let ghost before = strs(lines@);
            lines.push(l);
            assert(strs(lines@) =~= before.push(nearby_line(nv[k as int])));
            assert(nv.take(k + 1).map_values(|e: NearbyV| nearby_line(e)) =~= nv.take(k as int).map_values(
                |e: NearbyV| nearby_line(e),
            ).push(nearby_line(nv[k as int])));
            k = k + 1;
        }
        assert(nv.take(nearby.len() as int) =~= nv);
        push_lines(&mut out, &lines, budget);
    }
    let ghost s2_spec = if nearby.len() > 0 {
        add_lines(s1_spec + "  nearby active:\n"@, nearby_view(nearby@).map_values(|e: NearbyV| nearby_line(e)), budget as nat)
    } else {
        s1_spec
    };
    assert(out@ == s2_spec);
    if symbol_lines.len() > 0 && char_len(&out) < budget {
        push_str(&mut out, "  symbols:\n");
        push_lines(&mut out, symbol_lines, budget);
    }
    assert(out@ == full);
    let v = chars_of(out.as_str());
    let n = if v.len() <= budget {
        v.len()
    } else {
        budget
    };
    assert(v@.subrange(0, n as int) =~= full.take(n as int));
    string_of_range(&v, 0, n)
}

} // verus!
