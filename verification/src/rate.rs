//! Write-rate bookkeeping and the activity labels derived from it.

use vstd::prelude::*;
use crate::table::{tbl_map, is_last_key, has_key, lemma_tbl_last, lemma_tbl_absent, lemma_tbl_update};

verus! {

/// Label for how busy a module is, by writes in the last hour.
pub open spec fn activity_label_spec(wph: nat) -> Seq<char> {
    if wph == 0 {
        "quiet"@
    } else if wph <= 3 {
        "calm"@
    } else if wph <= 8 {
        "active"@
    } else {
        "storm"@
    }
}

pub fn activity_label(wph: usize) -> (r: &'static str)
    ensures
        r@ == activity_label_spec(wph as nat),
{
    if wph == 0 {
        "quiet"
    } else if wph <= 3 {
        "calm"
    } else if wph <= 8 {
        "active"
    } else {
        "storm"
    }
}

/// Label for how busy a file is, by writes in the last minute.
pub open spec fn file_activity_label_spec(writes_1m: nat) -> Seq<char> {
    if writes_1m == 0 {
        "idle"@
    } else if writes_1m <= 2 {
        "recent"@
    } else {
        "editing"@
    }
}

pub fn file_activity_label(writes_1m: usize) -> (r: &'static str)
    ensures
        r@ == file_activity_label_spec(writes_1m as nat),
{
    if writes_1m == 0 {
        "idle"
    } else if writes_1m <= 2 {
        "recent"
    } else {
        "editing"
    }
}

/// The current time in seconds since the Unix epoch: the system clock
/// (`std::time::SystemTime::now`, measured from `UNIX_EPOCH`) read through
/// `chrono::DateTime::from_timestamp`. `None` when the clock reads before
/// the epoch or outside chrono's range. Nothing is promised of its value.
#[verifier::external_body]
pub(crate) fn now_timestamp() -> (r: Option<i64>) {
    let d = std::time::SystemTime::now().duration_since(std::time::UNIX_EPOCH).ok()?;
    let secs = i64::try_from(d.as_secs()).ok()?;
    chrono::DateTime::from_timestamp(secs, d.subsec_nanos()).map(|t| t.timestamp())
}

/// Write timestamps per key (a module or a file), oldest first.
#[derive(Clone, Debug)]
pub struct RateTable {
    pub entries: Vec<(String, Vec<i64>)>,
}

pub open spec fn rtab(t: Seq<(String, Vec<i64>)>) -> Seq<(Seq<char>, Seq<i64>)> {
    t.map_values(|e: (String, Vec<i64>)| (e.0@, e.1@))
}

/// The timestamps recorded for `k` (empty when none).
pub open spec fn stamps(m: Map<Seq<char>, Seq<i64>>, k: Seq<char>) -> Seq<i64> {
    if m.dom().contains(k) {
        m[k]
    } else {
        Seq::empty()
    }
}

/// How many timestamps are after `cutoff`.
pub open spec fn count_after(s: Seq<i64>, cutoff: int) -> nat
    decreases s.len(),
{
    if s.len() == 0 {
        0
    } else {
        count_after(s.drop_last(), cutoff) + if s.last() > cutoff {
            1nat
        } else {
            0nat
        }
    }
}

/// The timestamps after `cutoff`, in order.
pub open spec fn keep_after(s: Seq<i64>, cutoff: int) -> Seq<i64>
    decreases s.len(),
{
    if s.len() == 0 {
        Seq::empty()
    } else if s.last() > cutoff {
        keep_after(s.drop_last(), cutoff).push(s.last())
    } else {
        keep_after(s.drop_last(), cutoff)
    }
}

/// What `cleanup` leaves: each key's timestamps after `cutoff`, and only
/// keys that keep at least one.
pub open spec fn pruned(m: Map<Seq<char>, Seq<i64>>, cutoff: int) -> Map<Seq<char>, Seq<i64>> {
    Map::new(
        |k: Seq<char>| m.dom().contains(k) && keep_after(m[k], cutoff).len() > 0,
        |k: Seq<char>| keep_after(m[k], cutoff),
    )
}

impl RateTable {
    pub open spec fn view_map(&self) -> Map<Seq<char>, Seq<i64>> {
        tbl_map(rtab(self.entries@))
    }

    pub fn new() -> (r: Self)
        ensures
            r.view_map() == Map::<Seq<char>, Seq<i64>>::empty(),
    {
        RateTable { entries: Vec::new() }
    }

    fn find(&self, key: &String) -> (r: Option<usize>)
        ensures
            match r {
                Some(i) => is_last_key(rtab(self.entries@), key@, i as int),
                None => !has_key(rtab(self.entries@), key@),
            },
    {
        let mut i: usize = self.entries.len();
        while i > 0
            invariant
                i <= self.entries.len(),
                forall|j: int| i <= j < self.entries.len() ==> rtab(self.entries@)[j].0 != key@,
            decreases i,
        {
            i = i - 1;
            if self.entries[i].0 == *key {
                return Some(i);
            }
        }
        None
    }

    /// The timestamps stored for `key`.
    pub fn get(&self, key: &str) -> (r: Option<&Vec<i64>>)
        ensures
            match r {
                None => !self.view_map().dom().contains(key@),
                Some(v) => self.view_map().dom().contains(key@) && self.view_map()[key@] == v@,
            },
    {
        let k = key.to_owned();
        match self.find(&k) {
            Some(i) => {
                proof {
                    lemma_tbl_last(rtab(self.entries@), key@, i as int);
                }
                Some(&self.entries[i].1)
            },
            None => {
                proof {
                    lemma_tbl_absent(rtab(self.entries@), key@);
                }
                None
            },
        }
    }
}

/// Records a write to `key` at time `now`.
pub fn record_write_at(rates: &mut RateTable, key: &str, now: i64)
    ensures
        final(rates).view_map() == old(rates).view_map().insert(key@, stamps(old(rates).view_map(), key@).push(now)),
{
    let k = key.to_owned();
    match rates.find(&k) {
        Some(i) => {
            proof {
                lemma_tbl_last(rtab(old(rates).entries@), key@, i as int);
            }
            let mut list = rates.entries[i].1.clone();
            let ghost before = list@;
            list.push(now);
            proof {
                lemma_tbl_update(rtab(old(rates).entries@), i as int, list@);
            }
            rates.entries.set(i, (k, list));
            assert(rtab(rates.entries@) =~= rtab(old(rates).entries@).update(i as int, (key@, list@)));
        },
        None => {
            proof {
                lemma_tbl_absent(rtab(old(rates).entries@), key@);
            }
            let mut list: Vec<i64> = Vec::new();
            list.push(now);
            assert(list@ =~= Seq::<i64>::empty().push(now));
            rates.entries.push((k, list));
            assert(rtab(rates.entries@).drop_last() =~= rtab(old(rates).entries@));
        },
    }
}

/// Records a write to `module` now, and returns the time it was recorded
/// at; when the clock cannot be read, records nothing and returns `None`.
pub fn record_write(rates: &mut RateTable, module: &str) -> (t: Option<i64>)
    ensures
        match t {
            Some(t) => final(rates).view_map() == old(rates).view_map().insert(
                module@,
                stamps(old(rates).view_map(), module@).push(t),
            ),
            None => *final(rates) == *old(rates),
        },
{
    let now = now_timestamp();
    if let Some(t) = now {
        record_write_at(rates, module, t);
    }
    now
}

/// Records a write to `file` now, and returns the time it was recorded at;
/// when the clock cannot be read, records nothing and returns `None`.
pub fn record_file_write(file_rates: &mut RateTable, file: &str) -> (t: Option<i64>)
    ensures
        match t {
            Some(t) => final(file_rates).view_map() == old(file_rates).view_map().insert(
                file@,
                stamps(old(file_rates).view_map(), file@).push(t),
            ),
            None => *final(file_rates) == *old(file_rates),
        },
{
    let now = now_timestamp();
    if let Some(t) = now {
        record_write_at(file_rates, file, t);
    }
    now
}

/// Writes to `k` in the hour before `now`.
pub open spec fn writes_in_hour(m: Map<Seq<char>, Seq<i64>>, k: Seq<char>, now: i64) -> nat {
    count_after(stamps(m, k), now - 3600)
}

/// Writes to `k` in the `secs` seconds before `now`.
pub open spec fn writes_within(m: Map<Seq<char>, Seq<i64>>, k: Seq<char>, now: i64, secs: i64) -> nat {
    count_after(stamps(m, k), now - secs)
}

/// `m` after dropping what is an hour older than `now`.
pub open spec fn pruned_at(m: Map<Seq<char>, Seq<i64>>, now: i64) -> Map<Seq<char>, Seq<i64>> {
    pruned(m, now - 3600)
}

/// How many of `ts` are strictly after `cutoff`.
pub fn count_stamps_after(ts: &Vec<i64>, cutoff: i128) -> (r: usize)
    ensures
        r == count_after(ts@, cutoff as int),
{
    let mut n: usize = 0;
    let mut i: usize = 0;
    while i < ts.len()
        invariant
            i <= ts.len(),
            n == count_after(ts@.take(i as int), cutoff as int),
            n <= i,
        decreases ts.len() - i,
    {
        assert(ts@.take(i + 1).drop_last() =~= ts@.take(i as int));
        if (ts[i] as i128) > cutoff {
            n = n + 1;
        }
        i = i + 1;
    }
    assert(ts@.take(ts.len() as int) =~= ts@);
    n
}

/// Writes to `key` strictly after `cutoff`.
pub fn writes_after(rates: &RateTable, key: &str, cutoff: i128) -> (r: usize)
    ensures
        r == count_after(stamps(rates.view_map(), key@), cutoff as int),
{
    match rates.get(key) {
        None => 0,
        Some(ts) => count_stamps_after(ts, cutoff),
    }
}

/// Writes to `module` in the hour before `now`.
pub fn writes_per_hour_at(rates: &RateTable, module: &str, now: i64) -> (r: usize)
    ensures
        r == count_after(stamps(rates.view_map(), module@), now - 3600),
{
    writes_after(rates, module, now as i128 - 3600)
}

/// Writes to `module` in the last hour, with the time they were counted
/// at; `None` when the clock cannot be read.
pub fn writes_per_hour(rates: &RateTable, module: &str) -> (r: Option<(usize, i64)>)
    ensures
        r matches Some(x) ==> x.0 == writes_in_hour(rates.view_map(), module@, x.1),
{
    match now_timestamp() {
        None => None,
        Some(now) => Some((writes_per_hour_at(rates, module, now), now)),
    }
}

/// Writes to `file` in the `secs` seconds before `now`.
pub fn file_writes_last_n_secs_at(file_rates: &RateTable, file: &str, secs: i64, now: i64) -> (r: usize)
    ensures
        r == count_after(stamps(file_rates.view_map(), file@), now - secs),
{
    writes_after(file_rates, file, now as i128 - secs as i128)
}

/// Writes to `file` in the last `secs` seconds, with the time they were
/// counted at; `None` when the clock cannot be read.
pub fn file_writes_last_n_secs(file_rates: &RateTable, file: &str, secs: i64) -> (r: Option<(usize, i64)>)
    ensures
        r matches Some(x) ==> x.0 == writes_within(file_rates.view_map(), file@, x.1, secs),
{
    match now_timestamp() {
        None => None,
        Some(now) => Some((file_writes_last_n_secs_at(file_rates, file, secs, now), now)),
    }
}

/// The most recent recorded write to `file`.
pub fn file_last_write(file_rates: &RateTable, file: &str) -> (r: Option<i64>)
    ensures
        r == (if stamps(file_rates.view_map(), file@).len() > 0 {
            Some(stamps(file_rates.view_map(), file@).last())
        } else {
            None
        }),
{
    match file_rates.get(file) {
        None => None,
        Some(ts) => {
            if ts.len() > 0 {
                Some(ts[ts.len() - 1])
            } else {
                None
            }
        },
    }
}

/// `t` without entries for `k`.
pub open spec fn remove_key(t: Seq<(Seq<char>, Seq<i64>)>, k: Seq<char>) -> Seq<(Seq<char>, Seq<i64>)>
    decreases t.len(),
{
    if t.len() == 0 {
        Seq::empty()
    } else if t.last().0 == k {
        remove_key(t.drop_last(), k)
    } else {
        remove_key(t.drop_last(), k).push(t.last())
    }
}

/// The table after pruning, entry by entry.
pub open spec fn prune_tbl(t: Seq<(Seq<char>, Seq<i64>)>, cutoff: int) -> Seq<(Seq<char>, Seq<i64>)>
    decreases t.len(),
{
    if t.len() == 0 {
        Seq::empty()
    } else {
        let e = t.last();
        let rest = remove_key(prune_tbl(t.drop_last(), cutoff), e.0);
        let kept = keep_after(e.1, cutoff);
        if kept.len() > 0 {
            rest.push((e.0, kept))
        } else {
            rest
        }
    }
}

pub proof fn lemma_remove_key(t: Seq<(Seq<char>, Seq<i64>)>, k: Seq<char>)
    ensures
        tbl_map(remove_key(t, k)) == tbl_map(t).remove(k),
    decreases t.len(),
{
    if t.len() > 0 {
        lemma_remove_key(t.drop_last(), k);
        if t.last().0 != k {
            let r = remove_key(t.drop_last(), k);
            assert(r.push(t.last()).drop_last() =~= r);
        }
        assert(tbl_map(remove_key(t, k)) =~= tbl_map(t).remove(k));
    }
}

pub proof fn lemma_prune_tbl(t: Seq<(Seq<char>, Seq<i64>)>, cutoff: int)
    ensures
        tbl_map(prune_tbl(t, cutoff)) == pruned(tbl_map(t), cutoff),
    decreases t.len(),
{
    if t.len() > 0 {
        lemma_prune_tbl(t.drop_last(), cutoff);
        let e = t.last();
        let rest = remove_key(prune_tbl(t.drop_last(), cutoff), e.0);
        lemma_remove_key(prune_tbl(t.drop_last(), cutoff), e.0);
        let kept = keep_after(e.1, cutoff);
        if kept.len() > 0 {
            assert(rest.push((e.0, kept)).drop_last() =~= rest);
        }
        assert(tbl_map(prune_tbl(t, cutoff)) =~= pruned(tbl_map(t), cutoff));
    }
}

fn keep_after_exec(ts: &Vec<i64>, cutoff: i128) -> (r: Vec<i64>)
    ensures
        r@ == keep_after(ts@, cutoff as int),
{
    let mut r: Vec<i64> = Vec::new();
    let mut i: usize = 0;
    while i < ts.len()
        invariant
            i <= ts.len(),
            r@ == keep_after(ts@.take(i as int), cutoff as int),
        decreases ts.len() - i,
    {
        assert(ts@.take(i + 1).drop_last() =~= ts@.take(i as int));
        if (ts[i] as i128) > cutoff {
            r.push(ts[i]);
        }
        i = i + 1;
    }
    assert(ts@.take(ts.len() as int) =~= ts@);
    r
}

fn remove_key_exec(t: Vec<(String, Vec<i64>)>, k: &String) -> (r: Vec<(String, Vec<i64>)>)
    ensures
        rtab(r@) == remove_key(rtab(t@), k@),
{
    let ghost tv = rtab(t@);
    let mut r: Vec<(String, Vec<i64>)> = Vec::new();
    let mut t = t;
    let mut rev: Vec<(String, Vec<i64>)> = Vec::new();
    while t.len() > 0
        invariant
            rtab(t@) + rtab(rev@).reverse() == tv,
        decreases t.len(),
    {
        let ghost before_t = rtab(t@);
        let ghost before_r = rtab(rev@);
        let e = t.pop().unwrap();
        assert(rtab(t@) =~= before_t.drop_last());
        let ghost ev = (e.0@, e.1@);
        rev.push(e);
        assert(rtab(rev@) =~= before_r.push(ev));
        assert(rtab(rev@).reverse() =~= seq![ev] + before_r.reverse());
        assert(rtab(t@) + rtab(rev@).reverse() =~= tv);
    }
    assert(rtab(rev@).reverse() =~= tv);
    while rev.len() > 0
        invariant
            rtab(rev@).reverse() == tv.skip(tv.len() - rev@.len()),
            rev@.len() <= tv.len(),
            rtab(r@) == remove_key(tv.take(tv.len() - rev@.len()), k@),
        decreases rev.len(),
    {
        let ghost before_rev = rtab(rev@);
        let ghost n = tv.len() - rev@.len();
        let e = rev.pop().unwrap();
        assert(rtab(rev@) =~= before_rev.drop_last());
        assert(before_rev.reverse()[0] == before_rev.last());
        assert(tv.skip(n)[0] == tv[n]);
        assert((e.0@, e.1@) == tv[n]);
        assert(tv.take(n + 1).drop_last() =~= tv.take(n));
        assert(rtab(rev@).reverse() =~= tv.skip(n + 1)) by {
            assert(before_rev.reverse().drop_first() =~= before_rev.drop_last().reverse());
            assert(tv.skip(n).drop_first() =~= tv.skip(n + 1));
        }
        if e.0 != *k {
            let ghost before = rtab(r@);
            let ghost ev = (e.0@, e.1@);
            r.push(e);
            assert(rtab(r@) =~= before.push(ev));
        }
    }
    assert(tv.take(tv.len() as int) =~= tv);
    r
}

/// Drops timestamps at or before `now - 3600`, and keys left with none.
pub fn cleanup_at(rates: &mut RateTable, now: i64)
    ensures
        final(rates).view_map() == pruned(old(rates).view_map(), now - 3600),
{
    let cutoff: i128 = now as i128 - 3600;
    let ghost t0 = rtab(rates.entries@);
    let mut kept: Vec<(String, Vec<i64>)> = Vec::new();
    let mut i: usize = 0;
    while i < rates.entries.len()
        invariant
            i <= rates.entries.len(),
            rates.entries@ == old(rates).entries@,
            t0 == rtab(rates.entries@),
            rtab(kept@) == prune_tbl(t0.take(i as int), cutoff as int),
        decreases rates.entries.len() - i,
    {
        assert(t0.take(i + 1).drop_last() =~= t0.take(i as int));
        assert(t0.take(i + 1).last() == t0[i as int]);
        let key = rates.entries[i].0.clone();
        let ts = keep_after_exec(&rates.entries[i].1, cutoff);
        kept = remove_key_exec(kept, &key);
        if ts.len() > 0 {
            let ghost before = rtab(kept@);
            let ghost ev = (key@, ts@);
            kept.push((key, ts));
            assert(rtab(kept@) =~= before.push(ev));
        }
        i = i + 1;
    }
    assert(t0.take(rates.entries.len() as int) =~= t0);
    proof {
        lemma_prune_tbl(t0, cutoff as int);
    }
    rates.entries = kept;
}

/// Drops writes older than an hour, and keys left with none; returns the
/// time it cleaned up at, or `None` (and changes nothing) when the clock
/// cannot be read.
pub fn cleanup(rates: &mut RateTable) -> (t: Option<i64>)
    ensures
        match t {
            Some(t) => final(rates).view_map() == pruned_at(old(rates).view_map(), t),
            None => *final(rates) == *old(rates),
        },
{
    let now = now_timestamp();
    if let Some(t) = now {
        cleanup_at(rates, t);
    }
    now
}

/// `cleanup` for file write times.
pub fn cleanup_file_rates(file_rates: &mut RateTable) -> (t: Option<i64>)
    ensures
        match t {
            Some(t) => final(file_rates).view_map() == pruned_at(old(file_rates).view_map(), t),
            None => *final(file_rates) == *old(file_rates),
        },
{
    let now = now_timestamp();
    if let Some(t) = now {
        cleanup_at(file_rates, t);
    }
    now
}

proof fn lemma_count_keep_after(s: Seq<i64>, cutoff: int)
    ensures
        count_after(keep_after(s, cutoff), cutoff) == count_after(s, cutoff),
        count_after(s, cutoff) == keep_after(s, cutoff).len(),
    decreases s.len(),
{
    if s.len() > 0 {
        lemma_count_keep_after(s.drop_last(), cutoff);
        if s.last() > cutoff {
            let k = keep_after(s.drop_last(), cutoff);
            assert(k.push(s.last()).drop_last() =~= k);
        }
    }
}

/// A write recorded at `now` counts among the writes of the hour before
/// `now`, on top of what was there.
pub proof fn lemma_recorded_write_counts(m: Map<Seq<char>, Seq<i64>>, k: Seq<char>, now: i64)
    ensures
        writes_in_hour(m.insert(k, stamps(m, k).push(now)), k, now) == writes_in_hour(m, k, now) + 1,
{
    let s = stamps(m, k);
    assert(stamps(m.insert(k, s.push(now)), k) == s.push(now));
    assert(s.push(now).drop_last() =~= s);
}

/// Cleaning up at `now` leaves every hourly count at `now` as it was.
pub proof fn lemma_cleanup_keeps_hourly_counts(m: Map<Seq<char>, Seq<i64>>, k: Seq<char>, now: i64)
    ensures
        writes_in_hour(pruned_at(m, now), k, now) == writes_in_hour(m, k, now),
{
    let c = now - 3600;
    lemma_count_keep_after(stamps(m, k), c);
    if m.dom().contains(k) && keep_after(m[k], c).len() > 0 {
        assert(pruned_at(m, now).dom().contains(k));
    } else if m.dom().contains(k) {
        assert(!pruned_at(m, now).dom().contains(k));
    } else {
        assert(!pruned_at(m, now).dom().contains(k));
    }
}

} // verus!
