//! Worker attribution: joining a logged change to the worker whose trail
//! names the same file closest in time.

use vstd::prelude::*;
use crate::text::{chars_of, string_of_range, rfind_char, rfind_char_exec};
use crate::table::strs;
use crate::seqs::contains_str;
use crate::paths::{arch_path, to_arch_path};
use crate::pathmodel::{parse_path, strip_prefix, render_path, render, strip_prefix_spec, segments, is_absolute};

verus! {

/// A change is attributed to a trail recorded within this many seconds of it.
pub const JOIN_WINDOW_SECS: i64 = 120;

/// One `ctx touch`: who touched which files, and when.
#[derive(Clone, Debug)]
pub struct Trail {
    pub worker: String,
    pub timestamp: i64,
    /// Architectural paths (extension-stripped) of the touched files.
    pub arch_paths: Vec<String>,
    pub files: Vec<String>,
}

/// The architectural path inside a log path: everything before its last `/`.
pub open spec fn log_arch(p: Seq<char>) -> Option<Seq<char>> {
    let i = rfind_char(p, '/');
    if i < 0 {
        None
    } else {
        Some(p.take(i))
    }
}

pub open spec fn distance(a: i64, b: i64) -> int {
    if a >= b {
        a - b
    } else {
        b - a
    }
}

/// The trail is close enough in time and names the architectural path.
pub open spec fn eligible(t: Trail, arch: Seq<char>, ts: i64) -> bool {
    distance(t.timestamp, ts) <= JOIN_WINDOW_SECS && strs(t.arch_paths@).contains(arch)
}

/// Trail `i` is the first of the eligible trails nearest in time.
pub open spec fn nearest(trails: Seq<Trail>, arch: Seq<char>, ts: i64, i: int) -> bool {
    &&& 0 <= i < trails.len()
    &&& eligible(trails[i], arch, ts)
    &&& forall|j: int| 0 <= j < trails.len() && eligible(trails[j], arch, ts) ==> distance(trails[i].timestamp, ts)
        <= distance(trails[j].timestamp, ts)
    &&& forall|j: int| 0 <= j < i && eligible(trails[j], arch, ts) ==> distance(trails[i].timestamp, ts)
        < distance(trails[j].timestamp, ts)
}

fn distance_exec(a: i64, b: i64) -> (r: i128)
    ensures
        r == distance(a, b),
{
    let d = a as i128 - b as i128;
    if d >= 0 {
        d
    } else {
        -d
    }
}

/// The worker responsible for a change to `log_path` at `timestamp`: among
/// the trails within the join window that name the architectural path
/// before the last `/` of `log_path`, the nearest in time (the first such
/// on a tie). `None` when `log_path` has no `/` or no trail qualifies.
pub fn attribute(trails: &[Trail], log_path: &str, timestamp: i64) -> (r: Option<String>)
    ensures
        match r {
            None => log_arch(log_path@) is None || forall|i: int|
                0 <= i < trails@.len() ==> !eligible(#[trigger] trails@[i], log_arch(log_path@)->0, timestamp),
            Some(w) => log_arch(log_path@) is Some && exists|i: int|
                nearest(trails@, log_arch(log_path@)->0, timestamp, i) && w@ == (#[trigger] trails@[i]).worker@,
        },
{
    let v = chars_of(log_path);
    let slash = match rfind_char_exec(&v, '/') {
        None => return None,
        Some(i) => i,
    };
    let arch = string_of_range(&v, 0, slash);
    let ghost a = arch@;
    assert(a == log_arch(log_path@)->0);
    let mut best: Option<usize> = None;
    let mut best_dist: i128 = 0;
    let mut j: usize = 0;
    while j < trails.len()
        invariant
            j <= trails.len(),
            a == arch@,
            match best {
                None => forall|k: int| 0 <= k < j ==> !eligible(#[trigger] trails@[k], a, timestamp),
                Some(b) => {
                    &&& b < j
                    &&& eligible(trails@[b as int], a, timestamp)
                    &&& best_dist == distance(trails@[b as int].timestamp, timestamp)
                    &&& forall|k: int| 0 <= k < j && eligible(#[trigger] trails@[k], a, timestamp) ==> best_dist
                        <= distance(trails@[k].timestamp, timestamp)
                    &&& forall|k: int| 0 <= k < b && eligible(#[trigger] trails@[k], a, timestamp) ==> best_dist
                        < distance(trails@[k].timestamp, timestamp)
                },
            },
        decreases trails.len() - j,
    {
        let t = &trails[j];
        let d = distance_exec(t.timestamp, timestamp);
        if d <= JOIN_WINDOW_SECS as i128 && contains_str(&t.arch_paths, &arch) {
            assert(eligible(trails@[j as int], a, timestamp));
            match best {
                None => {
                    best = Some(j);
                    best_dist = d;
                },
                Some(b) => {
                    if d < best_dist {
                        best = Some(j);
                        best_dist = d;
                    }
                },
            }
        }
        j = j + 1;
    }
    match best {
        None => None,
        Some(b) => {
            assert(nearest(trails@, a, timestamp, b as int));
            Some(trails[b].worker.clone())
        },
    }
}

/// Architectural path of `file` relative to `project_root`: the segments
/// after the root's, joined by single `/`; or of the text of `file` as
/// given when it does not lie under the root.
pub open spec fn arch_path_of_spec(file: Seq<char>, root: Seq<char>) -> Seq<char> {
    match strip_prefix_spec(is_absolute(file), segments(file), is_absolute(root), segments(root)) {
        Some(rest) => arch_path(render(false, rest)),
        None => arch_path(file),
    }
}

pub fn arch_path_of(file: &str, project_root: &str) -> (r: String)
    ensures
        r@ == arch_path_of_spec(file@, project_root@),
{
    let f = parse_path(file);
    let root = parse_path(project_root);
    match strip_prefix(&f, &root) {
        Some(rest) => {
            let t = render_path(&rest);
            to_arch_path(t.as_str())
        },
        None => to_arch_path(file),
    }
}

} // verus!
