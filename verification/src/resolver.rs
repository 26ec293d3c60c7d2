//! Import specifier to file path.
//!
//! Only resolved imports become graph edges, and only graph edges let heat
//! ripple. Resolution is split around the file system: this module lists,
//! for each import, the candidate files in the order they are tried, and
//! picks the first candidate that the caller found to exist on disk.
//! Unresolvable specifiers (stdlib, external packages) have no existing
//! candidate and are dropped.

use vstd::prelude::*;
use crate::text::{chars_of, string_of, string_of_range, push_str};
use crate::paths::{trim_end_all, trim_end_index};
use crate::table::{ptab, strs};
use crate::parser::words::{starts_with, split_sub, split_sub_exec};
use crate::text::occurs_at_exec;
use crate::pathmodel::{
    PathParts, PathV, pv_of, pv_text, pv_join, pv_parent, pv_extension, pv_with_ext, pv_normalize,
    parse_path, clone_parts, join_parts, join_text, parent_parts, with_appended_extension,
    normalize_parts, parts_eq, render_path, file_name_of, name_extension_of, split_on, extension, extension_of,
};
use crate::parser::{ParsedImport, imp_view, imps_view, is_ts_ext};
use crate::seqs::contains_str;

verus! {

pub open spec fn parts_view(v: Seq<PathParts>) -> Seq<PathV> {
    v.map_values(|p: PathParts| p.pv())
}

/// `a` followed by copies of `b`.
pub fn append_parts(a: &mut Vec<PathParts>, b: &Vec<PathParts>)
    ensures
        parts_view(final(a)@) == parts_view(old(a)@) + parts_view(b@),
{
    let mut i: usize = 0;
    while i < b.len()
        invariant
            i <= b.len(),
            parts_view(a@) == parts_view(old(a)@) + parts_view(b@).take(i as int),
        decreases b.len() - i,
    {
        let ghost before = parts_view(a@);
        let c = clone_parts(&b[i]);
        assert(c.pv() == parts_view(b@)[i as int]);
        a.push(c);
        assert(parts_view(a@) =~= before.push(parts_view(b@)[i as int]));
        assert(parts_view(a@) =~= parts_view(old(a)@) + parts_view(b@).take(i + 1));
        i = i + 1;
    }
    assert(parts_view(b@).take(b.len() as int) =~= parts_view(b@));
}

// ── Walking up ───────────────────────────────────────────────────────────

/// `cur`, then each parent in turn, stopping after `root` or the top.
pub open spec fn climb(cur: PathV, root: PathV) -> Seq<PathV>
    decreases cur.1.len(),
{
    if cur == root || cur.1.len() == 0 {
        seq![cur]
    } else {
        seq![cur] + climb((cur.0, cur.1.drop_last()), root)
    }
}

/// The directories searched for a `tsconfig.json`, nearest first: the
/// file's directory and its parents up to the project root.
pub open spec fn tsconfig_dirs_spec(from: PathV, root: PathV) -> Seq<PathV> {
    match pv_parent(from) {
        None => Seq::empty(),
        Some(d) => climb(d, root),
    }
}

fn climb_exec(cur: &PathParts, root: &PathParts) -> (r: Vec<PathParts>)
    ensures
        parts_view(r@) == climb(cur.pv(), root.pv()),
{
    let mut out: Vec<PathParts> = Vec::new();
    let mut c = clone_parts(cur);
    loop
        invariant
            parts_view(out@) + climb(c.pv(), root.pv()) == climb(cur.pv(), root.pv()),
        decreases c.segs.len(),
    {
        let ghost cv = c.pv();
        let ghost before = parts_view(out@);
        if parts_eq(&c, root) || c.segs.len() == 0 {
            out.push(c);
            assert(parts_view(out@) =~= before.push(cv));
            assert(climb(cv, root.pv()) == seq![cv]);
            assert(parts_view(out@) =~= climb(cur.pv(), root.pv()));
            return out;
        }
        let next = parent_parts(&c).unwrap();
        out.push(c);
        assert(parts_view(out@) =~= before.push(cv));
        assert(parts_view(out@) + climb(next.pv(), root.pv()) =~= before + climb(cv, root.pv()));
        c = next;
    }
}

/// Where to look for the `tsconfig.json` that governs `from_file`, nearest
/// first.
pub fn tsconfig_dirs(from_file: &str, project_root: &str) -> (r: Vec<String>)
    ensures
        r@.map_values(|s: String| s@) == tsconfig_dirs_spec(pv_of(from_file@), pv_of(project_root@)).map_values(
            |p: PathV| pv_text(p),
        ),
{
    let from = parse_path(from_file);
    let root = parse_path(project_root);
    let dirs = match parent_parts(&from) {
        None => {
            let e: Vec<PathParts> = Vec::new();
            e
        },
        Some(d) => climb_exec(&d, &root),
    };
    let ghost dv = parts_view(dirs@);
    assert(dv == tsconfig_dirs_spec(pv_of(from_file@), pv_of(project_root@))) by {
        if pv_parent(from.pv()) is None {
            assert(dv =~= Seq::<PathV>::empty());
        }
    }
    let mut out: Vec<String> = Vec::new();
    let mut i: usize = 0;
    while i < dirs.len()
        invariant
            i <= dirs.len(),
            dv == parts_view(dirs@),
            out@.map_values(|s: String| s@) == dv.take(i as int).map_values(|p: PathV| pv_text(p)),
        decreases dirs.len() - i,
    {
        let t = render_path(&dirs[i]);
        assert(t@ == pv_text(dv[i as int]));
        let ghost before = out@.map_values(|s: String| s@);
        out.push(t);
        assert(out@.map_values(|s: String| s@) =~= before.push(pv_text(dv[i as int])));
        assert(out@.map_values(|s: String| s@) =~= dv.take(i + 1).map_values(|p: PathV| pv_text(p)));
        i = i + 1;
    }
    assert(dv.take(dirs.len() as int) =~= dv);
    out
}

// ── TypeScript / JavaScript ──────────────────────────────────────────────

pub open spec fn ts_ext(k: int) -> Seq<char> {
    if k == 0 {
        "ts"@
    } else if k == 1 {
        "tsx"@
    } else if k == 2 {
        "js"@
    } else {
        "jsx"@
    }
}

/// `base` with one more segment.
pub open spec fn pv_child(base: PathV, name: Seq<char>) -> PathV {
    (base.0, base.1.push(name))
}

pub fn push_seg(base: &PathParts, name: String) -> (r: PathParts)
    ensures
        r.pv() == pv_child(base.pv(), name@),
{
    let mut r = clone_parts(base);
    let ghost before = r.view_segs();
    let ghost nv = name@;
    r.segs.push(name);
    assert(r.view_segs() =~= before.push(nv));
    r
}

pub open spec fn probe_ts_files(base: PathV, k: nat) -> Seq<PathV>
    decreases k,
{
    if k == 0 {
        Seq::empty()
    } else {
        probe_ts_files(base, (k - 1) as nat).push(pv_with_ext(base, ts_ext(k - 1)))
    }
}

pub open spec fn probe_ts_indexes(base: PathV, k: nat) -> Seq<PathV>
    decreases k,
{
    if k == 0 {
        Seq::empty()
    } else {
        probe_ts_indexes(base, (k - 1) as nat).push(pv_child(base, "index."@ + ts_ext(k - 1)))
    }
}

/// The files tried for a TypeScript specifier resolving to `base`: `base`
/// itself when it already has an extension, then `base.ts`, `base.tsx`,
/// `base.js`, `base.jsx`, and only then `base/index.ts` and the other index
/// files in the same extension order.
pub open spec fn probe_ts(base: PathV) -> Seq<PathV> {
    (if pv_extension(base) is Some {
        seq![base]
    } else {
        Seq::empty()
    }) + probe_ts_files(base, 4) + probe_ts_indexes(base, 4)
}

fn probe_ts_exec(base: &PathParts) -> (r: Vec<PathParts>)
    ensures
        parts_view(r@) == probe_ts(base.pv()),
{
    let mut out: Vec<PathParts> = Vec::new();
    let name = file_name_of(base);
    let has_ext = match &name {
        Some(n) => name_extension_of(n).is_some(),
        None => false,
    };
    if has_ext {
        out.push(clone_parts(base));
    }
    let ghost head = parts_view(out@);
    assert(head =~= (if pv_extension(base.pv()) is Some { seq![base.pv()] } else { Seq::<PathV>::empty() }));
    let exts: [&str; 4] = ["ts", "tsx", "js", "jsx"];
    let mut k: usize = 0;
    while k < 4
        invariant
            k <= 4,
            forall|j: int| 0 <= j < 4 ==> (#[trigger] exts@[j])@ == ts_ext(j),
            parts_view(out@) == head + probe_ts_files(base.pv(), k as nat),
        decreases 4 - k,
    {
        let ext = exts[k];
        assert(ext@ == ts_ext(k as int));
        let ghost before = parts_view(out@);
        let a = with_appended_extension(base, ext);
        let ghost av = a.pv();
        out.push(a);
        assert(parts_view(out@) =~= before.push(av));
        k = k + 1;
    }
    let ghost mid = parts_view(out@);
    let mut k: usize = 0;
    assert(mid =~= mid + probe_ts_indexes(base.pv(), 0));
    while k < 4
        invariant
            k <= 4,
            forall|j: int| 0 <= j < 4 ==> (#[trigger] exts@[j])@ == ts_ext(j),
            parts_view(out@) == mid + probe_ts_indexes(base.pv(), k as nat),
        decreases 4 - k,
    {
        let ext = exts[k];
        assert(ext@ == ts_ext(k as int));
        let ghost before = parts_view(out@);
        let mut nm = "index.".to_owned();
        push_str(&mut nm, ext);
        let b = push_seg(base, nm);
        let ghost bv = b.pv();
        out.push(b);
        assert(parts_view(out@) =~= before.push(bv));
        k = k + 1;
    }
    out
}

/// A `tsconfig.json` reduced to what resolution reads: `baseUrl` and the
/// `paths` map, in key order.
#[derive(Clone, Debug)]
pub struct TsConfig {
    pub base_url: String,
    pub paths: Vec<(String, Vec<String>)>,
}

/// The nearest `tsconfig.json` found above a file: the directory holding it
/// and, when it parsed, its contents.
#[derive(Clone, Debug)]
pub struct FoundTsConfig {
    pub dir: String,
    pub config: Option<TsConfig>,
}

pub type TsConfigV = (Seq<char>, Seq<(Seq<char>, Seq<Seq<char>>)>);

pub open spec fn cfg_view(c: TsConfig) -> TsConfigV {
    (c.base_url@, ptab(c.paths@))
}

pub open spec fn found_view(f: Option<FoundTsConfig>) -> Option<(PathV, Option<TsConfigV>)> {
    match f {
        None => None,
        Some(x) => Some((pv_of(x.dir@), match x.config {
            None => None,
            Some(c) => Some(cfg_view(c)),
        })),
    }
}

/// `@/*` against `@/lib/supa` gives `lib/supa`; an exact pattern gives the
/// empty tail.
pub open spec fn match_alias(pattern: Seq<char>, spec: Seq<char>) -> Option<Seq<char>> {
    if pattern.len() > 0 && pattern.last() == '*' {
        let pre = pattern.drop_last();
        if starts_with(spec, pre) {
            Some(spec.skip(pre.len() as int))
        } else {
            None
        }
    } else if pattern == spec {
        Some(Seq::empty())
    } else {
        None
    }
}

pub fn match_alias_exec(pattern: &String, spec: &str) -> (r: Option<String>)
    ensures
        match r {
            None => match_alias(pattern@, spec@) is None,
            Some(t) => match_alias(pattern@, spec@) == Some(t@),
        },
{
    let p = chars_of(pattern.as_str());
    let s = chars_of(spec);
    if p.len() > 0 && p[p.len() - 1] == '*' {
        let pre = &p.as_slice()[0..p.len() - 1];
        assert(pre@ =~= p@.drop_last());
        if occurs_at_exec(s.as_slice(), pre, 0) {
            assert(s@.subrange(pre@.len() as int, s.len() as int) =~= s@.skip(pre@.len() as int));
            Some(string_of_range(&s, p.len() - 1, s.len()))
        } else {
            None
        }
    } else {
        let same = p.len() == s.len() && chars_equal(&p, &s);
        if same {
            assert(p@ =~= s@);
            Some(String::new())
        } else {
            None
        }
    }
}

fn chars_equal(a: &Vec<char>, b: &Vec<char>) -> (r: bool)
    requires
        a.len() == b.len(),
    ensures
        r == (a@ == b@),
{
    let mut i: usize = 0;
    while i < a.len()
        invariant
            i <= a.len() == b.len(),
            forall|j: int| 0 <= j < i ==> a@[j] == b@[j],
        decreases a.len() - i,
    {
        if a[i] != b[i] {
            return false;
        }
        i = i + 1;
    }
    assert(a@ =~= b@);
    true
}

/// A `paths` target with its trailing `/*` (then `*`) removed.
pub open spec fn target_trim(t: Seq<char>) -> Seq<char> {
    trim_end_all(trim_end_all(t, seq!['/', '*']), seq!['*'])
}

fn target_trim_exec(t: &String) -> (r: String)
    ensures
        r@ == target_trim(t@),
{
    let v = chars_of(t.as_str());
    assert(v@.subrange(0, v.len() as int) =~= v@);
    let e = trim_end_index(&v, &['/', '*'], 0, v.len());
    let e2 = trim_end_index(&v, &['*'], 0, e);
    proof {
        let a1 = ['/', '*'];
        let a2 = ['*'];
        assert(a1@ =~= seq!['/', '*']);
        assert(a2@ =~= seq!['*']);
    }
    string_of_range(&v, 0, e2)
}

/// One base per target of a matched pattern.
pub open spec fn target_bases(dir: PathV, base_url: Seq<char>, targets: Seq<Seq<char>>, tail: Seq<char>, m: nat) -> Seq<PathV>
    decreases m,
{
    if m == 0 || m > targets.len() {
        Seq::empty()
    } else {
        let base = pv_join(pv_join(dir, pv_of(base_url)), pv_of(target_trim(targets[m - 1])));
        target_bases(dir, base_url, targets, tail, (m - 1) as nat).push(
            if tail.len() == 0 {
                base
            } else {
                pv_join(base, pv_of(tail))
            },
        )
    }
}

pub open spec fn pattern_bases(dir: PathV, cfg: TsConfigV, spec: Seq<char>, k: nat) -> Seq<PathV>
    decreases k,
{
    if k == 0 || k > cfg.1.len() {
        Seq::empty()
    } else {
        let prev = pattern_bases(dir, cfg, spec, (k - 1) as nat);
        let entry = cfg.1[k - 1];
        match match_alias(entry.0, spec) {
            None => prev,
            Some(tail) => prev + target_bases(dir, cfg.0, entry.1, tail, entry.1.len()),
        }
    }
}

/// Candidate bases for a bare specifier under the tsconfig in `dir`: one
/// per `paths` target of each matching pattern, then `baseUrl/specifier`
/// when `baseUrl` is set.
pub open spec fn alias_bases(dir: PathV, cfg: TsConfigV, spec: Seq<char>) -> Seq<PathV> {
    pattern_bases(dir, cfg, spec, cfg.1.len()) + if cfg.0.len() > 0 {
        seq![pv_join(pv_join(dir, pv_of(cfg.0)), pv_of(spec))]
    } else {
        Seq::empty()
    }
}

fn target_bases_exec(dir: &PathParts, base_url: &String, targets: &Vec<String>, tail: &String) -> (r: Vec<PathParts>)
    ensures
        parts_view(r@) == target_bases(dir.pv(), base_url@, strs(targets@), tail@, targets@.len()),
{
    let ghost tv = strs(targets@);
    let tail_empty = chars_of(tail.as_str()).len() == 0;
    let mut out: Vec<PathParts> = Vec::new();
    let mut m: usize = 0;
    while m < targets.len()
        invariant
            m <= targets.len(),
            tv == strs(targets@),
            tail_empty == (tail@.len() == 0),
            parts_view(out@) == target_bases(dir.pv(), base_url@, tv, tail@, m as nat),
        decreases targets.len() - m,
    {
        let ghost before = parts_view(out@);
        let t = target_trim_exec(&targets[m]);
        let d = join_text(dir, base_url.as_str());
        let base = join_text(&d, t.as_str());
        let b = if tail_empty { base } else { join_text(&base, tail.as_str()) };
        let ghost bv = b.pv();
        out.push(b);
        assert(parts_view(out@) =~= before.push(bv));
        m = m + 1;
    }
    out
}

fn alias_bases_exec(dir: &PathParts, cfg: &TsConfig, spec: &str) -> (r: Vec<PathParts>)
    ensures
        parts_view(r@) == alias_bases(dir.pv(), cfg_view(*cfg), spec@),
{
    let ghost cv = cfg_view(*cfg);
    let mut out: Vec<PathParts> = Vec::new();
    let mut k: usize = 0;
    while k < cfg.paths.len()
        invariant
            k <= cfg.paths.len(),
            cv == cfg_view(*cfg),
            cv.1.len() == cfg.paths@.len(),
            parts_view(out@) == pattern_bases(dir.pv(), cv, spec@, k as nat),
        decreases cfg.paths.len() - k,
    {
        let ghost before = parts_view(out@);
        assert(cv.1[k as int] == (cfg.paths@[k as int].0@, strs(cfg.paths@[k as int].1@)));
        match match_alias_exec(&cfg.paths[k].0, spec) {
            None => {},
            Some(tail) => {
                let more = target_bases_exec(dir, &cfg.base_url, &cfg.paths[k].1, &tail);
                append_parts(&mut out, &more);
            },
        }
        k = k + 1;
    }
    if chars_of(cfg.base_url.as_str()).len() > 0 {
        let d = join_text(dir, cfg.base_url.as_str());
        let b = join_text(&d, spec);
        let ghost before = parts_view(out@);
        let ghost bv = b.pv();
        out.push(b);
        assert(parts_view(out@) =~= before + seq![bv]);
    } else {
        assert(parts_view(out@) =~= parts_view(out@) + Seq::<PathV>::empty());
    }
    out
}

/// Candidates for every base, base by base.
pub open spec fn probe_all(bases: Seq<PathV>) -> Seq<PathV>
    decreases bases.len(),
{
    if bases.len() == 0 {
        Seq::empty()
    } else {
        probe_all(bases.drop_last()) + probe_ts(bases.last())
    }
}

fn probe_all_exec(bases: &Vec<PathParts>) -> (r: Vec<PathParts>)
    ensures
        parts_view(r@) == probe_all(parts_view(bases@)),
{
    let ghost bv = parts_view(bases@);
    let mut out: Vec<PathParts> = Vec::new();
    let mut i: usize = 0;
    while i < bases.len()
        invariant
            i <= bases.len(),
            bv == parts_view(bases@),
            parts_view(out@) == probe_all(bv.take(i as int)),
        decreases bases.len() - i,
    {
        assert(bv.take(i + 1).drop_last() =~= bv.take(i as int));
        assert(bv.take(i + 1).last() == bases@[i as int].pv());
        let more = probe_ts_exec(&bases[i]);
        append_parts(&mut out, &more);
        i = i + 1;
    }
    assert(bv.take(bases.len() as int) =~= bv);
    out
}

/// Candidates for a TypeScript import: a relative specifier is probed next
/// to the importing file; a bare one through the nearest tsconfig.
pub open spec fn ts_candidates(source: Seq<char>, from: PathV, root: PathV, found: Option<(PathV, Option<TsConfigV>)>) -> Seq<PathV> {
    let dir = match pv_parent(from) {
        Some(d) => d,
        None => root,
    };
    if source.len() > 0 && source[0] == '.' {
        probe_ts(pv_join(dir, pv_of(source)))
    } else {
        match found {
            Some((d, Some(cfg))) => probe_all(alias_bases(d, cfg, source)),
            _ => Seq::empty(),
        }
    }
}

fn ts_candidates_exec(source: &String, from: &PathParts, root: &PathParts, found: &Option<FoundTsConfig>) -> (r: Vec<PathParts>)
    ensures
        parts_view(r@) == ts_candidates(source@, from.pv(), root.pv(), found_view(*found)),
{
    let dir = match parent_parts(from) {
        Some(d) => d,
        None => clone_parts(root),
    };
    let sv = chars_of(source.as_str());
    if sv.len() > 0 && sv[0] == '.' {
        let base = join_text(&dir, source.as_str());
        return probe_ts_exec(&base);
    }
    match found {
        Some(f) => match &f.config {
            Some(cfg) => {
                let d = parse_path(f.dir.as_str());
                let bases = alias_bases_exec(&d, cfg, source.as_str());
                probe_all_exec(&bases)
            },
            None => {
                let e: Vec<PathParts> = Vec::new();
                assert(parts_view(e@) =~= Seq::<PathV>::empty());
                e
            },
        },
        None => {
            let e: Vec<PathParts> = Vec::new();
            assert(parts_view(e@) =~= Seq::<PathV>::empty());
            e
        },
    }
}

// ── Python ───────────────────────────────────────────────────────────────

/// How many `.` a specifier starts with.
pub open spec fn lead_dots(s: Seq<char>) -> nat
    decreases s.len(),
{
    if s.len() > 0 && s[0] == '.' {
        1 + lead_dots(s.drop_first())
    } else {
        0
    }
}

/// `n` parents up from `p`, if there are that many.
pub open spec fn climb_n(p: PathV, n: nat) -> Option<PathV>
    decreases n,
{
    if n == 0 {
        Some(p)
    } else {
        match pv_parent(p) {
            None => None,
            Some(q) => climb_n(q, (n - 1) as nat),
        }
    }
}

/// The directory and each parent up to the project root, then the root
/// itself if the climb never reached it.
pub open spec fn ancestors_within(dir: PathV, root: PathV) -> Seq<PathV> {
    let a = climb(dir, root);
    if a.contains(root) {
        a
    } else {
        a.push(root)
    }
}

/// The non-empty pieces between the dots of a module path.
pub open spec fn nonempty(ps: Seq<Seq<char>>) -> Seq<Seq<char>>
    decreases ps.len(),
{
    if ps.len() == 0 {
        Seq::empty()
    } else if ps.last().len() == 0 {
        nonempty(ps.drop_last())
    } else {
        nonempty(ps.drop_last()).push(ps.last())
    }
}

/// `p` joined with each piece in turn.
pub open spec fn join_all(p: PathV, pieces: Seq<Seq<char>>) -> PathV
    decreases pieces.len(),
{
    if pieces.len() == 0 {
        p
    } else {
        pv_join(join_all(p, pieces.drop_last()), pv_of(pieces.last()))
    }
}

/// `base.py`, then `base/__init__.py`.
pub open spec fn probe_py(base: PathV) -> Seq<PathV> {
    seq![pv_with_ext(base, "py"@), pv_child(base, "__init__.py"@)]
}

/// Each imported name tried as a submodule of `base`.
pub open spec fn probe_names(base: PathV, names: Seq<Seq<char>>) -> Seq<PathV>
    decreases names.len(),
{
    if names.len() == 0 {
        Seq::empty()
    } else {
        probe_names(base, names.drop_last()) + probe_py(pv_join(base, pv_of(names.last())))
    }
}

pub open spec fn probe_roots(roots: Seq<PathV>, pieces: Seq<Seq<char>>, names: Seq<Seq<char>>) -> Seq<PathV>
    decreases roots.len(),
{
    if roots.len() == 0 {
        Seq::empty()
    } else {
        let base = join_all(roots.last(), pieces);
        probe_roots(roots.drop_last(), pieces, names) + probe_names(base, names) + probe_py(base)
    }
}

/// Candidates for a Python import: `from .a import b` climbs one directory
/// per extra leading dot from the file's own directory; `import a.b` is
/// tried against the directory and every parent up to the project root.
/// For each search root, each imported name is tried as a submodule before
/// the module itself.
pub open spec fn py_candidates(source: Seq<char>, names: Seq<Seq<char>>, from: PathV, root: PathV) -> Seq<PathV> {
    let dir = match pv_parent(from) {
        Some(d) => d,
        None => root,
    };
    let dots = lead_dots(source);
    let pieces = nonempty(split_on(source.skip(dots as int), '.'));
    if dots > 0 {
        match climb_n(dir, (dots - 1) as nat) {
            None => Seq::empty(),
            Some(b) => probe_roots(seq![b], pieces, names),
        }
    } else {
        probe_roots(ancestors_within(dir, root), pieces, names)
    }
}

fn probe_py_exec(base: &PathParts) -> (r: Vec<PathParts>)
    ensures
        parts_view(r@) == probe_py(base.pv()),
{
    let a = with_appended_extension(base, "py");
    let b = push_seg(base, "__init__.py".to_owned());
    let ghost av = a.pv();
    let ghost bv = b.pv();
    let mut out: Vec<PathParts> = Vec::new();
    out.push(a);
    out.push(b);
    assert(parts_view(out@) =~= seq![av, bv]);
    out
}

fn join_all_exec(p: &PathParts, pieces: &Vec<String>) -> (r: PathParts)
    ensures
        r.pv() == join_all(p.pv(), strs(pieces@)),
{
    let ghost pv = strs(pieces@);
    let mut cur = clone_parts(p);
    let mut i: usize = 0;
    while i < pieces.len()
        invariant
            i <= pieces.len(),
            pv == strs(pieces@),
            cur.pv() == join_all(p.pv(), pv.take(i as int)),
        decreases pieces.len() - i,
    {
        assert(pv.take(i + 1).drop_last() =~= pv.take(i as int));
        assert(pv.take(i + 1).last() == pieces@[i as int]@);
        cur = join_text(&cur, pieces[i].as_str());
        i = i + 1;
    }
    assert(pv.take(pieces.len() as int) =~= pv);
    cur
}

fn probe_roots_exec(roots: &Vec<PathParts>, pieces: &Vec<String>, names: &Vec<String>) -> (r: Vec<PathParts>)
    ensures
        parts_view(r@) == probe_roots(parts_view(roots@), strs(pieces@), strs(names@)),
{
    let ghost rv = parts_view(roots@);
    let ghost nv = strs(names@);
    let mut out: Vec<PathParts> = Vec::new();
    let mut i: usize = 0;
    while i < roots.len()
        invariant
            i <= roots.len(),
            rv == parts_view(roots@),
            nv == strs(names@),
            parts_view(out@) == probe_roots(rv.take(i as int), strs(pieces@), nv),
        decreases roots.len() - i,
    {
        assert(rv.take(i + 1).drop_last() =~= rv.take(i as int));
        assert(rv.take(i + 1).last() == roots@[i as int].pv());
        let base = join_all_exec(&roots[i], pieces);
        let ghost mid = parts_view(out@);
        let mut k: usize = 0;
        while k < names.len()
            invariant
                k <= names.len(),
                nv == strs(names@),
                parts_view(out@) == mid + probe_names(base.pv(), nv.take(k as int)),
            decreases names.len() - k,
        {
            assert(nv.take(k + 1).drop_last() =~= nv.take(k as int));
            assert(nv.take(k + 1).last() == names@[k as int]@);
            let sub = join_text(&base, names[k].as_str());
            let more = probe_py_exec(&sub);
            append_parts(&mut out, &more);
            assert(parts_view(out@) =~= mid + probe_names(base.pv(), nv.take(k + 1)));
            k = k + 1;
        }
        assert(nv.take(names.len() as int) =~= nv);
        let more = probe_py_exec(&base);
        append_parts(&mut out, &more);
        assert(parts_view(out@) =~= probe_roots(rv.take(i + 1), strs(pieces@), nv));
        i = i + 1;
    }
    assert(rv.take(roots.len() as int) =~= rv);
    out
}

fn ancestors_within_exec(dir: &PathParts, root: &PathParts) -> (r: Vec<PathParts>)
    ensures
        parts_view(r@) == ancestors_within(dir.pv(), root.pv()),
{
    let mut a = climb_exec(dir, root);
    let ghost av = parts_view(a@);
    let mut i: usize = 0;
    while i < a.len()
        invariant
            i <= a.len(),
            av == parts_view(a@),
            av == climb(dir.pv(), root.pv()),
            forall|j: int| 0 <= j < i ==> av[j] != root.pv(),
        decreases a.len() - i,
    {
        if parts_eq(&a[i], root) {
            assert(av[i as int] == root.pv());
            assert(av.contains(root.pv()));
            return a;
        }
        i = i + 1;
    }
    let ghost before = parts_view(a@);
    a.push(clone_parts(root));
    assert(parts_view(a@) =~= before.push(root.pv()));
    a
}

/// The non-empty pieces of `s` between dots.
fn module_pieces(s: &Vec<char>, from: usize) -> (r: Vec<String>)
    requires
        from <= s.len(),
    ensures
        strs(r@) == nonempty(split_on(s@.skip(from as int), '.')),
{
    let parts = crate::parser::words::split_ranges(s, from, s.len(), '.');
    let ghost ps = split_on(s@.subrange(from as int, s.len() as int), '.');
    assert(s@.subrange(from as int, s.len() as int) =~= s@.skip(from as int));
    let mut out: Vec<String> = Vec::new();
    let mut k: usize = 0;
    while k < parts.len()
        invariant
            k <= parts.len(),
            parts@.len() == ps.len(),
            ps == split_on(s@.subrange(from as int, s.len() as int), '.'),
            forall|q: int|
                0 <= q < parts@.len() ==> {
                    &&& from <= (#[trigger] parts@[q]).0 <= parts@[q].1 <= s.len()
                    &&& s@.subrange(parts@[q].0 as int, parts@[q].1 as int) == ps[q]
                },
            strs(out@) == nonempty(ps.take(k as int)),
        decreases parts.len() - k,
    {
        assert(ps.take(k + 1).drop_last() =~= ps.take(k as int));
        assert(ps.take(k + 1).last() == ps[k as int]);
        let rg = parts[k];
        if rg.1 > rg.0 {
            let ghost before = strs(out@);
            let piece = string_of_range(s, rg.0, rg.1);
            out.push(piece);
            assert(strs(out@) =~= before.push(ps[k as int]));
        }
        k = k + 1;
    }
    assert(ps.take(parts.len() as int) =~= ps);
    out
}

fn py_candidates_exec(source: &String, names: &Vec<String>, from: &PathParts, root: &PathParts) -> (r: Vec<PathParts>)
    ensures
        parts_view(r@) == py_candidates(source@, strs(names@), from.pv(), root.pv()),
{
    let dir = match parent_parts(from) {
        Some(d) => d,
        None => clone_parts(root),
    };
    let sv = chars_of(source.as_str());
    let mut dots: usize = 0;
    assert(sv@.skip(0) =~= sv@);
    while dots < sv.len() && sv[dots] == '.'
        invariant
            dots <= sv.len(),
            dots + lead_dots(sv@.skip(dots as int)) == lead_dots(sv@),
        decreases sv.len() - dots,
    {
        assert(sv@.skip(dots as int).drop_first() =~= sv@.skip(dots + 1));
        dots = dots + 1;
    }
    assert(lead_dots(sv@.skip(dots as int)) == 0) by {
        if dots < sv.len() {
            assert(sv@.skip(dots as int)[0] == sv@[dots as int]);
        }
    }
    let ghost dirv = dir.pv();
    let pieces = module_pieces(&sv, dots);
    if dots > 0 {
        let mut base = dir;
        let mut k: usize = 1;
        while k < dots
            invariant
                1 <= k <= dots,
                dots == lead_dots(source@),
                dirv == (match pv_parent(from.pv()) { Some(d) => d, None => root.pv() }),
                climb_n(base.pv(), (dots - k) as nat) == climb_n(dirv, (dots - 1) as nat),
            decreases dots - k,
        {
            match parent_parts(&base) {
                None => {
                    assert(climb_n(base.pv(), (dots - k) as nat) is None);
                    let e: Vec<PathParts> = Vec::new();
                    assert(parts_view(e@) =~= Seq::<PathV>::empty());
                    return e;
                },
                Some(p) => {
                    assert(climb_n(base.pv(), (dots - k) as nat) == climb_n(p.pv(), (dots - k - 1) as nat));
                    base = p;
                },
            }
            k = k + 1;
        }
        let mut roots: Vec<PathParts> = Vec::new();
        let ghost bv = base.pv();
        roots.push(base);
        assert(parts_view(roots@) =~= seq![bv]);
        probe_roots_exec(&roots, &pieces, names)
    } else {
        let roots = ancestors_within_exec(&dir, root);
        probe_roots_exec(&roots, &pieces, names)
    }
}

// ── Rust ─────────────────────────────────────────────────────────────────

/// `base.rs`, then `base/mod.rs`.
pub open spec fn probe_rs(base: PathV) -> Seq<PathV> {
    seq![pv_with_ext(base, "rs"@), pv_child(base, "mod.rs"@)]
}

/// Module paths from the longest prefix of `rest` down to one segment,
/// since trailing segments may name items rather than modules.
pub open spec fn rs_takes(base: PathV, rest: Seq<Seq<char>>, t: nat) -> Seq<PathV>
    decreases t,
{
    if t == 0 || t > rest.len() {
        Seq::empty()
    } else {
        probe_rs(join_all(base, rest.take(t as int))) + rs_takes(base, rest, (t - 1) as nat)
    }
}

/// Candidates for a Rust path: `crate::` starts at `<root>/src`, `self::`
/// at the file's directory, `super::` one above it; any other first segment
/// is looked for next to the file.
pub open spec fn rs_candidates(source: Seq<char>, from: PathV, root: PathV) -> Seq<PathV> {
    let dir = match pv_parent(from) {
        Some(d) => d,
        None => root,
    };
    let segs = nonempty(split_sub(source, seq![':', ':']));
    if segs.len() == 0 {
        Seq::empty()
    } else {
        let first = segs[0];
        let rest = segs.drop_first();
        if first == "crate"@ {
            rs_takes(pv_child(root, "src"@), rest, rest.len())
        } else if first == "self"@ {
            rs_takes(dir, rest, rest.len())
        } else if first == "super"@ {
            match pv_parent(dir) {
                None => Seq::empty(),
                Some(p) => rs_takes(p, rest, rest.len()),
            }
        } else {
            rs_takes(dir, segs, segs.len())
        }
    }
}

fn probe_rs_exec(base: &PathParts) -> (r: Vec<PathParts>)
    ensures
        parts_view(r@) == probe_rs(base.pv()),
{
    let a = with_appended_extension(base, "rs");
    let b = push_seg(base, "mod.rs".to_owned());
    let ghost av = a.pv();
    let ghost bv = b.pv();
    let mut out: Vec<PathParts> = Vec::new();
    out.push(a);
    out.push(b);
    assert(parts_view(out@) =~= seq![av, bv]);
    out
}

fn rs_takes_exec(base: &PathParts, rest: &Vec<String>) -> (r: Vec<PathParts>)
    ensures
        parts_view(r@) == rs_takes(base.pv(), strs(rest@), rest@.len()),
{
    let ghost rv = strs(rest@);
    let mut out: Vec<PathParts> = Vec::new();
    let mut t = rest.len();
    assert(parts_view(out@) + rs_takes(base.pv(), rv, t as nat) =~= rs_takes(base.pv(), rv, rest@.len()));
    while t > 0
        invariant
            t <= rest.len(),
            rv == strs(rest@),
            parts_view(out@) + rs_takes(base.pv(), rv, t as nat) == rs_takes(base.pv(), rv, rest@.len()),
        decreases t,
    {
        let mut prefix: Vec<String> = Vec::new();
        let mut j: usize = 0;
        while j < t
            invariant
                j <= t <= rest.len(),
                rv == strs(rest@),
                strs(prefix@) == rv.take(j as int),
            decreases t - j,
        {
            let ghost before = strs(prefix@);
            let c = rest[j].clone();
            prefix.push(c);
            assert(strs(prefix@) =~= before.push(rv[j as int]));
            assert(rv.take(j + 1) =~= rv.take(j as int).push(rv[j as int]));
            j = j + 1;
        }
        let cand = join_all_exec(base, &prefix);
        let more = probe_rs_exec(&cand);
        let ghost before = parts_view(out@);
        append_parts(&mut out, &more);
        assert(parts_view(out@) + rs_takes(base.pv(), rv, (t - 1) as nat) =~= before + rs_takes(base.pv(), rv, t as nat));
        t = t - 1;
    }
    assert(parts_view(out@) =~= rs_takes(base.pv(), rv, rest@.len()));
    out
}

fn rs_candidates_exec(source: &String, from: &PathParts, root: &PathParts) -> (r: Vec<PathParts>)
    ensures
        parts_view(r@) == rs_candidates(source@, from.pv(), root.pv()),
{
    let dir = match parent_parts(from) {
        Some(d) => d,
        None => clone_parts(root),
    };
    let sv = chars_of(source.as_str());
    let sep = [':', ':'];
    assert(sep@ =~= seq![':', ':']);
    let pieces = split_sub_exec(&sv, &sep);
    let ghost ps = pieces@.map_values(|x: String| x@);
    let mut segs: Vec<String> = Vec::new();
    let mut k: usize = 0;
    while k < pieces.len()
        invariant
            k <= pieces.len(),
            ps == pieces@.map_values(|x: String| x@),
            strs(segs@) == nonempty(ps.take(k as int)),
        decreases pieces.len() - k,
    {
        assert(ps.take(k + 1).drop_last() =~= ps.take(k as int));
        assert(ps.take(k + 1).last() == pieces@[k as int]@);
        let n = chars_of(pieces[k].as_str()).len();
        if n > 0 {
            let ghost before = strs(segs@);
            segs.push(pieces[k].clone());
            assert(strs(segs@) =~= before.push(pieces@[k as int]@));
        }
        k = k + 1;
    }
    assert(ps.take(pieces.len() as int) =~= ps);
    let ghost sg = strs(segs@);
    if segs.len() == 0 {
        let e: Vec<PathParts> = Vec::new();
        assert(parts_view(e@) =~= Seq::<PathV>::empty());
        return e;
    }
    let mut rest: Vec<String> = Vec::new();
    let mut j: usize = 1;
    while j < segs.len()
        invariant
            1 <= j <= segs.len(),
            sg == strs(segs@),
            strs(rest@) == sg.subrange(1, j as int),
        decreases segs.len() - j,
    {
        let ghost before = strs(rest@);
        rest.push(segs[j].clone());
        assert(strs(rest@) =~= before.push(sg[j as int]));
        j = j + 1;
    }
    assert(sg.subrange(1, segs.len() as int) =~= sg.drop_first());
    let first = &segs[0];
    assert(first@ == sg[0]);
    if *first == "crate".to_owned() {
        let base = push_seg(root, "src".to_owned());
        rs_takes_exec(&base, &rest)
    } else if *first == "self".to_owned() {
        rs_takes_exec(&dir, &rest)
    } else if *first == "super".to_owned() {
        match parent_parts(&dir) {
            None => {
                let e: Vec<PathParts> = Vec::new();
                assert(parts_view(e@) =~= Seq::<PathV>::empty());
                e
            },
            Some(p) => rs_takes_exec(&p, &rest),
        }
    } else {
        rs_takes_exec(&dir, &segs)
    }
}

// ── Resolution ───────────────────────────────────────────────────────────

/// Candidate files for one import from the file at `from`, by the
/// language of that file.
pub open spec fn candidates(
    imp: (Seq<char>, Seq<Seq<char>>),
    from: Seq<char>,
    root: Seq<char>,
    found: Option<(PathV, Option<TsConfigV>)>,
) -> Seq<PathV> {
    match extension(from) {
        Some(e) => if is_ts_ext(e) {
            ts_candidates(imp.0, pv_of(from), pv_of(root), found)
        } else if e == "py"@ {
            py_candidates(imp.0, imp.1, pv_of(from), pv_of(root))
        } else if e == "rs"@ {
            rs_candidates(imp.0, pv_of(from), pv_of(root))
        } else {
            Seq::empty()
        },
        None => Seq::empty(),
    }
}

/// The first candidate that exists.
pub open spec fn first_existing(cands: Seq<PathV>, existing: Seq<Seq<char>>) -> Option<PathV>
    decreases cands.len(),
{
    if cands.len() == 0 {
        None
    } else if existing.contains(pv_text(cands[0])) {
        Some(cands[0])
    } else {
        first_existing(cands.drop_first(), existing)
    }
}

/// Resolved files for the first `k` imports: each import's first existing
/// candidate, normalized, kept once.
pub open spec fn resolved(
    imps: Seq<(Seq<char>, Seq<Seq<char>>)>,
    from: Seq<char>,
    root: Seq<char>,
    found: Option<(PathV, Option<TsConfigV>)>,
    existing: Seq<Seq<char>>,
    k: nat,
) -> Seq<Seq<char>>
    decreases k,
{
    if k == 0 || k > imps.len() {
        Seq::empty()
    } else {
        let prev = resolved(imps, from, root, found, existing, (k - 1) as nat);
        match first_existing(candidates(imps[k - 1], from, root, found), existing) {
            None => prev,
            Some(p) => {
                let n = pv_text(pv_normalize(p));
                if prev.contains(n) {
                    prev
                } else {
                    prev.push(n)
                }
            },
        }
    }
}

/// Every candidate of every import, for the caller to check on disk.
pub open spec fn all_candidates(
    imps: Seq<(Seq<char>, Seq<Seq<char>>)>,
    from: Seq<char>,
    root: Seq<char>,
    found: Option<(PathV, Option<TsConfigV>)>,
    k: nat,
) -> Seq<Seq<char>>
    decreases k,
{
    if k == 0 || k > imps.len() {
        Seq::empty()
    } else {
        all_candidates(imps, from, root, found, (k - 1) as nat) + candidates(imps[k - 1], from, root, found).map_values(
            |p: PathV| pv_text(p),
        )
    }
}

fn candidates_exec(
    imp: &ParsedImport,
    from_file: &str,
    project_root: &str,
    from: &PathParts,
    root: &PathParts,
    found: &Option<FoundTsConfig>,
    lang: &Option<String>,
) -> (r: Vec<PathParts>)
    requires
        from.pv() == pv_of(from_file@),
        root.pv() == pv_of(project_root@),
        match *lang {
            None => extension(from_file@) is None,
            Some(e) => extension(from_file@) == Some(e@),
        },
    ensures
        parts_view(r@) == candidates(imp_view(*imp), from_file@, project_root@, found_view(*found)),
{
    match lang {
        Some(e) => {
            if *e == "ts".to_owned() || *e == "tsx".to_owned() || *e == "js".to_owned() || *e == "jsx".to_owned() {
                ts_candidates_exec(&imp.source, from, root, found)
            } else if *e == "py".to_owned() {
                assert(strs(imp.names@) == imp_view(*imp).1);
                py_candidates_exec(&imp.source, &imp.names, from, root)
            } else if *e == "rs".to_owned() {
                rs_candidates_exec(&imp.source, from, root)
            } else {
                let v: Vec<PathParts> = Vec::new();
                assert(parts_view(v@) =~= Seq::<PathV>::empty());
                v
            }
        },
        None => {
            let v: Vec<PathParts> = Vec::new();
            assert(parts_view(v@) =~= Seq::<PathV>::empty());
            v
        },
    }
}

fn first_existing_exec(cands: &Vec<PathParts>, existing: &Vec<String>) -> (r: Option<usize>)
    ensures
        match r {
            None => first_existing(parts_view(cands@), strs(existing@)) is None,
            Some(i) => i < cands.len() && first_existing(parts_view(cands@), strs(existing@)) == Some(cands@[i as int].pv()),
        },
{
    let ghost cv = parts_view(cands@);
    let mut i: usize = 0;
    assert(cv.skip(0) =~= cv);
    while i < cands.len()
        invariant
            i <= cands.len(),
            cv == parts_view(cands@),
            first_existing(cv.skip(i as int), strs(existing@)) == first_existing(cv, strs(existing@)),
        decreases cands.len() - i,
    {
        let t = render_path(&cands[i]);
        assert(cv.skip(i as int)[0] == cands@[i as int].pv());
        assert(cv.skip(i as int).drop_first() =~= cv.skip(i + 1));
        if contains_str(existing, &t) {
            return Some(i);
        }
        i = i + 1;
    }
    None
}

/// Every candidate file for `imports` from `from_file`, in the order they
/// are tried: the caller checks which exist and passes those to
/// `resolve_imports`.
pub fn candidate_files(imports: &[ParsedImport], from_file: &str, project_root: &str, tsconfig: &Option<FoundTsConfig>) -> (r: Vec<String>)
    ensures
        strs(r@) == all_candidates(imps_view(imports@), from_file@, project_root@, found_view(*tsconfig), imports@.len()),
{
    let from = parse_path(from_file);
    let root = parse_path(project_root);
    let lang = extension_of(from_file);
    let ghost iv = imps_view(imports@);
    let mut out: Vec<String> = Vec::new();
    let mut k: usize = 0;
    while k < imports.len()
        invariant
            k <= imports.len(),
            iv == imps_view(imports@),
            from.pv() == pv_of(from_file@),
            root.pv() == pv_of(project_root@),
            match lang {
                None => extension(from_file@) is None,
                Some(e) => extension(from_file@) == Some(e@),
            },
            strs(out@) == all_candidates(iv, from_file@, project_root@, found_view(*tsconfig), k as nat),
        decreases imports.len() - k,
    {
        assert(iv[k as int] == imp_view(imports@[k as int]));
        let cands = candidates_exec(&imports[k], from_file, project_root, &from, &root, tsconfig, &lang);
        let ghost cv = parts_view(cands@);
        let ghost base = strs(out@);
        let mut j: usize = 0;
        while j < cands.len()
            invariant
                j <= cands.len(),
                cv == parts_view(cands@),
                strs(out@) == base + cv.take(j as int).map_values(|p: PathV| pv_text(p)),
            decreases cands.len() - j,
        {
            let t = render_path(&cands[j]);
            assert(t@ == pv_text(cv[j as int]));
            let ghost before = strs(out@);
            out.push(t);
            assert(strs(out@) =~= before.push(pv_text(cv[j as int])));
            assert(cv.take(j + 1).map_values(|p: PathV| pv_text(p)) =~= cv.take(j as int).map_values(|p: PathV| pv_text(p)).push(pv_text(cv[j as int])));
            assert(strs(out@) =~= base + cv.take(j + 1).map_values(|p: PathV| pv_text(p)));
            j = j + 1;
        }
        assert(cv.take(cands.len() as int) =~= cv);
        k = k + 1;
    }
    out
}

/// The project files that `imports` of `from_file` resolve to, given which
/// candidate files exist: for each import its first existing candidate,
/// with `.` and `..` collapsed, each file listed once in first-seen order.
pub fn resolve_imports(
    imports: &[ParsedImport],
    from_file: &str,
    project_root: &str,
    tsconfig: &Option<FoundTsConfig>,
    existing: &Vec<String>,
) -> (r: Vec<String>)
    ensures
        strs(r@) == resolved(imps_view(imports@), from_file@, project_root@, found_view(*tsconfig), strs(existing@), imports@.len()),
{
    let from = parse_path(from_file);
    let root = parse_path(project_root);
    let lang = extension_of(from_file);
    let ghost iv = imps_view(imports@);
    let ghost ev = strs(existing@);
    let mut out: Vec<String> = Vec::new();
    let mut k: usize = 0;
    while k < imports.len()
        invariant
            k <= imports.len(),
            iv == imps_view(imports@),
            ev == strs(existing@),
            from.pv() == pv_of(from_file@),
            root.pv() == pv_of(project_root@),
            match lang {
                None => extension(from_file@) is None,
                Some(e) => extension(from_file@) == Some(e@),
            },
            strs(out@) == resolved(iv, from_file@, project_root@, found_view(*tsconfig), ev, k as nat),
        decreases imports.len() - k,
    {
        assert(iv[k as int] == imp_view(imports@[k as int]));
        let cands = candidates_exec(&imports[k], from_file, project_root, &from, &root, tsconfig, &lang);
        match first_existing_exec(&cands, existing) {
            None => {},
            Some(i) => {
                let n = normalize_parts(&cands[i]);
                let t = render_path(&n);
                if !contains_str(&out, &t) {
                    let ghost before = strs(out@);
                    out.push(t);
                    assert(strs(out@) =~= before.push(t@));
                }
            },
        }
        k = k + 1;
    }
    out
}

/// Resolution lists each file at most once.
pub proof fn lemma_resolved_distinct(
    imps: Seq<(Seq<char>, Seq<Seq<char>>)>,
    from: Seq<char>,
    root: Seq<char>,
    found: Option<(PathV, Option<TsConfigV>)>,
    existing: Seq<Seq<char>>,
    k: nat,
)
    ensures
        resolved(imps, from, root, found, existing, k).no_duplicates(),
    decreases k,
{
    if k > 0 && k <= imps.len() {
        lemma_resolved_distinct(imps, from, root, found, existing, (k - 1) as nat);
        let prev = resolved(imps, from, root, found, existing, (k - 1) as nat);
        match first_existing(candidates(imps[k - 1], from, root, found), existing) {
            None => {},
            Some(p) => {
                let n = pv_text(pv_normalize(p));
                if !prev.contains(n) {
                    let e = prev.push(n);
                    assert forall|i: int, j: int| 0 <= i < e.len() && 0 <= j < e.len() && i != j implies e[i] != e[j] by {
                        if i == prev.len() as int {
                            assert(prev[j] == e[j]);
                        } else if j == prev.len() as int {
                            assert(prev[i] == e[i]);
                        }
                    }
                }
            },
        }
    }
}

/// `t` is the text of a path with no `.` or `..` segment.
pub open spec fn clean_path_text(t: Seq<char>) -> bool {
    exists|q: PathV| #[trigger] pv_text(q) == t && !q.1.contains(crate::pathmodel::dot()) && !q.1.contains(
        crate::pathmodel::dotdot(),
    )
}

/// Resolution gives at most one file per import, and each is the text of a
/// path with no `.` or `..` segment left.
pub proof fn lemma_resolved_shape(
    imps: Seq<(Seq<char>, Seq<Seq<char>>)>,
    from: Seq<char>,
    root: Seq<char>,
    found: Option<(PathV, Option<TsConfigV>)>,
    existing: Seq<Seq<char>>,
    k: nat,
)
    ensures
        resolved(imps, from, root, found, existing, k).len() <= k,
        forall|i: int| 0 <= i < resolved(imps, from, root, found, existing, k).len() ==> clean_path_text(
            #[trigger] resolved(imps, from, root, found, existing, k)[i],
        ),
    decreases k,
{
    if k > 0 && k <= imps.len() {
        lemma_resolved_shape(imps, from, root, found, existing, (k - 1) as nat);
        let prev = resolved(imps, from, root, found, existing, (k - 1) as nat);
        let r = resolved(imps, from, root, found, existing, k);
        match first_existing(candidates(imps[k - 1], from, root, found), existing) {
            None => {
                assert forall|i: int| 0 <= i < r.len() implies clean_path_text(#[trigger] r[i]) by {
                    assert(r[i] == prev[i]);
                }
            },
            Some(p) => {
                crate::pathmodel::lemma_normalize_idempotent(p);
                assert(clean_path_text(pv_text(pv_normalize(p))));
                assert forall|i: int| 0 <= i < r.len() implies clean_path_text(#[trigger] r[i]) by {
                    if i < prev.len() {
                        assert(r[i] == prev[i]);
                    } else {
                        assert(r[i] == pv_text(pv_normalize(p)));
                    }
                }
            },
        }
    }
}

proof fn lemma_first_existing_concat(a: Seq<PathV>, b: Seq<PathV>, existing: Seq<Seq<char>>)
    ensures
        first_existing(a + b, existing) == (if first_existing(a, existing) is Some {
            first_existing(a, existing)
        } else {
            first_existing(b, existing)
        }),
    decreases a.len(),
{
    if a.len() > 0 {
        assert((a + b).drop_first() =~= a.drop_first() + b);
        assert((a + b)[0] == a[0]);
        lemma_first_existing_concat(a.drop_first(), b, existing);
    } else {
        assert(a + b =~= b);
    }
}

proof fn lemma_first_existing_found(a: Seq<PathV>, existing: Seq<Seq<char>>)
    ensures
        first_existing(a, existing) is Some <==> exists|k: int| 0 <= k < a.len() && existing.contains(pv_text(#[trigger] a[k])),
        first_existing(a, existing) matches Some(c) ==> a.contains(c) && existing.contains(pv_text(c)),
    decreases a.len(),
{
    if a.len() > 0 {
        lemma_first_existing_found(a.drop_first(), existing);
        if exists|k: int| 0 <= k < a.len() && existing.contains(pv_text(#[trigger] a[k])) {
            let k = choose|k: int| 0 <= k < a.len() && existing.contains(pv_text(#[trigger] a[k]));
            if k > 0 {
                assert(a.drop_first()[k - 1] == a[k]);
            }
        }
        if exists|k: int| 0 <= k < a.drop_first().len() && existing.contains(pv_text(#[trigger] a.drop_first()[k])) {
            let k = choose|k: int| 0 <= k < a.drop_first().len() && existing.contains(pv_text(#[trigger] a.drop_first()[k]));
            assert(a[k + 1] == a.drop_first()[k]);
        }
        if first_existing(a, existing) is Some && !existing.contains(pv_text(a[0])) {
            let c = first_existing(a, existing)->0;
            let w = choose|w: int| 0 <= w < a.drop_first().len() && a.drop_first()[w] == c;
            assert(a[w + 1] == c);
        }
        if existing.contains(pv_text(a[0])) {
            assert(a.contains(a[0]));
        }
    }
}

/// A Rust module path resolves to the longest prefix of itself that names
/// an existing file: when some file of the prefix of `t1` segments exists
/// and none of any longer prefix does, the file chosen among all the
/// candidates is the one chosen among that prefix's (`<prefix>.rs`, then
/// `<prefix>/mod.rs`). So with both `a.rs` and `a/b.rs` present,
/// `crate::a::b::f` resolves to `a/b.rs`.
pub proof fn lemma_rs_longest_prefix_wins(base: PathV, rest: Seq<Seq<char>>, existing: Seq<Seq<char>>, t1: nat)
    requires
        1 <= t1 <= rest.len(),
        exists|c: PathV| probe_rs(join_all(base, rest.take(t1 as int))).contains(c) && existing.contains(#[trigger] pv_text(c)),
        forall|t2: nat, c: PathV| t1 < t2 <= rest.len() && #[trigger] probe_rs(join_all(base, rest.take(t2 as int))).contains(c)
            ==> !existing.contains(pv_text(c)),
    ensures
        first_existing(rs_takes(base, rest, rest.len()), existing) == first_existing(
            probe_rs(join_all(base, rest.take(t1 as int))),
            existing,
        ),
        first_existing(rs_takes(base, rest, rest.len()), existing) is Some,
{
    let target = probe_rs(join_all(base, rest.take(t1 as int)));
    let c0 = choose|c: PathV| target.contains(c) && existing.contains(#[trigger] pv_text(c));
    let w = choose|w: int| 0 <= w < target.len() && target[w] == c0;
    lemma_first_existing_found(target, existing);
    lemma_longest_from(base, rest, existing, t1, rest.len());
}

proof fn lemma_longest_from(base: PathV, rest: Seq<Seq<char>>, existing: Seq<Seq<char>>, t1: nat, t: nat)
    requires
        1 <= t1 <= t <= rest.len(),
        first_existing(probe_rs(join_all(base, rest.take(t1 as int))), existing) is Some,
        forall|t2: nat, c: PathV| t1 < t2 <= rest.len() && #[trigger] probe_rs(join_all(base, rest.take(t2 as int))).contains(c)
            ==> !existing.contains(pv_text(c)),
    ensures
        first_existing(rs_takes(base, rest, t), existing) == first_existing(
            probe_rs(join_all(base, rest.take(t1 as int))),
            existing,
        ),
    decreases t,
{
    let here = probe_rs(join_all(base, rest.take(t as int)));
    lemma_first_existing_concat(here, rs_takes(base, rest, (t - 1) as nat), existing);
    if t > t1 {
        lemma_first_existing_found(here, existing);
        if first_existing(here, existing) is Some {
            let k = choose|k: int| 0 <= k < here.len() && existing.contains(pv_text(#[trigger] here[k]));
            assert(here.contains(here[k]));
            assert(!existing.contains(pv_text(here[k])));
        }
        lemma_longest_from(base, rest, existing, t1, (t - 1) as nat);
    }
}

/// A specifier without an extension is tried as a file with each script
/// extension before any directory index: `base.ts`, `base.tsx`, `base.js`,
/// `base.jsx`, then `base/index.ts`, `base/index.tsx`, `base/index.js`,
/// `base/index.jsx`. One that has an extension is tried as it is first.
pub proof fn lemma_ts_probe_order(base: PathV)
    ensures
        pv_extension(base) is None ==> probe_ts(base) == seq![
            pv_with_ext(base, "ts"@),
            pv_with_ext(base, "tsx"@),
            pv_with_ext(base, "js"@),
            pv_with_ext(base, "jsx"@),
            pv_child(base, "index.ts"@),
            pv_child(base, "index.tsx"@),
            pv_child(base, "index.js"@),
            pv_child(base, "index.jsx"@),
        ],
        pv_extension(base) is Some ==> probe_ts(base).len() == 9 && probe_ts(base)[0] == base,
{
    reveal_strlit("index.");
    reveal_strlit("index.ts");
    reveal_strlit("index.tsx");
    reveal_strlit("index.js");
    reveal_strlit("index.jsx");
    reveal_strlit("ts");
    reveal_strlit("tsx");
    reveal_strlit("js");
    reveal_strlit("jsx");
    assert("index."@ + "ts"@ =~= "index.ts"@);
    assert("index."@ + "tsx"@ =~= "index.tsx"@);
    assert("index."@ + "js"@ =~= "index.js"@);
    assert("index."@ + "jsx"@ =~= "index.jsx"@);
    let f = probe_ts_files(base, 4);
    let x = probe_ts_indexes(base, 4);
    assert(probe_ts_files(base, 0) =~= Seq::<PathV>::empty());
    assert(probe_ts_files(base, 1) =~= seq![pv_with_ext(base, "ts"@)]);
    assert(probe_ts_files(base, 2) =~= seq![pv_with_ext(base, "ts"@), pv_with_ext(base, "tsx"@)]);
    assert(probe_ts_files(base, 3) =~= seq![pv_with_ext(base, "ts"@), pv_with_ext(base, "tsx"@), pv_with_ext(base, "js"@)]);
    assert(probe_ts_indexes(base, 0) =~= Seq::<PathV>::empty());
    assert(probe_ts_indexes(base, 1) =~= seq![pv_child(base, "index.ts"@)]);
    assert(probe_ts_indexes(base, 2) =~= seq![pv_child(base, "index.ts"@), pv_child(base, "index.tsx"@)]);
    assert(probe_ts_indexes(base, 3) =~= seq![
        pv_child(base, "index.ts"@),
        pv_child(base, "index.tsx"@),
        pv_child(base, "index.js"@),
    ]);
    assert(f =~= seq![pv_with_ext(base, "ts"@), pv_with_ext(base, "tsx"@), pv_with_ext(base, "js"@), pv_with_ext(base, "jsx"@)]);
    assert(x =~= seq![
        pv_child(base, "index.ts"@),
        pv_child(base, "index.tsx"@),
        pv_child(base, "index.js"@),
        pv_child(base, "index.jsx"@),
    ]);
    if pv_extension(base) is None {
        assert(probe_ts(base) =~= f + x);
    } else {
        assert(probe_ts(base) =~= seq![base] + f + x);
    }
}

/// Walking up from a directory: the walk starts at that directory, each
/// step goes to the parent of the one before, and it stops at the first of
/// the project root or the top, never passing the root. So the directories
/// searched for `tsconfig.json` and for Python modules come nearest first.
pub proof fn lemma_climb_nearest_first(cur: PathV, root: PathV)
    ensures
        climb(cur, root).len() >= 1,
        climb(cur, root)[0] == cur,
        forall|i: int| 0 <= i < climb(cur, root).len() - 1 ==> pv_parent(#[trigger] climb(cur, root)[i]) == Some(
            climb(cur, root)[i + 1],
        ) && climb(cur, root)[i] != root,
        climb(cur, root).last() == root || climb(cur, root).last().1.len() == 0,
    decreases cur.1.len(),
{
    let c = climb(cur, root);
    if cur == root || cur.1.len() == 0 {
    } else {
        let up = (cur.0, cur.1.drop_last());
        lemma_climb_nearest_first(up, root);
        let t = climb(up, root);
        assert(c == seq![cur] + t);
        assert forall|i: int| 0 <= i < c.len() - 1 implies pv_parent(#[trigger] c[i]) == Some(c[i + 1]) && c[i] != root by {
            if i > 0 {
                assert(c[i] == t[i - 1]);
                assert(c[i + 1] == t[i]);
            } else {
                assert(c[1] == t[0]);
            }
        }
        assert(c.last() == t.last());
    }
}

/// For a Python import of `name` from a module path under one search root,
/// the imported name is tried as a submodule before the module itself, and
/// each as `<path>.py` before `<path>/__init__.py`.
pub proof fn lemma_py_submodule_first(root: PathV, pieces: Seq<Seq<char>>, name: Seq<char>)
    ensures
        ({
            let base = join_all(root, pieces);
            let sub = pv_join(base, pv_of(name));
            probe_roots(seq![root], pieces, seq![name]) == seq![
                pv_with_ext(sub, "py"@),
                pv_child(sub, "__init__.py"@),
                pv_with_ext(base, "py"@),
                pv_child(base, "__init__.py"@),
            ]
        }),
{
    let base = join_all(root, pieces);
    let sub = pv_join(base, pv_of(name));
    let r = seq![root];
    assert(r.drop_last() =~= Seq::<PathV>::empty());
    assert(seq![name].drop_last() =~= Seq::<Seq<char>>::empty());
    assert(seq![name].last() == name);
    assert(probe_names(base, Seq::<Seq<char>>::empty()) =~= Seq::<PathV>::empty());
    assert(probe_names(base, seq![name]) =~= probe_py(sub));
    assert(r.last() == root);
    assert(probe_roots(Seq::<PathV>::empty(), pieces, seq![name]) =~= Seq::<PathV>::empty());
    assert(probe_roots(r, pieces, seq![name]) =~= probe_py(sub) + probe_py(base));
}

} // verus!
