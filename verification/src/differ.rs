//! Symbol-level diff of two versions of a file.

use vstd::prelude::*;
use crate::text::push_str;
use crate::trails::{arch_path_of, arch_path_of_spec};
use crate::parser::{ParsedSymbol, extract_symbols, symbols_for, syms_view};

verus! {

/// How a symbol changed between two versions of its file.
#[derive(Debug, Clone, Copy, PartialEq, Eq, Structural)]
pub enum DiffKind {
    Added,
    Removed,
    Modified,
}

impl DiffKind {
    /// The log code for the change: `W` for a write, `D` for a deletion.
    pub fn op_code(&self) -> (r: &'static str)
        ensures
            r@ == (match *self {
                DiffKind::Removed => "D"@,
                _ => "W"@,
            }),
    {
        match self {
            DiffKind::Added => "W",
            DiffKind::Removed => "D",
            DiffKind::Modified => "W",
        }
    }
}

/// One changed symbol.
#[derive(Clone, Debug)]
pub struct SymbolChange {
    pub name: String,
    pub kind: String,
    pub fqn: String,
    pub line: usize,
    pub diff_kind: DiffKind,
    pub detail: String,
}

pub type ChangeView = (Seq<char>, Seq<char>, Seq<char>, nat, DiffKind, Seq<char>);

pub type SymView = (Seq<char>, Seq<char>, nat, u64);

pub open spec fn change_view(c: SymbolChange) -> ChangeView {
    (c.fqn@, c.name@, c.kind@, c.line as nat, c.diff_kind, c.detail@)
}

pub open spec fn changes_view(v: Seq<SymbolChange>) -> Seq<ChangeView> {
    v.map_values(|c: SymbolChange| change_view(c))
}

/// The fully qualified name of a symbol: its file's architectural path, `/`,
/// its name.
pub open spec fn fqn_of(arch: Seq<char>, name: Seq<char>) -> Seq<char> {
    arch + seq!['/'] + name
}

pub open spec fn change_of(arch: Seq<char>, s: SymView, kind: DiffKind, detail: Seq<char>) -> ChangeView {
    (fqn_of(arch, s.0), s.0, s.1, s.2, kind, detail)
}

/// Every symbol, reported with the same kind of change and detail.
pub open spec fn all_changed(arch: Seq<char>, syms: Seq<SymView>, kind: DiffKind, detail: Seq<char>) -> Seq<ChangeView> {
    syms.map_values(|s: SymView| change_of(arch, s, kind, detail))
}

/// Position of the last symbol named `n`, or -1.
pub open spec fn last_named(syms: Seq<SymView>, n: Seq<char>) -> int
    decreases syms.len(),
{
    if syms.len() == 0 {
        -1
    } else if syms.last().0 == n {
        syms.len() - 1
    } else {
        last_named(syms.drop_last(), n)
    }
}

/// Symbol `i` is the last one with its name (later ones win, as when
/// symbols are collected into a map by name).
pub open spec fn is_last_named(syms: Seq<SymView>, i: int) -> bool {
    forall|j: int| i < j < syms.len() ==> syms[j].0 != syms[i].0
}

/// Changes for the first `k` new symbols: a name the old version lacks is
/// added; a name whose body hash differs is modified.
pub open spec fn new_side(arch: Seq<char>, old: Seq<SymView>, new: Seq<SymView>, k: nat) -> Seq<ChangeView>
    decreases k,
{
    if k == 0 || k > new.len() {
        Seq::empty()
    } else {
        let prev = new_side(arch, old, new, (k - 1) as nat);
        let i = k - 1;
        let s = new[i];
        if !is_last_named(new, i) {
            prev
        } else {
            let j = last_named(old, s.0);
            if j < 0 {
                prev.push(change_of(arch, s, DiffKind::Added, "added "@ + s.1))
            } else if old[j].3 != s.3 {
                prev.push(change_of(arch, s, DiffKind::Modified, "modified"@))
            } else {
                prev
            }
        }
    }
}

/// Changes for the first `k` old symbols: a name the new version lacks is
/// removed.
pub open spec fn old_side(arch: Seq<char>, old: Seq<SymView>, new: Seq<SymView>, k: nat) -> Seq<ChangeView>
    decreases k,
{
    if k == 0 || k > old.len() {
        Seq::empty()
    } else {
        let prev = old_side(arch, old, new, (k - 1) as nat);
        let i = k - 1;
        let s = old[i];
        if is_last_named(old, i) && last_named(new, s.0) < 0 {
            prev.push(change_of(arch, s, DiffKind::Removed, "removed"@))
        } else {
            prev
        }
    }
}

/// What `diff_file` reports.
pub open spec fn diff_spec(old: Option<Seq<char>>, new: Option<Seq<char>>, path: Seq<char>, root: Seq<char>) -> Seq<ChangeView> {
    let arch = arch_path_of_spec(path, root);
    match (old, new) {
        (None, Some(n)) => all_changed(arch, symbols_for(n, path), DiffKind::Added, "created"@),
        (Some(o), None) => all_changed(arch, symbols_for(o, path), DiffKind::Removed, "removed"@),
        (Some(o), Some(n)) => {
            let os = symbols_for(o, path);
            let ns = symbols_for(n, path);
            new_side(arch, os, ns, ns.len()) + old_side(arch, os, ns, os.len())
        },
        (None, None) => Seq::empty(),
    }
}

fn make_change(arch: &String, s: &ParsedSymbol, kind: DiffKind, detail: String) -> (r: SymbolChange)
    ensures
        change_view(r) == change_of(arch@, crate::parser::sym_view(*s), kind, detail@),
{
    let mut fqn = arch.clone();
    fqn.push('/');
    push_str(&mut fqn, s.name.as_str());
    assert(fqn@ =~= fqn_of(arch@, s.name@));
    SymbolChange { name: s.name.clone(), kind: s.kind.clone(), fqn, line: s.line, diff_kind: kind, detail }
}

fn all_changed_exec(arch: &String, syms: &Vec<ParsedSymbol>, kind: DiffKind, detail: &str) -> (r: Vec<SymbolChange>)
    ensures
        changes_view(r@) == all_changed(arch@, syms_view(syms@), kind, detail@),
{
    let mut out: Vec<SymbolChange> = Vec::new();
    let mut i: usize = 0;
    while i < syms.len()
        invariant
            i <= syms.len(),
            changes_view(out@) == all_changed(arch@, syms_view(syms@), kind, detail@).take(i as int),
        decreases syms.len() - i,
    {
        let ghost before = changes_view(out@);
        let c = make_change(arch, &syms[i], kind, detail.to_owned());
        assert(syms_view(syms@)[i as int] == crate::parser::sym_view(syms@[i as int]));
        assert(all_changed(arch@, syms_view(syms@), kind, detail@)[i as int] == change_view(c));
        let ghost cv = change_view(c);
        out.push(c);
        assert(changes_view(out@) =~= before.push(cv));
        assert(changes_view(out@) =~= all_changed(arch@, syms_view(syms@), kind, detail@).take(i + 1));
        i = i + 1;
    }
    assert(all_changed(arch@, syms_view(syms@), kind, detail@).take(syms.len() as int) =~= all_changed(
        arch@,
        syms_view(syms@),
        kind,
        detail@,
    ));
    out
}

fn is_last_named_exec(syms: &Vec<ParsedSymbol>, i: usize) -> (r: bool)
    requires
        i < syms.len(),
    ensures
        r == is_last_named(syms_view(syms@), i as int),
{
    let ghost sv = syms_view(syms@);
    let mut j = i + 1;
    while j < syms.len()
        invariant
            i < j <= syms.len(),
            sv == syms_view(syms@),
            forall|q: int| i < q < j ==> sv[q].0 != sv[i as int].0,
        decreases syms.len() - j,
    {
        if syms[j].name == syms[i].name {
            assert(sv[j as int].0 == sv[i as int].0);
            return false;
        }
        j = j + 1;
    }
    true
}

fn last_named_exec(syms: &Vec<ParsedSymbol>, n: &String) -> (r: Option<usize>)
    ensures
        match r {
            None => last_named(syms_view(syms@), n@) == -1,
            Some(j) => j < syms.len() && last_named(syms_view(syms@), n@) == j,
        },
{
    let ghost sv = syms_view(syms@);
    let mut j = syms.len();
    assert(sv.take(sv.len() as int) =~= sv);
    while j > 0
        invariant
            j <= syms.len(),
            sv == syms_view(syms@),
            last_named(sv.take(j as int), n@) == last_named(sv, n@),
        decreases j,
    {
        assert(sv.take(j as int).drop_last() =~= sv.take(j - 1));
        assert(sv.take(j as int).last() == sv[j - 1]);
        if syms[j - 1].name == *n {
            return Some(j - 1);
        }
        j = j - 1;
    }
    assert(sv.take(sv.len() as int) =~= sv);
    None
}

/// The symbols that changed between `old` and `new` versions of the file at
/// `file_path`, each named `<architectural path>/<symbol>`. A created file
/// reports all of its symbols as added, a deleted file all of its symbols
/// as removed; otherwise symbols are matched by name (the last of several
/// with one name counts) and reported as added, modified (the body hash
/// differs) or removed: first the new file's, in its order, then the
/// removed ones in the old file's order.
pub fn diff_file(old: Option<&str>, new: Option<&str>, file_path: &str, project_root: &str) -> (r: Vec<SymbolChange>)
    ensures
        changes_view(r@) == diff_spec(
            match old { Some(o) => Some(o@), None => None },
            match new { Some(n) => Some(n@), None => None },
            file_path@,
            project_root@,
        ),
{
    let arch = arch_path_of(file_path, project_root);
    match (old, new) {
        (None, Some(n)) => {
            let syms = extract_symbols(n, file_path);
            all_changed_exec(&arch, &syms, DiffKind::Added, "created")
        },
        (Some(o), None) => {
            let syms = extract_symbols(o, file_path);
            all_changed_exec(&arch, &syms, DiffKind::Removed, "removed")
        },
        (Some(o), Some(n)) => {
            let os = extract_symbols(o, file_path);
            let ns = extract_symbols(n, file_path);
            let ghost ov = syms_view(os@);
            let ghost nv = syms_view(ns@);
            let ghost a = arch@;
            let mut out: Vec<SymbolChange> = Vec::new();
            let mut i: usize = 0;
            while i < ns.len()
                invariant
                    i <= ns.len(),
                    ov == syms_view(os@),
                    nv == syms_view(ns@),
                    a == arch@,
                    changes_view(out@) == new_side(a, ov, nv, i as nat),
                decreases ns.len() - i,
            {
                let ghost before = changes_view(out@);
                if is_last_named_exec(&ns, i) {
                    match last_named_exec(&os, &ns[i].name) {
                        None => {
                            let mut detail = "added ".to_owned();
                            push_str(&mut detail, ns[i].kind.as_str());
                            let c = make_change(&arch, &ns[i], DiffKind::Added, detail);
                            out.push(c);
                            assert(changes_view(out@) =~= before.push(change_of(a, nv[i as int], DiffKind::Added, "added "@ + nv[i as int].1)));
                        },
                        Some(j) => {
                            if os[j].body_hash != ns[i].body_hash {
                                let c = make_change(&arch, &ns[i], DiffKind::Modified, "modified".to_owned());
                                out.push(c);
                                assert(changes_view(out@) =~= before.push(change_of(a, nv[i as int], DiffKind::Modified, "modified"@)));
                            }
                        },
                    }
                }
                i = i + 1;
            }
            let mut k: usize = 0;
            let ghost mid = changes_view(out@);
            while k < os.len()
                invariant
                    k <= os.len(),
                    ov == syms_view(os@),
                    nv == syms_view(ns@),
                    a == arch@,
                    mid == new_side(a, ov, nv, nv.len()),
                    changes_view(out@) == mid + old_side(a, ov, nv, k as nat),
                decreases os.len() - k,
            {
                let ghost before = changes_view(out@);
                if is_last_named_exec(&os, k) {
                    if last_named_exec(&ns, &os[k].name).is_none() {
                        let c = make_change(&arch, &os[k], DiffKind::Removed, "removed".to_owned());
                        out.push(c);
                        assert(changes_view(out@) =~= before.push(change_of(a, ov[k as int], DiffKind::Removed, "removed"@)));
                        assert(mid + old_side(a, ov, nv, (k + 1) as nat) =~= (mid + old_side(a, ov, nv, k as nat)).push(change_of(a, ov[k as int], DiffKind::Removed, "removed"@)));
                    }
                }
                k = k + 1;
            }
            out
        },
        (None, None) => {
            let r: Vec<SymbolChange> = Vec::new();
            assert(changes_view(r@) =~= Seq::empty());
            r
        },
    }
}

proof fn lemma_last_named_self(syms: Seq<SymView>, i: int)
    requires
        0 <= i < syms.len(),
        is_last_named(syms, i),
    ensures
        last_named(syms, syms[i].0) == i,
    decreases syms.len(),
{
    if i < syms.len() - 1 {
        let init = syms.drop_last();
        assert(syms.last() == syms[syms.len() - 1]);
        assert(syms[syms.len() - 1].0 != syms[i].0);
        assert forall|j: int| i < j < init.len() implies init[j].0 != init[i].0 by {
            assert(init[j] == syms[j] && init[i] == syms[i]);
        }
        lemma_last_named_self(init, i);
        assert(init[i] == syms[i]);
    }
}

proof fn lemma_no_change_against_itself(arch: Seq<char>, syms: Seq<SymView>, k: nat)
    requires
        k <= syms.len(),
    ensures
        new_side(arch, syms, syms, k) == Seq::<ChangeView>::empty(),
        old_side(arch, syms, syms, k) == Seq::<ChangeView>::empty(),
    decreases k,
{
    if k > 0 {
        lemma_no_change_against_itself(arch, syms, (k - 1) as nat);
        let i = k - 1;
        if is_last_named(syms, i) {
            lemma_last_named_self(syms, i);
        }
    }
}

/// A file compared with an unchanged copy of itself has no changes.
pub proof fn lemma_diff_unchanged(text: Seq<char>, path: Seq<char>, root: Seq<char>)
    ensures
        diff_spec(Some(text), Some(text), path, root) == Seq::<ChangeView>::empty(),
{
    let arch = arch_path_of_spec(path, root);
    let syms = symbols_for(text, path);
    lemma_no_change_against_itself(arch, syms, syms.len());
    assert(Seq::<ChangeView>::empty() + Seq::<ChangeView>::empty() =~= Seq::<ChangeView>::empty());
}

pub open spec fn change_names(cs: Seq<ChangeView>) -> Seq<Seq<char>> {
    cs.map_values(|c: ChangeView| c.1)
}

proof fn lemma_last_named(syms: Seq<SymView>, n: Seq<char>)
    ensures
        last_named(syms, n) >= 0 ==> last_named(syms, n) < syms.len() && syms[last_named(syms, n)].0 == n
            && is_last_named(syms, last_named(syms, n)),
        last_named(syms, n) < 0 ==> forall|i: int| 0 <= i < syms.len() ==> (#[trigger] syms[i]).0 != n,
    decreases syms.len(),
{
    if syms.len() > 0 {
        let init = syms.drop_last();
        lemma_last_named(init, n);
        assert(syms.last() == syms[syms.len() - 1]);
        if syms.last().0 != n {
            if last_named(init, n) >= 0 {
                let j = last_named(init, n);
                assert(syms[j] == init[j]);
                assert forall|q: int| j < q < syms.len() implies syms[q].0 != syms[j].0 by {
                    if q < init.len() {
                        assert(init[q] == syms[q]);
                    }
                }
            } else {
                assert forall|q: int| 0 <= q < syms.len() implies (#[trigger] syms[q]).0 != n by {
                    if q < init.len() {
                        assert(init[q] == syms[q]);
                    }
                }
            }
        }
    }
}

/// What the changes for the new file's symbols are, name by name.
proof fn lemma_new_side(arch: Seq<char>, old: Seq<SymView>, new: Seq<SymView>, k: nat)
    requires
        k <= new.len(),
    ensures
        forall|a: int| 0 <= a < new_side(arch, old, new, k).len() ==> {
            let c = #[trigger] new_side(arch, old, new, k)[a];
            &&& 0 <= last_named(new, c.1) < k
            &&& c.0 == fqn_of(arch, c.1)
            &&& c.4 != DiffKind::Removed
            &&& (c.4 == DiffKind::Added <==> last_named(old, c.1) < 0)
            &&& last_named(old, c.1) >= 0 ==> old[last_named(old, c.1)].3 != new[last_named(new, c.1)].3
        },
        change_names(new_side(arch, old, new, k)).no_duplicates(),
        forall|i: int| 0 <= i < k && is_last_named(new, i) && (last_named(old, new[i].0) < 0
            || old[last_named(old, new[i].0)].3 != new[i].3) ==> change_names(new_side(arch, old, new, k)).contains(
            #[trigger] new[i].0,
        ),
    decreases k,
{
    if k > 0 {
        lemma_new_side(arch, old, new, (k - 1) as nat);
        let prev = new_side(arch, old, new, (k - 1) as nat);
        let cur = new_side(arch, old, new, k);
        let i = k - 1;
        let sym = new[i];
        if is_last_named(new, i) {
            lemma_last_named_self(new, i);
        }
        assert forall|q: int| 0 <= q < i && is_last_named(new, q) && (last_named(old, new[q].0) < 0
            || old[last_named(old, new[q].0)].3 != new[q].3) implies change_names(cur).contains(#[trigger] new[q].0) by {
            let w = choose|w: int| 0 <= w < change_names(prev).len() && change_names(prev)[w] == new[q].0;
            if cur != prev {
                assert(cur[w] == prev[w]);
                assert(change_names(cur)[w] == new[q].0);
            }
        }
        if cur != prev {
            let c = cur[cur.len() - 1];
            assert(cur == prev.push(c));
            assert(c.1 == sym.0);
            lemma_last_named(old, sym.0);
            assert forall|a: int| 0 <= a < cur.len() implies {
                let e = #[trigger] cur[a];
                &&& 0 <= last_named(new, e.1) < k
                &&& e.0 == fqn_of(arch, e.1)
                &&& e.4 != DiffKind::Removed
                &&& (e.4 == DiffKind::Added <==> last_named(old, e.1) < 0)
                &&& last_named(old, e.1) >= 0 ==> old[last_named(old, e.1)].3 != new[last_named(new, e.1)].3
            } by {
                if a < prev.len() {
                    assert(cur[a] == prev[a]);
                }
            }
            assert(change_names(cur) =~= change_names(prev).push(sym.0));
            assert forall|a: int, b: int| 0 <= a < change_names(cur).len() && 0 <= b < change_names(cur).len() && a != b
                implies change_names(cur)[a] != change_names(cur)[b] by {
                if a < prev.len() && b < prev.len() {
                    assert(change_names(cur)[a] == change_names(prev)[a]);
                    assert(change_names(cur)[b] == change_names(prev)[b]);
                } else if a < prev.len() {
                    assert(change_names(cur)[a] == prev[a].1);
                    assert(last_named(new, prev[a].1) < i);
                } else {
                    assert(change_names(cur)[b] == prev[b].1);
                    assert(last_named(new, prev[b].1) < i);
                }
            }
            assert(change_names(cur)[prev.len() as int] == sym.0);
        } else {
            assert forall|a: int| 0 <= a < cur.len() implies {
                let e = #[trigger] cur[a];
                &&& 0 <= last_named(new, e.1) < k
                &&& e.0 == fqn_of(arch, e.1)
                &&& e.4 != DiffKind::Removed
                &&& (e.4 == DiffKind::Added <==> last_named(old, e.1) < 0)
                &&& last_named(old, e.1) >= 0 ==> old[last_named(old, e.1)].3 != new[last_named(new, e.1)].3
            } by {
                assert(cur[a] == prev[a]);
            }
            if is_last_named(new, i) {
                lemma_last_named(old, sym.0);
            }
        }
    }
}

/// What the changes for the old file's symbols are, name by name.
proof fn lemma_old_side(arch: Seq<char>, old: Seq<SymView>, new: Seq<SymView>, k: nat)
    requires
        k <= old.len(),
    ensures
        forall|a: int| 0 <= a < old_side(arch, old, new, k).len() ==> {
            let c = #[trigger] old_side(arch, old, new, k)[a];
            &&& 0 <= last_named(old, c.1) < k
            &&& last_named(new, c.1) < 0
            &&& c.0 == fqn_of(arch, c.1)
            &&& c.4 == DiffKind::Removed
        },
        change_names(old_side(arch, old, new, k)).no_duplicates(),
        forall|i: int| 0 <= i < k && is_last_named(old, i) && last_named(new, old[i].0) < 0
            ==> change_names(old_side(arch, old, new, k)).contains(#[trigger] old[i].0),
    decreases k,
{
    if k > 0 {
        lemma_old_side(arch, old, new, (k - 1) as nat);
        let prev = old_side(arch, old, new, (k - 1) as nat);
        let cur = old_side(arch, old, new, k);
        let i = k - 1;
        let sym = old[i];
        if is_last_named(old, i) {
            lemma_last_named_self(old, i);
        }
        assert forall|q: int| 0 <= q < i && is_last_named(old, q) && last_named(new, old[q].0) < 0
            implies change_names(cur).contains(#[trigger] old[q].0) by {
            let w = choose|w: int| 0 <= w < change_names(prev).len() && change_names(prev)[w] == old[q].0;
            if cur != prev {
                assert(cur[w] == prev[w]);
                assert(change_names(cur)[w] == old[q].0);
            }
        }
        if cur != prev {
            let c = cur[cur.len() - 1];
            assert(cur == prev.push(c));
            assert forall|a: int| 0 <= a < cur.len() implies {
                let e = #[trigger] cur[a];
                &&& 0 <= last_named(old, e.1) < k
                &&& last_named(new, e.1) < 0
                &&& e.0 == fqn_of(arch, e.1)
                &&& e.4 == DiffKind::Removed
            } by {
                if a < prev.len() {
                    assert(cur[a] == prev[a]);
                }
            }
            assert(change_names(cur) =~= change_names(prev).push(sym.0));
            assert forall|a: int, b: int| 0 <= a < change_names(cur).len() && 0 <= b < change_names(cur).len() && a != b
                implies change_names(cur)[a] != change_names(cur)[b] by {
                if a < prev.len() && b < prev.len() {
                    assert(change_names(cur)[a] == change_names(prev)[a]);
                    assert(change_names(cur)[b] == change_names(prev)[b]);
                } else if a < prev.len() {
                    assert(change_names(cur)[a] == prev[a].1);
                } else {
                    assert(change_names(cur)[b] == prev[b].1);
                }
            }
            assert(change_names(cur)[prev.len() as int] == sym.0);
        } else {
            assert forall|a: int| 0 <= a < cur.len() implies {
                let e = #[trigger] cur[a];
                &&& 0 <= last_named(old, e.1) < k
                &&& last_named(new, e.1) < 0
                &&& e.0 == fqn_of(arch, e.1)
                &&& e.4 == DiffKind::Removed
            } by {
                assert(cur[a] == prev[a]);
            }
        }
    }
}

/// Comparing two versions of a file gives one change per name and no
/// others: a name only the new version has is added, a name only the old
/// version has is removed, and a name both have (each taken at its last
/// symbol) is modified exactly when the body hashes differ. Every change's
/// qualified name is the file's architectural path, `/`, and its name.
pub proof fn lemma_diff_per_name(o: Seq<char>, n: Seq<char>, path: Seq<char>, root: Seq<char>)
    ensures
        ({
            let os = symbols_for(o, path);
            let ns = symbols_for(n, path);
            let cs = diff_spec(Some(o), Some(n), path, root);
            &&& change_names(cs).no_duplicates()
            &&& forall|x: Seq<char>| #[trigger] change_names(cs).contains(x) <==> (last_named(ns, x) >= 0 && (
                last_named(os, x) < 0 || os[last_named(os, x)].3 != ns[last_named(ns, x)].3)) || (last_named(
                os,
                x,
            ) >= 0 && last_named(ns, x) < 0)
            &&& forall|a: int| 0 <= a < cs.len() ==> {
                let c = #[trigger] cs[a];
                &&& c.0 == fqn_of(arch_path_of_spec(path, root), c.1)
                &&& (c.4 == DiffKind::Added <==> last_named(ns, c.1) >= 0 && last_named(os, c.1) < 0)
                &&& (c.4 == DiffKind::Removed <==> last_named(ns, c.1) < 0)
                &&& (c.4 == DiffKind::Modified <==> last_named(ns, c.1) >= 0 && last_named(os, c.1) >= 0)
            }
        }),
{
    let os = symbols_for(o, path);
    let ns = symbols_for(n, path);
    let arch = arch_path_of_spec(path, root);
    let a_side = new_side(arch, os, ns, ns.len());
    let b_side = old_side(arch, os, ns, os.len());
    let cs = diff_spec(Some(o), Some(n), path, root);
    assert(cs == a_side + b_side);
    lemma_new_side(arch, os, ns, ns.len());
    lemma_old_side(arch, os, ns, os.len());
    assert(change_names(cs) =~= change_names(a_side) + change_names(b_side));
    assert forall|a: int| 0 <= a < cs.len() implies {
        let c = #[trigger] cs[a];
        &&& c.0 == fqn_of(arch, c.1)
        &&& (c.4 == DiffKind::Added <==> last_named(ns, c.1) >= 0 && last_named(os, c.1) < 0)
        &&& (c.4 == DiffKind::Removed <==> last_named(ns, c.1) < 0)
        &&& (c.4 == DiffKind::Modified <==> last_named(ns, c.1) >= 0 && last_named(os, c.1) >= 0)
    } by {
        if a < a_side.len() {
            assert(cs[a] == a_side[a]);
        } else {
            assert(cs[a] == b_side[a - a_side.len()]);
        }
    }
    let names = change_names(cs);
    assert forall|p: int, q: int| 0 <= p < names.len() && 0 <= q < names.len() && p != q implies names[p] != names[q] by {
        let la = a_side.len() as int;
        if p < la && q < la {
            assert(names[p] == change_names(a_side)[p] && names[q] == change_names(a_side)[q]);
        } else if p >= la && q >= la {
            assert(names[p] == change_names(b_side)[p - la] && names[q] == change_names(b_side)[q - la]);
        } else if p < la {
            assert(names[p] == a_side[p].1 && names[q] == b_side[q - la].1);
        } else {
            assert(names[q] == a_side[q].1 && names[p] == b_side[p - la].1);
        }
    }
    assert forall|x: Seq<char>| #[trigger] change_names(cs).contains(x) <==> (last_named(ns, x) >= 0 && (last_named(
        os,
        x,
    ) < 0 || os[last_named(os, x)].3 != ns[last_named(ns, x)].3)) || (last_named(os, x) >= 0 && last_named(ns, x)
        < 0) by {
        lemma_last_named(ns, x);
        lemma_last_named(os, x);
        let la = a_side.len() as int;
        if change_names(cs).contains(x) {
            let w = choose|w: int| 0 <= w < names.len() && names[w] == x;
            if w < la {
                assert(names[w] == a_side[w].1);
            } else {
                assert(names[w] == b_side[w - la].1);
            }
        }
        if last_named(ns, x) >= 0 && (last_named(os, x) < 0 || os[last_named(os, x)].3 != ns[last_named(ns, x)].3) {
            let i = last_named(ns, x);
            assert(change_names(a_side).contains(ns[i].0));
            let w = choose|w: int| 0 <= w < change_names(a_side).len() && change_names(a_side)[w] == x;
            assert(names[w] == x);
        }
        if last_named(os, x) >= 0 && last_named(ns, x) < 0 {
            let i = last_named(os, x);
            assert(change_names(b_side).contains(os[i].0));
            let w = choose|w: int| 0 <= w < change_names(b_side).len() && change_names(b_side)[w] == x;
            assert(names[la + w] == x);
        }
    }
}

} // verus!
