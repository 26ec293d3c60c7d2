//! The import graph: which file imports which, and the reverse direction
//! that heat ripples along.

use vstd::prelude::*;
use crate::seqs::{lemma_no_duplicates_count, contains_str, count, remove_all, repeat, lemma_count_push, lemma_count_concat, lemma_count_repeat, lemma_count_remove_all, lemma_count_contains, lemma_remove_all_idem};
use crate::table::{tbl_map, ptab, strs, lookup, table_get, table_set, table_remove_value, table_push_value};

verus! {

/// Forward edges (`file -> files it imports`) and their transpose
/// (`file -> files that import it`).
#[derive(Clone, Debug)]
pub struct ImportGraph {
    pub edges: Vec<(String, Vec<String>)>,
    pub reverse: Vec<(String, Vec<String>)>,
}

impl ImportGraph {
    pub open spec fn edge_map(&self) -> Map<Seq<char>, Seq<Seq<char>>> {
        tbl_map(ptab(self.edges@))
    }

    pub open spec fn rev_map(&self) -> Map<Seq<char>, Seq<Seq<char>>> {
        tbl_map(ptab(self.reverse@))
    }

    /// What `f` imports (empty when `f` is unknown).
    pub open spec fn imports(&self, f: Seq<char>) -> Seq<Seq<char>> {
        lookup(self.edge_map(), f)
    }

    /// What imports `f` (empty when nothing does).
    pub open spec fn dependents(&self, f: Seq<char>) -> Seq<Seq<char>> {
        lookup(self.rev_map(), f)
    }

    /// The reverse lists are exactly the transpose of the forward lists:
    /// `g` appears among the dependents of `i` as often as `i` appears among
    /// the imports of `g`.
    pub open spec fn transposed(&self) -> bool {
        forall|g: Seq<char>, i: Seq<char>|
            #[trigger] count(self.dependents(i), g) == #[trigger] count(self.imports(g), i)
    }

    pub fn new() -> (r: Self)
        ensures
            r.edge_map() == Map::<Seq<char>, Seq<Seq<char>>>::empty(),
            r.rev_map() == Map::<Seq<char>, Seq<Seq<char>>>::empty(),
    {
        ImportGraph { edges: Vec::new(), reverse: Vec::new() }
    }

    /// Replaces the imports of `file`, keeping the reverse lists in step:
    /// `file` leaves the dependents of everything it used to import and
    /// joins, once per occurrence, the dependents of everything it imports now.
    pub fn set_imports(&mut self, file: String, imports: Vec<String>)
        ensures
            final(self).edge_map() == old(self).edge_map().insert(file@, strs(imports@)),
            final(self).rev_map().dom() == old(self).rev_map().dom().union(strs(imports@).to_set()),
            forall|k: Seq<char>|
                #[trigger] final(self).dependents(k) == (if old(self).imports(file@).contains(k) {
                    remove_all(old(self).dependents(k), file@)
                } else {
                    old(self).dependents(k)
                }) + repeat(file@, count(strs(imports@), k)),
    {
        let ghost rev0 = self.rev_map();
        let old_imports = table_get(&self.edges, &file);
        let ghost olds = strs(old_imports@);
        let mut j: usize = 0;
        while j < old_imports.len()
            invariant
                j <= old_imports.len(),
                olds == strs(old_imports@),
                self.edges@ == old(self).edges@,
                rev0 == old(self).rev_map(),
                tbl_map(ptab(self.reverse@)).dom() == rev0.dom(),
                forall|k: Seq<char>|
                    #[trigger] lookup(tbl_map(ptab(self.reverse@)), k) == if olds.take(j as int).contains(k) {
                        remove_all(lookup(rev0, k), file@)
                    } else {
                        lookup(rev0, k)
                    },
            decreases old_imports.len() - j,
        {
            let ghost cur = tbl_map(ptab(self.reverse@));
            table_remove_value(&mut self.reverse, &old_imports[j], &file);
            assert(olds.take(j + 1) =~= olds.take(j as int).push(olds[j as int]));
            assert forall|k: Seq<char>|
                #[trigger] lookup(tbl_map(ptab(self.reverse@)), k) == if olds.take(j + 1).contains(k) {
                    remove_all(lookup(rev0, k), file@)
                } else {
                    lookup(rev0, k)
                } by {
                lemma_remove_all_idem(lookup(rev0, k), file@);
                if olds.take(j as int).contains(k) {
                    let w = choose|w: int| 0 <= w < j && olds.take(j as int)[w] == k;
                    assert(olds.take(j + 1)[w] == k);
                }
                let t1 = olds.take(j + 1);
                if t1.contains(k) && k != olds[j as int] {
                    let w = choose|w: int| 0 <= w < t1.len() && t1[w] == k;
                    assert(olds.take(j as int)[w] == k);
                }
                if k == olds[j as int] {
                    assert(olds.take(j + 1)[j as int] == k);
                }
            }
            j = j + 1;
        }
        assert(olds.take(olds.len() as int) =~= olds);
        let ghost rev1 = tbl_map(ptab(self.reverse@));
        let ghost news = strs(imports@);
        let mut j: usize = 0;
        while j < imports.len()
            invariant
                j <= imports.len(),
                news == strs(imports@),
                self.edges@ == old(self).edges@,
                tbl_map(ptab(self.reverse@)).dom() == rev1.dom().union(news.take(j as int).to_set()),
                forall|k: Seq<char>|
                    #[trigger] lookup(tbl_map(ptab(self.reverse@)), k) == lookup(rev1, k) + repeat(
                        file@,
                        count(news.take(j as int), k),
                    ),
            decreases imports.len() - j,
        {
            let ghost cur = tbl_map(ptab(self.reverse@));
            table_push_value(&mut self.reverse, &imports[j], file.clone());
            assert(news[j as int] == imports@[j as int]@);
            assert(news.take(j + 1) =~= news.take(j as int).push(news[j as int]));
            proof {
                news.take(j as int).lemma_push_to_set_commute(news[j as int]);
                assert(news.take(j + 1).to_set() == news.take(j as int).to_set().insert(news[j as int]));
            }
            assert forall|k: Seq<char>|
                #[trigger] lookup(tbl_map(ptab(self.reverse@)), k) == lookup(rev1, k) + repeat(
                    file@,
                    count(news.take(j + 1), k),
                ) by {
                lemma_count_push(news.take(j as int), news[j as int], k);
                let c = count(news.take(j as int), k);
                assert(lookup(cur, k) == lookup(rev1, k) + repeat(file@, c));
                if k == news[j as int] {
                    assert(lookup(tbl_map(ptab(self.reverse@)), k) == lookup(cur, k).push(file@));
                } else {
                    assert(lookup(tbl_map(ptab(self.reverse@)), k) == lookup(cur, k));
                }
                assert(repeat(file@, c + 1) =~= repeat(file@, c).push(file@));
                assert((lookup(rev1, k) + repeat(file@, c)).push(file@) =~= lookup(rev1, k) + repeat(
                    file@,
                    c + 1,
                ));
            }
            assert(tbl_map(ptab(self.reverse@)).dom() =~= rev1.dom().union(news.take(j + 1).to_set()));
            j = j + 1;
        }
        assert(news.take(news.len() as int) =~= news);
        table_set(&mut self.edges, file, imports);
        assert(self.rev_map().dom() =~= old(self).rev_map().dom().union(strs(imports@).to_set()));
    }

    /// The files that import `file`.
    pub fn dependents_of(&self, file: &String) -> (r: Vec<String>)
        ensures
            strs(r@) == self.dependents(file@),
    {
        table_get(&self.reverse, file)
    }

    /// The files that `file` imports.
    pub fn imports_of(&self, file: &String) -> (r: Vec<String>)
        ensures
            strs(r@) == self.imports(file@),
    {
        table_get(&self.edges, file)
    }
}

/// The dependents of `deps` not yet in `visited`, each tagged with `depth`,
/// in the order they are pushed on the work stack.
pub open spec fn fresh_deps(deps: Seq<Seq<char>>, visited: Seq<Seq<char>>, depth: nat) -> Seq<(Seq<char>, nat)>
    decreases deps.len(),
{
    if deps.len() == 0 {
        Seq::empty()
    } else if visited.contains(deps.last()) {
        fresh_deps(deps.drop_last(), visited, depth)
    } else {
        fresh_deps(deps.drop_last(), visited, depth).push((deps.last(), depth))
    }
}

/// The depth-first walk along reverse edges behind `transitive_dependents`.
/// The top of `stack` is its last element. An entry deeper than `max`, or
/// already visited, is dropped; otherwise its file is marked visited, reported
/// with its depth unless it is the start (depth 0), and its unvisited
/// dependents are pushed one level deeper. `budget` bounds the number of
/// files that can still be marked.
pub open spec fn walk(
    rev: Map<Seq<char>, Seq<Seq<char>>>,
    max: nat,
    stack: Seq<(Seq<char>, nat)>,
    visited: Seq<Seq<char>>,
    budget: nat,
) -> Seq<(Seq<char>, nat)>
    decreases budget, stack.len(),
{
    if stack.len() == 0 {
        Seq::empty()
    } else {
        let cur = stack.last().0;
        let d = stack.last().1;
        let rest = stack.drop_last();
        if d > max || visited.contains(cur) {
            walk(rev, max, rest, visited, budget)
        } else if budget == 0 {
            Seq::empty()
        } else {
            let vis = visited.push(cur);
            let tail = walk(rev, max, rest + fresh_deps(lookup(rev, cur), vis, d + 1), vis, (budget - 1) as nat);
            if d > 0 {
                seq![(cur, d)] + tail
            } else {
                tail
            }
        }
    }
}

/// Every file named in the values of a table, in table order.
pub open spec fn all_values(t: Seq<(Seq<char>, Seq<Seq<char>>)>) -> Seq<Seq<char>>
    decreases t.len(),
{
    if t.len() == 0 {
        Seq::empty()
    } else {
        all_values(t.drop_last()) + t.last().1
    }
}

pub proof fn lemma_lookup_in_all_values(t: Seq<(Seq<char>, Seq<Seq<char>>)>, k: Seq<char>, x: Seq<char>)
    requires
        lookup(tbl_map(t), k).contains(x),
    ensures
        all_values(t).contains(x),
    decreases t.len(),
{
    if t.len() > 0 {
        let a = all_values(t.drop_last());
        if k == t.last().0 {
            let w = choose|w: int| 0 <= w < t.last().1.len() && t.last().1[w] == x;
            assert((a + t.last().1)[a.len() + w] == x);
        } else {
            assert(lookup(tbl_map(t), k) == lookup(tbl_map(t.drop_last()), k));
            lemma_lookup_in_all_values(t.drop_last(), k, x);
            let w = choose|w: int| 0 <= w < a.len() && a[w] == x;
            assert((a + t.last().1)[w] == x);
        }
    }
}

/// A duplicate-free sequence drawn from `u` is no longer than `u`.
pub proof fn lemma_nodup_bound<A>(s: Seq<A>, u: Seq<A>)
    requires
        s.no_duplicates(),
        forall|i: int| 0 <= i < s.len() ==> u.contains(#[trigger] s[i]),
    ensures
        s.len() <= u.len(),
{
    s.unique_seq_to_set();
    u.lemma_cardinality_of_set();
    vstd::seq_lib::seq_to_set_is_finite(u);
    assert forall|x: A| s.to_set().contains(x) implies u.to_set().contains(x) by {
        let i = choose|i: int| 0 <= i < s.len() && s[i] == x;
        assert(u.contains(s[i]));
    }
    vstd::set_lib::lemma_len_subset(s.to_set(), u.to_set());
}

pub open spec fn stack_view(s: Seq<(String, u16)>) -> Seq<(Seq<char>, nat)> {
    s.map_values(|e: (String, u16)| (e.0@, e.1 as nat))
}

pub open spec fn depths_view(s: Seq<(String, u8)>) -> Seq<(Seq<char>, nat)> {
    s.map_values(|e: (String, u8)| (e.0@, e.1 as nat))
}

impl ImportGraph {
    /// Enough budget for `walk` to mark every file the graph names.
    pub open spec fn walk_budget(&self) -> nat {
        1 + all_values(ptab(self.reverse@)).len()
    }

    /// What `transitive_dependents(file, max)` returns.
    pub open spec fn transitive(&self, file: Seq<char>, max: nat) -> Seq<(Seq<char>, nat)> {
        walk(self.rev_map(), max, seq![(file, 0nat)], Seq::empty(), self.walk_budget())
    }

    /// Files that depend on `file` directly or through other files, each with
    /// the depth at which the walk first reached it, up to `max_depth`.
    pub fn transitive_dependents(&self, file: &String, max_depth: u8) -> (r: Vec<(String, u8)>)
        ensures
            depths_view(r@) == self.transitive(file@, max_depth as nat),
    {
        let ghost rev = self.rev_map();
        let ghost max = max_depth as nat;
        let ghost n = self.walk_budget();
        let ghost u = seq![file@] + all_values(ptab(self.reverse@));
        let ghost goal = self.transitive(file@, max);
        let mut result: Vec<(String, u8)> = Vec::new();
        let mut visited: Vec<String> = Vec::new();
        let mut stack: Vec<(String, u16)> = Vec::new();
        stack.push((file.clone(), 0u16));
        assert(stack_view(stack@) =~= seq![(file@, 0nat)]);
        assert(strs(visited@) =~= Seq::<Seq<char>>::empty());
        assert(u[0] == file@);
        while stack.len() > 0
            invariant
                rev == self.rev_map(),
                max == max_depth as nat,
                n == self.walk_budget(),
                u == seq![file@] + all_values(ptab(self.reverse@)),
                u.len() == n,
                visited.len() <= n,
                strs(visited@).no_duplicates(),
                forall|i: int| 0 <= i < visited.len() ==> u.contains(#[trigger] strs(visited@)[i]),
                forall|i: int| 0 <= i < stack.len() ==> u.contains(#[trigger] stack_view(stack@)[i].0),
                forall|i: int| 0 <= i < stack.len() ==> #[trigger] stack@[i].1 <= 256,
                depths_view(result@) + walk(rev, max, stack_view(stack@), strs(visited@), (n - visited.len()) as nat) == goal,
            decreases n - visited.len(), stack.len(),
        {
            let ghost sv = stack_view(stack@);
            let ghost vis0 = strs(visited@);
            let ghost res0 = depths_view(result@);
            let top = stack.pop().unwrap();
            let cur = top.0;
            let d = top.1;
            assert(stack_view(stack@) =~= sv.drop_last());
            assert(sv.last() == (cur@, d as nat));
            if d > max_depth as u16 || contains_str(&visited, &cur) {
                assert(strs(visited@) == vis0);
            } else {
                let ghost vis1 = vis0.push(cur@);
                proof {
                    assert(u.contains(sv[sv.len() - 1].0));
                    assert forall|i: int| 0 <= i < vis1.len() implies u.contains(#[trigger] vis1[i]) by {
                        if i < vis0.len() {
                            assert(vis1[i] == vis0[i]);
                        }
                    }
                    assert(vis1.no_duplicates());
                    lemma_nodup_bound(vis1, u);
                }
                visited.push(cur.clone());
                assert(strs(visited@) =~= vis1);
                if d > 0 {
                    result.push((cur.clone(), d as u8));
                    assert(depths_view(result@) =~= res0 + seq![(cur@, d as nat)]);
                }
                let deps = self.dependents_of(&cur);
                let ghost dv = strs(deps@);
                let ghost rest = stack_view(stack@);
                let mut k: usize = 0;
                while k < deps.len()
                    invariant
                        k <= deps.len(),
                        dv == strs(deps@),
                        dv == lookup(rev, cur@),
                        rev == self.rev_map(),
                        u == seq![file@] + all_values(ptab(self.reverse@)),
                        strs(visited@) == vis1,
                        d <= 255,
                        stack_view(stack@) == rest + fresh_deps(dv.take(k as int), vis1, (d + 1) as nat),
                        forall|i: int| 0 <= i < stack.len() ==> u.contains(#[trigger] stack_view(stack@)[i].0),
                        forall|i: int| 0 <= i < stack.len() ==> #[trigger] stack@[i].1 <= 256,
                    decreases deps.len() - k,
                {
                    let ghost before = stack_view(stack@);
                    assert(dv.take(k + 1).drop_last() =~= dv.take(k as int));
                    assert(dv.take(k + 1).last() == dv[k as int]);
                    if !contains_str(&visited, &deps[k]) {
                        stack.push((deps[k].clone(), d + 1));
                        assert(stack_view(stack@) =~= before.push((dv[k as int], (d + 1) as nat)));
                        proof {
                            assert(lookup(rev, cur@).contains(dv[k as int]));
                            lemma_lookup_in_all_values(ptab(self.reverse@), cur@, dv[k as int]);
                            let a = all_values(ptab(self.reverse@));
                            let w = choose|w: int| 0 <= w < a.len() && a[w] == dv[k as int];
                            assert(u[w + 1] == dv[k as int]);
                            assert forall|i: int| 0 <= i < stack.len() implies u.contains(#[trigger] stack_view(stack@)[i].0) by {
                                if i < before.len() {
                                    assert(stack_view(stack@)[i] == before[i]);
                                }
                            }
                        }
                    }
                    k = k + 1;
                }
                assert(dv.take(deps.len() as int) =~= dv);
            }
        }
        assert(depths_view(result@) =~= goal);
        result
    }
}

/// A new graph has no edges in either direction, so it is its own transpose.
pub proof fn lemma_new_graph_transposed(g: ImportGraph)
    requires
        g.edge_map() == Map::<Seq<char>, Seq<Seq<char>>>::empty(),
        g.rev_map() == Map::<Seq<char>, Seq<Seq<char>>>::empty(),
    ensures
        g.transposed(),
{
}

/// Replacing the imports of one file keeps the reverse lists the transpose
/// of the forward lists.
pub proof fn lemma_set_imports_keeps_transpose(
    before: ImportGraph,
    after: ImportGraph,
    file: Seq<char>,
    imports: Seq<Seq<char>>,
)
    requires
        before.transposed(),
        after.edge_map() == before.edge_map().insert(file, imports),
        forall|k: Seq<char>|
            #[trigger] after.dependents(k) == (if before.imports(file).contains(k) {
                remove_all(before.dependents(k), file)
            } else {
                before.dependents(k)
            }) + repeat(file, count(imports, k)),
    ensures
        after.transposed(),
{
    assert forall|g: Seq<char>, i: Seq<char>|
        #[trigger] count(after.dependents(i), g) == #[trigger] count(after.imports(g), i) by {
        let mid = if before.imports(file).contains(i) {
            remove_all(before.dependents(i), file)
        } else {
            before.dependents(i)
        };
        lemma_count_concat(mid, repeat(file, count(imports, i)), g);
        lemma_count_repeat(file, count(imports, i), g);
        lemma_count_remove_all(before.dependents(i), file, g);
        lemma_count_contains(before.imports(file), i);
        assert(count(before.dependents(i), file) == count(before.imports(file), i));
        assert(count(before.dependents(i), g) == count(before.imports(g), i));
    }
}

/// In a transposed graph, `g` depends on `i` exactly when `i` is among the
/// imports of `g`.
pub proof fn lemma_dependents_mirror_imports(gr: ImportGraph, g: Seq<char>, i: Seq<char>)
    requires
        gr.transposed(),
    ensures
        gr.dependents(i).contains(g) <==> gr.imports(g).contains(i),
{
    lemma_count_contains(gr.dependents(i), g);
    lemma_count_contains(gr.imports(g), i);
    assert(count(gr.dependents(i), g) == count(gr.imports(g), i));
}

/// Every import list of the graph is free of duplicates.
pub open spec fn distinct_imports(g: ImportGraph) -> bool {
    forall|f: Seq<char>| #[trigger] g.imports(f).no_duplicates()
}

/// A new graph has no import lists, so none has duplicates.
pub proof fn lemma_new_graph_distinct(g: ImportGraph)
    requires
        g.edge_map() == Map::<Seq<char>, Seq<Seq<char>>>::empty(),
    ensures
        distinct_imports(g),
{
}

/// `set_imports` with a duplicate-free list keeps every import list free of
/// duplicates.
pub proof fn lemma_set_imports_keeps_distinct(before: ImportGraph, after: ImportGraph, file: Seq<char>, imports: Seq<Seq<char>>)
    requires
        distinct_imports(before),
        imports.no_duplicates(),
        after.edge_map() == before.edge_map().insert(file, imports),
    ensures
        distinct_imports(after),
{
    assert forall|f: Seq<char>| #[trigger] after.imports(f).no_duplicates() by {
        if f != file {
            assert(after.imports(f) == before.imports(f));
        }
    }
}

/// In a transposed graph whose import lists have no duplicates, the
/// dependents of `i` have no duplicates and are exactly the files whose
/// imports contain `i`.
pub proof fn lemma_dependents_distinct(g: ImportGraph, i: Seq<char>)
    requires
        g.transposed(),
        distinct_imports(g),
    ensures
        g.dependents(i).no_duplicates(),
        forall|f: Seq<char>| #[trigger] g.dependents(i).contains(f) <==> g.imports(f).contains(i),
{
    assert forall|f: Seq<char>| #[trigger] count(g.dependents(i), f) <= 1 by {
        assert(g.imports(f).no_duplicates());
        lemma_no_duplicates_count(g.imports(f));
        assert(count(g.imports(f), i) <= 1);
        assert(count(g.dependents(i), f) == count(g.imports(f), i));
    }
    lemma_no_duplicates_count(g.dependents(i));
    assert forall|f: Seq<char>| #[trigger] g.dependents(i).contains(f) <==> g.imports(f).contains(i) by {
        lemma_dependents_mirror_imports(g, f, i);
    }
}

/// A list of reported files is well formed against `visited` and `max` when
/// every depth lies between 1 and `max`, no file in it was visited before,
/// and no file occurs twice.
pub open spec fn well_reported(s: Seq<(Seq<char>, nat)>, visited: Seq<Seq<char>>, max: nat) -> bool {
    &&& forall|i: int| 0 <= i < s.len() ==> 1 <= (#[trigger] s[i]).1 <= max
    &&& forall|i: int| 0 <= i < s.len() ==> !visited.contains((#[trigger] s[i]).0)
    &&& forall|i: int, j: int| 0 <= i < j < s.len() ==> (#[trigger] s[i]).0 != (#[trigger] s[j]).0
}

/// Every walk reports files that were not yet visited when it started, each
/// once, at a depth between 1 and `max`.
pub proof fn lemma_walk_reports(
    rev: Map<Seq<char>, Seq<Seq<char>>>,
    max: nat,
    stack: Seq<(Seq<char>, nat)>,
    visited: Seq<Seq<char>>,
    budget: nat,
)
    ensures
        well_reported(walk(rev, max, stack, visited, budget), visited, max),
    decreases budget, stack.len(),
{
    if stack.len() == 0 {
    } else {
        let cur = stack.last().0;
        let d = stack.last().1;
        let rest = stack.drop_last();
        if d > max || visited.contains(cur) {
            lemma_walk_reports(rev, max, rest, visited, budget);
        } else if budget == 0 {
        } else {
            let vis = visited.push(cur);
            let st2 = rest + fresh_deps(lookup(rev, cur), vis, d + 1);
            let tail = walk(rev, max, st2, vis, (budget - 1) as nat);
            lemma_walk_reports(rev, max, st2, vis, (budget - 1) as nat);
            assert(vis[visited.len() as int] == cur);
            assert forall|i: int| 0 <= i < tail.len() implies !visited.contains(#[trigger] tail[i].0)
                && tail[i].0 != cur by {
                if visited.contains(tail[i].0) {
                    let w = choose|w: int| 0 <= w < visited.len() && visited[w] == tail[i].0;
                    assert(vis[w] == tail[i].0);
                }
            }
            if d > 0 {
                let r = seq![(cur, d)] + tail;
                assert(walk(rev, max, stack, visited, budget) == r);
                assert forall|i: int| 0 < i < r.len() implies #[trigger] r[i] == tail[i - 1] by {}
                assert forall|i: int| 0 <= i < r.len() implies 1 <= (#[trigger] r[i]).1 <= max by {
                    if i > 0 {
                        assert(r[i] == tail[i - 1]);
                    }
                }
                assert forall|i: int| 0 <= i < r.len() implies !visited.contains((#[trigger] r[i]).0) by {
                    if i > 0 {
                        assert(r[i] == tail[i - 1]);
                    }
                }
                assert forall|i: int, j: int| 0 <= i < j < r.len() implies (#[trigger] r[i]).0 != (#[trigger] r[j]).0 by {
                    assert(r[j] == tail[j - 1]);
                    if i > 0 {
                        assert(r[i] == tail[i - 1]);
                    }
                }
            } else {
                assert(walk(rev, max, stack, visited, budget) == tail);
                assert forall|i: int| 0 <= i < tail.len() implies !visited.contains((#[trigger] tail[i]).0) by {}
            }
        }
    }
}

/// Each file of `c` is a dependent of the one before.
pub open spec fn is_chain(rev: Map<Seq<char>, Seq<Seq<char>>>, c: Seq<Seq<char>>) -> bool {
    forall|i: int| 0 <= i < c.len() - 1 ==> #[trigger] lookup(rev, c[i]).contains(c[i + 1])
}

/// `f` is reached from `file` in `d` steps along dependents: a chain
/// `file = f0, f1, ..., fd = f` where each file is a dependent of the one
/// before.
pub open spec fn reaches(rev: Map<Seq<char>, Seq<Seq<char>>>, file: Seq<char>, f: Seq<char>, d: nat) -> bool {
    exists|c: Seq<Seq<char>>| #[trigger] is_chain(rev, c) && c.len() == d + 1 && c[0] == file && c[d as int] == f
}

proof fn lemma_fresh_deps(deps: Seq<Seq<char>>, visited: Seq<Seq<char>>, depth: nat)
    ensures
        forall|k: int| 0 <= k < fresh_deps(deps, visited, depth).len() ==> (#[trigger] fresh_deps(deps, visited, depth)[k]).1
            == depth && deps.contains(fresh_deps(deps, visited, depth)[k].0),
    decreases deps.len(),
{
    if deps.len() > 0 {
        let init = deps.drop_last();
        lemma_fresh_deps(init, visited, depth);
        let fr = fresh_deps(init, visited, depth);
        assert forall|k: int| 0 <= k < fresh_deps(deps, visited, depth).len() implies (#[trigger] fresh_deps(
            deps,
            visited,
            depth,
        )[k]).1 == depth && deps.contains(fresh_deps(deps, visited, depth)[k].0) by {
            let e = fresh_deps(deps, visited, depth)[k];
            if k < fr.len() {
                assert(e == fr[k]);
                let w = choose|w: int| 0 <= w < init.len() && init[w] == e.0;
                assert(deps[w] == e.0);
            } else {
                assert(deps[deps.len() - 1] == e.0);
            }
        }
    }
}

proof fn lemma_reaches_step(rev: Map<Seq<char>, Seq<Seq<char>>>, file: Seq<char>, g: Seq<char>, f: Seq<char>, d: nat)
    requires
        reaches(rev, file, g, d),
        lookup(rev, g).contains(f),
    ensures
        reaches(rev, file, f, d + 1),
{
    let c = choose|c: Seq<Seq<char>>| #[trigger] is_chain(rev, c) && c.len() == d + 1 && c[0] == file && c[d as int] == g;
    let c2 = c.push(f);
    assert forall|i: int| 0 <= i < c2.len() - 1 implies #[trigger] lookup(rev, c2[i]).contains(c2[i + 1]) by {
        if i < d {
            assert(c2[i] == c[i] && c2[i + 1] == c[i + 1]);
            assert(lookup(rev, c[i]).contains(c[i + 1]));
        } else {
            assert(c2[i] == g && c2[i + 1] == f);
        }
    }
    assert(is_chain(rev, c2) && c2.len() == d + 2 && c2[0] == file && c2[(d + 1) as int] == f);
}

proof fn lemma_reaches_start(rev: Map<Seq<char>, Seq<Seq<char>>>, file: Seq<char>)
    ensures
        reaches(rev, file, file, 0),
{
    let c = seq![file];
    assert(is_chain(rev, c));
    assert(is_chain(rev, c) && c.len() == 0 + 1 && c[0] == file && c[0] == file);
}

/// Every file a walk reports is reached from `file` at the depth reported,
/// when every entry it starts with is.
pub proof fn lemma_walk_chains(
    rev: Map<Seq<char>, Seq<Seq<char>>>,
    file: Seq<char>,
    max: nat,
    stack: Seq<(Seq<char>, nat)>,
    visited: Seq<Seq<char>>,
    budget: nat,
)
    requires
        forall|k: int| 0 <= k < stack.len() ==> reaches(rev, file, (#[trigger] stack[k]).0, stack[k].1),
    ensures
        forall|k: int| 0 <= k < walk(rev, max, stack, visited, budget).len() ==> reaches(
            rev,
            file,
            (#[trigger] walk(rev, max, stack, visited, budget)[k]).0,
            walk(rev, max, stack, visited, budget)[k].1,
        ),
    decreases budget, stack.len(),
{
    if stack.len() > 0 {
        let cur = stack.last().0;
        let d = stack.last().1;
        let rest = stack.drop_last();
        assert(stack.last() == stack[stack.len() - 1]);
        assert forall|k: int| 0 <= k < rest.len() implies reaches(rev, file, (#[trigger] rest[k]).0, rest[k].1) by {
            assert(rest[k] == stack[k]);
        }
        assert(reaches(rev, file, cur, d));
        if d > max || visited.contains(cur) {
            lemma_walk_chains(rev, file, max, rest, visited, budget);
            assert(walk(rev, max, stack, visited, budget) == walk(rev, max, rest, visited, budget));
        } else if budget == 0 {
        } else {
            let vis = visited.push(cur);
            let fr = fresh_deps(lookup(rev, cur), vis, d + 1);
            let st2 = rest + fr;
            lemma_fresh_deps(lookup(rev, cur), vis, d + 1);
            assert forall|k: int| 0 <= k < st2.len() implies reaches(rev, file, (#[trigger] st2[k]).0, st2[k].1) by {
                if k < rest.len() {
                    assert(st2[k] == rest[k]);
                } else {
                    let e = fr[k - rest.len()];
                    assert(st2[k] == e);
                    assert(e.1 == d + 1);
                    lemma_reaches_step(rev, file, cur, e.0, d);
                }
            }
            lemma_walk_chains(rev, file, max, st2, vis, (budget - 1) as nat);
            let tail = walk(rev, max, st2, vis, (budget - 1) as nat);
            if d > 0 {
                let r = seq![(cur, d)] + tail;
                assert(walk(rev, max, stack, visited, budget) == r);
                assert forall|k: int| 0 <= k < r.len() implies reaches(rev, file, (#[trigger] r[k]).0, r[k].1) by {
                    if k > 0 {
                        assert(r[k] == tail[k - 1]);
                    } else {
                        assert(r[0] == (cur, d));
                    }
                }
            } else {
                assert(walk(rev, max, stack, visited, budget) == tail);
            }
        }
    }
}

/// `x` is one of the files named in `s`.
pub open spec fn names_file(s: Seq<(Seq<char>, nat)>, x: Seq<char>) -> bool {
    exists|j: int| 0 <= j < s.len() && (#[trigger] s[j]).0 == x
}

proof fn lemma_fresh_deps_complete(deps: Seq<Seq<char>>, visited: Seq<Seq<char>>, depth: nat, x: Seq<char>)
    requires
        deps.contains(x),
        !visited.contains(x),
    ensures
        names_file(fresh_deps(deps, visited, depth), x),
    decreases deps.len(),
{
    let init = deps.drop_last();
    let fr = fresh_deps(init, visited, depth);
    if deps.last() == x {
        let e = fresh_deps(deps, visited, depth);
        assert(e == fr.push((x, depth)));
        assert(e[fr.len() as int].0 == x);
    } else {
        let w = choose|w: int| 0 <= w < deps.len() && deps[w] == x;
        assert(w < deps.len() - 1);
        assert(init[w] == x);
        lemma_fresh_deps_complete(init, visited, depth, x);
        let j = choose|j: int| 0 <= j < fr.len() && (#[trigger] fr[j]).0 == x;
        let e = fresh_deps(deps, visited, depth);
        if visited.contains(deps.last()) {
            assert(e == fr);
        } else {
            assert(e == fr.push((deps.last(), depth)));
            assert(e[j] == fr[j]);
        }
    }
}

/// Every entry a walk starts with, within the depth limit, ends up visited
/// or reported, provided the walk's budget covers every file it can reach
/// (all of them lie in `u`).
proof fn lemma_walk_complete(
    t: Seq<(Seq<char>, Seq<Seq<char>>)>,
    u: Seq<Seq<char>>,
    max: nat,
    stack: Seq<(Seq<char>, nat)>,
    visited: Seq<Seq<char>>,
    budget: nat,
)
    requires
        forall|x: Seq<char>| #[trigger] all_values(t).contains(x) ==> u.contains(x),
        visited.no_duplicates(),
        forall|i: int| 0 <= i < visited.len() ==> u.contains(#[trigger] visited[i]),
        forall|k: int| 0 <= k < stack.len() ==> u.contains((#[trigger] stack[k]).0) && stack[k].1 >= 1,
        visited.len() + budget >= u.len(),
    ensures
        forall|k: int| 0 <= k < stack.len() && (#[trigger] stack[k]).1 <= max ==> visited.contains(stack[k].0)
            || names_file(walk(tbl_map(t), max, stack, visited, budget), stack[k].0),
    decreases budget, stack.len(),
{
    let rev = tbl_map(t);
    if stack.len() > 0 {
        let cur = stack.last().0;
        let d = stack.last().1;
        let rest = stack.drop_last();
        let r = walk(rev, max, stack, visited, budget);
        assert(stack.last() == stack[stack.len() - 1]);
        assert forall|k: int| 0 <= k < rest.len() implies u.contains((#[trigger] rest[k]).0) && rest[k].1 >= 1 by {
            assert(rest[k] == stack[k]);
        }
        if d > max || visited.contains(cur) {
            lemma_walk_complete(t, u, max, rest, visited, budget);
            assert(r == walk(rev, max, rest, visited, budget));
            assert forall|k: int| 0 <= k < stack.len() && (#[trigger] stack[k]).1 <= max implies visited.contains(
                stack[k].0,
            ) || names_file(r, stack[k].0) by {
                if k < rest.len() {
                    assert(rest[k] == stack[k]);
                }
            }
        } else {
            let vis = visited.push(cur);
            assert(vis.no_duplicates()) by {
                assert forall|a: int, b: int| 0 <= a < vis.len() && 0 <= b < vis.len() && a != b implies vis[a] != vis[b] by {
                    if a == visited.len() as int {
                        assert(vis[b] == visited[b]);
                    } else if b == visited.len() as int {
                        assert(vis[a] == visited[a]);
                    } else {
                        assert(vis[a] == visited[a] && vis[b] == visited[b]);
                    }
                }
            }
            assert forall|i: int| 0 <= i < vis.len() implies u.contains(#[trigger] vis[i]) by {
                if i < visited.len() {
                    assert(vis[i] == visited[i]);
                }
            }
            lemma_nodup_bound(vis, u);
            assert(budget > 0);
            let fr = fresh_deps(lookup(rev, cur), vis, d + 1);
            let st2 = rest + fr;
            lemma_fresh_deps(lookup(rev, cur), vis, d + 1);
            assert forall|k: int| 0 <= k < st2.len() implies u.contains((#[trigger] st2[k]).0) && st2[k].1 >= 1 by {
                if k < rest.len() {
                    assert(st2[k] == rest[k]);
                } else {
                    assert(st2[k] == fr[k - rest.len()]);
                    lemma_lookup_in_all_values(t, cur, st2[k].0);
                }
            }
            lemma_walk_complete(t, u, max, st2, vis, (budget - 1) as nat);
            let tail = walk(rev, max, st2, vis, (budget - 1) as nat);
            assert(d >= 1);
            assert(r == seq![(cur, d)] + tail);
            assert forall|k: int| 0 <= k < stack.len() && (#[trigger] stack[k]).1 <= max implies visited.contains(
                stack[k].0,
            ) || names_file(r, stack[k].0) by {
                let x = stack[k].0;
                if k == stack.len() - 1 {
                    assert(r[0].0 == x);
                } else {
                    assert(st2[k] == stack[k]);
                    if vis.contains(x) && !visited.contains(x) {
                        let w = choose|w: int| 0 <= w < vis.len() && vis[w] == x;
                        if w < visited.len() {
                            assert(visited[w] == x);
                        }
                        assert(x == cur);
                        assert(r[0].0 == x);
                    } else if names_file(tail, x) {
                        let j = choose|j: int| 0 <= j < tail.len() && (#[trigger] tail[j]).0 == x;
                        assert(r[j + 1] == tail[j]);
                    }
                }
            }
        }
    }
}

impl ImportGraph {
    /// What `transitive_dependents` reports: each file at most once, never
    /// the starting file itself, each at a depth between 1 and the maximum
    /// depth, and each reached from the start by a chain of dependents as
    /// long as its depth.
    /// With a depth of at least one, every direct dependent of `file` other
    /// than `file` itself is reported.
    pub proof fn lemma_direct_dependents_reported(&self, file: Seq<char>, max: nat, f: Seq<char>)
        requires
            max >= 1,
            self.dependents(file).contains(f),
            f != file,
        ensures
            names_file(self.transitive(file, max), f),
    {
        let t = ptab(self.reverse@);
        let rev = self.rev_map();
        let u = seq![file] + all_values(t);
        let stack = seq![(file, 0nat)];
        let b = self.walk_budget();
        assert(stack.last() == (file, 0nat));
        assert(stack.drop_last() =~= Seq::<(Seq<char>, nat)>::empty());
        let vis = Seq::<Seq<char>>::empty().push(file);
        let st2 = Seq::<(Seq<char>, nat)>::empty() + fresh_deps(lookup(rev, file), vis, 1);
        assert(!Seq::<Seq<char>>::empty().contains(file));
        assert(self.transitive(file, max) == walk(rev, max, st2, vis, (b - 1) as nat));
        assert(u[0] == file);
        assert forall|x: Seq<char>| #[trigger] all_values(t).contains(x) implies u.contains(x) by {
            let w = choose|w: int| 0 <= w < all_values(t).len() && all_values(t)[w] == x;
            assert(u[w + 1] == x);
        }
        assert(vis[0] == file);
        assert(vis.no_duplicates());
        lemma_fresh_deps(lookup(rev, file), vis, 1);
        let fr = fresh_deps(lookup(rev, file), vis, 1);
        assert(st2 =~= fr);
        assert forall|k: int| 0 <= k < st2.len() implies u.contains((#[trigger] st2[k]).0) && st2[k].1 >= 1 by {
            assert(st2[k] == fr[k]);
            lemma_lookup_in_all_values(t, file, st2[k].0);
        }
        assert(!vis.contains(f)) by {
            if vis.contains(f) {
                let w = choose|w: int| 0 <= w < vis.len() && vis[w] == f;
                assert(vis[0] == f);
            }
        }
        lemma_fresh_deps_complete(lookup(rev, file), vis, 1, f);
        let k = choose|k: int| 0 <= k < fr.len() && (#[trigger] fr[k]).0 == f;
        assert(st2[k] == fr[k]);
        assert(st2[k].1 == 1);
        lemma_walk_complete(t, u, max, st2, vis, (b - 1) as nat);
        assert(st2[k].1 <= max);
    }

    pub proof fn lemma_transitive_reports(&self, file: Seq<char>, max: nat)
        ensures
            well_reported(self.transitive(file, max), seq![file], max),
            forall|k: int| 0 <= k < self.transitive(file, max).len() ==> reaches(
                self.rev_map(),
                file,
                (#[trigger] self.transitive(file, max)[k]).0,
                self.transitive(file, max)[k].1,
            ),
    {
        let rev = self.rev_map();
        let stack = seq![(file, 0nat)];
        let b = self.walk_budget();
        assert(stack.last() == (file, 0nat));
        assert(stack.drop_last() =~= Seq::<(Seq<char>, nat)>::empty());
        let vis = Seq::<Seq<char>>::empty().push(file);
        assert(vis =~= seq![file]);
        let st2 = Seq::<(Seq<char>, nat)>::empty() + fresh_deps(lookup(rev, file), vis, 1);
        assert(!Seq::<Seq<char>>::empty().contains(file));
        assert(self.transitive(file, max) == walk(rev, max, st2, vis, (b - 1) as nat));
        lemma_walk_reports(rev, max, st2, vis, (b - 1) as nat);
        lemma_fresh_deps(lookup(rev, file), vis, 1);
        let fr = fresh_deps(lookup(rev, file), vis, 1);
        assert(st2 =~= fr);
        lemma_reaches_start(rev, file);
        assert forall|k: int| 0 <= k < st2.len() implies reaches(rev, file, (#[trigger] st2[k]).0, st2[k].1) by {
            assert(st2[k] == fr[k]);
            lemma_reaches_step(rev, file, file, st2[k].0, 0);
        }
        lemma_walk_chains(rev, file, max, st2, vis, (b - 1) as nat);
    }
}

} // verus!
