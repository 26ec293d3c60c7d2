//! Symbol-level dependency links derived from the file-level import graph,
//! and the symbols that a change ripples to.

use vstd::prelude::*;
use crate::graph::ImportGraph;
use crate::seqs::contains_str;
use crate::table::strs;

verus! {

/// A tracked symbol reduced to what linking reads: its fully qualified name
/// and the file that declares it.
#[derive(Clone, Debug)]
pub struct SymbolRef {
    pub fqn: String,
    pub file: String,
}

/// The links computed for one symbol: the symbols it uses (declared in files
/// its own file imports) and the symbols that use it.
#[derive(Clone, Debug)]
pub struct SymbolLinks {
    pub uses: Vec<String>,
    pub used_by: Vec<String>,
}

pub open spec fn refs_view(v: Seq<SymbolRef>) -> Seq<(Seq<char>, Seq<char>)> {
    v.map_values(|s: SymbolRef| (s.fqn@, s.file@))
}

/// Names of the symbols in `syms` whose file `imports` contains, in order.
pub open spec fn linked(syms: Seq<(Seq<char>, Seq<char>)>, imports: Seq<Seq<char>>) -> Seq<Seq<char>>
    decreases syms.len(),
{
    if syms.len() == 0 {
        Seq::empty()
    } else {
        let rest = linked(syms.drop_last(), imports);
        if imports.contains(syms.last().1) {
            rest.push(syms.last().0)
        } else {
            rest
        }
    }
}

/// Names of the symbols in `syms` whose file imports `file`, in order.
pub open spec fn importers(g: ImportGraph, syms: Seq<(Seq<char>, Seq<char>)>, file: Seq<char>) -> Seq<Seq<char>>
    decreases syms.len(),
{
    if syms.len() == 0 {
        Seq::empty()
    } else {
        let rest = importers(g, syms.drop_last(), file);
        if g.imports(syms.last().1).contains(file) {
            rest.push(syms.last().0)
        } else {
            rest
        }
    }
}

/// The symbols that the symbol declared in `file` uses.
pub open spec fn uses_of(g: ImportGraph, syms: Seq<(Seq<char>, Seq<char>)>, file: Seq<char>) -> Seq<Seq<char>> {
    linked(syms, g.imports(file))
}

/// The fully qualified names are pairwise distinct (they key the symbol table).
pub open spec fn distinct_names(syms: Seq<(Seq<char>, Seq<char>)>) -> bool {
    forall|i: int, j: int| 0 <= i < j < syms.len() ==> (#[trigger] syms[i]).0 != (#[trigger] syms[j]).0
}

/// Names of the symbols declared in `file`, in order.
pub open spec fn fqns_in(syms: Seq<(Seq<char>, Seq<char>)>, file: Seq<char>) -> Seq<Seq<char>>
    decreases syms.len(),
{
    if syms.len() == 0 {
        Seq::empty()
    } else {
        let rest = fqns_in(syms.drop_last(), file);
        if syms.last().1 == file {
            rest.push(syms.last().0)
        } else {
            rest
        }
    }
}

/// For each dependent file in order, the symbols declared in it, each tagged
/// with the file's depth.
pub open spec fn ripple_spec(deps: Seq<(Seq<char>, nat)>, syms: Seq<(Seq<char>, Seq<char>)>) -> Seq<(Seq<char>, nat)>
    decreases deps.len(),
{
    if deps.len() == 0 {
        Seq::empty()
    } else {
        let d = deps.last();
        ripple_spec(deps.drop_last(), syms) + fqns_in(syms, d.0).map_values(|f: Seq<char>| (f, d.1))
    }
}

pub open spec fn tagged_view(v: Seq<(String, u8)>) -> Seq<(Seq<char>, nat)> {
    v.map_values(|e: (String, u8)| (e.0@, e.1 as nat))
}

pub open spec fn links_view(v: Seq<SymbolLinks>) -> Seq<(Seq<Seq<char>>, Seq<Seq<char>>)> {
    v.map_values(|l: SymbolLinks| (strs(l.uses@), strs(l.used_by@)))
}

/// Names of the symbols declared in `file`.
pub fn symbols_in_file(symbols: &Vec<SymbolRef>, file: &String) -> (r: Vec<String>)
    ensures
        strs(r@) == fqns_in(refs_view(symbols@), file@),
{
    let ghost sv = refs_view(symbols@);
    let mut r: Vec<String> = Vec::new();
    let mut j: usize = 0;
    while j < symbols.len()
        invariant
            j <= symbols.len(),
            sv == refs_view(symbols@),
            strs(r@) == fqns_in(sv.take(j as int), file@),
        decreases symbols.len() - j,
    {
        assert(sv.take(j + 1).drop_last() =~= sv.take(j as int));
        assert(sv.take(j + 1).last() == sv[j as int]);
        if symbols[j].file == *file {
            r.push(symbols[j].fqn.clone());
        }
        assert(strs(r@) =~= fqns_in(sv.take(j + 1), file@));
        j = j + 1;
    }
    assert(sv.take(symbols.len() as int) =~= sv);
    r
}

/// Recomputes every symbol's links from the import graph: symbol `s` uses
/// `t` when the file of `s` imports the file of `t`, and then `t` is used by
/// `s`. Entry `i` of the result belongs to `symbols[i]`.
pub fn build_dependency_links(graph: &ImportGraph, symbols: &Vec<SymbolRef>) -> (r: Vec<SymbolLinks>)
    ensures
        r.len() == symbols.len(),
        forall|i: int| 0 <= i < r.len() ==> #[trigger] links_view(r@)[i] == (
            uses_of(*graph, refs_view(symbols@), refs_view(symbols@)[i].1),
            importers(*graph, refs_view(symbols@), refs_view(symbols@)[i].1),
        ),
{
    let ghost sv = refs_view(symbols@);
    let n = symbols.len();
    let mut imports: Vec<Vec<String>> = Vec::new();
    let mut k: usize = 0;
    while k < n
        invariant
            k <= n,
            n == symbols.len(),
            sv == refs_view(symbols@),
            imports.len() == k,
            forall|a: int| 0 <= a < k ==> strs(#[trigger] imports@[a]@) == graph.imports(sv[a].1),
        decreases n - k,
    {
        let imps = graph.imports_of(&symbols[k].file);
        imports.push(imps);
        k = k + 1;
    }
    let mut r: Vec<SymbolLinks> = Vec::new();
    let mut i: usize = 0;
    while i < n
        invariant
            i <= n,
            n == symbols.len(),
            sv == refs_view(symbols@),
            imports.len() == n,
            forall|a: int| 0 <= a < n ==> strs(#[trigger] imports@[a]@) == graph.imports(sv[a].1),
            r.len() == i,
            forall|a: int| 0 <= a < i ==> #[trigger] links_view(r@)[a] == (
                uses_of(*graph, sv, sv[a].1),
                importers(*graph, sv, sv[a].1),
            ),
        decreases n - i,
    {
        let mut uses: Vec<String> = Vec::new();
        let mut used_by: Vec<String> = Vec::new();
        let mut j: usize = 0;
        while j < n
            invariant
                i < n,
                j <= n,
                n == symbols.len(),
                sv == refs_view(symbols@),
                imports.len() == n,
                forall|a: int| 0 <= a < n ==> strs(#[trigger] imports@[a]@) == graph.imports(sv[a].1),
                strs(uses@) == linked(sv.take(j as int), graph.imports(sv[i as int].1)),
                strs(used_by@) == importers(*graph, sv.take(j as int), sv[i as int].1),
            decreases n - j,
        {
            assert(sv.take(j + 1).drop_last() =~= sv.take(j as int));
            assert(sv.take(j + 1).last() == sv[j as int]);
            assert(strs(imports@[i as int]@) == graph.imports(sv[i as int].1));
            assert(strs(imports@[j as int]@) == graph.imports(sv[j as int].1));
            if contains_str(&imports[i], &symbols[j].file) {
                uses.push(symbols[j].fqn.clone());
            }
            if contains_str(&imports[j], &symbols[i].file) {
                used_by.push(symbols[j].fqn.clone());
            }
            assert(strs(uses@) =~= linked(sv.take(j + 1), graph.imports(sv[i as int].1)));
            assert(strs(used_by@) =~= importers(*graph, sv.take(j + 1), sv[i as int].1));
            j = j + 1;
        }
        assert(sv.take(n as int) =~= sv);
        let ghost prev = links_view(r@);
        r.push(SymbolLinks { uses, used_by });
        assert(links_view(r@) =~= prev.push(links_view(r@)[i as int]));
        assert(links_view(r@)[i as int] == (
            uses_of(*graph, sv, sv[i as int].1),
            importers(*graph, sv, sv[i as int].1),
        ));
        i = i + 1;
    }
    r
}

/// The symbols a change to a file ripples to: for each of its dependents,
/// in the order given, the symbols declared there, tagged with the
/// dependent's depth.
pub fn ripple_targets(dependents: &Vec<(String, u8)>, symbols: &Vec<SymbolRef>) -> (r: Vec<(String, u8)>)
    ensures
        tagged_view(r@) == ripple_spec(tagged_view(dependents@), refs_view(symbols@)),
{
    let ghost dv = tagged_view(dependents@);
    let mut r: Vec<(String, u8)> = Vec::new();
    let mut i: usize = 0;
    while i < dependents.len()
        invariant
            i <= dependents.len(),
            dv == tagged_view(dependents@),
            tagged_view(r@) == ripple_spec(dv.take(i as int), refs_view(symbols@)),
        decreases dependents.len() - i,
    {
        let depth = dependents[i].1;
        let names = symbols_in_file(symbols, &dependents[i].0);
        let ghost before = tagged_view(r@);
        let ghost nv = strs(names@);
        let mut j: usize = 0;
        while j < names.len()
            invariant
                j <= names.len(),
                nv == strs(names@),
                tagged_view(r@) == before + nv.take(j as int).map_values(|f: Seq<char>| (f, depth as nat)),
            decreases names.len() - j,
        {
            let ghost prev = tagged_view(r@);
            r.push((names[j].clone(), depth));
            assert(nv[j as int] == names@[j as int]@);
            assert(tagged_view(r@) =~= prev.push((nv[j as int], depth as nat)));
            assert(nv.take(j + 1).map_values(|f: Seq<char>| (f, depth as nat)) =~= nv.take(j as int).map_values(
                |f: Seq<char>| (f, depth as nat),
            ).push((nv[j as int], depth as nat)));
            assert(tagged_view(r@) =~= before + nv.take(j + 1).map_values(|f: Seq<char>| (f, depth as nat)));
            j = j + 1;
        }
        assert(nv.take(names.len() as int) =~= nv);
        assert(dv.take(i + 1).drop_last() =~= dv.take(i as int));
        assert(dv.take(i + 1).last() == dv[i as int]);
        assert(tagged_view(r@) =~= ripple_spec(dv.take(i + 1), refs_view(symbols@)));
        i = i + 1;
    }
    assert(dv.take(dependents.len() as int) =~= dv);
    r
}

/// A name is linked exactly when some symbol with that name lives in one
/// of the imported files.
pub proof fn lemma_linked_contains(syms: Seq<(Seq<char>, Seq<char>)>, imports: Seq<Seq<char>>, x: Seq<char>)
    ensures
        linked(syms, imports).contains(x) <==> exists|k: int|
            0 <= k < syms.len() && (#[trigger] syms[k]).0 == x && imports.contains(syms[k].1),
    decreases syms.len(),
{
    if syms.len() > 0 {
        let init = syms.drop_last();
        lemma_linked_contains(init, imports, x);
        vstd::seq_lib::lemma_seq_contains_after_push(linked(init, imports), syms.last().0, x);
        assert(syms.last() == syms[syms.len() - 1]);
        if exists|k: int| 0 <= k < syms.len() && (#[trigger] syms[k]).0 == x && imports.contains(syms[k].1) {
            let k = choose|k: int| 0 <= k < syms.len() && (#[trigger] syms[k]).0 == x && imports.contains(syms[k].1);
            if k < syms.len() - 1 {
                assert(init[k] == syms[k]);
            }
        }
        if exists|k: int| 0 <= k < init.len() && (#[trigger] init[k]).0 == x && imports.contains(init[k].1) {
            let k = choose|k: int| 0 <= k < init.len() && (#[trigger] init[k]).0 == x && imports.contains(init[k].1);
            assert(syms[k] == init[k]);
        }
    }
}

/// A name is among the importers of `file` exactly when some symbol with
/// that name lives in a file that imports `file`.
pub proof fn lemma_importers_contains(g: ImportGraph, syms: Seq<(Seq<char>, Seq<char>)>, file: Seq<char>, x: Seq<char>)
    ensures
        importers(g, syms, file).contains(x) <==> exists|k: int|
            0 <= k < syms.len() && (#[trigger] syms[k]).0 == x && g.imports(syms[k].1).contains(file),
    decreases syms.len(),
{
    if syms.len() > 0 {
        let init = syms.drop_last();
        lemma_importers_contains(g, init, file, x);
        vstd::seq_lib::lemma_seq_contains_after_push(importers(g, init, file), syms.last().0, x);
        assert(syms.last() == syms[syms.len() - 1]);
        if exists|k: int| 0 <= k < syms.len() && (#[trigger] syms[k]).0 == x && g.imports(syms[k].1).contains(file) {
            let k = choose|k: int| 0 <= k < syms.len() && (#[trigger] syms[k]).0 == x && g.imports(syms[k].1).contains(file);
            if k < syms.len() - 1 {
                assert(init[k] == syms[k]);
            }
        }
        if exists|k: int| 0 <= k < init.len() && (#[trigger] init[k]).0 == x && g.imports(init[k].1).contains(file) {
            let k = choose|k: int| 0 <= k < init.len() && (#[trigger] init[k]).0 == x && g.imports(init[k].1).contains(file);
            assert(syms[k] == init[k]);
        }
    }
}

/// Links are symmetric: symbol `i` uses symbol `j` exactly when `j` is used
/// by `i`.
pub proof fn lemma_links_symmetric(g: ImportGraph, syms: Seq<(Seq<char>, Seq<char>)>, i: int, j: int)
    requires
        distinct_names(syms),
        0 <= i < syms.len(),
        0 <= j < syms.len(),
    ensures
        uses_of(g, syms, syms[i].1).contains(syms[j].0) <==> importers(g, syms, syms[j].1).contains(syms[i].0),
{
    lemma_linked_contains(syms, g.imports(syms[i].1), syms[j].0);
    lemma_importers_contains(g, syms, syms[j].1, syms[i].0);
    if uses_of(g, syms, syms[i].1).contains(syms[j].0) {
        let k = choose|k: int| 0 <= k < syms.len() && (#[trigger] syms[k]).0 == syms[j].0 && g.imports(syms[i].1).contains(syms[k].1);
        if k != j {
            if k < j {
                assert(syms[k].0 != syms[j].0);
            } else {
                assert(syms[j].0 != syms[k].0);
            }
        }
        assert(0 <= i < syms.len() && syms[i].0 == syms[i].0 && g.imports(syms[i].1).contains(syms[j].1));
    }
    if importers(g, syms, syms[j].1).contains(syms[i].0) {
        let k = choose|k: int| 0 <= k < syms.len() && (#[trigger] syms[k]).0 == syms[i].0 && g.imports(syms[k].1).contains(syms[j].1);
        if k != i {
            if k < i {
                assert(syms[k].0 != syms[i].0);
            } else {
                assert(syms[i].0 != syms[k].0);
            }
        }
        assert(0 <= j < syms.len() && syms[j].0 == syms[j].0 && g.imports(syms[i].1).contains(syms[j].1));
    }
}

/// With distinct names, no symbol is listed twice among the links of any
/// symbol, in either direction.
pub proof fn lemma_links_distinct(g: ImportGraph, syms: Seq<(Seq<char>, Seq<char>)>, file: Seq<char>)
    requires
        distinct_names(syms),
    ensures
        uses_of(g, syms, file).no_duplicates(),
        importers(g, syms, file).no_duplicates(),
    decreases syms.len(),
{
    if syms.len() > 0 {
        let init = syms.drop_last();
        assert forall|a: int, b: int| 0 <= a < b < init.len() implies (#[trigger] init[a]).0 != (#[trigger] init[b]).0 by {
            assert(init[a] == syms[a] && init[b] == syms[b]);
        }
        lemma_links_distinct(g, init, file);
        let last = syms.last();
        assert(last == syms[syms.len() - 1]);
        lemma_linked_contains(init, g.imports(file), last.0);
        lemma_importers_contains(g, init, file, last.0);
        assert forall|k: int| 0 <= k < init.len() implies (#[trigger] init[k]).0 != last.0 by {
            assert(init[k] == syms[k]);
        }
    }
}

} // verus!
