//! What registering a worker's touch records: the architectural paths of
//! the files it touched, the symbols declared there, and the files its
//! change ripples to.

use vstd::prelude::*;
use crate::graph::{ImportGraph, depths_view};
use crate::links::{SymbolRef, refs_view, fqns_in, symbols_in_file};
use crate::pathmodel::{PathV, pv_of, pv_join, pv_text, parse_path, join_text, render_path};
use crate::report::{rel_text, rel_display};
use crate::seqs::{dedup, push_unique};
use crate::table::strs;
use crate::trails::{arch_path_of, arch_path_of_spec};

verus! {

/// `f` taken relative to `root` unless it is absolute, as text.
pub open spec fn abs_text(f: Seq<char>, root: Seq<char>) -> Seq<char> {
    pv_text(pv_join(pv_of(root), pv_of(f)))
}

pub open spec fn arch_list(files: Seq<Seq<char>>, root: Seq<char>) -> Seq<Seq<char>>
    decreases files.len(),
{
    if files.len() == 0 {
        Seq::empty()
    } else {
        arch_list(files.drop_last(), root).push(arch_path_of_spec(abs_text(files.last(), root), root))
    }
}

pub open spec fn touched_list(files: Seq<Seq<char>>, root: Seq<char>, syms: Seq<(Seq<char>, Seq<char>)>) -> Seq<Seq<char>>
    decreases files.len(),
{
    if files.len() == 0 {
        Seq::empty()
    } else {
        touched_list(files.drop_last(), root, syms) + fqns_in(syms, abs_text(files.last(), root))
    }
}

pub open spec fn rippled_list(g: ImportGraph, files: Seq<Seq<char>>, root: Seq<char>, max: nat) -> Seq<Seq<char>>
    decreases files.len(),
{
    if files.len() == 0 {
        Seq::empty()
    } else {
        rippled_list(g, files.drop_last(), root, max) + g.transitive(abs_text(files.last(), root), max).map_values(
            |e: (Seq<char>, nat)| rel_text(e.0, root),
        )
    }
}

/// What a touch records.
pub struct TouchPlan {
    /// Architectural paths of the touched files, each once.
    pub arch_paths: Vec<String>,
    /// The symbols declared in the touched files, file by file.
    pub touched: Vec<String>,
    /// The files the change ripples to, relative to the root, each once.
    pub rippled: Vec<String>,
}

/// Works out what a touch of `files` (relative to `root` unless absolute)
/// records, with ripples followed up to `max_depth` levels.
pub fn plan_touch(files: &Vec<String>, root: &str, graph: &ImportGraph, symbols: &Vec<SymbolRef>, max_depth: u8) -> (r: TouchPlan)
    ensures
        strs(r.arch_paths@) == dedup(arch_list(strs(files@), root@)),
        strs(r.touched@) == touched_list(strs(files@), root@, refs_view(symbols@)),
        strs(r.rippled@) == dedup(rippled_list(*graph, strs(files@), root@, max_depth as nat)),
{
    let ghost fv = strs(files@);
    let ghost sv = refs_view(symbols@);
    let base = parse_path(root);
    let mut arch_paths: Vec<String> = Vec::new();
    let mut touched: Vec<String> = Vec::new();
    let mut rippled: Vec<String> = Vec::new();
    let mut i: usize = 0;
    while i < files.len()
        invariant
            i <= files.len(),
            fv == strs(files@),
            sv == refs_view(symbols@),
            base.pv() == pv_of(root@),
            strs(arch_paths@) == dedup(arch_list(fv.take(i as int), root@)),
            strs(touched@) == touched_list(fv.take(i as int), root@, sv),
            strs(rippled@) == dedup(rippled_list(*graph, fv.take(i as int), root@, max_depth as nat)),
        decreases files.len() - i,
    {
        let ghost prefix = fv.take(i as int);
        assert(fv.take(i + 1).drop_last() =~= prefix);
        assert(fv.take(i + 1).last() == files@[i as int]@);
        let joined = join_text(&base, files[i].as_str());
        let abs = render_path(&joined);
        assert(abs@ == abs_text(fv[i as int], root@));
        let names = symbols_in_file(symbols, &abs);
        let ghost t0 = strs(touched@);
        let mut j: usize = 0;
        while j < names.len()
            invariant
                j <= names.len(),
                strs(touched@) == t0 + strs(names@).take(j as int),
            decreases names.len() - j,
        {
            let ghost before = strs(touched@);
            touched.push(names[j].clone());
            assert(strs(touched@) =~= before.push(strs(names@)[j as int]));
            assert(strs(names@).take(j + 1) =~= strs(names@).take(j as int).push(strs(names@)[j as int]));
            j = j + 1;
        }
        assert(strs(names@).take(names.len() as int) =~= strs(names@));
        assert(strs(touched@) == touched_list(fv.take(i + 1), root@, sv));
        let deps = graph.transitive_dependents(&abs, max_depth);
        let ghost dv = depths_view(deps@);
        let ghost acc0 = rippled_list(*graph, prefix, root@, max_depth as nat);
        let ghost mapped = dv.map_values(|e: (Seq<char>, nat)| rel_text(e.0, root@));
        let mut k: usize = 0;
        while k < deps.len()
            invariant
                k <= deps.len(),
                dv == depths_view(deps@),
                mapped == dv.map_values(|e: (Seq<char>, nat)| rel_text(e.0, root@)),
                strs(rippled@) == dedup(acc0 + mapped.take(k as int)),
                strs(touched@) == touched_list(fv.take(i + 1), root@, sv),
            decreases deps.len() - k,
        {
            let rel = rel_display(&deps[k].0, root);
            assert(rel@ == mapped[k as int]);
            assert((acc0 + mapped.take(k + 1)).drop_last() =~= acc0 + mapped.take(k as int));
            assert((acc0 + mapped.take(k + 1)).last() == mapped[k as int]);
            push_unique(&mut rippled, rel);
            k = k + 1;
        }
        assert(mapped.take(deps.len() as int) =~= mapped);
        let arch = arch_path_of(abs.as_str(), root);
        let ghost al = arch_list(prefix, root@);
        assert(arch_list(fv.take(i + 1), root@) == al.push(arch@));
        assert(al.push(arch@).drop_last() =~= al);
        assert(strs(arch_paths@) == dedup(al));
        push_unique(&mut arch_paths, arch);
        i = i + 1;
    }
    assert(fv.take(files.len() as int) =~= fv);
    TouchPlan { arch_paths, touched, rippled }
}

} // verus!
