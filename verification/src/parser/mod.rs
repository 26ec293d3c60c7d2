//! Symbol and import extraction, dispatched on the file's extension.

pub mod pattern;
pub mod words;
pub mod python;
pub mod rust;
pub mod typescript;


use vstd::prelude::*;
use crate::text::{lines, join_with, push_range};
use crate::parser::pattern::{str_hash, hash_str};
use crate::pathmodel::{extension, extension_of};

verus! {

/// A top-level declaration found in a source file.
#[derive(Clone, Debug)]
pub struct ParsedSymbol {
    pub name: String,
    pub kind: String,
    /// 1-based line of the declaration.
    pub line: usize,
    /// Hash of the declaration's text, up to the next declaration.
    pub body_hash: u64,
}

/// An import statement: where from, and which names.
#[derive(Clone, Debug)]
pub struct ParsedImport {
    pub source: String,
    pub names: Vec<String>,
}

pub open spec fn sym_view(s: ParsedSymbol) -> (Seq<char>, Seq<char>, nat, u64) {
    (s.name@, s.kind@, s.line as nat, s.body_hash)
}

pub open spec fn syms_view(v: Seq<ParsedSymbol>) -> Seq<(Seq<char>, Seq<char>, nat, u64)> {
    v.map_values(|s: ParsedSymbol| sym_view(s))
}

pub open spec fn imp_view(i: ParsedImport) -> (Seq<char>, Seq<Seq<char>>) {
    (i.source@, i.names@.map_values(|n: String| n@))
}

pub open spec fn imps_view(v: Seq<ParsedImport>) -> Seq<(Seq<char>, Seq<Seq<char>>)> {
    v.map_values(|i: ParsedImport| imp_view(i))
}

/// A declaration before its body is hashed: name, kind, 1-based line.
pub open spec fn raw_view(v: Seq<(String, String, usize)>) -> Seq<(Seq<char>, Seq<char>, nat)> {
    v.map_values(|e: (String, String, usize)| (e.0@, e.1@, e.2 as nat))
}

/// Declarations on distinct lines in increasing order, all within the file.
pub open spec fn raw_ok(raw: Seq<(Seq<char>, Seq<char>, nat)>, total: nat) -> bool {
    &&& forall|i: int| 0 <= i < raw.len() ==> 1 <= #[trigger] raw[i].2 <= total
    &&& forall|i: int, j: int| 0 <= i < j < raw.len() ==> #[trigger] raw[i].2 < #[trigger] raw[j].2
}

/// A declaration's body ends where the next one starts (or at the end).
pub open spec fn body_end(raw: Seq<(Seq<char>, Seq<char>, nat)>, total: nat, i: int) -> int {
    if i + 1 < raw.len() {
        let e = raw[i + 1].2 - 1;
        if e < total {
            e
        } else {
            total as int
        }
    } else {
        total as int
    }
}

/// The declarations with their bodies hashed: the body of one runs from its
/// own line to the line before the next declaration, joined with `\n`.
pub open spec fn finish(lines: Seq<Seq<char>>, raw: Seq<(Seq<char>, Seq<char>, nat)>) -> Seq<(Seq<char>, Seq<char>, nat, u64)> {
    Seq::new(
        raw.len(),
        |i: int|
            (
                raw[i].0,
                raw[i].1,
                raw[i].2,
                str_hash(join_with(lines.subrange(raw[i].2 - 1, body_end(raw, lines.len(), i)), '\n')),
            ),
    )
}

/// Hashes the body of each declaration.
pub fn finish_symbols(v: &Vec<char>, ranges: &Vec<(usize, usize)>, raw: Vec<(String, String, usize)>) -> (r: Vec<
    ParsedSymbol,
>)
    requires
        ranges@.len() == lines(v@).len(),
        forall|k: int|
            0 <= k < ranges@.len() ==> {
                &&& (#[trigger] ranges@[k]).0 <= ranges@[k].1 <= v.len()
                &&& v@.subrange(ranges@[k].0 as int, ranges@[k].1 as int) == lines(v@)[k]
            },
        raw_ok(raw_view(raw@), lines(v@).len()),
    ensures
        syms_view(r@) == finish(lines(v@), raw_view(raw@)),
{
    let ghost ls = lines(v@);
    let ghost rv = raw_view(raw@);
    let total = ranges.len();
    let mut out: Vec<ParsedSymbol> = Vec::new();
    let mut i: usize = 0;
    while i < raw.len()
        invariant
            i <= raw.len(),
            total == ls.len(),
            ls == lines(v@),
            rv == raw_view(raw@),
            raw_ok(rv, total as nat),
            ranges@.len() == total,
            forall|k: int|
                0 <= k < ranges@.len() ==> {
                    &&& (#[trigger] ranges@[k]).0 <= ranges@[k].1 <= v.len()
                    &&& v@.subrange(ranges@[k].0 as int, ranges@[k].1 as int) == ls[k]
                },
            out@.len() == i,
            forall|k: int| 0 <= k < i ==> #[trigger] sym_view(out@[k]) == finish(ls, rv)[k],
        decreases raw.len() - i,
    {
        let line = raw[i].2;
        assert(rv[i as int].2 == line);
        let start = line - 1;
        let end = if i + 1 < raw.len() {
            assert(rv[i + 1].2 == raw@[i + 1].2);
            let e = raw[i + 1].2 - 1;
            if e < total { e } else { total }
        } else {
            total
        };
        assert(end == body_end(rv, total as nat, i as int));
        assert(start < end) by {
            if i + 1 < raw.len() {
                assert(rv[i as int].2 < rv[i + 1].2);
            }
        }
        let mut body = String::new();
        let mut k = start;
        while k < end
            invariant
                start <= k <= end <= total,
                ranges@.len() == total,
                forall|q: int|
                    0 <= q < ranges@.len() ==> {
                        &&& (#[trigger] ranges@[q]).0 <= ranges@[q].1 <= v.len()
                        &&& v@.subrange(ranges@[q].0 as int, ranges@[q].1 as int) == ls[q]
                    },
                ls.len() == total,
                body@ == join_with(ls.subrange(start as int, k as int), '\n'),
            decreases end - k,
        {
            let ghost before = body@;
            let ghost part = ls.subrange(start as int, k + 1);
            assert(part.drop_last() =~= ls.subrange(start as int, k as int));
            assert(part.last() == ls[k as int]);
            if k > start {
                body.push('\n');
            }
            let rg = ranges[k];
            push_range(&mut body, v, rg.0, rg.1);
            if k == start {
                assert(body@ =~= join_with(part, '\n'));
            } else {
                assert(body@ =~= join_with(part, '\n'));
            }
            k = k + 1;
        }
        let h = hash_str(body.as_str());
        let sym = ParsedSymbol { name: raw[i].0.clone(), kind: raw[i].1.clone(), line, body_hash: h };
        out.push(sym);
        i = i + 1;
    }
    assert(syms_view(out@) =~= finish(ls, rv));
    out
}

/// What a per-line classifier yields for the first `n` lines, in order.
pub open spec fn collect_lines<T>(ls: Seq<Seq<char>>, f: spec_fn(Seq<char>, nat) -> Option<T>, n: nat) -> Seq<T>
    decreases n,
{
    if n == 0 || n > ls.len() {
        Seq::empty()
    } else {
        let prev = collect_lines(ls, f, (n - 1) as nat);
        match f(ls[n - 1], n) {
            Some(x) => prev.push(x),
            None => prev,
        }
    }
}

/// The language family of an extension.
pub open spec fn is_ts_ext(e: Seq<char>) -> bool {
    e == "ts"@ || e == "tsx"@ || e == "js"@ || e == "jsx"@
}

/// What `extract_symbols` finds in `src` for a file at `path`.
pub open spec fn symbols_for(src: Seq<char>, path: Seq<char>) -> Seq<(Seq<char>, Seq<char>, nat, u64)> {
    match extension(path) {
        Some(e) => if is_ts_ext(e) {
            crate::parser::typescript::symbols(src)
        } else if e == "rs"@ {
            crate::parser::rust::symbols(src)
        } else if e == "py"@ {
            crate::parser::python::symbols(src)
        } else {
            Seq::empty()
        },
        None => Seq::empty(),
    }
}

/// What `extract_imports` finds in `src` for a file at `path`: the
/// TypeScript/JavaScript and Python extractors (Rust imports are not
/// extracted).
pub open spec fn imports_for(src: Seq<char>, path: Seq<char>) -> Seq<(Seq<char>, Seq<Seq<char>>)> {
    match extension(path) {
        Some(e) => if is_ts_ext(e) {
            crate::parser::typescript::imports(src)
        } else if e == "py"@ {
            crate::parser::python::imports(src)
        } else {
            Seq::empty()
        },
        None => Seq::empty(),
    }
}

/// A symbol's body hash depends on its own lines only: with the same
/// declarations, editing lines strictly inside symbol `k`'s body (after its
/// declaration line, before the next declaration) leaves every other
/// symbol, hash included, as it was, and `k`'s name, kind and line too.
pub proof fn lemma_hash_local(
    lines1: Seq<Seq<char>>,
    lines2: Seq<Seq<char>>,
    raw: Seq<(Seq<char>, Seq<char>, nat)>,
    k: int,
)
    requires
        raw_ok(raw, lines1.len()),
        lines1.len() == lines2.len(),
        0 <= k < raw.len(),
        forall|l: int| 0 <= l < lines1.len() && !(raw[k].2 <= l < body_end(raw, lines1.len(), k)) ==> #[trigger] lines1[l]
            == lines2[l],
    ensures
        finish(lines1, raw).len() == finish(lines2, raw).len(),
        forall|j: int| 0 <= j < raw.len() && j != k ==> #[trigger] finish(lines1, raw)[j] == finish(lines2, raw)[j],
        finish(lines1, raw)[k].0 == finish(lines2, raw)[k].0,
        finish(lines1, raw)[k].1 == finish(lines2, raw)[k].1,
        finish(lines1, raw)[k].2 == finish(lines2, raw)[k].2,
{
    let total = lines1.len();
    assert forall|j: int| 0 <= j < raw.len() && j != k implies #[trigger] finish(lines1, raw)[j] == finish(lines2, raw)[j] by {
        let a = raw[j].2 - 1;
        let b = body_end(raw, total, j);
        if j < k {
            assert(raw[j + 1].2 <= raw[k].2) by {
                if j + 1 < k {
                    assert(raw[j + 1].2 < raw[k].2);
                }
            }
        } else {
            assert(raw[k + 1].2 <= raw[j].2) by {
                if k + 1 < j {
                    assert(raw[k + 1].2 < raw[j].2);
                }
            }
        }
        assert(lines1.subrange(a, b) =~= lines2.subrange(a, b)) by {
            assert forall|l: int| 0 <= l < b - a implies lines1.subrange(a, b)[l] == lines2.subrange(a, b)[l] by {
                assert(lines1[a + l] == lines2[a + l]);
            }
        }
    }
}

fn ts_ext(e: &String) -> (r: bool)
    ensures
        r == is_ts_ext(e@),
{
    *e == "ts".to_owned() || *e == "tsx".to_owned() || *e == "js".to_owned() || *e == "jsx".to_owned()
}

/// Declarations in `src`, by the language its path's extension names.
pub fn extract_symbols(src: &str, path: &str) -> (r: Vec<ParsedSymbol>)
    ensures
        syms_view(r@) == symbols_for(src@, path@),
{
    match extension_of(path) {
        Some(e) => {
            if ts_ext(&e) {
                crate::parser::typescript::extract_symbols(src)
            } else if e == "rs".to_owned() {
                crate::parser::rust::extract_symbols(src)
            } else if e == "py".to_owned() {
                crate::parser::python::extract_symbols(src)
            } else {
                let r: Vec<ParsedSymbol> = Vec::new();
                assert(syms_view(r@) =~= Seq::empty());
                r
            }
        },
        None => {
            let r: Vec<ParsedSymbol> = Vec::new();
            assert(syms_view(r@) =~= Seq::empty());
            r
        },
    }
}

/// Imports in `src`, by the language its path's extension names.
pub fn extract_imports(src: &str, path: &str) -> (r: Vec<ParsedImport>)
    ensures
        imps_view(r@) == imports_for(src@, path@),
{
    match extension_of(path) {
        Some(e) => {
            if ts_ext(&e) {
                crate::parser::typescript::extract_imports(src)
            } else if e == "py".to_owned() {
                crate::parser::python::extract_imports(src)
            } else {
                let r: Vec<ParsedImport> = Vec::new();
                assert(imps_view(r@) =~= Seq::empty());
                r
            }
        },
        None => {
            let r: Vec<ParsedImport> = Vec::new();
            assert(imps_view(r@) =~= Seq::empty());
            r
        },
    }
}

} // verus!
