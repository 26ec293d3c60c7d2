//! Python: `class`/`def` declarations and `import`/`from ... import` lines.

use vstd::prelude::*;
use crate::text::{chars_of, string_of_range, lines, line_ranges, trim, trim_range};
use crate::pathmodel::split_on;
use crate::parser::{ParsedSymbol, ParsedImport, syms_view, imps_view, raw_view, raw_ok, finish, finish_symbols, collect_lines};
use crate::parser::pattern::{Pattern, compile, captures_of, matches_text, group};
use crate::parser::rust::optional_async;
use crate::parser::words::{first_word, first_word_range, strip_non_name, strip_range, split_ranges};

verus! {

pub open spec fn class_src() -> Seq<char> {
    "^class\\s+(\\w+)"@
}

pub open spec fn def_src() -> Seq<char> {
    "^(?:async\\s+)?def\\s+(\\w+)"@
}

pub open spec fn import_src() -> Seq<char> {
    "^import\\s+([\\w\\.]+)"@
}

pub open spec fn from_src() -> Seq<char> {
    "^from\\s+([\\w\\.]+)\\s+import\\s+(.+)$"@
}

/// `__name__`-style names, which are skipped.
pub open spec fn is_dunder(n: Seq<char>) -> bool {
    n.len() >= 2 && n[0] == '_' && n[1] == '_' && n[n.len() - 2] == '_' && n[n.len() - 1] == '_'
}

pub open spec fn is_comment(t: Seq<char>) -> bool {
    t.len() > 0 && t[0] == '#'
}

/// The declaration on line `k` (1-based), if any.
pub open spec fn symbol_on(line: Seq<char>, k: nat) -> Option<(Seq<char>, Seq<char>, nat)> {
    let t = trim(line);
    if is_comment(t) {
        None
    } else if matches_text(class_src(), t) {
        match group(class_src(), t, 1) {
            Some(n) => Some((n, "type"@, k)),
            None => None,
        }
    } else if matches_text(def_src(), t) {
        match group(def_src(), t, 1) {
            Some(n) => if is_dunder(n) {
                None
            } else {
                Some((n, "function"@, k))
            },
            None => None,
        }
    } else {
        None
    }
}

pub open spec fn symbols(src: Seq<char>) -> Seq<(Seq<char>, Seq<char>, nat, u64)> {
    let ls = lines(src);
    finish(ls, collect_lines(ls, |l: Seq<char>, k: nat| symbol_on(l, k), ls.len()))
}

/// Strips every leading `c`.
pub open spec fn strip_leading(s: Seq<char>, c: char) -> Seq<char>
    decreases s.len(),
{
    if s.len() > 0 && s[0] == c {
        strip_leading(s.drop_first(), c)
    } else {
        s
    }
}

/// The name one comma-separated piece of an import clause contributes.
pub open spec fn name_of_part(p: Seq<char>) -> Option<Seq<char>> {
    match first_word(p) {
        None => None,
        Some(w) => {
            let n = strip_non_name(w);
            if n.len() == 0 || n == seq!['*'] {
                None
            } else {
                Some(n)
            }
        },
    }
}

pub open spec fn names_of_parts(ps: Seq<Seq<char>>) -> Seq<Seq<char>>
    decreases ps.len(),
{
    if ps.len() == 0 {
        Seq::empty()
    } else {
        let r = names_of_parts(ps.drop_last());
        match name_of_part(ps.last()) {
            Some(n) => r.push(n),
            None => r,
        }
    }
}

/// `a, b as c, (d,` gives `a`, `b`, `d`.
pub open spec fn imported_names(clause: Seq<char>) -> Seq<Seq<char>> {
    names_of_parts(split_on(strip_leading(clause, '('), ','))
}

/// The import on one line, if any.
pub open spec fn import_on(line: Seq<char>, k: nat) -> Option<(Seq<char>, Seq<Seq<char>>)> {
    let t = trim(line);
    if is_comment(t) {
        None
    } else if matches_text(from_src(), t) {
        match (group(from_src(), t, 1), group(from_src(), t, 2)) {
            (Some(s), Some(c)) => Some((s, imported_names(c))),
            _ => None,
        }
    } else if matches_text(import_src(), t) {
        match group(import_src(), t, 1) {
            Some(s) => Some((s, Seq::empty())),
            None => None,
        }
    } else {
        None
    }
}

pub open spec fn imports(src: Seq<char>) -> Seq<(Seq<char>, Seq<Seq<char>>)> {
    let ls = lines(src);
    collect_lines(ls, |l: Seq<char>, k: nat| import_on(l, k), ls.len())
}

/// Names brought in by an import clause.
pub fn parse_imported_names(clause: &str) -> (r: Vec<String>)
    ensures
        r@.map_values(|s: String| s@) == imported_names(clause@),
{
    let v = chars_of(clause);
    let mut a: usize = 0;
    assert(v@.skip(0) =~= v@);
    while a < v.len() && v[a] == '('
        invariant
            a <= v.len(),
            strip_leading(v@.skip(a as int), '(') == strip_leading(v@, '('),
        decreases v.len() - a,
    {
        assert(v@.skip(a as int).drop_first() =~= v@.skip(a + 1));
        a = a + 1;
    }
    let ghost body = v@.subrange(a as int, v.len() as int);
    assert(body =~= v@.skip(a as int));
    assert(strip_leading(body, '(') == body);
    let parts = split_ranges(&v, a, v.len(), ',');
    let ghost ps = split_on(body, ',');
    let mut out: Vec<String> = Vec::new();
    let mut k: usize = 0;
    while k < parts.len()
        invariant
            k <= parts.len(),
            parts@.len() == ps.len(),
            ps == split_on(v@.subrange(a as int, v.len() as int), ','),
            forall|q: int|
                0 <= q < parts@.len() ==> {
                    &&& a <= (#[trigger] parts@[q]).0 <= parts@[q].1 <= v.len()
                    &&& v@.subrange(parts@[q].0 as int, parts@[q].1 as int) == ps[q]
                },
            out@.map_values(|s: String| s@) == names_of_parts(ps.take(k as int)),
        decreases parts.len() - k,
    {
        let ghost before = out@.map_values(|s: String| s@);
        assert(ps.take(k + 1).drop_last() =~= ps.take(k as int));
        assert(ps.take(k + 1).last() == ps[k as int]);
        let rg = parts[k];
        assert(ps[k as int] == v@.subrange(rg.0 as int, rg.1 as int));
        match first_word_range(&v, rg.0, rg.1) {
            None => {
                assert(name_of_part(ps[k as int]) is None);
            },
            Some(w) => {
                let (s0, s1) = strip_range(&v, w.0, w.1, true);
                let n = s1 - s0;
                let is_star = n == 1 && v[s0] == '*';
                proof {
                    let nm = v@.subrange(s0 as int, s1 as int);
                    if n == 1 && v@[s0 as int] == '*' {
                        assert(nm =~= seq!['*']);
                    }
                    if nm == seq!['*'] {
                        assert(nm.len() == 1);
                        assert(nm[0] == v@[s0 as int]);
                    }
                    assert(strip_non_name(v@.subrange(w.0 as int, w.1 as int)) == nm);
                }
                if n > 0 && !is_star {
                    let name = string_of_range(&v, s0, s1);
                    out.push(name);
                    assert(name_of_part(ps[k as int]) == Some(name@));
                    assert(out@.map_values(|s: String| s@) =~= before.push(name@));
                } else {
                    assert(name_of_part(ps[k as int]) is None);
                }
            },
        }
        k = k + 1;
    }
    assert(ps.take(parts.len() as int) =~= ps);
    out
}

fn is_dunder_exec(v: &Vec<char>, a: usize, b: usize) -> (r: bool)
    requires
        a <= b <= v.len(),
    ensures
        r == is_dunder(v@.subrange(a as int, b as int)),
{
    b - a >= 2 && v[a] == '_' && v[a + 1] == '_' && v[b - 2] == '_' && v[b - 1] == '_'
}

/// Group 1 of a match as a string, located inside `t`.
fn symbol_on_exec(
    class_re: &Option<Pattern>,
    def_re: &Option<Pattern>,
    v: &Vec<char>,
    a: usize,
    b: usize,
    k: usize,
) -> (r: Option<(String, String, usize)>)
    requires
        a <= b <= v.len(),
        class_re is Some <==> crate::parser::pattern::regex_valid(class_src()),
        class_re matches Some(p) ==> p.source() == class_src(),
        def_re is Some <==> crate::parser::pattern::regex_valid(def_src()),
        def_re matches Some(p) ==> p.source() == def_src(),
    ensures
        match r {
            None => symbol_on_trimmed(v@.subrange(a as int, b as int), k as nat) is None,
            Some(x) => symbol_on_trimmed(v@.subrange(a as int, b as int), k as nat) == Some((x.0@, x.1@, x.2 as nat)),
        },
{
    let ghost t = v@.subrange(a as int, b as int);
    if a < b && v[a] == '#' {
        return None;
    }
    let text = string_of_range(v, a, b);
    match captures_of(class_re, text.as_str(), Ghost(class_src())) {
        Some(gs) => {
            if gs.len() > 1 {
                match &gs[1] {
                    Some(n) => Some((n.clone(), "type".to_owned(), k)),
                    None => None,
                }
            } else {
                None
            }
        },
        None => {
            match captures_of(def_re, text.as_str(), Ghost(def_src())) {
                Some(gs) => {
                    if gs.len() > 1 {
                        match &gs[1] {
                            Some(n) => {
                                let nv = chars_of(n.as_str());
                                if is_dunder_exec(&nv, 0, nv.len()) {
                                    None
                                } else {
                                    assert(nv@.subrange(0, nv.len() as int) =~= nv@);
                                    Some((n.clone(), "function".to_owned(), k))
                                }
                            },
                            None => None,
                        }
                    } else {
                        None
                    }
                },
                None => None,
            }
        },
    }
}

/// `symbol_on` once the line is trimmed.
pub open spec fn symbol_on_trimmed(t: Seq<char>, k: nat) -> Option<(Seq<char>, Seq<char>, nat)> {
    if is_comment(t) {
        None
    } else if matches_text(class_src(), t) {
        match group(class_src(), t, 1) {
            Some(n) => Some((n, "type"@, k)),
            None => None,
        }
    } else if matches_text(def_src(), t) {
        match group(def_src(), t, 1) {
            Some(n) => if is_dunder(n) {
                None
            } else {
                Some((n, "function"@, k))
            },
            None => None,
        }
    } else {
        None
    }
}

/// Classes and functions declared in Python source.
pub fn extract_symbols(src: &str) -> (r: Vec<ParsedSymbol>)
    ensures
        syms_view(r@) == symbols(src@),
{
    let class_re = compile("^class\\s+(\\w+)");
    let def_re = compile("^(?:async\\s+)?def\\s+(\\w+)");
    let v = chars_of(src);
    let ranges = line_ranges(&v);
    let ghost ls = lines(v@);
    let ghost f = |l: Seq<char>, k: nat| symbol_on(l, k);
    let mut raw: Vec<(String, String, usize)> = Vec::new();
    let mut i: usize = 0;
    while i < ranges.len()
        invariant
            i <= ranges.len(),
            ls == lines(v@),
            ranges@.len() == ls.len(),
            forall|q: int|
                0 <= q < ranges@.len() ==> {
                    &&& (#[trigger] ranges@[q]).0 <= ranges@[q].1 <= v.len()
                    &&& v@.subrange(ranges@[q].0 as int, ranges@[q].1 as int) == ls[q]
                },
            class_re is Some <==> crate::parser::pattern::regex_valid(class_src()),
            class_re matches Some(p) ==> p.source() == class_src(),
            def_re is Some <==> crate::parser::pattern::regex_valid(def_src()),
            def_re matches Some(p) ==> p.source() == def_src(),
            f == (|l: Seq<char>, k: nat| symbol_on(l, k)),
            raw_view(raw@) == collect_lines(ls, f, i as nat),
            raw_ok(raw_view(raw@), i as nat),
        decreases ranges.len() - i,
    {
        let rg = ranges[i];
        let (a, b) = trim_range(&v, rg.0, rg.1);
        let ghost before = raw_view(raw@);
        let sym = symbol_on_exec(&class_re, &def_re, &v, a, b, i + 1);
        assert(symbol_on(ls[i as int], (i + 1) as nat) == symbol_on_trimmed(v@.subrange(a as int, b as int), (i + 1) as nat));
        match sym {
            Some(x) => {
                raw.push(x);
                assert(raw_view(raw@) =~= before.push((x.0@, x.1@, x.2 as nat)));
            },
            None => {},
        }
        assert(raw_view(raw@) == collect_lines(ls, f, (i + 1) as nat));
        i = i + 1;
    }
    finish_symbols(&v, &ranges, raw)
}

/// `import_on` once the line is trimmed.
pub open spec fn import_on_trimmed(t: Seq<char>) -> Option<(Seq<char>, Seq<Seq<char>>)> {
    if is_comment(t) {
        None
    } else if matches_text(from_src(), t) {
        match (group(from_src(), t, 1), group(from_src(), t, 2)) {
            (Some(s), Some(c)) => Some((s, imported_names(c))),
            _ => None,
        }
    } else if matches_text(import_src(), t) {
        match group(import_src(), t, 1) {
            Some(s) => Some((s, Seq::empty())),
            None => None,
        }
    } else {
        None
    }
}

fn import_on_exec(import_re: &Option<Pattern>, from_re: &Option<Pattern>, v: &Vec<char>, a: usize, b: usize) -> (r:
    Option<ParsedImport>)
    requires
        a <= b <= v.len(),
        import_re is Some <==> crate::parser::pattern::regex_valid(import_src()),
        import_re matches Some(p) ==> p.source() == import_src(),
        from_re is Some <==> crate::parser::pattern::regex_valid(from_src()),
        from_re matches Some(p) ==> p.source() == from_src(),
    ensures
        match r {
            None => import_on_trimmed(v@.subrange(a as int, b as int)) is None,
            Some(x) => import_on_trimmed(v@.subrange(a as int, b as int)) == Some(crate::parser::imp_view(x)),
        },
{
    if a < b && v[a] == '#' {
        return None;
    }
    let text = string_of_range(v, a, b);
    match captures_of(from_re, text.as_str(), Ghost(from_src())) {
        Some(gs) => {
            if gs.len() > 2 {
                match (&gs[1], &gs[2]) {
                    (Some(src), Some(clause)) => {
                        let names = parse_imported_names(clause.as_str());
                        Some(ParsedImport { source: src.clone(), names })
                    },
                    _ => None,
                }
            } else {
                None
            }
        },
        None => {
            match captures_of(import_re, text.as_str(), Ghost(import_src())) {
                Some(gs) => {
                    if gs.len() > 1 {
                        match &gs[1] {
                            Some(src) => {
                                let names: Vec<String> = Vec::new();
                                assert(names@.map_values(|n: String| n@) =~= Seq::<Seq<char>>::empty());
                                Some(ParsedImport { source: src.clone(), names })
                            },
                            None => None,
                        }
                    } else {
                        None
                    }
                },
                None => None,
            }
        },
    }
}

/// `import` and `from ... import` statements in Python source. The source
/// keeps its leading dots: the resolver climbs one directory per extra dot.
pub fn extract_imports(src: &str) -> (r: Vec<ParsedImport>)
    ensures
        imps_view(r@) == imports(src@),
{
    let import_re = compile("^import\\s+([\\w\\.]+)");
    let from_re = compile("^from\\s+([\\w\\.]+)\\s+import\\s+(.+)$");
    let v = chars_of(src);
    let ranges = line_ranges(&v);
    let ghost ls = lines(v@);
    let ghost f = |l: Seq<char>, k: nat| import_on(l, k);
    let mut out: Vec<ParsedImport> = Vec::new();
    let mut i: usize = 0;
    while i < ranges.len()
        invariant
            i <= ranges.len(),
            ls == lines(v@),
            ranges@.len() == ls.len(),
            forall|q: int|
                0 <= q < ranges@.len() ==> {
                    &&& (#[trigger] ranges@[q]).0 <= ranges@[q].1 <= v.len()
                    &&& v@.subrange(ranges@[q].0 as int, ranges@[q].1 as int) == ls[q]
                },
            import_re is Some <==> crate::parser::pattern::regex_valid(import_src()),
            import_re matches Some(p) ==> p.source() == import_src(),
            from_re is Some <==> crate::parser::pattern::regex_valid(from_src()),
            from_re matches Some(p) ==> p.source() == from_src(),
            f == (|l: Seq<char>, k: nat| import_on(l, k)),
            imps_view(out@) == collect_lines(ls, f, i as nat),
        decreases ranges.len() - i,
    {
        let rg = ranges[i];
        let (a, b) = trim_range(&v, rg.0, rg.1);
        let ghost before = imps_view(out@);
        let imp = import_on_exec(&import_re, &from_re, &v, a, b);
        assert(import_on(ls[i as int], (i + 1) as nat) == import_on_trimmed(v@.subrange(a as int, b as int)));
        match imp {
            Some(x) => {
                let ghost xv = crate::parser::imp_view(x);
                out.push(x);
                assert(imps_view(out@) =~= before.push(xv));
            },
            None => {},
        }
        assert(imps_view(out@) == collect_lines(ls, f, (i + 1) as nat));
        i = i + 1;
    }
    out
}

/// Functions are found whether or not they are `async`: the pattern for
/// `def` is the line start, the optional `async`, then `def` and the name.
pub proof fn lemma_defs_allow_async()
    ensures
        def_src() == "^"@ + optional_async() + "def\\s+(\\w+)"@,
{
    reveal_strlit("^");
    reveal_strlit("(?:async\\s+)?");
    reveal_strlit("def\\s+(\\w+)");
    reveal_strlit("^(?:async\\s+)?def\\s+(\\w+)");
    assert(def_src() =~= "^"@ + optional_async() + "def\\s+(\\w+)"@);
}

/// Comment lines declare nothing: a line whose trimmed text starts with `#`
/// yields no symbol.
pub proof fn lemma_comment_lines_declare_nothing(line: Seq<char>, k: nat)
    requires
        trim(line).len() > 0 && trim(line)[0] == '#',
    ensures
        symbol_on(line, k) is None,
{
}

} // verus!
