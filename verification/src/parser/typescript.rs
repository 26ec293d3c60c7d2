//! TypeScript and JavaScript: type-like declarations, functions, arrow and
//! `const` function components, and relative `import`/`require` lines.

use vstd::prelude::*;
use crate::text::{chars_of, string_of_range, lines, line_ranges, trim, trim_range};
use crate::pathmodel::split_on;
use crate::parser::{ParsedSymbol, ParsedImport, syms_view, imps_view, imp_view, raw_view, raw_ok, finish, finish_symbols, collect_lines};
use crate::parser::pattern::{Pattern, compile, match_group1, captures_of, matches_text, group, regex_valid, is_upper, char_is_uppercase};
use crate::parser::words::{starts_with, find_sub, find_sub_exec, contains_sub, split_ranges};
use crate::parser::rust::{is_comment, compiled_from, optional_async};

verus! {

pub open spec fn type_src() -> Seq<char> {
    "(?:export\\s+)?(?:type|interface|enum|class)\\s+(\\w+)"@
}

pub open spec fn func_src() -> Seq<char> {
    "(?:export\\s+)?(?:async\\s+)?function\\s+(\\w+)"@
}

pub open spec fn const_fn_src() -> Seq<char> {
    "(?:export\\s+)?const\\s+(\\w+)\\s*=\\s*(?:async\\s*)?\\("@
}

pub open spec fn arrow_src() -> Seq<char> {
    "(?:export\\s+)?const\\s+(\\w+)\\s*=\\s*(?:async\\s*)?\\([^)]*\\)\\s*(?::\\s*\\w+\\s*)?=>"@
}

pub open spec fn import_src() -> Seq<char> {
    "import\\s+\\{([^}]+)\\}\\s+from\\s+['\"](\\.\\.?/[^'\"]+)['\"]"@
}

pub open spec fn default_src() -> Seq<char> {
    "import\\s+(\\w+)\\s+from\\s+['\"](\\.\\.?/[^'\"]+)['\"]"@
}

pub open spec fn require_src() -> Seq<char> {
    "require\\(['\"](\\.\\.?/[^'\"]+)['\"]\\)"@
}

pub open spec fn tsx_mark() -> Seq<char> {
    seq!['.', 't', 's', 'x']
}

pub open spec fn as_sep() -> Seq<char> {
    seq![' ', 'a', 's', ' ']
}

/// Whether a name starts with an uppercase letter.
pub open spec fn upper_first(n: Seq<char>) -> bool {
    n.len() > 0 && is_upper(n[0])
}

/// The declaration on a trimmed line.
pub open spec fn symbol_on_trimmed(t: Seq<char>, k: nat) -> Option<(Seq<char>, Seq<char>, nat)> {
    if is_comment(t) {
        None
    } else if matches_text(type_src(), t) {
        match group(type_src(), t, 1) {
            Some(n) => Some((n, "type"@, k)),
            None => None,
        }
    } else if matches_text(func_src(), t) {
        match group(func_src(), t, 1) {
            Some(n) => Some((n, "function"@, k)),
            None => None,
        }
    } else if matches_text(arrow_src(), t) {
        match group(arrow_src(), t, 1) {
            Some(n) => if upper_first(n) && contains_sub(t, tsx_mark()) {
                Some((n, "component"@, k))
            } else {
                Some((n, "function"@, k))
            },
            None => None,
        }
    } else if matches_text(const_fn_src(), t) {
        match group(const_fn_src(), t, 1) {
            Some(n) => if upper_first(n) {
                Some((n, "component"@, k))
            } else {
                Some((n, "function"@, k))
            },
            None => None,
        }
    } else {
        None
    }
}

pub open spec fn symbol_on(line: Seq<char>, k: nat) -> Option<(Seq<char>, Seq<char>, nat)> {
    symbol_on_trimmed(trim(line), k)
}

pub open spec fn symbols(src: Seq<char>) -> Seq<(Seq<char>, Seq<char>, nat, u64)> {
    let ls = lines(src);
    finish(ls, collect_lines(ls, |l: Seq<char>, k: nat| symbol_on(l, k), ls.len()))
}

/// The name one comma-separated piece of `{ a, b as c }` contributes.
pub open spec fn name_of_piece(p: Seq<char>) -> Option<Seq<char>> {
    let s = trim(p);
    let i = find_sub(s, as_sep());
    let n = if i >= 0 {
        trim(s.take(i))
    } else {
        s
    };
    if n.len() == 0 {
        None
    } else {
        Some(n)
    }
}

pub open spec fn names_of_pieces(ps: Seq<Seq<char>>) -> Seq<Seq<char>>
    decreases ps.len(),
{
    if ps.len() == 0 {
        Seq::empty()
    } else {
        let r = names_of_pieces(ps.drop_last());
        match name_of_piece(ps.last()) {
            Some(n) => r.push(n),
            None => r,
        }
    }
}

/// The relative import on a trimmed line, if any.
pub open spec fn import_on_trimmed(t: Seq<char>) -> Option<(Seq<char>, Seq<Seq<char>>)> {
    if matches_text(import_src(), t) {
        match (group(import_src(), t, 1), group(import_src(), t, 2)) {
            (Some(ns), Some(s)) => Some((s, names_of_pieces(split_on(ns, ',')))),
            _ => None,
        }
    } else if matches_text(default_src(), t) {
        match (group(default_src(), t, 1), group(default_src(), t, 2)) {
            (Some(n), Some(s)) => Some((s, seq![n])),
            _ => None,
        }
    } else if matches_text(require_src(), t) {
        match group(require_src(), t, 1) {
            Some(s) => Some((s, Seq::empty())),
            None => None,
        }
    } else {
        None
    }
}

pub open spec fn import_on(line: Seq<char>, k: nat) -> Option<(Seq<char>, Seq<Seq<char>>)> {
    import_on_trimmed(trim(line))
}

pub open spec fn imports(src: Seq<char>) -> Seq<(Seq<char>, Seq<Seq<char>>)> {
    let ls = lines(src);
    collect_lines(ls, |l: Seq<char>, k: nat| import_on(l, k), ls.len())
}

pub struct TsPatterns {
    pub ty: Option<Pattern>,
    pub func: Option<Pattern>,
    pub const_fn: Option<Pattern>,
    pub arrow: Option<Pattern>,
}

impl TsPatterns {
    pub open spec fn wf(&self) -> bool {
        &&& compiled_from(self.ty, type_src())
        &&& compiled_from(self.func, func_src())
        &&& compiled_from(self.const_fn, const_fn_src())
        &&& compiled_from(self.arrow, arrow_src())
    }

    pub fn new() -> (r: Self)
        ensures
            r.wf(),
    {
        TsPatterns {
            ty: compile("(?:export\\s+)?(?:type|interface|enum|class)\\s+(\\w+)"),
            func: compile("(?:export\\s+)?(?:async\\s+)?function\\s+(\\w+)"),
            const_fn: compile("(?:export\\s+)?const\\s+(\\w+)\\s*=\\s*(?:async\\s*)?\\("),
            arrow: compile("(?:export\\s+)?const\\s+(\\w+)\\s*=\\s*(?:async\\s*)?\\([^)]*\\)\\s*(?::\\s*\\w+\\s*)?=>"),
        }
    }
}

fn upper_first_exec(n: &String) -> (r: bool)
    ensures
        r == upper_first(n@),
{
    let v = chars_of(n.as_str());
    v.len() > 0 && char_is_uppercase(v[0])
}

fn symbol_on_exec(pats: &TsPatterns, tv: &Vec<char>, k: usize) -> (r: Option<(String, String, usize)>)
    requires
        pats.wf(),
    ensures
        match r {
            None => symbol_on_trimmed(tv@, k as nat) is None,
            Some(x) => symbol_on_trimmed(tv@, k as nat) == Some((x.0@, x.1@, x.2 as nat)),
        },
{
    let ghost t = tv@;
    let n = tv.len();
    let c0 = n > 0 && tv[0] == '*';
    let c1 = n > 1 && tv[0] == '/' && tv[1] == '/';
    let c2 = n > 1 && tv[0] == '/' && tv[1] == '*';
    assert(starts_with(t, seq!['*']) == c0) by {
        if c0 { assert(t.subrange(0, 1) =~= seq!['*']); }
        if starts_with(t, seq!['*']) { assert(t.subrange(0, 1)[0] == t[0]); }
    }
    assert(starts_with(t, seq!['/', '/']) == c1) by {
        if c1 { assert(t.subrange(0, 2) =~= seq!['/', '/']); }
        if starts_with(t, seq!['/', '/']) { assert(t.subrange(0, 2)[0] == t[0]); assert(t.subrange(0, 2)[1] == t[1]); }
    }
    assert(starts_with(t, seq!['/', '*']) == c2) by {
        if c2 { assert(t.subrange(0, 2) =~= seq!['/', '*']); }
        if starts_with(t, seq!['/', '*']) { assert(t.subrange(0, 2)[0] == t[0]); assert(t.subrange(0, 2)[1] == t[1]); }
    }
    if c0 || c1 || c2 {
        return None;
    }
    let text = string_of_range(tv, 0, n);
    assert(t.subrange(0, n as int) =~= t);
    if let Some(g) = match_group1(&pats.ty, text.as_str(), Ghost(type_src())) {
        return match g {
            Some(nm) => Some((nm, "type".to_owned(), k)),
            None => None,
        };
    }
    if let Some(g) = match_group1(&pats.func, text.as_str(), Ghost(func_src())) {
        return match g {
            Some(nm) => Some((nm, "function".to_owned(), k)),
            None => None,
        };
    }
    if let Some(g) = match_group1(&pats.arrow, text.as_str(), Ghost(arrow_src())) {
        return match g {
            Some(nm) => {
                let mark = ['.', 't', 's', 'x'];
                assert(mark@ =~= tsx_mark());
                let comp = upper_first_exec(&nm) && find_sub_exec(tv, &mark, 0).is_some();
                if comp {
                    Some((nm, "component".to_owned(), k))
                } else {
                    Some((nm, "function".to_owned(), k))
                }
            },
            None => None,
        };
    }
    if let Some(g) = match_group1(&pats.const_fn, text.as_str(), Ghost(const_fn_src())) {
        return match g {
            Some(nm) => {
                if upper_first_exec(&nm) {
                    Some((nm, "component".to_owned(), k))
                } else {
                    Some((nm, "function".to_owned(), k))
                }
            },
            None => None,
        };
    }
    None
}

/// Declarations in TypeScript or JavaScript source.
pub fn extract_symbols(src: &str) -> (r: Vec<ParsedSymbol>)
    ensures
        syms_view(r@) == symbols(src@),
{
    let pats = TsPatterns::new();
    let v = chars_of(src);
    let ranges = line_ranges(&v);
    let ghost ls = lines(v@);
    let ghost f = |l: Seq<char>, k: nat| symbol_on(l, k);
    let mut raw: Vec<(String, String, usize)> = Vec::new();
    let mut i: usize = 0;
    while i < ranges.len()
        invariant
            i <= ranges.len(),
            ls == lines(v@),
            ranges@.len() == ls.len(),
            forall|q: int|
                0 <= q < ranges@.len() ==> {
                    &&& (#[trigger] ranges@[q]).0 <= ranges@[q].1 <= v.len()
                    &&& v@.subrange(ranges@[q].0 as int, ranges@[q].1 as int) == ls[q]
                },
            pats.wf(),
            f == (|l: Seq<char>, k: nat| symbol_on(l, k)),
            raw_view(raw@) == collect_lines(ls, f, i as nat),
            raw_ok(raw_view(raw@), i as nat),
        decreases ranges.len() - i,
    {
        let rg = ranges[i];
        let (a, b) = trim_range(&v, rg.0, rg.1);
        let text = string_of_range(&v, a, b);
        let tv = chars_of(text.as_str());
        let ghost before = raw_view(raw@);
        let sym = symbol_on_exec(&pats, &tv, i + 1);
        assert(symbol_on(ls[i as int], (i + 1) as nat) == symbol_on_trimmed(tv@, (i + 1) as nat));
        match sym {
            Some(x) => {
                raw.push(x);
                assert(raw_view(raw@) =~= before.push((x.0@, x.1@, x.2 as nat)));
            },
            None => {},
        }
        assert(raw_view(raw@) == collect_lines(ls, f, (i + 1) as nat));
        i = i + 1;
    }
    finish_symbols(&v, &ranges, raw)
}

/// Names listed in `{ a, b as c }`, without their aliases.
fn names_of_clause(clause: &String) -> (r: Vec<String>)
    ensures
        r@.map_values(|s: String| s@) == names_of_pieces(split_on(clause@, ',')),
{
    let v = chars_of(clause.as_str());
    assert(v@.subrange(0, v.len() as int) =~= v@);
    let parts = split_ranges(&v, 0, v.len(), ',');
    let ghost ps = split_on(v@, ',');
    let sep = [' ', 'a', 's', ' '];
    assert(sep@ =~= as_sep());
    let mut out: Vec<String> = Vec::new();
    let mut k: usize = 0;
    while k < parts.len()
        invariant
            k <= parts.len(),
            sep@ == as_sep(),
            parts@.len() == ps.len(),
            ps == split_on(v@.subrange(0, v.len() as int), ','),
            forall|q: int|
                0 <= q < parts@.len() ==> {
                    &&& (#[trigger] parts@[q]).0 <= parts@[q].1 <= v.len()
                    &&& v@.subrange(parts@[q].0 as int, parts@[q].1 as int) == ps[q]
                },
            out@.map_values(|s: String| s@) == names_of_pieces(ps.take(k as int)),
        decreases parts.len() - k,
    {
        let ghost before = out@.map_values(|s: String| s@);
        assert(ps.take(k + 1).drop_last() =~= ps.take(k as int));
        assert(ps.take(k + 1).last() == ps[k as int]);
        let rg = parts[k];
        let (a, b) = trim_range(&v, rg.0, rg.1);
        let piece = string_of_range(&v, a, b);
        let pv = chars_of(piece.as_str());
        let (s0, s1) = match find_sub_exec(&pv, &sep, 0) {
            Some(i) => {
                assert(pv@.subrange(0, i as int) =~= pv@.take(i as int));
                trim_range(&pv, 0, i)
            },
            None => {
                assert(pv@.subrange(0, pv.len() as int) =~= pv@);
                (0, pv.len())
            },
        };
        if s1 > s0 {
            let name = string_of_range(&pv, s0, s1);
            out.push(name);
            assert(out@.map_values(|s: String| s@) =~= before.push(name@));
        }
        k = k + 1;
    }
    assert(ps.take(parts.len() as int) =~= ps);
    out
}

fn import_on_exec(
    import_re: &Option<Pattern>,
    default_re: &Option<Pattern>,
    require_re: &Option<Pattern>,
    text: &String,
) -> (r: Option<ParsedImport>)
    requires
        compiled_from(*import_re, import_src()),
        compiled_from(*default_re, default_src()),
        compiled_from(*require_re, require_src()),
    ensures
        match r {
            None => import_on_trimmed(text@) is None,
            Some(x) => import_on_trimmed(text@) == Some(imp_view(x)),
        },
{
    if let Some(gs) = captures_of(import_re, text.as_str(), Ghost(import_src())) {
        if gs.len() > 2 {
            return match (&gs[1], &gs[2]) {
                (Some(ns), Some(s)) => {
                    let names = names_of_clause(ns);
                    Some(ParsedImport { source: s.clone(), names })
                },
                _ => None,
            };
        }
        return None;
    }
    if let Some(gs) = captures_of(default_re, text.as_str(), Ghost(default_src())) {
        if gs.len() > 2 {
            return match (&gs[1], &gs[2]) {
                (Some(n), Some(s)) => {
                    let mut names: Vec<String> = Vec::new();
                    names.push(n.clone());
                    assert(names@.map_values(|x: String| x@) =~= seq![n@]);
                    Some(ParsedImport { source: s.clone(), names })
                },
                _ => None,
            };
        }
        return None;
    }
    if let Some(g) = match_group1(require_re, text.as_str(), Ghost(require_src())) {
        return match g {
            Some(s) => {
                let names: Vec<String> = Vec::new();
                assert(names@.map_values(|x: String| x@) =~= Seq::<Seq<char>>::empty());
                Some(ParsedImport { source: s, names })
            },
            None => None,
        };
    }
    None
}

/// Relative `import { .. } from`, `import X from` and `require(..)` lines.
pub fn extract_imports(src: &str) -> (r: Vec<ParsedImport>)
    ensures
        imps_view(r@) == imports(src@),
{
    let import_re = compile("import\\s+\\{([^}]+)\\}\\s+from\\s+['\"](\\.\\.?/[^'\"]+)['\"]");
    let default_re = compile("import\\s+(\\w+)\\s+from\\s+['\"](\\.\\.?/[^'\"]+)['\"]");
    let require_re = compile("require\\(['\"](\\.\\.?/[^'\"]+)['\"]\\)");
    let v = chars_of(src);
    let ranges = line_ranges(&v);
    let ghost ls = lines(v@);
    let ghost f = |l: Seq<char>, k: nat| import_on(l, k);
    let mut out: Vec<ParsedImport> = Vec::new();
    let mut i: usize = 0;
    while i < ranges.len()
        invariant
            i <= ranges.len(),
            ls == lines(v@),
            ranges@.len() == ls.len(),
            forall|q: int|
                0 <= q < ranges@.len() ==> {
                    &&& (#[trigger] ranges@[q]).0 <= ranges@[q].1 <= v.len()
                    &&& v@.subrange(ranges@[q].0 as int, ranges@[q].1 as int) == ls[q]
                },
            compiled_from(import_re, import_src()),
            compiled_from(default_re, default_src()),
            compiled_from(require_re, require_src()),
            f == (|l: Seq<char>, k: nat| import_on(l, k)),
            imps_view(out@) == collect_lines(ls, f, i as nat),
        decreases ranges.len() - i,
    {
        let rg = ranges[i];
        let (a, b) = trim_range(&v, rg.0, rg.1);
        let text = string_of_range(&v, a, b);
        let ghost before = imps_view(out@);
        let imp = import_on_exec(&import_re, &default_re, &require_re, &text);
        assert(import_on(ls[i as int], (i + 1) as nat) == import_on_trimmed(text@));
        match imp {
            Some(x) => {
                let ghost xv = imp_view(x);
                out.push(x);
                assert(imps_view(out@) =~= before.push(xv));
            },
            None => {},
        }
        assert(imps_view(out@) == collect_lines(ls, f, (i + 1) as nat));
        i = i + 1;
    }
    out
}

/// Quote characters occur in `p` only as the pair `'"` (inside a character
/// class), so wherever `p` accepts one quote it accepts the other.
pub open spec fn quotes_paired(p: Seq<char>) -> bool {
    forall|i: int| 0 <= i < p.len() ==> (#[trigger] p[i] == '\'' ==> i + 1 < p.len() && p[i + 1] == '"') && (p[i] == '"'
        ==> i > 0 && p[i - 1] == '\'')
}

/// Import specifiers may be quoted with either quote: the patterns for
/// named imports, default imports and `require` accept `'...'` and `"..."`
/// alike.
pub proof fn lemma_imports_accept_either_quote()
    ensures
        quotes_paired(import_src()),
        quotes_paired(default_src()),
        quotes_paired(require_src()),
{
    reveal_strlit("import\\s+\\{([^}]+)\\}\\s+from\\s+['\"](\\.\\.?/[^'\"]+)['\"]");
    reveal_strlit("import\\s+(\\w+)\\s+from\\s+['\"](\\.\\.?/[^'\"]+)['\"]");
    reveal_strlit("require\\(['\"](\\.\\.?/[^'\"]+)['\"]\\)");
}

/// The optional `export` that may precede a declaration.
pub open spec fn optional_export() -> Seq<char> {
    "(?:export\\s+)?"@
}

/// Declarations are found whether or not they are exported, and functions
/// whether or not they are `async`: every symbol pattern begins with the
/// optional `export`, and the function pattern continues with the optional
/// `async` before `function`.
pub proof fn lemma_declarations_allow_export()
    ensures
        type_src().take(optional_export().len() as int) == optional_export(),
        const_fn_src().take(optional_export().len() as int) == optional_export(),
        arrow_src().take(optional_export().len() as int) == optional_export(),
        func_src() == optional_export() + optional_async() + "function\\s+(\\w+)"@,
{
    reveal_strlit("(?:export\\s+)?");
    reveal_strlit("(?:async\\s+)?");
    reveal_strlit("function\\s+(\\w+)");
    reveal_strlit("(?:export\\s+)?(?:type|interface|enum|class)\\s+(\\w+)");
    reveal_strlit("(?:export\\s+)?(?:async\\s+)?function\\s+(\\w+)");
    reveal_strlit("(?:export\\s+)?const\\s+(\\w+)\\s*=\\s*(?:async\\s*)?\\(");
    reveal_strlit("(?:export\\s+)?const\\s+(\\w+)\\s*=\\s*(?:async\\s*)?\\([^)]*\\)\\s*(?::\\s*\\w+\\s*)?=>");
    assert(type_src().take(optional_export().len() as int) =~= optional_export());
    assert(const_fn_src().take(optional_export().len() as int) =~= optional_export());
    assert(arrow_src().take(optional_export().len() as int) =~= optional_export());
    assert(func_src() =~= optional_export() + optional_async() + "function\\s+(\\w+)"@);
}

/// Comment lines declare nothing: a line whose trimmed text starts with
/// `//`, `/*` or `*` yields no symbol, in TypeScript as in Rust.
pub proof fn lemma_comment_lines_declare_nothing(line: Seq<char>, k: nat)
    requires
        ({
            let t = trim(line);
            (t.len() >= 2 && t[0] == '/' && (t[1] == '/' || t[1] == '*')) || (t.len() > 0 && t[0] == '*')
        }),
    ensures
        symbol_on(line, k) is None,
        crate::parser::rust::symbol_on(line, k) is None,
{
    let t = trim(line);
    if t.len() >= 2 && t[0] == '/' && t[1] == '/' {
        assert(t.subrange(0, 2) =~= seq!['/', '/']);
    } else if t.len() >= 2 && t[0] == '/' && t[1] == '*' {
        assert(t.subrange(0, 2) =~= seq!['/', '*']);
    } else {
        assert(t.subrange(0, 1) =~= seq!['*']);
    }
    assert(is_comment(t));
}

} // verus!
