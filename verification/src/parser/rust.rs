//! Rust: `fn`, `struct`, `enum`, `trait`, `impl`, `type`, `const` and inline
//! `mod` declarations.

use vstd::prelude::*;
use crate::text::{chars_of, string_of_range, push_range, lines, line_ranges, trim, trim_range};
use crate::parser::{ParsedSymbol, syms_view, raw_view, raw_ok, finish, finish_symbols, collect_lines};
use crate::parser::pattern::{Pattern, compile, match_group1, matches_text, group, regex_valid};
use crate::parser::words::{starts_with, ends_with, find_sub, find_sub_from, find_sub_exec, contains_sub, first_word, first_word_range, strip_non_alnum, strip_range};
use crate::text::occurs_at;

verus! {

pub open spec fn fn_src() -> Seq<char> {
    "^\\s*(?:pub\\s+)?(?:async\\s+)?fn\\s+(\\w+)"@
}

pub open spec fn struct_src() -> Seq<char> {
    "^\\s*(?:pub\\s+)?struct\\s+(\\w+)"@
}

pub open spec fn enum_src() -> Seq<char> {
    "^\\s*(?:pub\\s+)?enum\\s+(\\w+)"@
}

pub open spec fn trait_src() -> Seq<char> {
    "^\\s*(?:pub\\s+)?trait\\s+(\\w+)"@
}

pub open spec fn impl_src() -> Seq<char> {
    "^\\s*impl(?:<[^>]*>)?\\s+(\\w+)"@
}

pub open spec fn type_src() -> Seq<char> {
    "^\\s*(?:pub\\s+)?type\\s+(\\w+)"@
}

pub open spec fn const_src() -> Seq<char> {
    "^\\s*(?:pub\\s+)?const\\s+(\\w+)"@
}

pub open spec fn mod_src() -> Seq<char> {
    "^\\s*(?:pub\\s+)?mod\\s+(\\w+)"@
}

pub open spec fn for_sep() -> Seq<char> {
    seq![' ', 'f', 'o', 'r', ' ']
}

/// Lines starting with `//`, `/*` or `*` are comments.
pub open spec fn is_comment(t: Seq<char>) -> bool {
    starts_with(t, seq!['/', '/']) || starts_with(t, seq!['/', '*']) || starts_with(t, seq!['*'])
}

/// The text between the first ` for ` and the next one (or the end).
pub open spec fn after_for(t: Seq<char>) -> Seq<char> {
    let i = find_sub(t, for_sep());
    let j = find_sub_from(t, for_sep(), i + 5);
    t.subrange(i + 5, if j < 0 { t.len() as int } else { j })
}

/// The name for an `impl Trait for Type` line: trait and type joined by `_`.
pub open spec fn impl_for_name(n: Seq<char>, t: Seq<char>) -> Option<Seq<char>> {
    let w = match first_word(after_for(t)) {
        Some(w) => w,
        None => Seq::empty(),
    };
    let target = strip_non_alnum(w);
    if target.len() > 0 {
        Some(n + seq!['_'] + target)
    } else {
        None
    }
}

/// A declaration named by group 1 of `pattern`, of the given kind.
pub open spec fn named(pattern: Seq<char>, t: Seq<char>, kind: Seq<char>, k: nat) -> Option<(Seq<char>, Seq<char>, nat)> {
    match group(pattern, t, 1) {
        Some(n) => Some((n, kind, k)),
        None => None,
    }
}

/// The declaration on a trimmed line.
pub open spec fn symbol_on_trimmed(t: Seq<char>, k: nat) -> Option<(Seq<char>, Seq<char>, nat)> {
    if is_comment(t) {
        None
    } else if matches_text(fn_src(), t) {
        named(fn_src(), t, "function"@, k)
    } else if matches_text(struct_src(), t) {
        named(struct_src(), t, "type"@, k)
    } else if matches_text(enum_src(), t) {
        named(enum_src(), t, "type"@, k)
    } else if matches_text(trait_src(), t) {
        named(trait_src(), t, "type"@, k)
    } else if matches_text(impl_src(), t) {
        match group(impl_src(), t, 1) {
            None => None,
            Some(n) => if !contains_sub(t, for_sep()) {
                Some((n, "impl"@, k))
            } else {
                match impl_for_name(n, t) {
                    Some(m) => Some((m, "impl"@, k)),
                    None => None,
                }
            },
        }
    } else if matches_text(type_src(), t) {
        named(type_src(), t, "type"@, k)
    } else if matches_text(const_src(), t) {
        named(const_src(), t, "const"@, k)
    } else if matches_text(mod_src(), t) {
        if !ends_with(t, seq![';']) {
            named(mod_src(), t, "module"@, k)
        } else {
            None
        }
    } else {
        None
    }
}

pub open spec fn symbol_on(line: Seq<char>, k: nat) -> Option<(Seq<char>, Seq<char>, nat)> {
    symbol_on_trimmed(trim(line), k)
}

pub open spec fn symbols(src: Seq<char>) -> Seq<(Seq<char>, Seq<char>, nat, u64)> {
    let ls = lines(src);
    finish(ls, collect_lines(ls, |l: Seq<char>, k: nat| symbol_on(l, k), ls.len()))
}

/// The compiled patterns, each with the fact that it was compiled from its
/// source.
pub struct RustPatterns {
    pub f: Option<Pattern>,
    pub s: Option<Pattern>,
    pub e: Option<Pattern>,
    pub t: Option<Pattern>,
    pub i: Option<Pattern>,
    pub ty: Option<Pattern>,
    pub c: Option<Pattern>,
    pub m: Option<Pattern>,
}

pub open spec fn compiled_from(p: Option<Pattern>, src: Seq<char>) -> bool {
    &&& p is Some <==> regex_valid(src)
    &&& p matches Some(q) ==> q.source() == src
}

impl RustPatterns {
    pub open spec fn wf(&self) -> bool {
        &&& compiled_from(self.f, fn_src())
        &&& compiled_from(self.s, struct_src())
        &&& compiled_from(self.e, enum_src())
        &&& compiled_from(self.t, trait_src())
        &&& compiled_from(self.i, impl_src())
        &&& compiled_from(self.ty, type_src())
        &&& compiled_from(self.c, const_src())
        &&& compiled_from(self.m, mod_src())
    }

    pub fn new() -> (r: Self)
        ensures
            r.wf(),
    {
        RustPatterns {
            f: compile("^\\s*(?:pub\\s+)?(?:async\\s+)?fn\\s+(\\w+)"),
            s: compile("^\\s*(?:pub\\s+)?struct\\s+(\\w+)"),
            e: compile("^\\s*(?:pub\\s+)?enum\\s+(\\w+)"),
            t: compile("^\\s*(?:pub\\s+)?trait\\s+(\\w+)"),
            i: compile("^\\s*impl(?:<[^>]*>)?\\s+(\\w+)"),
            ty: compile("^\\s*(?:pub\\s+)?type\\s+(\\w+)"),
            c: compile("^\\s*(?:pub\\s+)?const\\s+(\\w+)"),
            m: compile("^\\s*(?:pub\\s+)?mod\\s+(\\w+)"),
        }
    }
}

fn named_exec(g: Option<String>, kind: &str, k: usize) -> (r: Option<(String, String, usize)>)
    ensures
        match r {
            None => g is None,
            Some(x) => g matches Some(n) && x.0@ == n@ && x.1@ == kind@ && x.2 == k,
        },
{
    match g {
        Some(n) => Some((n, kind.to_owned(), k)),
        None => None,
    }
}

/// `n_target` for an `impl ... for` line whose characters are `tv`.
fn impl_for_exec(n: &String, tv: &Vec<char>, i: usize) -> (r: Option<String>)
    requires
        i == find_sub(tv@, for_sep()),
        occurs_at(tv@, for_sep(), i as int),
    ensures
        match r {
            None => impl_for_name(n@, tv@) is None,
            Some(m) => impl_for_name(n@, tv@) == Some(m@),
        },
{
    let sep = [' ', 'f', 'o', 'r', ' '];
    assert(sep@ =~= for_sep());
    assert(i + 5 <= tv@.len());
    assert(tv@.len() == tv.len());
    let start = i + 5;
    let end = match find_sub_exec(tv, &sep, start) {
        Some(j) => j,
        None => tv.len(),
    };
    assert(tv@.subrange(start as int, end as int) == after_for(tv@));
    let (s0, s1) = match first_word_range(tv, start, end) {
        Some(w) => strip_range(tv, w.0, w.1, false),
        None => {
            assert(strip_non_alnum(Seq::<char>::empty()) == Seq::<char>::empty());
            (0, 0)
        },
    };
    assert(tv@.subrange(s0 as int, s1 as int) == strip_non_alnum(match first_word(after_for(tv@)) {
        Some(w) => w,
        None => Seq::empty(),
    })) by {
        if first_word(after_for(tv@)) is None {
            assert(tv@.subrange(0, 0) =~= Seq::<char>::empty());
        }
    }
    if s1 > s0 {
        let mut m = n.clone();
        m.push('_');
        push_range(&mut m, tv, s0, s1);
        assert(m@ =~= n@ + seq!['_'] + tv@.subrange(s0 as int, s1 as int));
        Some(m)
    } else {
        None
    }
}

/// The declaration on a trimmed line whose characters are `tv`.
fn symbol_on_exec(pats: &RustPatterns, tv: &Vec<char>, k: usize) -> (r: Option<(String, String, usize)>)
    requires
        pats.wf(),
    ensures
        match r {
            None => symbol_on_trimmed(tv@, k as nat) is None,
            Some(x) => symbol_on_trimmed(tv@, k as nat) == Some((x.0@, x.1@, x.2 as nat)),
        },
{
    let ghost t = tv@;
    let n = tv.len();
    let c0 = n > 0 && tv[0] == '*';
    let c1 = n > 1 && tv[0] == '/' && tv[1] == '/';
    let c2 = n > 1 && tv[0] == '/' && tv[1] == '*';
    assert(starts_with(t, seq!['*']) == c0) by {
        if c0 { assert(t.subrange(0, 1) =~= seq!['*']); }
        if starts_with(t, seq!['*']) { assert(t.subrange(0, 1)[0] == t[0]); }
    }
    assert(starts_with(t, seq!['/', '/']) == c1) by {
        if c1 { assert(t.subrange(0, 2) =~= seq!['/', '/']); }
        if starts_with(t, seq!['/', '/']) { assert(t.subrange(0, 2)[0] == t[0]); assert(t.subrange(0, 2)[1] == t[1]); }
    }
    assert(starts_with(t, seq!['/', '*']) == c2) by {
        if c2 { assert(t.subrange(0, 2) =~= seq!['/', '*']); }
        if starts_with(t, seq!['/', '*']) { assert(t.subrange(0, 2)[0] == t[0]); assert(t.subrange(0, 2)[1] == t[1]); }
    }
    if c0 || c1 || c2 {
        return None;
    }
    let text = string_of_range(tv, 0, n);
    assert(t.subrange(0, n as int) =~= t);
    if let Some(g) = match_group1(&pats.f, text.as_str(), Ghost(fn_src())) {
        return named_exec(g, "function", k);
    }
    if let Some(g) = match_group1(&pats.s, text.as_str(), Ghost(struct_src())) {
        return named_exec(g, "type", k);
    }
    if let Some(g) = match_group1(&pats.e, text.as_str(), Ghost(enum_src())) {
        return named_exec(g, "type", k);
    }
    if let Some(g) = match_group1(&pats.t, text.as_str(), Ghost(trait_src())) {
        return named_exec(g, "type", k);
    }
    if let Some(g) = match_group1(&pats.i, text.as_str(), Ghost(impl_src())) {
        match g {
            None => return None,
            Some(nm) => {
                let sep = [' ', 'f', 'o', 'r', ' '];
                assert(sep@ =~= for_sep());
                match find_sub_exec(tv, &sep, 0) {
                    None => {
                        return Some((nm, "impl".to_owned(), k));
                    },
                    Some(i) => {
                        return match impl_for_exec(&nm, tv, i) {
                            Some(m) => Some((m, "impl".to_owned(), k)),
                            None => None,
                        };
                    },
                }
            },
        }
    }
    if let Some(g) = match_group1(&pats.ty, text.as_str(), Ghost(type_src())) {
        return named_exec(g, "type", k);
    }
    if let Some(g) = match_group1(&pats.c, text.as_str(), Ghost(const_src())) {
        return named_exec(g, "const", k);
    }
    if let Some(g) = match_group1(&pats.m, text.as_str(), Ghost(mod_src())) {
        let semi = n > 0 && tv[n - 1] == ';';
        assert(ends_with(t, seq![';']) == semi) by {
            if semi { assert(t.subrange(n - 1, n as int) =~= seq![';']); }
            if ends_with(t, seq![';']) { assert(t.subrange(n - 1, n as int)[0] == t[n - 1]); }
        }
        if semi {
            return None;
        }
        return named_exec(g, "module", k);
    }
    None
}

/// Declarations in Rust source.
pub fn extract_symbols(src: &str) -> (r: Vec<ParsedSymbol>)
    ensures
        syms_view(r@) == symbols(src@),
{
    let pats = RustPatterns::new();
    let v = chars_of(src);
    let ranges = line_ranges(&v);
    let ghost ls = lines(v@);
    let ghost f = |l: Seq<char>, k: nat| symbol_on(l, k);
    let mut raw: Vec<(String, String, usize)> = Vec::new();
    let mut i: usize = 0;
    while i < ranges.len()
        invariant
            i <= ranges.len(),
            ls == lines(v@),
            ranges@.len() == ls.len(),
            forall|q: int|
                0 <= q < ranges@.len() ==> {
                    &&& (#[trigger] ranges@[q]).0 <= ranges@[q].1 <= v.len()
                    &&& v@.subrange(ranges@[q].0 as int, ranges@[q].1 as int) == ls[q]
                },
            pats.wf(),
            f == (|l: Seq<char>, k: nat| symbol_on(l, k)),
            raw_view(raw@) == collect_lines(ls, f, i as nat),
            raw_ok(raw_view(raw@), i as nat),
        decreases ranges.len() - i,
    {
        let rg = ranges[i];
        let (a, b) = trim_range(&v, rg.0, rg.1);
        let text = string_of_range(&v, a, b);
        let tv = chars_of(text.as_str());
        let ghost before = raw_view(raw@);
        let sym = symbol_on_exec(&pats, &tv, i + 1);
        assert(symbol_on(ls[i as int], (i + 1) as nat) == symbol_on_trimmed(tv@, (i + 1) as nat));
        match sym {
            Some(x) => {
                raw.push(x);
                assert(raw_view(raw@) =~= before.push((x.0@, x.1@, x.2 as nat)));
            },
            None => {},
        }
        assert(raw_view(raw@) == collect_lines(ls, f, (i + 1) as nat));
        i = i + 1;
    }
    finish_symbols(&v, &ranges, raw)
}

/// The start shared by the patterns of declarations that may be public:
/// optional indentation, then an optional `pub`.
pub open spec fn optional_pub() -> Seq<char> {
    "^\\s*(?:pub\\s+)?"@
}

/// Functions, structs, enums, traits, type aliases, constants and modules
/// are found whether or not they are declared `pub`: each of their patterns
/// begins with the optional `pub` prefix.
pub proof fn lemma_declarations_allow_pub()
    ensures
        enum_src().take(optional_pub().len() as int) == optional_pub(),
        struct_src().take(optional_pub().len() as int) == optional_pub(),
        trait_src().take(optional_pub().len() as int) == optional_pub(),
        type_src().take(optional_pub().len() as int) == optional_pub(),
        const_src().take(optional_pub().len() as int) == optional_pub(),
        mod_src().take(optional_pub().len() as int) == optional_pub(),
        fn_src().take(optional_pub().len() as int) == optional_pub(),
{
    reveal_strlit("^\\s*(?:pub\\s+)?");
    reveal_strlit("enum\\s+(\\w+)");
    reveal_strlit("struct\\s+(\\w+)");
    reveal_strlit("trait\\s+(\\w+)");
    reveal_strlit("type\\s+(\\w+)");
    reveal_strlit("const\\s+(\\w+)");
    reveal_strlit("mod\\s+(\\w+)");
    reveal_strlit("(?:async\\s+)?fn\\s+(\\w+)");
    reveal_strlit("^\\s*(?:pub\\s+)?enum\\s+(\\w+)");
    reveal_strlit("^\\s*(?:pub\\s+)?struct\\s+(\\w+)");
    reveal_strlit("^\\s*(?:pub\\s+)?trait\\s+(\\w+)");
    reveal_strlit("^\\s*(?:pub\\s+)?type\\s+(\\w+)");
    reveal_strlit("^\\s*(?:pub\\s+)?const\\s+(\\w+)");
    reveal_strlit("^\\s*(?:pub\\s+)?mod\\s+(\\w+)");
    reveal_strlit("^\\s*(?:pub\\s+)?(?:async\\s+)?fn\\s+(\\w+)");
    assert(enum_src() =~= optional_pub() + "enum\\s+(\\w+)"@);
    assert(enum_src().take(optional_pub().len() as int) =~= optional_pub());
    assert(struct_src() =~= optional_pub() + "struct\\s+(\\w+)"@);
    assert(struct_src().take(optional_pub().len() as int) =~= optional_pub());
    assert(trait_src() =~= optional_pub() + "trait\\s+(\\w+)"@);
    assert(trait_src().take(optional_pub().len() as int) =~= optional_pub());
    assert(type_src() =~= optional_pub() + "type\\s+(\\w+)"@);
    assert(type_src().take(optional_pub().len() as int) =~= optional_pub());
    assert(const_src() =~= optional_pub() + "const\\s+(\\w+)"@);
    assert(const_src().take(optional_pub().len() as int) =~= optional_pub());
    assert(mod_src() =~= optional_pub() + "mod\\s+(\\w+)"@);
    assert(mod_src().take(optional_pub().len() as int) =~= optional_pub());
    assert(fn_src() =~= optional_pub() + "(?:async\\s+)?fn\\s+(\\w+)"@);
    assert(fn_src().take(optional_pub().len() as int) =~= optional_pub());
}

/// The optional `async` that may precede a function keyword.
pub open spec fn optional_async() -> Seq<char> {
    "(?:async\\s+)?"@
}

/// Functions are found whether or not they are public and whether or not
/// they are `async`: the function pattern is the optional `pub` prefix, the
/// optional `async`, then `fn` and the captured name.
pub proof fn lemma_functions_allow_async()
    ensures
        fn_src() == optional_pub() + optional_async() + "fn\\s+(\\w+)"@,
{
    reveal_strlit("^\\s*(?:pub\\s+)?");
    reveal_strlit("(?:async\\s+)?");
    reveal_strlit("fn\\s+(\\w+)");
    reveal_strlit("^\\s*(?:pub\\s+)?(?:async\\s+)?fn\\s+(\\w+)");
    assert(fn_src() =~= optional_pub() + optional_async() + "fn\\s+(\\w+)"@);
}

} // verus!
