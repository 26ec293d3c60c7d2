//! Architectural paths: a file's project-relative path with `\` turned into
//! `/`, a leading `src/` dropped and its source extension stripped; and the
//! module (first two segments) such a path belongs to.

use vstd::prelude::*;
use crate::text::{chars_of, string_of_range, occurs_at, occurs_at_exec, find_char, lemma_find_char, find_char_from};

verus! {

/// Every `a` in `s` replaced by `b`.
pub open spec fn replace_char(s: Seq<char>, a: char, b: char) -> Seq<char> {
    s.map_values(|c: char| if c == a { b } else { c })
}

/// `s` with `p` removed from its front as many times as it occurs there.
pub open spec fn trim_start_all(s: Seq<char>, p: Seq<char>) -> Seq<char>
    decreases s.len(),
{
    if p.len() > 0 && occurs_at(s, p, 0) {
        trim_start_all(s.skip(p.len() as int), p)
    } else {
        s
    }
}

/// `s` with `p` removed from its end as many times as it occurs there.
pub open spec fn trim_end_all(s: Seq<char>, p: Seq<char>) -> Seq<char>
    decreases s.len(),
{
    if p.len() > 0 && occurs_at(s, p, s.len() - p.len()) {
        trim_end_all(s.take(s.len() - p.len()), p)
    } else {
        s
    }
}

pub open spec fn src_prefix() -> Seq<char> {
    seq!['s', 'r', 'c', '/']
}

/// The extensions stripped from the end, in the order they are tried.
pub open spec fn arch_suffixes() -> Seq<Seq<char>> {
    seq![
        seq!['.', 't', 's'],
        seq!['.', 't', 's', 'x'],
        seq!['.', 'j', 's'],
        seq!['.', 'j', 's', 'x'],
        seq!['.', 'r', 's'],
        seq!['.', 'p', 'y'],
        seq!['.', 'g', 'o'],
    ]
}

/// `s` with each suffix in `sufs` trimmed in turn.
pub open spec fn trim_end_each(s: Seq<char>, sufs: Seq<Seq<char>>) -> Seq<char>
    decreases sufs.len(),
{
    if sufs.len() == 0 {
        s
    } else {
        trim_end_all(trim_end_each(s, sufs.drop_last()), sufs.last())
    }
}

pub open spec fn arch_path(rel: Seq<char>) -> Seq<char> {
    trim_end_each(trim_start_all(replace_char(rel, '\\', '/'), src_prefix()), arch_suffixes())
}

/// No character of `s` is a dot.
pub open spec fn no_dot(s: Seq<char>) -> bool {
    forall|j: int| 0 <= j < s.len() ==> s[j] != '.'
}

/// `s` is a dot followed by dot-free text.
pub open spec fn dot_suffix(s: Seq<char>) -> bool {
    s.len() > 0 && s[0] == '.' && forall|j: int| 0 < j < s.len() ==> s[j] != '.'
}

proof fn lemma_trim_end_nodot(x: Seq<char>, p: Seq<char>)
    requires
        no_dot(x),
        dot_suffix(p),
    ensures
        trim_end_all(x, p) == x,
{
    if occurs_at(x, p, x.len() - p.len()) {
        assert(x.subrange(x.len() - p.len(), x.len() as int)[0] == p[0]);
    }
}

proof fn lemma_trim_end_exact(x: Seq<char>, p: Seq<char>)
    requires
        no_dot(x),
        dot_suffix(p),
    ensures
        trim_end_all(x + p, p) == x,
{
    let s = x + p;
    assert(s.subrange(s.len() - p.len(), s.len() as int) =~= p);
    assert(s.take(s.len() - p.len()) =~= x);
    lemma_trim_end_nodot(x, p);
}

proof fn lemma_trim_end_other(x: Seq<char>, e: Seq<char>, p: Seq<char>)
    requires
        no_dot(x),
        dot_suffix(e),
        dot_suffix(p),
        !occurs_at(e, p, e.len() - p.len()),
    ensures
        trim_end_all(x + e, p) == x + e,
{
    let s = x + e;
    let at = s.len() - p.len();
    if occurs_at(s, p, at) {
        if p.len() <= e.len() {
            assert(e.subrange(e.len() - p.len(), e.len() as int) =~= s.subrange(at, s.len() as int));
        } else {
            assert(s.subrange(at, s.len() as int)[0] == p[0]);
            assert(s[at] == x[at]);
        }
    }
}

proof fn lemma_trim_each_none(x: Seq<char>, e: Seq<char>, sufs: Seq<Seq<char>>)
    requires
        no_dot(x),
        dot_suffix(e),
        forall|i: int| 0 <= i < sufs.len() ==> dot_suffix(#[trigger] sufs[i]) && !occurs_at(e, sufs[i], e.len() - sufs[i].len()),
    ensures
        trim_end_each(x + e, sufs) == x + e,
    decreases sufs.len(),
{
    if sufs.len() > 0 {
        lemma_trim_each_none(x, e, sufs.drop_last());
        assert(sufs.last() == sufs[sufs.len() - 1]);
        lemma_trim_end_other(x, e, sufs.last());
    }
}

proof fn lemma_trim_each_strips(x: Seq<char>, e: Seq<char>, sufs: Seq<Seq<char>>, k: int)
    requires
        no_dot(x),
        dot_suffix(e),
        0 <= k < sufs.len(),
        sufs[k] == e,
        forall|i: int| 0 <= i < sufs.len() ==> dot_suffix(#[trigger] sufs[i]),
        forall|i: int| 0 <= i < k ==> !occurs_at(e, #[trigger] sufs[i], e.len() - sufs[i].len()),
    ensures
        trim_end_each(x + e, sufs) == x,
    decreases sufs.len(),
{
    let init = sufs.drop_last();
    assert(sufs.last() == sufs[sufs.len() - 1]);
    if k == sufs.len() - 1 {
        assert forall|i: int| 0 <= i < init.len() implies dot_suffix(#[trigger] init[i]) && !occurs_at(e, init[i], e.len() - init[i].len()) by {
            assert(init[i] == sufs[i]);
        }
        lemma_trim_each_none(x, e, init);
        lemma_trim_end_exact(x, e);
    } else {
        assert forall|i: int| 0 <= i < init.len() implies dot_suffix(#[trigger] init[i]) by {
            assert(init[i] == sufs[i]);
        }
        assert forall|i: int| 0 <= i < k implies !occurs_at(e, #[trigger] init[i], e.len() - init[i].len()) by {
            assert(init[i] == sufs[i]);
        }
        assert(init[k] == e);
        lemma_trim_each_strips(x, e, init, k);
        lemma_trim_end_nodot(x, sufs.last());
    }
}

proof fn lemma_trim_start_src(stem: Seq<char>, e: Seq<char>)
    requires
        no_dot(stem),
        dot_suffix(e),
    ensures
        trim_start_all(stem + e, src_prefix()) == trim_start_all(stem, src_prefix()) + e,
        no_dot(trim_start_all(stem, src_prefix())),
    decreases stem.len(),
{
    let p = src_prefix();
    let s = stem + e;
    if stem.len() >= 4 {
        assert(s.subrange(0, 4) =~= stem.subrange(0, 4));
        if occurs_at(stem, p, 0) {
            assert(s.skip(4) =~= stem.skip(4) + e);
            lemma_trim_start_src(stem.skip(4), e);
        }
    } else {
        if occurs_at(s, p, 0) {
            assert(s.subrange(0, 4)[stem.len() as int] == s[stem.len() as int]);
            assert(s[stem.len() as int] == e[0]);
        }
    }
}

/// A file named by a dot-free stem and one of the source extensions `.ts`,
/// `.tsx`, `.js`, `.jsx`, `.rs`, `.py`, `.go` has that extension stripped:
/// its architectural path is the stem without leading `src/`.
pub proof fn lemma_arch_path_strips_extension(stem: Seq<char>, ext: Seq<char>)
    requires
        no_dot(stem),
        forall|j: int| 0 <= j < stem.len() ==> stem[j] != '\\',
        ext == ".ts"@ || ext == ".tsx"@ || ext == ".js"@ || ext == ".jsx"@ || ext == ".rs"@ || ext == ".py"@ || ext
            == ".go"@,
    ensures
        arch_path(stem + ext) == trim_start_all(stem, src_prefix()),
{
    reveal_strlit(".ts");
    reveal_strlit(".tsx");
    reveal_strlit(".js");
    reveal_strlit(".jsx");
    reveal_strlit(".rs");
    reveal_strlit(".py");
    reveal_strlit(".go");
    let s = stem + ext;
    assert(replace_char(s, '\\', '/') =~= s);
    lemma_trim_start_src(stem, ext);
    let t = trim_start_all(stem, src_prefix());
    let sufs = arch_suffixes();
    assert forall|i: int| 0 <= i < sufs.len() implies dot_suffix(#[trigger] sufs[i]) by {}
    let k: int = if ext == ".ts"@ {
        0
    } else if ext == ".tsx"@ {
        1
    } else if ext == ".js"@ {
        2
    } else if ext == ".jsx"@ {
        3
    } else if ext == ".rs"@ {
        4
    } else if ext == ".py"@ {
        5
    } else {
        6
    };
    assert(sufs[k] =~= ext);
    assert forall|i: int| 0 <= i < k implies !occurs_at(ext, #[trigger] sufs[i], ext.len() - sufs[i].len()) by {
        if ext.len() - sufs[i].len() >= 0 && ext.len() - sufs[i].len() + sufs[i].len() <= ext.len() {
            let w = ext.subrange(ext.len() - sufs[i].len(), ext.len() as int);
            if w == sufs[i] {
                assert(w[w.len() - 1] == sufs[i][sufs[i].len() - 1]);
                assert(w[0] == sufs[i][0]);
            }
        }
    }
    lemma_trim_each_strips(t, ext, sufs, k);
}

/// The module of an architectural path: its first two `/`-separated
/// segments, or the whole path when it has fewer.
pub open spec fn module_of(p: Seq<char>) -> Seq<char> {
    let i = find_char(p, '/');
    if i < 0 {
        p
    } else {
        let j = find_char(p.skip(i + 1), '/');
        if j < 0 {
            p
        } else {
            p.take(i + 1 + j)
        }
    }
}

/// Start index after trimming `p` from the front of `v[start..end]`.
fn trim_start_index(v: &Vec<char>, p: &[char], start: usize, end: usize) -> (r: usize)
    requires
        start <= end <= v.len(),
        p@.len() > 0,
    ensures
        start <= r <= end,
        v@.subrange(r as int, end as int) == trim_start_all(v@.subrange(start as int, end as int), p@),
{
    let ghost goal = trim_start_all(v@.subrange(start as int, end as int), p@);
    let mut i = start;
    while p.len() <= end - i && occurs_at_exec(v.as_slice(), p, i)
        invariant
            start <= i <= end <= v.len(),
            p@.len() > 0,
            trim_start_all(v@.subrange(i as int, end as int), p@) == goal,
        decreases end - i,
    {
        let ghost w = v@.subrange(i as int, end as int);
        assert(occurs_at(w, p@, 0)) by {
            assert(w.subrange(0, p@.len() as int) =~= v@.subrange(i as int, i + p@.len()));
        }
        assert(w.skip(p@.len() as int) =~= v@.subrange(i + p@.len(), end as int));
        i = i + p.len();
    }
    let ghost w = v@.subrange(i as int, end as int);
    if p.len() <= end - i {
        assert(!occurs_at(w, p@, 0)) by {
            assert(w.subrange(0, p@.len() as int) =~= v@.subrange(i as int, i + p@.len()));
        }
    }
    i
}

/// End index after trimming `p` from the end of `v[start..end]`.
pub(crate) fn trim_end_index(v: &Vec<char>, p: &[char], start: usize, end: usize) -> (r: usize)
    requires
        start <= end <= v.len(),
        p@.len() > 0,
    ensures
        start <= r <= end,
        v@.subrange(start as int, r as int) == trim_end_all(v@.subrange(start as int, end as int), p@),
{
    let ghost goal = trim_end_all(v@.subrange(start as int, end as int), p@);
    let mut e = end;
    while e - start >= p.len() && occurs_at_exec(v.as_slice(), p, e - p.len())
        invariant
            start <= e <= end <= v.len(),
            p@.len() > 0,
            trim_end_all(v@.subrange(start as int, e as int), p@) == goal,
        decreases e,
    {
        let ghost w = v@.subrange(start as int, e as int);
        assert(occurs_at(w, p@, w.len() - p@.len())) by {
            assert(w.subrange(w.len() - p@.len(), w.len() as int) =~= v@.subrange(e - p@.len(), e as int));
        }
        assert(w.take(w.len() - p@.len()) =~= v@.subrange(start as int, e - p@.len()));
        e = e - p.len();
    }
    let ghost w = v@.subrange(start as int, e as int);
    if e - start >= p.len() {
        assert(!occurs_at(w, p@, w.len() - p@.len())) by {
            assert(w.subrange(w.len() - p@.len(), w.len() as int) =~= v@.subrange(e - p@.len(), e as int));
        }
    }
    e
}

/// Architectural path of a project-relative file path.
pub fn to_arch_path(rel: &str) -> (r: String)
    ensures
        r@ == arch_path(rel@),
{
    let src = chars_of(rel);
    let mut v: Vec<char> = Vec::new();
    let mut i: usize = 0;
    while i < src.len()
        invariant
            i <= src.len(),
            v@ == replace_char(src@.take(i as int), '\\', '/'),
        decreases src.len() - i,
    {
        let c = src[i];
        v.push(if c == '\\' { '/' } else { c });
        i = i + 1;
        assert(replace_char(src@.take(i as int), '\\', '/') =~= replace_char(src@.take(i - 1), '\\', '/').push(
            if c == '\\' { '/' } else { c },
        ));
    }
    assert(src@.take(src.len() as int) =~= src@);
    assert(v@.subrange(0, v.len() as int) =~= v@);
    let prefix = ['s', 'r', 'c', '/'];
    assert(prefix@ =~= src_prefix());
    let start = trim_start_index(&v, &prefix, 0, v.len());
    let sufs: [&[char]; 7] = [
        &['.', 't', 's'],
        &['.', 't', 's', 'x'],
        &['.', 'j', 's'],
        &['.', 'j', 's', 'x'],
        &['.', 'r', 's'],
        &['.', 'p', 'y'],
        &['.', 'g', 'o'],
    ];
    let ghost base = v@.subrange(start as int, v.len() as int);
    let mut end = v.len();
    let mut k: usize = 0;
    while k < 7
        invariant
            k <= 7,
            start <= end <= v.len(),
            base == v@.subrange(start as int, v.len() as int),
            forall|j: int| 0 <= j < 7 ==> (#[trigger] sufs@[j])@ == arch_suffixes()[j],
            v@.subrange(start as int, end as int) == trim_end_each(base, arch_suffixes().take(k as int)),
        decreases 7 - k,
    {
        assert(arch_suffixes().take(k + 1).drop_last() =~= arch_suffixes().take(k as int));
        assert(sufs@[k as int]@ == arch_suffixes()[k as int]);
        end = trim_end_index(&v, sufs[k], start, end);
        k = k + 1;
    }
    assert(arch_suffixes().take(7) =~= arch_suffixes());
    string_of_range(&v, start, end)
}

/// The module an architectural path belongs to.
pub fn to_module(arch_path: &str) -> (r: String)
    ensures
        r@ == module_of(arch_path@),
{
    let v = chars_of(arch_path);
    proof {
        lemma_find_char(v@, '/');
    }
    match find_char_from(&v, 0, '/') {
        None => {
            string_of_range(&v, 0, v.len())
        },
        Some(i) => {
            assert(find_char(v@, '/') == i);
            proof {
                lemma_find_char(v@.skip(i + 1), '/');
            }
            match find_char_from(&v, i + 1, '/') {
                None => {
                    let ghost t = v@.skip(i + 1);
                    assert forall|j: int| 0 <= j < t.len() implies t[j] != '/' by {
                        assert(t[j] == v@[i + 1 + j]);
                    }
                    string_of_range(&v, 0, v.len())
                },
                Some(j) => {
                    let ghost t = v@.skip(i + 1);
                    assert(t[j - i - 1] == '/');
                    assert forall|w: int| 0 <= w < j - i - 1 implies t[w] != '/' by {
                        assert(t[w] == v@[i + 1 + w]);
                    }
                    assert(find_char(t, '/') == j - i - 1);
                    string_of_range(&v, 0, j)
                },
            }
        },
    }
}

/// A source file directly under `src/` loses that `src/` and its extension:
/// `src/`, a dot-free stem that does not itself begin with `src/`, and one of
/// the source extensions give the stem as architectural path.
pub proof fn lemma_arch_path_under_src(stem: Seq<char>, ext: Seq<char>)
    requires
        no_dot(stem),
        forall|j: int| 0 <= j < stem.len() ==> stem[j] != '\\',
        !occurs_at(stem, "src/"@, 0),
        ext == ".ts"@ || ext == ".tsx"@ || ext == ".js"@ || ext == ".jsx"@ || ext == ".rs"@ || ext == ".py"@ || ext
            == ".go"@,
    ensures
        arch_path("src/"@ + stem + ext) == stem,
{
    reveal_strlit("src/");
    let s = "src/"@ + stem;
    assert(src_prefix() =~= "src/"@);
    assert forall|j: int| 0 <= j < s.len() implies s[j] != '.' && s[j] != '\\' by {
        if j >= 4 {
            assert(s[j] == stem[j - 4]);
        }
    }
    lemma_arch_path_strips_extension(s, ext);
    assert(s.subrange(0, 4) =~= src_prefix());
    assert(s.skip(4) =~= stem);
    assert(occurs_at(s, src_prefix(), 0));
    assert(!occurs_at(stem, src_prefix(), 0));
    assert(trim_start_all(stem, src_prefix()) == stem);
    assert(trim_start_all(s, src_prefix()) == stem);
}

/// No character of `s` is a slash.
pub open spec fn no_slash(s: Seq<char>) -> bool {
    forall|j: int| 0 <= j < s.len() ==> s[j] != '/'
}

proof fn lemma_find_slash_after(a: Seq<char>, rest: Seq<char>)
    requires
        no_slash(a),
    ensures
        find_char(a + seq!['/'] + rest, '/') == a.len(),
        (a + seq!['/'] + rest).skip(a.len() + 1 as int) == rest,
{
    let s = a + seq!['/'] + rest;
    lemma_find_char(s, '/');
    assert(s[a.len() as int] == '/');
    let r = find_char(s, '/');
    if r < a.len() {
        assert(s[r] == a[r]);
    }
    assert(s.skip(a.len() + 1 as int) =~= rest);
}

/// The module of an architectural path is its first two segments: for
/// slash-free `a` and `b`, `a/b/rest` belongs to `a/b`, and a path with fewer
/// than two slashes is its own module.
pub proof fn lemma_module_first_two_segments(a: Seq<char>, b: Seq<char>, rest: Seq<char>)
    requires
        no_slash(a),
        no_slash(b),
    ensures
        module_of(a + "/"@ + b + "/"@ + rest) == a + "/"@ + b,
        module_of(a + "/"@ + b) == a + "/"@ + b,
        module_of(a) == a,
{
    reveal_strlit("/");
    assert("/"@ =~= seq!['/']);
    let p = a + "/"@ + b + "/"@ + rest;
    assert(p =~= a + seq!['/'] + (b + seq!['/'] + rest));
    lemma_find_slash_after(a, b + seq!['/'] + rest);
    lemma_find_slash_after(b, rest);
    assert(p.take(a.len() + 1 + b.len() as int) =~= a + "/"@ + b);
    let q = a + "/"@ + b;
    assert(q =~= a + seq!['/'] + b);
    lemma_find_slash_after(a, b);
    lemma_find_char(b, '/');
    lemma_find_char(a, '/');
}

} // verus!
