//! Paths as text. A path is read as a root flag (does it start with `/`)
//! and its segments: the pieces between `/` separators, with empty pieces
//! and `.` pieces dropped. Joining, taking the parent, stripping a prefix
//! and normalizing all work on that reading and render back to text with a
//! single `/` between segments.

use vstd::prelude::*;
use crate::text::{rfind_char, rfind_char_exec, push_str, chars_of, string_of, string_of_range, find_char, lemma_find_char, find_char_from};

verus! {

/// The pieces of `s` between occurrences of `c` (always at least one).
pub open spec fn split_on(s: Seq<char>, c: char) -> Seq<Seq<char>>
    decreases s.len(),
{
    let i = find_char(s, c);
    if i < 0 || i >= s.len() {
        seq![s]
    } else {
        seq![s.take(i)] + split_on(s.skip(i + 1), c)
    }
}

pub open spec fn dot() -> Seq<char> {
    seq!['.']
}

pub open spec fn dotdot() -> Seq<char> {
    seq!['.', '.']
}

/// A piece that counts as a segment.
pub open spec fn is_segment(p: Seq<char>) -> bool {
    p.len() > 0 && p != dot()
}

pub open spec fn keep_segments(ps: Seq<Seq<char>>) -> Seq<Seq<char>>
    decreases ps.len(),
{
    if ps.len() == 0 {
        Seq::empty()
    } else if is_segment(ps[0]) {
        seq![ps[0]] + keep_segments(ps.drop_first())
    } else {
        keep_segments(ps.drop_first())
    }
}

pub open spec fn segments(p: Seq<char>) -> Seq<Seq<char>> {
    keep_segments(split_on(p, '/'))
}

pub open spec fn is_absolute(p: Seq<char>) -> bool {
    p.len() > 0 && p[0] == '/'
}

/// Segments joined by single `/` separators.
pub open spec fn join_segments(segs: Seq<Seq<char>>) -> Seq<char>
    decreases segs.len(),
{
    if segs.len() == 0 {
        Seq::empty()
    } else if segs.len() == 1 {
        segs[0]
    } else {
        join_segments(segs.drop_last()) + seq!['/'] + segs.last()
    }
}

pub open spec fn render(absolute: bool, segs: Seq<Seq<char>>) -> Seq<char> {
    if absolute {
        seq!['/'] + join_segments(segs)
    } else {
        join_segments(segs)
    }
}

/// A path split into its root flag and segments.
pub struct PathParts {
    pub absolute: bool,
    pub segs: Vec<String>,
}

pub open spec fn segs_view(v: Seq<String>) -> Seq<Seq<char>> {
    v.map_values(|s: String| s@)
}

impl PathParts {
    pub open spec fn view_segs(&self) -> Seq<Seq<char>> {
        segs_view(self.segs@)
    }

    pub open spec fn text(&self) -> Seq<char> {
        render(self.absolute, self.view_segs())
    }
}

/// Reads a path.
pub fn parse_path(p: &str) -> (r: PathParts)
    ensures
        r.absolute == is_absolute(p@),
        r.view_segs() == segments(p@),
{
    let v = chars_of(p);
    let absolute = v.len() > 0 && v[0] == '/';
    let mut segs: Vec<String> = Vec::new();
    let mut st: usize = 0;
    let mut done = false;
    assert(v@.skip(0) =~= v@);
    assert(segs_view(segs@) =~= Seq::<Seq<char>>::empty());
    while !done
        invariant
            st <= v.len(),
            !done ==> segs_view(segs@) + keep_segments(split_on(v@.skip(st as int), '/')) == segments(v@),
            done ==> segs_view(segs@) == segments(v@),
        decreases (if done { 0int } else { 1int }) + v.len() - st,
    {
        let ghost rest = v@.skip(st as int);
        proof {
            lemma_find_char(rest, '/');
        }
        let end = match find_char_from(&v, st, '/') {
            Some(i) => {
                assert(rest[i - st] == '/');
                assert forall|j: int| 0 <= j < i - st implies rest[j] != '/' by {
                    assert(rest[j] == v@[st + j]);
                }
                assert(find_char(rest, '/') == i - st);
                assert(rest.take(i - st) =~= v@.subrange(st as int, i as int));
                assert(rest.skip(i - st + 1) =~= v@.skip(i + 1));
                i
            },
            None => {
                assert forall|j: int| 0 <= j < rest.len() implies rest[j] != '/' by {
                    assert(rest[j] == v@[st + j]);
                }
                assert(rest =~= v@.subrange(st as int, v.len() as int));
                v.len()
            },
        };
        let piece = string_of_range(&v, st, end);
        let ghost ps = split_on(rest, '/');
        assert(ps[0] == piece@);
        assert(ps.drop_first() == if end < v.len() { split_on(v@.skip(end + 1), '/') } else { Seq::<Seq<char>>::empty() });
        let keep = end > st && !(end - st == 1 && v[st] == '.');
        proof {
            if piece@.len() == 1 {
                assert(piece@[0] == v@[st as int]);
                if piece@[0] == '.' {
                    assert(piece@ =~= dot());
                }
            }
        }
        let ghost before = segs_view(segs@);
        if keep {
            segs.push(piece);
            assert(segs_view(segs@) =~= before + seq![ps[0]]);
        }
        assert(keep == is_segment(ps[0]));
        if end >= v.len() {
            done = true;
            assert(keep_segments(ps.drop_first()) =~= Seq::<Seq<char>>::empty());
            assert(segs_view(segs@) =~= before + keep_segments(ps));
        } else {
            st = end + 1;
            assert(segs_view(segs@) + keep_segments(split_on(v@.skip(st as int), '/')) =~= before + keep_segments(ps));
        }
    }
    PathParts { absolute, segs }
}

/// The text of a path.
pub fn render_path(p: &PathParts) -> (r: String)
    ensures
        r@ == p.text(),
{
    let mut r = String::new();
    if p.absolute {
        r.push('/');
    }
    let ghost pre = r@;
    let mut i: usize = 0;
    while i < p.segs.len()
        invariant
            i <= p.segs.len(),
            pre == (if p.absolute { seq!['/'] } else { Seq::<char>::empty() }),
            r@ == pre + join_segments(p.view_segs().take(i as int)),
        decreases p.segs.len() - i,
    {
        let ghost before = r@;
        let ghost t = p.view_segs().take(i + 1);
        assert(t.drop_last() =~= p.view_segs().take(i as int));
        if i > 0 {
            r.push('/');
        }
        push_str(&mut r, p.segs[i].as_str());
        assert(t.last() == p.segs@[i as int]@);
        if i == 0 {
            assert(join_segments(t) == t[0]);
            assert(r@ =~= pre + join_segments(t));
        } else {
            assert(r@ =~= pre + join_segments(t));
        }
        i = i + 1;
    }
    assert(p.view_segs().take(p.segs.len() as int) =~= p.view_segs());
    r
}

pub fn clone_parts(p: &PathParts) -> (r: PathParts)
    ensures
        r.absolute == p.absolute,
        r.view_segs() == p.view_segs(),
{
    let mut segs: Vec<String> = Vec::new();
    let mut i: usize = 0;
    while i < p.segs.len()
        invariant
            i <= p.segs.len(),
            segs_view(segs@) == p.view_segs().take(i as int),
        decreases p.segs.len() - i,
    {
        let ghost before = segs_view(segs@);
        let c = p.segs[i].clone();
        assert(c@ == p.view_segs()[i as int]);
        segs.push(c);
        assert(segs_view(segs@) =~= before.push(p.view_segs()[i as int]));
        i = i + 1;
        assert(segs_view(segs@) =~= p.view_segs().take(i as int));
    }
    assert(p.view_segs().take(p.segs.len() as int) =~= p.view_segs());
    PathParts { absolute: p.absolute, segs }
}

/// What is left of `p` after the leading segments `base`, when `base`
/// is a prefix of `p` with the same root.
pub open spec fn strip_prefix_spec(p_abs: bool, p: Seq<Seq<char>>, b_abs: bool, b: Seq<Seq<char>>) -> Option<Seq<Seq<char>>> {
    if p_abs == b_abs && b.len() <= p.len() && p.take(b.len() as int) == b {
        Some(p.skip(b.len() as int))
    } else {
        None
    }
}

pub fn strip_prefix(p: &PathParts, base: &PathParts) -> (r: Option<PathParts>)
    ensures
        match r {
            Some(rest) => !rest.absolute && strip_prefix_spec(p.absolute, p.view_segs(), base.absolute, base.view_segs())
                == Some(rest.view_segs()),
            None => strip_prefix_spec(p.absolute, p.view_segs(), base.absolute, base.view_segs()) is None,
        },
{
    if p.absolute != base.absolute || base.segs.len() > p.segs.len() {
        return None;
    }
    let mut i: usize = 0;
    while i < base.segs.len()
        invariant
            i <= base.segs.len() <= p.segs.len(),
            forall|j: int| 0 <= j < i ==> p.view_segs()[j] == base.view_segs()[j],
        decreases base.segs.len() - i,
    {
        if p.segs[i] != base.segs[i] {
            assert(p.view_segs().take(base.segs.len() as int)[i as int] != base.view_segs()[i as int]);
            return None;
        }
        i = i + 1;
    }
    assert(p.view_segs().take(base.segs.len() as int) =~= base.view_segs());
    let mut segs: Vec<String> = Vec::new();
    let mut k: usize = base.segs.len();
    while k < p.segs.len()
        invariant
            base.segs.len() <= k <= p.segs.len(),
            segs_view(segs@) == p.view_segs().subrange(base.segs.len() as int, k as int),
        decreases p.segs.len() - k,
    {
        let ghost before = segs_view(segs@);
        let c = p.segs[k].clone();
        assert(c@ == p.view_segs()[k as int]);
        segs.push(c);
        assert(segs_view(segs@) =~= before.push(p.view_segs()[k as int]));
        k = k + 1;
        assert(segs_view(segs@) =~= p.view_segs().subrange(base.segs.len() as int, k as int));
    }
    Some(PathParts { absolute: false, segs })
}

/// The last segment, unless it is `..` or there is none.
pub open spec fn file_name(p: Seq<char>) -> Option<Seq<char>> {
    let segs = segments(p);
    if segs.len() == 0 || segs.last() == dotdot() {
        None
    } else {
        Some(segs.last())
    }
}

/// The extension of a file name: what follows its last `.`, when that dot
/// is not the name's first character.
pub open spec fn name_extension(name: Seq<char>) -> Option<Seq<char>> {
    let i = rfind_char(name, '.');
    if name == dotdot() || i <= 0 {
        None
    } else {
        Some(name.skip(i + 1))
    }
}

pub open spec fn extension(p: Seq<char>) -> Option<Seq<char>> {
    match file_name(p) {
        None => None,
        Some(n) => name_extension(n),
    }
}

fn is_dot(s: &String) -> (r: bool)
    ensures
        r == (s@ == dot()),
{
    let v = chars_of(s.as_str());
    let r = v.len() == 1 && v[0] == '.';
    proof {
        if v@.len() == 1 && v@[0] == '.' {
            assert(v@ =~= dot());
        }
    }
    r
}

fn is_dotdot(s: &String) -> (r: bool)
    ensures
        r == (s@ == dotdot()),
{
    let v = chars_of(s.as_str());
    let r = v.len() == 2 && v[0] == '.' && v[1] == '.';
    proof {
        if v@.len() == 2 && v@[0] == '.' && v@[1] == '.' {
            assert(v@ =~= dotdot());
        }
    }
    r
}

/// The file name of a path already split into parts.
pub fn file_name_of(p: &PathParts) -> (r: Option<String>)
    ensures
        match r {
            None => p.view_segs().len() == 0 || p.view_segs().last() == dotdot(),
            Some(n) => p.view_segs().len() > 0 && p.view_segs().last() != dotdot() && n@ == p.view_segs().last(),
        },
{
    let n = p.segs.len();
    if n == 0 {
        return None;
    }
    if is_dotdot(&p.segs[n - 1]) {
        None
    } else {
        Some(p.segs[n - 1].clone())
    }
}

/// The extension of a file name.
pub fn name_extension_of(name: &String) -> (r: Option<String>)
    ensures
        match r {
            None => name_extension(name@) is None,
            Some(e) => name_extension(name@) == Some(e@),
        },
{
    if is_dotdot(name) {
        return None;
    }
    let v = chars_of(name.as_str());
    match rfind_char_exec(&v, '.') {
        None => None,
        Some(i) => {
            if i == 0 {
                None
            } else {
                assert(v@.subrange(i + 1, v.len() as int) =~= v@.skip(i + 1));
                Some(string_of_range(&v, i + 1, v.len()))
            }
        },
    }
}

/// The extension of a path.
pub fn extension_of(path: &str) -> (r: Option<String>)
    ensures
        match r {
            None => extension(path@) is None,
            Some(e) => extension(path@) == Some(e@),
        },
{
    let p = parse_path(path);
    match file_name_of(&p) {
        None => None,
        Some(n) => name_extension_of(&n),
    }
}

/// A path as its root flag and segments.
pub type PathV = (bool, Seq<Seq<char>>);

pub open spec fn pv_of(s: Seq<char>) -> PathV {
    (is_absolute(s), segments(s))
}

pub open spec fn pv_text(p: PathV) -> Seq<char> {
    render(p.0, p.1)
}

/// `a` joined with `b`: `b` itself when it is absolute.
pub open spec fn pv_join(a: PathV, b: PathV) -> PathV {
    if b.0 {
        b
    } else {
        (a.0, a.1 + b.1)
    }
}

/// The path without its last segment; `None` when it has none.
pub open spec fn pv_parent(a: PathV) -> Option<PathV> {
    if a.1.len() == 0 {
        None
    } else {
        Some((a.0, a.1.drop_last()))
    }
}

pub open spec fn pv_file_name(a: PathV) -> Option<Seq<char>> {
    if a.1.len() == 0 || a.1.last() == dotdot() {
        None
    } else {
        Some(a.1.last())
    }
}

pub open spec fn pv_extension(a: PathV) -> Option<Seq<char>> {
    match pv_file_name(a) {
        None => None,
        Some(n) => name_extension(n),
    }
}

/// `.ext` appended to the file name (rather than replacing its extension).
pub open spec fn pv_with_ext(a: PathV, ext: Seq<char>) -> PathV {
    match pv_file_name(a) {
        Some(n) => (a.0, a.1.drop_last().push(n + seq!['.'] + ext)),
        None => (a.0, a.1.push(seq!['.'] + ext)),
    }
}

/// `.` and `..` collapsed: each `.` is dropped, each `..` drops the segment
/// before it (or nothing, at the start).
pub open spec fn norm_segs(segs: Seq<Seq<char>>) -> Seq<Seq<char>>
    decreases segs.len(),
{
    if segs.len() == 0 {
        Seq::empty()
    } else {
        let prev = norm_segs(segs.drop_last());
        if segs.last() == dot() {
            prev
        } else if segs.last() == dotdot() {
            if prev.len() > 0 {
                prev.drop_last()
            } else {
                prev
            }
        } else {
            prev.push(segs.last())
        }
    }
}

pub open spec fn pv_normalize(a: PathV) -> PathV {
    (a.0, norm_segs(a.1))
}

impl PathParts {
    pub open spec fn pv(&self) -> PathV {
        (self.absolute, self.view_segs())
    }
}

pub fn join_parts(a: &PathParts, b: &PathParts) -> (r: PathParts)
    ensures
        r.pv() == pv_join(a.pv(), b.pv()),
{
    if b.absolute {
        return clone_parts(b);
    }
    let mut r = clone_parts(a);
    let mut i: usize = 0;
    while i < b.segs.len()
        invariant
            i <= b.segs.len(),
            r.absolute == a.absolute,
            r.view_segs() == a.view_segs() + b.view_segs().take(i as int),
        decreases b.segs.len() - i,
    {
        let ghost before = r.view_segs();
        let c = b.segs[i].clone();
        assert(c@ == b.view_segs()[i as int]);
        r.segs.push(c);
        assert(r.view_segs() =~= before.push(b.view_segs()[i as int]));
        assert(r.view_segs() =~= a.view_segs() + b.view_segs().take(i + 1));
        i = i + 1;
    }
    assert(b.view_segs().take(b.segs.len() as int) =~= b.view_segs());
    r
}

/// `a` joined with the path written `text`.
pub fn join_text(a: &PathParts, text: &str) -> (r: PathParts)
    ensures
        r.pv() == pv_join(a.pv(), pv_of(text@)),
{
    let b = parse_path(text);
    join_parts(a, &b)
}

pub fn parent_parts(a: &PathParts) -> (r: Option<PathParts>)
    ensures
        match r {
            None => pv_parent(a.pv()) is None,
            Some(p) => pv_parent(a.pv()) == Some(p.pv()),
        },
{
    if a.segs.len() == 0 {
        return None;
    }
    let mut r = clone_parts(a);
    r.segs.pop();
    assert(r.view_segs() =~= a.view_segs().drop_last());
    Some(r)
}

pub fn with_appended_extension(a: &PathParts, ext: &str) -> (r: PathParts)
    ensures
        r.pv() == pv_with_ext(a.pv(), ext@),
{
    let mut r = clone_parts(a);
    match file_name_of(a) {
        Some(n) => {
            let ghost nv = n@;
            let mut name = n;
            name.push('.');
            push_str(&mut name, ext);
            assert(name@ =~= nv + seq!['.'] + ext@);
            r.segs.pop();
            let ghost mid = r.view_segs();
            assert(mid =~= a.view_segs().drop_last());
            let ghost namev = name@;
            r.segs.push(name);
            assert(r.view_segs() =~= mid.push(namev));
            assert(r.view_segs() =~= a.view_segs().drop_last().push(nv + seq!['.'] + ext@));
        },
        None => {
            let mut name = String::new();
            name.push('.');
            push_str(&mut name, ext);
            r.segs.push(name);
            assert(r.view_segs() =~= a.view_segs().push(seq!['.'] + ext@));
        },
    }
    r
}

pub fn normalize_parts(a: &PathParts) -> (r: PathParts)
    ensures
        r.pv() == pv_normalize(a.pv()),
{
    let mut segs: Vec<String> = Vec::new();
    let mut i: usize = 0;
    while i < a.segs.len()
        invariant
            i <= a.segs.len(),
            segs_view(segs@) == norm_segs(a.view_segs().take(i as int)),
        decreases a.segs.len() - i,
    {
        let ghost t = a.view_segs().take(i + 1);
        assert(t.drop_last() =~= a.view_segs().take(i as int));
        assert(t.last() == a.segs@[i as int]@);
        let ghost before = segs_view(segs@);
        if is_dot(&a.segs[i]) {
        } else if is_dotdot(&a.segs[i]) {
            if segs.len() > 0 {
                segs.pop();
                assert(segs_view(segs@) =~= before.drop_last());
            }
        } else {
            segs.push(a.segs[i].clone());
            assert(segs_view(segs@) =~= before.push(a.segs@[i as int]@));
        }
        i = i + 1;
    }
    assert(a.view_segs().take(a.segs.len() as int) =~= a.view_segs());
    PathParts { absolute: a.absolute, segs }
}

pub fn parts_eq(a: &PathParts, b: &PathParts) -> (r: bool)
    ensures
        r == (a.pv() == b.pv()),
{
    if a.absolute != b.absolute || a.segs.len() != b.segs.len() {
        if a.segs.len() != b.segs.len() {
            assert(a.view_segs().len() != b.view_segs().len());
        }
        return false;
    }
    let mut i: usize = 0;
    while i < a.segs.len()
        invariant
            i <= a.segs.len() == b.segs.len(),
            forall|j: int| 0 <= j < i ==> a.view_segs()[j] == b.view_segs()[j],
        decreases a.segs.len() - i,
    {
        if a.segs[i] != b.segs[i] {
            assert(a.view_segs()[i as int] != b.view_segs()[i as int]);
            return false;
        }
        i = i + 1;
    }
    assert(a.view_segs() =~= b.view_segs());
    true
}

/// A normalized path has no `.` or `..` segment left, so normalizing it
/// again changes nothing.
pub proof fn lemma_normalize_idempotent(a: PathV)
    ensures
        !pv_normalize(a).1.contains(dot()),
        !pv_normalize(a).1.contains(dotdot()),
        pv_normalize(pv_normalize(a)) == pv_normalize(a),
{
    lemma_norm_segs_no_parent(a.1);
    lemma_norm_segs_fixed(norm_segs(a.1));
}

proof fn lemma_norm_segs_no_parent(segs: Seq<Seq<char>>)
    ensures
        !norm_segs(segs).contains(dotdot()),
        !norm_segs(segs).contains(dot()),
    decreases segs.len(),
{
    if segs.len() > 0 {
        let prev = norm_segs(segs.drop_last());
        lemma_norm_segs_no_parent(segs.drop_last());
        if segs.last() == dot() {
        } else if segs.last() == dotdot() {
            if prev.len() > 0 {
                assert forall|j: int| 0 <= j < prev.drop_last().len() implies prev.drop_last()[j] != dotdot()
                    && prev.drop_last()[j] != dot() by {
                    assert(prev.drop_last()[j] == prev[j]);
                }
            }
        } else {
            vstd::seq_lib::lemma_seq_contains_after_push(prev, segs.last(), dotdot());
            vstd::seq_lib::lemma_seq_contains_after_push(prev, segs.last(), dot());
        }
    }
}

proof fn lemma_norm_segs_fixed(segs: Seq<Seq<char>>)
    requires
        !segs.contains(dotdot()),
        !segs.contains(dot()),
    ensures
        norm_segs(segs) == segs,
    decreases segs.len(),
{
    if segs.len() > 0 {
        let init = segs.drop_last();
        assert forall|j: int| 0 <= j < init.len() implies init[j] != dotdot() && init[j] != dot() by {
            assert(init[j] == segs[j]);
        }
        lemma_norm_segs_fixed(init);
        assert(segs.last() == segs[segs.len() - 1]);
        assert(init.push(segs.last()) =~= segs);
    }
}

/// The extension of a file name is the text after its last dot, provided
/// that dot is not the name's first character (and the name is not `..`):
/// the name is a non-empty stem, a dot, and a dot-free extension; and there
/// is no extension exactly when the name is `..` or has no dot after its
/// first character.
pub proof fn lemma_name_extension(name: Seq<char>)
    ensures
        name_extension(name) matches Some(e) ==> {
            &&& forall|j: int| 0 <= j < e.len() ==> e[j] != '.'
            &&& e.len() + 1 < name.len()
            &&& name == name.take(name.len() - e.len() - 1) + seq!['.'] + e
        },
        name_extension(name) is None <==> (name == dotdot() || forall|j: int| 0 < j < name.len() ==> name[j] != '.'),
{
    crate::text::lemma_rfind_char(name, '.');
    let i = rfind_char(name, '.');
    if name != dotdot() && i > 0 {
        let e = name.skip(i + 1);
        assert forall|j: int| 0 <= j < e.len() implies e[j] != '.' by {
            assert(e[j] == name[i + 1 + j]);
        }
        assert(name =~= name.take(name.len() - e.len() - 1) + seq!['.'] + e);
    }
    if name != dotdot() && i <= 0 {
        assert forall|j: int| 0 < j < name.len() implies name[j] != '.' by {}
    }
    if name != dotdot() && i > 0 {
        assert(name[i] == '.');
    }
}

/// A name made of a non-empty stem, a dot and a dot-free extension has that
/// extension, whatever dots the stem holds: `a.b.ts` has extension `ts`.
pub proof fn lemma_extension_after_last_dot(stem: Seq<char>, e: Seq<char>)
    requires
        stem.len() > 0,
        e.len() > 0,
        forall|j: int| 0 <= j < e.len() ==> e[j] != '.',
    ensures
        name_extension(stem + seq!['.'] + e) == Some(e),
{
    let name = stem + seq!['.'] + e;
    crate::text::lemma_rfind_char(name, '.');
    let i = rfind_char(name, '.');
    assert(name[stem.len() as int] == '.');
    assert forall|j: int| stem.len() < j < name.len() implies name[j] != '.' by {
        assert(name[j] == e[j - stem.len() - 1]);
    }
    assert(i == stem.len());
    assert(name != dotdot()) by {
        if name == dotdot() {
            assert(name.len() == 2);
        }
    }
    assert(name.skip(i + 1) =~= e);
}

} // verus!
