//! The outside pieces the parsers rest on: regular-expression matching
//! (the `regex` crate), string hashing and two Unicode character classes
//! (std). Each is a named function of its arguments; the parsers'
//! contracts are stated over these names.

use vstd::prelude::*;
use std::hash::{Hash, Hasher};

verus! {

/// `regex::Regex`, known to Verus only as an opaque value.
#[verifier::external_type_specification]
#[verifier::external_body]
pub struct ExRegex(regex::Regex);

/// Whether `regex::Regex::new` accepts `pattern`.
pub uninterp spec fn regex_valid(pattern: Seq<char>) -> bool;

/// What `regex::Regex::captures` finds in `text` for a compiled `pattern`:
/// `None` when there is no match, otherwise one entry per capture group
/// (group 0 is the whole match), `None` for a group that did not take part.
pub uninterp spec fn regex_captures(pattern: Seq<char>, text: Seq<char>) -> Option<Seq<Option<Seq<char>>>>;

/// A compiled regular expression together with its source text.
pub struct Pattern {
    source: String,
    re: regex::Regex,
}

impl Pattern {
    pub closed spec fn source(&self) -> Seq<char> {
        self.source@
    }
}

pub open spec fn caps_view(c: Option<Vec<Option<String>>>) -> Option<Seq<Option<Seq<char>>>> {
    match c {
        None => None,
        Some(v) => Some(v@.map_values(|g: Option<String>| match g {
            None => None,
            Some(s) => Some(s@),
        })),
    }
}

/// Compiles `source` with `regex::Regex::new`; `None` when the crate
/// rejects the pattern.
#[verifier::external_body]
pub(crate) fn compile(source: &str) -> (r: Option<Pattern>)
    ensures
        r is Some <==> regex_valid(source@),
        r matches Some(p) ==> p.source() == source@,
{
    regex::Regex::new(source).ok().map(|re| Pattern { source: source.to_string(), re })
}

/// Runs `regex::Regex::captures` and copies out every group's text.
#[verifier::external_body]
pub(crate) fn captures(p: &Pattern, text: &str) -> (r: Option<Vec<Option<String>>>)
    ensures
        caps_view(r) == regex_captures(p.source(), text@),
{
    p.re.captures(text).map(|c| c.iter().map(|g| g.map(|m| m.as_str().to_string())).collect())
}

/// What `regex::Regex::replace_all` returns for a compiled `pattern`:
/// `text` with every non-overlapping match replaced by `rep`, in which `$n`
/// stands for capture group `n`.
pub uninterp spec fn regex_replace_all(pattern: Seq<char>, text: Seq<char>, rep: Seq<char>) -> Seq<char>;

/// Runs `regex::Regex::replace_all` and copies out the result.
#[verifier::external_body]
pub(crate) fn replace_all(p: &Pattern, text: &str, rep: &str) -> (r: String)
    ensures
        r@ == regex_replace_all(p.source(), text@, rep@),
{
    p.re.replace_all(text, rep).into_owned()
}

/// Group `k` of the first match of `pattern` in `text`, when the pattern
/// compiles, matches, and the group took part.
pub open spec fn group(pattern: Seq<char>, text: Seq<char>, k: int) -> Option<Seq<char>> {
    if !regex_valid(pattern) {
        None
    } else {
        match regex_captures(pattern, text) {
            None => None,
            Some(gs) => if 0 <= k < gs.len() {
                gs[k]
            } else {
                None
            },
        }
    }
}

/// Whether `pattern` compiles and matches somewhere in `text`.
pub open spec fn matches_text(pattern: Seq<char>, text: Seq<char>) -> bool {
    regex_valid(pattern) && regex_captures(pattern, text) is Some
}

/// The captures of a pattern that may have failed to compile.
pub(crate) fn captures_of(p: &Option<Pattern>, text: &str, ghost_src: Ghost<Seq<char>>) -> (r: Option<Vec<Option<String>>>)
    requires
        p is Some <==> regex_valid(ghost_src@),
        p matches Some(q) ==> q.source() == ghost_src@,
    ensures
        r is Some <==> matches_text(ghost_src@, text@),
        r matches Some(gs) ==> forall|k: int| 0 <= k < gs@.len() ==> (match #[trigger] gs@[k] {
            None => group(ghost_src@, text@, k) is None,
            Some(s) => group(ghost_src@, text@, k) == Some(s@),
        }),
        r matches Some(gs) ==> forall|k: int| k >= gs@.len() ==> group(ghost_src@, text@, k) is None,
{
    match p {
        None => None,
        Some(q) => {
            let r = captures(q, text);
            proof {
                if let Some(gs) = &r {
                    assert forall|k: int| 0 <= k < gs@.len() implies (match #[trigger] gs@[k] {
                        None => group(ghost_src@, text@, k) is None,
                        Some(s) => group(ghost_src@, text@, k) == Some(s@),
                    }) by {
                        let cv = caps_view(r)->0;
                        assert(cv[k] == match gs@[k] { None => None, Some(s) => Some(s@) });
                    }
                }
            }
            r
        },
    }
}

/// Group `k` of `pattern` in `text`, copied out.
pub(crate) fn group_of(p: &Option<Pattern>, text: &str, k: usize, ghost_src: Ghost<Seq<char>>) -> (r: Option<String>)
    requires
        p is Some <==> regex_valid(ghost_src@),
        p matches Some(q) ==> q.source() == ghost_src@,
    ensures
        match r {
            None => group(ghost_src@, text@, k as int) is None,
            Some(s) => group(ghost_src@, text@, k as int) == Some(s@),
        },
{
    match captures_of(p, text, ghost_src) {
        None => None,
        Some(gs) => {
            if k < gs.len() {
                match &gs[k] {
                    None => None,
                    Some(s) => Some(s.clone()),
                }
            } else {
                None
            }
        },
    }
}

/// Whether `pattern` matches `text`, and if so group 1 of the match.
pub(crate) fn match_group1(p: &Option<Pattern>, text: &str, ghost_src: Ghost<Seq<char>>) -> (r: Option<Option<String>>)
    requires
        p is Some <==> regex_valid(ghost_src@),
        p matches Some(q) ==> q.source() == ghost_src@,
    ensures
        r is Some <==> matches_text(ghost_src@, text@),
        r matches Some(g) ==> match g {
            None => group(ghost_src@, text@, 1) is None,
            Some(s) => group(ghost_src@, text@, 1) == Some(s@),
        },
{
    match captures_of(p, text, ghost_src) {
        None => None,
        Some(gs) => {
            if gs.len() > 1 {
                match &gs[1] {
                    None => Some(None),
                    Some(s) => Some(Some(s.clone())),
                }
            } else {
                Some(None)
            }
        },
    }
}

/// What `str::hash` fed to a fresh `DefaultHasher` finishes with.
pub uninterp spec fn str_hash(s: Seq<char>) -> u64;

/// Hashes `s` with `std::collections::hash_map::DefaultHasher`.
#[verifier::external_body]
pub(crate) fn hash_str(s: &str) -> (r: u64)
    ensures
        r == str_hash(s@),
{
    let mut hasher = std::collections::hash_map::DefaultHasher::new();
    s.hash(&mut hasher);
    hasher.finish()
}

/// Unicode alphanumeric, as `char::is_alphanumeric` decides it.
pub uninterp spec fn is_alnum(c: char) -> bool;

/// Calls `char::is_alphanumeric`; its answer is `is_alnum(c)`.
#[verifier::external_body]
pub(crate) fn char_is_alphanumeric(c: char) -> (r: bool)
    ensures
        r == is_alnum(c),
{
    c.is_alphanumeric()
}

/// Unicode uppercase, as `char::is_uppercase` decides it.
pub uninterp spec fn is_upper(c: char) -> bool;

/// Calls `char::is_uppercase`; its answer is `is_upper(c)`.
#[verifier::external_body]
pub(crate) fn char_is_uppercase(c: char) -> (r: bool)
    ensures
        r == is_upper(c),
{
    c.is_uppercase()
}

} // verus!
