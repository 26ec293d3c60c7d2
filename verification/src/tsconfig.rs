//! Reading `tsconfig.json`: stripping the comments and trailing commas that
//! JSON parsers reject, and taking `baseUrl` and `paths` out of the parsed
//! document.

use vstd::prelude::*;
use crate::parser::pattern::{Pattern, compile, replace_all, regex_valid, regex_replace_all};
use crate::resolver::{TsConfig, TsConfigV, cfg_view};
use crate::table::strs;

verus! {

/// A parsed JSON document. Numbers keep their text, since nothing here
/// reads them.
pub enum JsonValue {
    Null,
    Bool(bool),
    Number(String),
    Str(String),
    Array(Vec<JsonValue>),
    Object(Vec<(String, JsonValue)>),
}

pub open spec fn block_comment_src() -> Seq<char> {
    "(?s)/\\*.*?\\*/"@
}

pub open spec fn line_comment_src() -> Seq<char> {
    "(?m)^\\s*//.*$"@
}

pub open spec fn trailing_comma_src() -> Seq<char> {
    ",(\\s*[}\\]])"@
}

/// `raw` with block comments, whole-line `//` comments and commas before a
/// closing bracket removed, in that order.
pub open spec fn stripped(raw: Seq<char>) -> Seq<char> {
    let no_block = regex_replace_all(block_comment_src(), raw, ""@);
    let no_line = regex_replace_all(line_comment_src(), no_block, ""@);
    regex_replace_all(trailing_comma_src(), no_line, "$1"@)
}

pub open spec fn jsonc_patterns_valid() -> bool {
    regex_valid(block_comment_src()) && regex_valid(line_comment_src()) && regex_valid(trailing_comma_src())
}

/// Turns JSON-with-comments into plain JSON text; `None` only when one of the
/// three patterns is refused by the regex engine.
pub fn strip_jsonc(raw: &str) -> (r: Option<String>)
    ensures
        r is Some <==> jsonc_patterns_valid(),
        r matches Some(s) ==> s@ == stripped(raw@),
{
    let block = compile("(?s)/\\*.*?\\*/");
    let line = compile("(?m)^\\s*//.*$");
    let comma = compile(",(\\s*[}\\]])");
    match (block, line, comma) {
        (Some(b), Some(l), Some(c)) => {
            let no_block = replace_all(&b, raw, "");
            let no_line = replace_all(&l, no_block.as_str(), "");
            Some(replace_all(&c, no_line.as_str(), "$1"))
        },
        _ => None,
    }
}

/// The value under `key` in a list of object entries: the first entry with
/// that key.
pub open spec fn entry_value(fs: Seq<(String, JsonValue)>, key: Seq<char>) -> Option<JsonValue>
    decreases fs.len(),
{
    if fs.len() == 0 {
        None
    } else if fs[0].0@ == key {
        Some(fs[0].1)
    } else {
        entry_value(fs.drop_first(), key)
    }
}

/// `v[key]` for an object `v`; `None` for anything else.
pub open spec fn field(v: JsonValue, key: Seq<char>) -> Option<JsonValue> {
    match v {
        JsonValue::Object(fs) => entry_value(fs@, key),
        _ => None,
    }
}

/// The string elements of an array, in order; other elements are skipped.
pub open spec fn string_items(items: Seq<JsonValue>) -> Seq<Seq<char>>
    decreases items.len(),
{
    if items.len() == 0 {
        Seq::empty()
    } else {
        let rest = string_items(items.drop_last());
        match items.last() {
            JsonValue::Str(s) => rest.push(s@),
            _ => rest,
        }
    }
}

/// Each entry of the `paths` object: its pattern and the string targets of
/// its array (none when it is not an array).
pub open spec fn path_entries(fs: Seq<(String, JsonValue)>) -> Seq<(Seq<char>, Seq<Seq<char>>)> {
    fs.map_values(|e: (String, JsonValue)| (e.0@, match e.1 {
        JsonValue::Array(a) => string_items(a@),
        _ => Seq::empty(),
    }))
}

/// What a `tsconfig.json` document configures: nothing without
/// `compilerOptions`; otherwise its `baseUrl` when that is a string (`.` by
/// default) and its `paths` when that is an object (none by default).
pub open spec fn tsconfig_spec(doc: JsonValue) -> Option<TsConfigV> {
    match field(doc, "compilerOptions"@) {
        None => None,
        Some(opts) => Some((
            match field(opts, "baseUrl"@) {
                Some(JsonValue::Str(s)) => s@,
                _ => "."@,
            },
            match field(opts, "paths"@) {
                Some(JsonValue::Object(fs)) => path_entries(fs@),
                _ => Seq::empty(),
            },
        )),
    }
}

fn get_field<'a>(v: &'a JsonValue, key: &String) -> (r: Option<&'a JsonValue>)
    ensures
        match r {
            None => field(*v, key@) is None,
            Some(x) => field(*v, key@) == Some(*x),
        },
{
    match v {
        JsonValue::Object(fs) => {
            let mut i: usize = 0;
            assert(fs@.skip(0) =~= fs@);
            assert(field(*v, key@) == entry_value(fs@, key@));
            while i < fs.len()
                invariant
                    i <= fs.len(),
                    field(*v, key@) == entry_value(fs@, key@),
                    entry_value(fs@, key@) == entry_value(fs@.skip(i as int), key@),
                decreases fs.len() - i,
            {
                let ghost rest = fs@.skip(i as int);
                assert(rest[0] == fs@[i as int]);
                assert(rest.drop_first() =~= fs@.skip(i + 1));
                if fs[i].0 == *key {
                    assert(entry_value(rest, key@) == Some(fs@[i as int].1));
                    return Some(&fs[i].1);
                }
                i = i + 1;
            }
            assert(fs@.skip(i as int).len() == 0);
            None
        },
        _ => None,
    }
}

fn strings_of(items: &Vec<JsonValue>) -> (r: Vec<String>)
    ensures
        strs(r@) == string_items(items@),
{
    let mut r: Vec<String> = Vec::new();
    let mut i: usize = 0;
    while i < items.len()
        invariant
            i <= items.len(),
            strs(r@) == string_items(items@.take(i as int)),
        decreases items.len() - i,
    {
        assert(items@.take(i + 1).drop_last() =~= items@.take(i as int));
        assert(items@.take(i + 1).last() == items@[i as int]);
        match &items[i] {
            JsonValue::Str(s) => {
                r.push(s.clone());
            },
            _ => {},
        }
        assert(strs(r@) =~= string_items(items@.take(i + 1)));
        i = i + 1;
    }
    assert(items@.take(items.len() as int) =~= items@);
    r
}

/// Takes `baseUrl` and `paths` out of a parsed `tsconfig.json`; `None` when
/// it has no `compilerOptions`.
pub fn tsconfig_from_json(doc: &JsonValue) -> (r: Option<TsConfig>)
    ensures
        match r {
            None => tsconfig_spec(*doc) is None,
            Some(c) => tsconfig_spec(*doc) == Some(cfg_view(c)),
        },
{
    proof {
        reveal_strlit("compilerOptions");
        reveal_strlit("baseUrl");
        reveal_strlit("paths");
        reveal_strlit(".");
    }
    let opts_key = "compilerOptions".to_owned();
    let base_key = "baseUrl".to_owned();
    let paths_key = "paths".to_owned();
    let opts = match get_field(doc, &opts_key) {
        None => {
            return None;
        },
        Some(o) => o,
    };
    let base_url = match get_field(opts, &base_key) {
        Some(JsonValue::Str(s)) => s.clone(),
        _ => ".".to_owned(),
    };
    let mut paths: Vec<(String, Vec<String>)> = Vec::new();
    match get_field(opts, &paths_key) {
        Some(JsonValue::Object(fs)) => {
            let ghost pe = path_entries(fs@);
            let mut i: usize = 0;
            while i < fs.len()
                invariant
                    i <= fs.len(),
                    pe == path_entries(fs@),
                    crate::table::ptab(paths@) == pe.take(i as int),
                decreases fs.len() - i,
            {
                let targets = match &fs[i].1 {
                    JsonValue::Array(a) => strings_of(a),
                    _ => {
                        let e: Vec<String> = Vec::new();
                        assert(strs(e@) =~= Seq::<Seq<char>>::empty());
                        e
                    },
                };
                assert(strs(targets@) == pe[i as int].1);
                let ghost prev = crate::table::ptab(paths@);
                paths.push((fs[i].0.clone(), targets));
                assert(crate::table::ptab(paths@) =~= prev.push(pe[i as int]));
                assert(pe.take(i + 1) =~= pe.take(i as int).push(pe[i as int]));
                i = i + 1;
            }
            assert(pe.take(fs.len() as int) =~= pe);
        },
        _ => {
            assert(crate::table::ptab(paths@) =~= Seq::<(Seq<char>, Seq<Seq<char>>)>::empty());
        },
    }
    Some(TsConfig { base_url, paths })
}

} // verus!
