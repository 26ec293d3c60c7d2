//! Which files the tracker watches: by extension, and never under an
//! ignored directory.

use vstd::prelude::*;
use crate::pathmodel::{extension, extension_of, segments, is_absolute, dot, parse_path};
use crate::seqs::contains_str;
use crate::table::strs;
use crate::text::chars_of;

verus! {

/// The part of the configuration that decides what is watched.
pub struct WatchFilter {
    pub watch_extensions: Vec<String>,
    pub ignore_dirs: Vec<String>,
}

/// Whether a relative path begins with a `.` component (`.` or `./...`).
pub open spec fn starts_at_cur_dir(p: Seq<char>) -> bool {
    !is_absolute(p) && p.len() > 0 && p[0] == '.' && (p.len() == 1 || p[1] == '/')
}

/// The names of a path's components: the root `/` for an absolute path, a
/// leading `.` for a path that starts at the current directory, then its
/// segments (where `..` stays and inner `.` pieces are dropped).
pub open spec fn component_names(p: Seq<char>) -> Seq<Seq<char>> {
    (if is_absolute(p) {
        seq![seq!['/']]
    } else {
        Seq::empty()
    }) + (if starts_at_cur_dir(p) {
        seq![dot()]
    } else {
        Seq::empty()
    }) + segments(p)
}

/// The extension compared against the watch list: empty when there is none.
pub open spec fn ext_or_empty(p: Seq<char>) -> Seq<char> {
    match extension(p) {
        Some(e) => e,
        None => Seq::empty(),
    }
}

pub open spec fn default_extensions() -> Seq<Seq<char>> {
    seq!["ts"@, "tsx"@, "js"@, "jsx"@, "rs"@, "py"@, "go"@]
}

pub open spec fn default_ignored() -> Seq<Seq<char>> {
    seq!["node_modules"@, ".git"@, "target"@, "dist"@, ".next"@, "__pycache__"@, ".ctx"@]
}

impl WatchFilter {
    /// Whether a file at `path` is watched: its extension is on the watch
    /// list and none of its components is an ignored directory name.
    pub open spec fn watches(&self, path: Seq<char>) -> bool {
        &&& strs(self.watch_extensions@).contains(ext_or_empty(path))
        &&& forall|i: int| 0 <= i < component_names(path).len() ==> !strs(self.ignore_dirs@).contains(
            #[trigger] component_names(path)[i],
        )
    }

    /// The lists a fresh configuration starts with.
    pub fn defaults() -> (r: Self)
        ensures
            strs(r.watch_extensions@) == default_extensions(),
            strs(r.ignore_dirs@) == default_ignored(),
    {
        let mut watch_extensions: Vec<String> = Vec::new();
        watch_extensions.push("ts".to_owned());
        watch_extensions.push("tsx".to_owned());
        watch_extensions.push("js".to_owned());
        watch_extensions.push("jsx".to_owned());
        watch_extensions.push("rs".to_owned());
        watch_extensions.push("py".to_owned());
        watch_extensions.push("go".to_owned());
        let mut ignore_dirs: Vec<String> = Vec::new();
        ignore_dirs.push("node_modules".to_owned());
        ignore_dirs.push(".git".to_owned());
        ignore_dirs.push("target".to_owned());
        ignore_dirs.push("dist".to_owned());
        ignore_dirs.push(".next".to_owned());
        ignore_dirs.push("__pycache__".to_owned());
        ignore_dirs.push(".ctx".to_owned());
        let r = WatchFilter { watch_extensions, ignore_dirs };
        assert(strs(r.watch_extensions@) =~= default_extensions());
        assert(strs(r.ignore_dirs@) =~= default_ignored());
        r
    }

    /// Whether changes to the file at `path` are tracked.
    pub fn should_watch(&self, path: &str) -> (r: bool)
        ensures
            r == self.watches(path@),
    {
        let ext = match extension_of(path) {
            Some(e) => e,
            None => String::new(),
        };
        assert(ext@ == ext_or_empty(path@));
        if !contains_str(&self.watch_extensions, &ext) {
            return false;
        }
        let names = component_list(path);
        let ghost cn = component_names(path@);
        let mut i: usize = 0;
        while i < names.len()
            invariant
                i <= names.len(),
                cn == component_names(path@),
                strs(names@) == cn,
                forall|j: int| 0 <= j < i ==> !strs(self.ignore_dirs@).contains(#[trigger] cn[j]),
            decreases names.len() - i,
        {
            assert(names@[i as int]@ == cn[i as int]);
            if contains_str(&self.ignore_dirs, &names[i]) {
                return false;
            }
            i = i + 1;
        }
        true
    }

    /// Whether a directory walk skips an entry with this name: it is an
    /// ignored directory name or a hidden entry (its name starts with `.`).
    pub fn skips_entry(&self, name: &String) -> (r: bool)
        ensures
            r == (strs(self.ignore_dirs@).contains(name@) || (name@.len() > 0 && name@[0] == '.')),
    {
        if contains_str(&self.ignore_dirs, name) {
            return true;
        }
        let v = chars_of(name.as_str());
        v.len() > 0 && v[0] == '.'
    }
}

/// The component names of `path`, as `component_names` reads them.
fn component_list(path: &str) -> (r: Vec<String>)
    ensures
        strs(r@) == component_names(path@),
{
    let v = chars_of(path);
    let parts = parse_path(path);
    let mut r: Vec<String> = Vec::new();
    proof {
        reveal_strlit("/");
        reveal_strlit(".");
    }
    if parts.absolute {
        let root = "/".to_owned();
        assert(root@ == "/"@);
        assert(root@ =~= seq!['/']);
        r.push(root);
        assert(strs(r@) =~= seq![seq!['/']]);
    } else if v.len() > 0 && v[0] == '.' && (v.len() == 1 || v[1] == '/') {
        let cur = ".".to_owned();
        assert(cur@ =~= dot());
        r.push(cur);
        assert(strs(r@) =~= seq![dot()]);
    } else {
        assert(strs(r@) =~= Seq::<Seq<char>>::empty());
    }
    let ghost head = strs(r@);
    assert(head =~= (if is_absolute(path@) {
        seq![seq!['/']]
    } else {
        Seq::empty()
    }) + (if starts_at_cur_dir(path@) {
        seq![dot()]
    } else {
        Seq::empty()
    }));
    let mut i: usize = 0;
    while i < parts.segs.len()
        invariant
            i <= parts.segs.len(),
            parts.view_segs() == segments(path@),
            strs(r@) == head + parts.view_segs().take(i as int),
        decreases parts.segs.len() - i,
    {
        let ghost prev = strs(r@);
        r.push(parts.segs[i].clone());
        assert(parts.view_segs()[i as int] == parts.segs@[i as int]@);
        assert(strs(r@) =~= prev.push(parts.view_segs()[i as int]));
        assert(strs(r@) =~= head + parts.view_segs().take(i + 1));
        i = i + 1;
    }
    assert(parts.view_segs().take(parts.segs.len() as int) =~= parts.view_segs());
    r
}

} // verus!
