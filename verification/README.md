# ctx

A codebase context tracker: it watches a project, parses the symbols of its
TypeScript, JavaScript, Python and Rust files and the imports of its
TypeScript, JavaScript and Python files, keeps an import
graph, lets "heat" ripple from a changed file to the files that depend on it,
attributes changes to the workers that made them, and writes a summary to
`.ctx/project.ctx`.

## Layout

- `src/` is the verified library. Verus proves the contract of every
  function there except a few small wrappers around the `regex` crate,
  std's hashing and character classes, and the system clock, whose
  contracts are trusted (they are marked `#[verifier::external_body]`).
  - `graph`, `links`: the import graph, its transposed edges, transitive
    dependents, and symbol-level dependency links.
  - `parser`: symbol and import extraction per language, on top of regular
    expressions (`parser/pattern`) whose results are named, not modelled.
  - `resolver`, `tsconfig`, `pathmodel`, `paths`: import specifiers to
    candidate files, `tsconfig.json` reading, paths as root flag plus
    segments, architectural paths.
  - `differ`: symbol-level diff of two versions of a file.
  - `rate`, `report`, `brief`, `decimal`: write rates, the active-files
    section of the report, per-file briefs.
  - `trails`, `touch`: worker attribution and what a touch records.
  - `nav`, `schedule`, `config`: terminal-view navigation, the daemon's
    periodic work, and the watch filter.
  - `text`, `table`, `seqs`: text, association-list and sequence helpers.
- `app/` is the command-line program around the library: file and terminal
  I/O, the daemon, the file watcher, JSON and TOML on disk, and everything
  that works on floating-point heat.
- `tests/` exercises the library from outside.
