# devset-core

Versioned file bundles (profiles), applied to a directory (a target) and updated without
losing local edits.

## Layout

- `src/` is the library, verified with Verus. Each public function states what it returns in
  its `ensures`, over spec functions and views, and the laws of the library are public proof
  functions. It holds:
  - names, paths, sources and the text of every file people write (`name`, `path`, `source`,
    `lexical`, `profile`, `collection`, `settings`, `vars`, `template`);
  - content digests and the canonical form of text, with its laws (`digest`);
  - the profile graph: requests, features, requirements, order (`graph`);
  - which layer provides each file or part (`resolve`), the gates on entries (`gate`);
  - what a survey finds and what a plan does with each path (`survey`, `plan`, `commit`,
    `rollback`);
  - the parts of a file: marked blocks and owned keys, their content and merge (`part`);
  - what `git` prints, read (`git`); the merge drivers' rules (`merge`).
  Outside crates are called through small trusted items, each with a doc comment that says what
  its contract claims.
- `app/` is ordinary Rust around the library: reading and writing files, running `git` and
  merge programs, reading `config.toml`, `lock.toml`, `state.toml` and `profile.toml` with
  serde, and editing `config.toml` in place with `toml_edit`.
- `tests/` runs the library on concrete inputs.

## Left out

`app/` holds the edges the library needs, not the whole command chain: nothing yet runs
resolve, survey, plan, commit and rollback end to end against a directory, and editing a
file's owned keys in TOML, JSON or YAML is not carried over.
