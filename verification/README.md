# ie_core

The core of a Markdown note-taking app, written in Verus: every function in
`src/` carries a contract that Verus proves.

- `src/vault` — vault paths, safe names, file operations' decisions, the trash.
- `src/markdown` — frontmatter and typed properties, the Markdown parse
  (structure from `pulldown-cmark`, wiki links, tags and block ids), rendering
  and source rewriting.
- `src/links`, `src/index` — link resolution and renaming, the index's plans
  (what to read, write, remove and re-resolve), the graph.
- `src/search` — the query language, its SQL, fuzzy file matching.
- `src/templates`, `src/export`, `src/session`, `src/workspace` — templates and
  daily notes, export, the open vault's decisions, saved layouts.

Calls into outside crates (`pulldown-cmark`, `serde_yaml_ng`, `time`,
`unicode-normalization`, `sha2`) stand behind small trusted wrappers whose
contracts name or state what the call returns.

`app/` is the host: the file system, the SQLite index and the JSON and serde
forms the interface exchanges. It performs what the core decides.
`tests/` runs the library on concrete values.
