# stacks

Semantic search for project documentation: markdown files are split into
heading sections, embedded, and searched by meaning from the command line.

The logic is a Verus library whose functions carry proved contracts:

- `src/markdown.rs` — sections of a markdown file (heading, level, verbatim content)
  from the parser's event stream.
- `src/outline.rs` — the heading hierarchy: each section's parent is the nearest
  earlier section of lower level.
- `src/slug.rs` — short deterministic slugs (SHA-256 seed, base36 candidates),
  content hashes.
- `src/freshness.rs` — which files must be deleted or re-indexed, and whether
  anything is stale.
- `src/store.rs`, `src/toc.rs`, `src/render.rs`, `src/format.rs` — ancestor chains,
  path scoping, the heading tree and grep listing, and every line the commands print.
- `src/install.rs` — what installing the agent integration adds to the agent settings.
- `src/locate.rs` — where the index directory lives (nearest index, else repository root).
- `src/text.rs`, `src/version.rs` — string helpers and the index version check.

`app/` is the command-line program around it: argument parsing, the SQLite
store, the embedding model, file walking and the settings file.
