# localfeed

The logic of LocalFeed, an offline-first RSS/Atom reader, as a Verus library.
The functions in `src/` carry contracts that Verus proves, except the small
trusted wrappers around outside crates and std (marked
`#[verifier::external_body]`), whose contracts are taken as given.

## Layout

- `src/text.rs` — char-level helpers (search, case folding, replace, trim)
  with their specifications and lemmas.
- `src/fetch.rs` — feed discovery as a step function (`Discovery`: the typed
  address, then `<link rel=alternate>` feeds and common paths, in order),
  feed parsing through `feed-rs`, entry normalisation, HTML stripping for
  excerpts, readability extraction, error messages.
- `src/images.rs` — the local image cache: which images an article uses, the
  cache record format, `data:` URIs, and the rewrite of `<img>` tags.
- `src/search.rs` — full-text search support: the text that is indexed, the
  SQL that filters hits, the index/database reconciliation plan.
- `src/opml.rs` — OPML import and export.
- `src/db.rs` — row types, article filters as SQL, and the cleanup rule that
  spares favourites and articles saved for later.
- `src/reader.rs` — refresh summaries and retention.

Calls into outside crates (`feed-rs`, `url`, `readability`, `sha2`, `base64`,
`serde_json`) go through those wrappers; their contracts state what the
crates' sources show.

`app/` is the unverified shell: SQLite (`rusqlite`), HTTP (`reqwest`), the
`tantivy` index, the file system and the commands that tie them together.
`tests/` runs the library on concrete values.
