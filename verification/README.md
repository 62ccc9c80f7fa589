# fmg

A library for traversing `[[WikiLink]]` relationships in frontmatter markdown
vaults, with its behaviour stated in Verus contracts and proved, and a thin
command-line program around it.

Layout:

- `src/` — the verified library.
  - `text.rs` — character-level string helpers (trimming, searching, decimals).
  - `config.rs` — configuration values and field directionality.
  - `vault.rs` — pages: which files are pages, frontmatter/body split and
    the YAML frontmatter parse (through `serde_yaml`),
    titles, aliases, `[[WikiLink]]` extraction, cross-service edges, ordering.
  - `resolve.rs` — link resolution (title, then alias, then stem, ignoring case).
  - `pgraph.rs` — the petgraph graph and the calls made on it.
  - `graph.rs` — building the vault graph; lookups by name.
  - `order.rs` — sort keys and deterministic ordering.
  - `query.rs` — traversal, shortest paths, centrality, orphans, broken links.
  - `output.rs` — text, Mermaid and path-list rendering; statistics.
  - `tool.rs` — the agent tools and the server's message dispatch.
- `tests/` — tests run against the compiled library.
- `app/` — the program: command line, file reading, TOML configuration, JSON output, the
  stdio server.
