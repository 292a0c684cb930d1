# versions-le

Finds the version constraints in a repository's manifests — `package.json`,
`Cargo.toml`, `pyproject.toml`, `go.mod` and `.github/workflows` — and
reports where the same dependency is constrained inconsistently, including
where two constraints cannot both be satisfied. A constraint in a grammar
the tool does not model is named as a refusal and left out of every
comparison. Comparison never crosses an ecosystem.

## Layout

- `src/` — the library, verified with Verus. Each public function states
  its result over a spec function of plain values.
  - `text.rs`, `order.rs` — text and sequence operations, sorting.
  - `version.rs`, `interval.rs` — versions, their order, and ranges as
    unions of intervals; `meet` and `disjoint`.
  - `grammar.rs` — the constraint grammars (Cargo via `semver`, npm,
    PEP 440, go, action refs, CI tool versions).
  - `heuristics.rs` — ecosystems, manifest kinds, exclude globs (`globset`).
  - `document.rs` — JSON and TOML documents (`serde_json`, `toml`) as
    plain trees.
  - `parser.rs` — one reader per manifest kind.
  - `compare.rs` — the checks, and the laws they keep.
  - `scan.rs` — one report for a set of manifests, and its exit code.
  - `discover.rs` — the walk's decisions and the labels of files.
  - `cli.rs`, `mcp.rs` — the arguments of both surfaces and the human
    summary.
- `app/` — the program: the directory walk (`ignore`), file reads, JSON
  output, and the MCP server on stdio.
- `tests/` — the test suite, run against the compiled library.

Exit codes: 0 clean · 1 findings · 2 malformed question, or `--strict`
and part of the tree went unanalysed.
