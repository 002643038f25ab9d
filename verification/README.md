# deparch — dependency archaeology

Cross-language dependency analysis for Node/TypeScript and Python projects:

- **unused** — declared in a manifest, never imported in source
- **phantom** — imported in source, never declared (leaning on a transitive)
- **why** — the dependency chains that pulled an installed package in

## Layout

- `src/` — the library, verified with Verus.
  - `text.rs` — character-level helpers (trimming, searching, prefixes).
  - `doc.rs` — JSON and TOML texts read one level deep through `serde_json`
    and `toml`; nested values stay text and are read again on demand.
  - `model.rs` — the normalized model every adapter produces, name
    normalization, whole-token search, and the name-keyed table `StrMap`.
  - `engine.rs` — cross-referencing declared, installed and imported
    packages (`analyze`) and the reverse walk of the resolved tree (`why`).
  - `report.rs` — the text of the report (low-noise by default, every
    suppressed dependency with its reason under `--strict`) and of `why`.
  - `adapters/` — one adapter per ecosystem (`node`, `python`): from the
    project's files and the source parser's report to an `Analysis`, and
    the choice of the Python interpreter that runs the parser.
- `app/` — the command-line program: argument handling, reading the project
  directory, running the source parsers, printing what the library renders.
- `tests/` — tests of the library.

## Source parsers

The adapters take the imports that a source parser reports. The program runs
`parse_ts.js` (with `node`) and `parse_py.py` (with the project's Python) and
loads them from a `scripts/` directory beside the executable.
