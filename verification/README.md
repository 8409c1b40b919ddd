# configdiff

Semantic diff for configuration files: TOML, YAML, JSON, INI and dotenv
documents are read into one value model and compared by structure and value,
so reordered keys and formatting never show up as changes.

The library under `src/` is verified with Verus. Its contracts speak of
mathematical models (`ValueModel`, paths as sequences of segments, options as
`OptionsModel`), and `diff` is proved to compute exactly `diff_values_spec`.

## Layout

- `src/value.rs`, `src/path.rs` — the value model (objects keep document order)
  and the paths that locate nodes.

  Objects are held in `ValueMap`, a vector of entries in document order
  whose keys are distinct (a type invariant of the map), rather than in `indexmap::IndexMap`. `Value` is recursive
  through its objects, and every model here (deep equality, the diff, the
  laws) recurses into an object's entries. Declared as an outside type,
  `IndexMap<String, Value>` is refused by Verus ("recursively uses type ... in
  a non-positive position", since the map's parameters must be rejected from
  recursion); held opaquely in a struct of its own, the map is accepted, but
  its entries are then only named by an uninterpreted function, and Verus
  cannot prove that a recursive spec function over them terminates. Lookups
  are linear in the number of keys.
- `src/diff_spec.rs` — what a diff is, as spec functions: scalar relations,
  deep equality, LCS, positional and key-based array matching, the depth
  limit and the LCS cell limit.
- `src/diff.rs` — the diff engine, proved against `diff_spec.rs`.
- `src/numeric.rs`, `src/wide.rs` — numbers as IEEE 754 bit patterns: the
  exact integer-to-float conversion and the exact tolerance test
  `(x - y).abs() <= tol`, computed with wide integers.
- `src/options.rs`, `src/glob.rs` — diff options; ignore globs are compiled
  (with `literal_separator`, so `*` stays within one segment and `**` spans
  segments) and matched by `globset`. The compiled set is private to
  `DiffOptions`: only `ignore` makes one.
- `src/format.rs`, `src/dotenv.rs`, `src/ini_doc.rs` — format detection, the
  dotenv reader, and INI documents read by `rust-ini`.
- `src/render/pretty.rs` — the human-readable report, colored through
  `anstyle`; `src/render/json.rs` — the document of the JSON report.
- `src/cli.rs` — the command line's decisions: formats, strategy, color, exit
  status.
- `src/laws.rs`, `src/pairing.rs`, `src/ignoring.rs`, `src/minimality.rs`,
  `src/shapes.rs` — properties proved of the whole: no self-difference,
  reordered keys are invisible, equality is symmetric, a diff is silent
  exactly on deeply equal data when arrays are compared without keys, one
  inserted or removed array element is one change, the LCS strategy reports
  the fewest changes any common subsequence allows, key matching pairs
  reordered elements by key (the first unpaired one), a diff taken at any
  path reports only below it and never at or under an ignored path,
  `--expand` reports each leaf, objects report old keys then new keys in
  document order, and what parsed dotenv and INI documents hold.
- `app/` — the `configdiff` command: argument parsing, reading files, JSON,
  TOML and YAML through serde, writing the JSON report, exit codes.
