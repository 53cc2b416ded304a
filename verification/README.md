# tare

Inline Rust memory-allocation viewer support, verified with Verus.

Allocation data comes from two sources and is merged into one JSON report:

- **Runtime**: heap allocations recorded by dhat during a profiling run,
  attributed to the first workspace source line on each call stack.
- **Static**: allocation *sites* (`Box::new`, `Vec::with_capacity`,
  `.collect()`, `format!`, ...) found by walking the syntax tree. Sites,
  never amounts.

## Layout

- `src/` is the verified library. Each public function carries a
  `requires`/`ensures` contract over spec functions and views, and the
  properties that relate several functions are stated as public proof
  functions named `law_*`.
  - `schema`: the report types and their views.
  - `strmap`: a string-keyed map with unique keys.
  - `text`: character-level specifications and helpers.
  - `hashing`: the blake3 content hash (a trusted wrapper).
  - `dhat_parser`: the dhat frame grammar and program points; Unicode
    decimal digits are classified by the regex crate (a trusted wrapper).
  - `attribution`: which workspace line an allocation belongs to.
  - `collector`: building the runtime report.
  - `static_sites`: classifying calls, method calls and macros, and
    building a file's static entries.
  - `aggregate`: merging reports, refreshing hashes, the version check.
  - `cli`, `timestamp`, `sample`: argument parsing, package names,
    RFC 3339 time stamps, and the sample workload's integer part.
- `tests/` runs the library on concrete values.
- `app/` is the command line: file and process I/O, JSON through serde,
  the syn syntax walk and the dhat-profiled sample workload.
