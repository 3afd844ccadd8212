# wasmcheck

A size budget checker for WebAssembly bundles: it measures the raw, gzip and
brotli sizes of `.wasm` files, compares them with absolute budgets and with a
committed baseline, and fails a CI run when a gate is crossed.

## Layout

- `src/` — the library, written in Verus. Every function carries a contract
  that Verus proves: parsing and printing sizes and percentages, the gates,
  the baseline (a sorted map with its own invariant), the config, path
  handling, the choice of files to measure, the verdicts and messages of a
  run, and the ranking of a module's largest functions.
  - `size.rs`, `threshold.rs`, `decimal.rs`, `text.rs` — sizes, percentages
    and the text they are written in.
  - `limits.rs`, `gates.rs` — budgets, growth allowances and verdicts.
  - `baseline.rs`, `config.rs`, `run.rs` — what is recorded and configured,
    and how a run combines the command line with the config.
  - `paths.rs`, `files.rs` — path components and the files a run measures.
  - `top.rs` — ranking functions by body size.
  The calls into `flate2`, `brotli`, `glob`, `wasmparser` and `std::path`
  sit behind small trusted wrappers whose contracts name what they return.
- `app/` — the command line: argument parsing, file system access, JSON
  reading and writing, and colored output.
- `tests/` — tests of the library.
