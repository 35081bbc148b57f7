# crap4rust

CRAP analysis for Rust projects: for every function, its cyclomatic complexity
and the share of its executable lines that an LCOV report (from
`cargo llvm-cov`) shows as run, combined into the CRAP score
`complexity² · (1 − coverage)³ + complexity`.

## Layout

- `src/` is the verified library (Verus). It evaluates `cfg` predicates against
  the options Cargo reports (`cfg`), decides which files a crate target reaches
  through active `mod`, `#[path]` and `include!` references (`scope`), parses
  sources with `syn` (`parse`), selects and orders the analysed files
  (`sources`), handles paths lexically (`path`), reads LCOV reports (`lcov`),
  names the compiled functions and measures their line coverage (`metrics`),
  judges a run's inputs and outcome (`report`), and applies anchored text edits
  (`patch`). `order` states and proves the stable
  insertion sort used for ordering; `text` holds character-level helpers.
- `app/` is the command-line program: argument parsing, file system and
  process I/O (including `cargo metadata` and `cargo rustc --print cfg`),
  turning `syn`'s syntax tree into the library's item model (the complexity
  count walks that tree), the floating-point CRAP score, and the JSON and table output.
  `app/tools/` holds maintenance scripts that patch sources at known anchors.
- `tests/` exercises the library on concrete inputs.
