# mordant

The rules behind `cargo mordant`, verified with Verus.

`cargo mordant` runs `cargo check` with a driver that lints the workspace's own
crates. This library holds what the run decides: what a compilation records of
the `pub` items it defines and uses, which of those items a run finds unused,
how findings are held to a baseline, what is printed in text and in JSON, what
becomes of `target/mordant/over-baseline.txt`, and how the run exits.

## Layout

- `src/` is the library. Paths are texts with `/` between their components, and
  files that a run reads are handed in as `files::Files`.
  - `text`, `number`, `order`, `paths`, `sets`, `maps`, `json`, `files`: the
    parts that the rest is made of.
  - `records`: what the compilations of a run write and `cargo mordant` reads.
  - `lint`: what one compilation takes of what the compiler tells it.
  - `driver`, `protocol`: the driver's arguments, and what it is handed.
  - `args`, `workspace`, `cargo_messages`, `config`: the command line, the
    members, cargo's messages and the configuration.
  - `judge`: which items a run finds unused.
  - `baseline_file`, `over_baseline`: the baseline and the status file.
  - `unused_pub`, `excerpt`, `diagnostics`: the findings, as they are reported.
  - `ending`: how a run ends.
- `app/` is ordinary Rust around it. `main.rs` is `cargo-mordant`;
  `mordant_driver.rs` is the root of `mordant-driver`, which builds only with
  the compiler's own crates.
- `tests/` runs the library, whole runs included.

## What is trusted

The library calls `annotate-snippets`, `serde_json` and `toml` through wrappers
in `diagnostics`, `json`, `cargo_messages`, `config` and `baseline_file`, and
one character test of the standard library in `workspace`. Each wrapper's
comment says what is claimed of the call.
