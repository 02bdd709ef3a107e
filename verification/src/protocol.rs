//! What `cargo-mordant` hands `mordant-driver` through the environment and
//! the command line.

use vstd::prelude::*;

verus! {

/// The text of the linted workspace's `mordant.toml`. The file is read once
/// and its contents passed, so each crate's compile neither looks for the
/// workspace root nor rereads the file, and cargo, which tracks the variable's
/// value, reruns the lints when the file changes, appears or goes away. Unset
/// means no file: every key takes its default.
pub const CONFIG_ENV: &'static str = "MORDANT_TOML";

/// Passed alone, asks `mordant-driver` to print every lint, one per line
/// under a `mordant` heading, indented and as `name  level  description`.
pub const LIST_ARG: &'static str = "--mordant-list";

/// The directory where each compilation of a run records the `pub` items it
/// defines and the workspace items it uses, for `unused_pub` to judge once the
/// whole run is done. Unset, each crate is judged alone, against its own uses.
pub const FACTS_ENV: &'static str = "MORDANT_UNUSED_PUB_FACTS";

/// Extra compiler flags for the linted crates only, split on whitespace:
/// `MORDANT_RUSTFLAGS="-D warnings"`. `RUSTFLAGS` would also rebuild every
/// dependency with them.
pub const RUSTFLAGS_ENV: &'static str = "MORDANT_RUSTFLAGS";

/// The cfg that is set while the lints run, for
/// `#[cfg_attr(mordant, allow(..))]`.
pub const LINTING_CFG: &'static str = "--cfg=mordant";

} // verus!
