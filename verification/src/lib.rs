//! The rules behind `cargo mordant`: what a compilation records, how a run
//! is judged from those records, and how the findings are held to a baseline
//! and printed.

pub mod text;
pub mod number;
pub mod order;
pub mod paths;
pub mod sets;
pub mod maps;
pub mod json;
pub mod files;

pub mod protocol;
pub mod driver;
pub mod records;
pub mod lint;

pub mod args;
pub mod config;
pub mod workspace;
pub mod cargo_messages;

pub mod judge;
pub mod baseline_file;
pub mod over_baseline;
pub mod excerpt;
pub mod diagnostics;
pub mod unused_pub;
pub mod ending;
