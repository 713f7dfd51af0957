//! Dependency graphs of Rust projects, built from a `cargo tree` listing and a
//! `cargo bloat` size report, with size and count metrics and
//! reachability-preserving edits.

pub mod cargo;
pub mod coloring;
pub mod graph;
pub mod machine;
pub mod options;
pub mod pgraph;
pub mod template;
pub mod tree;
