//! Finds build and dependency artifact directories inside version-controlled
//! repositories, aggregates them per repository, and plans and carries out
//! their removal.
//!
//! Reading directories, asking version control and removing files are left
//! to the caller, who hands them in as closures or as plain values. What is
//! done with the answers is decided here, and every function of the library
//! is verified against its contract. Two conversions between bytes and text
//! are taken from the standard library on trust: `format::display_path` and
//! `git::git_head` rest on them.

pub mod clean;
pub mod cli;
pub mod format;
pub mod git;
pub mod keyed;
pub mod path;
pub mod pending;
pub mod report;
pub mod scan;
pub mod screens;
pub mod select;
pub mod sort;
pub mod text;
pub mod time;
pub mod tui;
