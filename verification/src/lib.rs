//! Core engine of a declarative filesystem cleanup tool.
//!
//! A `Rule` names a category of cleanable content; the engine scans a
//! snapshot of the filesystem for the files and directories the rule refers
//! to, sizes them, and plans their removal in a depth-safe order, producing
//! auditable reports along the way.

pub mod apply;
pub mod ascii;
pub mod cli;
pub mod config;
pub mod downloads;
pub mod fspath;
pub mod fstree;
pub mod globs;
pub mod laws;
pub mod logs;
pub mod options;
pub mod report;
pub mod scan;
pub mod snapshot;
pub mod tui;
pub mod walk;
