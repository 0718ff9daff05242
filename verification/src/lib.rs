//! Comparison of two directory trees: the verified core of `compdir`.
//!
//! The library parses the command line, plans how each side is resolved,
//! interprets what a remote host answers, and renders the report of the
//! relative directories that exist on one side only.

pub mod text;

pub mod paths;
pub mod uri;
pub mod shell;
pub mod dirmap;
pub mod report;
pub mod remote;
pub mod local;
pub mod cli;
pub mod target;
