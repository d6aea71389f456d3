//! Scans a directory tree for build-artifact folders (`bin`, `obj`,
//! `node_modules`), reports their aggregate size, and tallies the outcome of
//! deleting them.
//!
//! The library works on an in-memory snapshot of a directory tree
//! ([`tree::FsTree`]); reading the real filesystem, prompting, and removing
//! directories are left to the calling program, which hands the results back
//! as plain values.

pub mod deletion;
pub mod format;
pub mod matcher;
pub mod scanner;
pub mod sizes;
pub mod tree;
