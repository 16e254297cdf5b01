//! Watches a process table for package build jobs and keeps a table of the
//! active ones, grouped by the build-tool invocation that manages them.
pub mod pattern;
pub mod presence;
pub mod snapshot;
pub mod text;
pub mod tracker;
