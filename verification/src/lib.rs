//! A command-line benchmarking engine: walks a tree of task groups and tasks,
//! plans which commands run in which order, decides which invocations are
//! measured, and accumulates one timing record per successful measured run.
//!
//! Process spawning, clock sampling, configuration parsing and result export
//! are the caller's business; this crate owns the sequencing and recording
//! rules and proves them.

pub mod command_executor;
pub mod config;
