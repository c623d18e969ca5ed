//! Keeps the VSCode Project Manager `projects.json` in step with the git
//! repositories found under a root directory: path handling, tag derivation,
//! the reconciliation of a scan with the stored list, the path cache format,
//! and the per-host configuration.
pub mod order;
pub mod paths;
pub mod tags;
pub mod config;
pub mod projects;
pub mod scan;
pub mod cache;
pub mod hook;
pub mod launchd;
pub mod cli;
