//! Hierarchical project configuration: a root document plus ordered include
//! documents are composed into one effective configuration, and a runner
//! sub-language maps `+name`/`-name`/`name` tokens against an alias table
//! into the final ordered list of entries to execute.
//!
//! The composition and resolution engine is verified: the merge algorithm,
//! the typed scalar model with its fixed trial-parse order, and the runner
//! entry resolution. File reading, YAML encoding and prompting are left to
//! callers, which hand the library plain values.

pub mod amap;
pub mod config;
pub mod errors;
pub mod init;
pub mod laws;
pub mod paths;
pub mod project;
pub mod runner;
pub mod scalar;
