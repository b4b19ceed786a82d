//! Routing of freshly taken screenshots into note directories.
//!
//! The crate holds the decisions of the tool: which files of a listing are
//! new, which directories may receive a file, how detected files travel to
//! the interactive side and what the interactive side asks for next. Reading
//! directories, sleeping, prompting and renaming are left to the caller, who
//! hands the outcomes in as plain values.

pub mod entry;
pub mod channel;
pub mod file_operations;
pub mod file_set;
pub mod menu;
pub mod screenshot;
