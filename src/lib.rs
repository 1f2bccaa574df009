//! Finds the git repositories under a directory, leaving out those that are
//! submodules of an enclosing repository, and sorts the outcomes of a command
//! run in each of them.
//!
//! - `gitmodules`: the `.gitmodules` format and its parser.
//! - `discover`: the decisions of the directory walk, one entry at a time.
//! - `report`: the outcome of the command in each repository, and the report.
//! - `text`: white space and character helpers shared by the others.

pub mod text;
pub mod gitmodules;
pub mod discover;
pub mod report;
