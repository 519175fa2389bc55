//! Duplicate code and complexity reports for source trees: command line,
//! file selection, line classification, duplicate detection, changed-line
//! scopes from `git`, and the text of the reports.

pub mod block_order;
pub mod cli;
pub mod discovery;
pub mod duplicate;
pub mod error;
pub mod git;
pub mod language;
pub mod line;
pub mod model;
pub mod paths;
pub mod ranges;
pub mod report;
pub mod text;
pub mod workflow;

pub use workflow::RunStatus;
