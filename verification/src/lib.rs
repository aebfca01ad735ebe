//! Verified core of `treeport`: walking a tree of directories, putting each
//! directory in the first category whose detection command succeeds, and
//! turning what was found into a CSV report.
//!
//! The library does no I/O. A `Walker` says what outside work it needs next
//! (run a detection command, list a directory) and is told the outcome; a
//! `ReportRunner` turns the walk's messages and the outputs of the statistic
//! commands into a `Report`, which encodes itself as CSV.
pub mod config;
pub mod csv_format;
pub mod csv_read;
pub mod report;
pub mod text;
pub mod tree;
pub mod walk;

pub use config::{needs_resolution, CategorySpec, Command, ReportSpec, StatSpec};
pub use report::{
    CsvWriteError, Report, ReportItem, ReportRunner, RootStatus, StatValue, WalkError,
};
pub use text::trim_white_space;
pub use walk::{Action, Entry, WalkMessage, Walker};
