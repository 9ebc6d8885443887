//! Aggregates on-disk sizes of the files under a root directory by a
//! depth-limited path prefix, selects the largest groups and prepares the
//! numbers of a report.
pub mod group;
pub mod report;
pub mod select;
pub mod size;
