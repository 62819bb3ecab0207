//! Statistical profile of a directory tree.
//!
//! The crate holds the pure core of a folder analyzer: name parsing
//! (extensions, base names, hidden names, naming conventions) and the
//! aggregation of a sequence of file records into a single report
//! (totals, per-extension buckets, largest files, age extremes,
//! duplicate base names, naming tallies).  Walking the filesystem and
//! reading clocks stay with the caller, which hands in plain records
//! and one capture instant.

pub mod names;
pub mod record;
pub mod report;
