//! Incremental aggregation of per-file death counters across a watched
//! directory of save files.

pub mod cache;
pub mod level;
pub mod watch;
