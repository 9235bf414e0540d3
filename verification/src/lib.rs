//! Lines-of-code statistics for a directory tree: which paths are counted,
//! how lines are counted, which language a file belongs to, and how the
//! per-language totals and percentage shares are aggregated.

pub mod bytes;
pub mod exclusion;
pub mod get_stats;
pub mod langs;
pub mod lines;
pub mod report;
pub mod stats;
pub mod walker;
