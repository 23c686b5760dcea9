//! Aggregation of plain-text logs: classification of lines by severity,
//! extraction and ranking of error messages, keyword filtering, and the merge
//! of per-file results into one report.

pub mod aggregate;
pub mod classify;
pub mod errors;
pub mod filter;
pub mod lines;
pub mod ranking;
pub mod report;
pub mod scan;
pub mod severity;
pub mod text;
