//! Verified pipeline for a per-interval electricity usage report: parse
//! tab-separated record lines, group records by calendar date, reduce each
//! group to a usage-weighted daily summary, and select the cheapest day.

pub mod aggregate;
pub mod errors;
pub mod numbers;
pub mod parse;
pub mod pipeline;
pub mod record;
pub mod select;
pub mod text;
