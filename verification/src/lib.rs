//! A polling-and-recording engine: monitored targets are fetched on
//! independent intervals, outcomes are stored as a run-length-encoded
//! transition log, and queries reconstruct the dense time series that the
//! deduplicating writer compressed away.

pub mod config;
pub mod db;
pub mod fetch_result;
pub mod json;
pub mod laws;
pub mod query;
pub mod scheduler;
