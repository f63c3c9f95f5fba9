//! Clustering of similar server-log records and latency distributions.
//!
//! Parsed log records are put into canonical order, partitioned into runs of
//! similar messages, and ranked by severity and frequency; latency samples
//! carried by structured records are binned into power-of-two buckets.

pub mod text;
pub mod ordered;
pub mod log_line;
pub mod grouping;
pub mod log_line_histogram;
pub mod json;
pub mod chart;
pub mod job_latency;
pub mod to_json;
pub mod parse;
