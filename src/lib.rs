//! Slow-query-log analysis: record extraction, predicate filters, query
//! fingerprinting and per-fingerprint aggregation.

pub mod duration;
pub mod text;
pub mod scan;
pub mod number;
pub mod timestamp;
pub mod log_parser;
pub mod filters;
pub mod aggregate;
pub mod summarize;
pub mod normalize;
pub mod opt;
pub mod report;
