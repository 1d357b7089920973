//! The benchmark harness: what it measures, what it runs and what it reports.

pub mod calendar;
pub mod calendar_laws;
pub mod candidate;
pub mod choice_laws;
pub mod csv;
pub mod harness_laws;
pub mod k8s;
pub mod latency;
pub mod listing_laws;
pub mod mock;
pub mod order;
pub mod payloads;
pub mod preflight;
pub mod profiling;
pub mod report;
pub mod report_laws;
pub mod result;
pub mod runner;
pub mod scenario;
