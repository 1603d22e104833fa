//! A resumable, bounded-concurrency pipeline that reduces per-builder CPU
//! utilization series, collected for each commit of a CI system, to one
//! `(duration, average load)` row per `(commit, builder)` pair, appended to a
//! durable dataset.
//!
//! The crate holds the verified core: summarizing a raw series, reconstructing
//! the resume set from the persisted dataset, enumerating outstanding work,
//! and the pipeline state machine that bounds the number of fetches in flight
//! and decides what to do with each fetch outcome. Network and file I/O live
//! outside, in the accompanying application.

pub mod bytes;
pub mod enumerate;
pub mod errors;
pub mod fetch;
pub mod numbers;
pub mod pipeline;
pub mod resume;
pub mod series;
pub mod timestamp;
