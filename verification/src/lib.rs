//! Storage I/O trace analysis: parsing of UFS, block and custom UFS trace
//! lines, latency post-processing (queue depth, dispatch/complete latencies,
//! request continuity), statistics and the pattern registry.
//!
//! Timestamps are held as unsigned nanoseconds and latencies as signed
//! nanoseconds, so every computation here is exact integer arithmetic.

#![allow(non_camel_case_types)]

pub mod chart;
pub mod compress;
pub mod export;
pub mod files;
pub mod highperf;
pub mod lines;
pub mod numeric;
pub mod block;
pub mod parse;
pub mod matcher;
pub mod patterns;
pub mod pending;
pub mod sampling;
pub mod sort;
pub mod stats;
pub mod text;
pub mod threshold;
pub mod types;
pub mod ufs;
pub mod ufscustom;
