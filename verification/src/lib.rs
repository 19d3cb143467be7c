//! Measurement and ranking pipeline for picking low-latency, high-throughput
//! edge addresses out of a published set of CIDR ranges.
//!
//! The pipeline has four stages, each a pure function over plain values:
//! sampling candidate addresses from ranges, summarizing latency probes,
//! attaching throughput measurements, and scoring the survivors. Network I/O
//! (TCP connects, HTTP downloads) is performed by the surrounding binary,
//! which hands the raw outcomes to this library.

use vstd::prelude::*;

pub mod cloudflare;
pub mod config;
pub mod ip;
pub mod permits;
pub mod ping;
pub mod score;
pub mod speed;

verus! {

/// A single IP address drawn from a range, kept as an integer. IPv4 addresses
/// occupy the low 32 bits with `v6` false.
#[derive(Clone, Copy, PartialEq, Eq, Structural, Debug, Hash)]
pub struct Candidate {
    pub v6: bool,
    pub addr: u128,
}

/// A fatal condition for the whole run: per-candidate failures are never
/// errors (candidates are silently dropped), but an empty range list leaves
/// the pipeline with nothing to measure.
#[derive(Clone, Copy, PartialEq, Eq, Structural, Debug)]
pub enum PipelineError {
    NoRanges,
}

} // verus!
