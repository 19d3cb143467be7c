//! Throughput measurements.
//!
//! Bandwidth testing is expensive, so only a prefix of the latency-sorted
//! survivors is tested, one candidate at a time. The surrounding binary
//! performs each bounded-duration download and reports how many bytes
//! arrived in how many microseconds (or nothing, for a transfer that failed
//! outright); this module selects the prefix, applies the failure policy and
//! carries the latency figures forward unchanged.

use vstd::prelude::*;

use crate::ping::PingResult;
use crate::Candidate;

verus! {

/// A latency survivor that also survived bandwidth testing.
#[derive(Clone, Copy, PartialEq, Eq, Structural, Debug)]
pub struct SpeedResult {
    pub addr: Candidate,
    /// Carried forward unchanged from the latency stage.
    pub latency_ns: u64,
    /// Carried forward unchanged from the latency stage.
    pub lost: u64,
    /// Carried forward unchanged from the latency stage.
    pub attempts: u64,
    /// Measured download rate in bytes per second; always positive.
    pub bytes_per_sec: u64,
}

/// The throughput a download outcome yields: nothing when no byte arrived or
/// the elapsed time is below the minimal measurable threshold of a
/// millisecond, otherwise bytes received per second. A measurable transfer
/// always reports a positive rate: a rate under one byte per second rounds
/// up to one, and a rate beyond the word saturates at it.
pub open spec fn spec_throughput(bytes: u64, elapsed_micros: u64) -> Option<u64> {
    if bytes == 0 || elapsed_micros < 1000 {
        None
    } else if (bytes * 1_000_000) as int / (elapsed_micros as int) > u64::MAX {
        Some(u64::MAX)
    } else if (bytes * 1_000_000) as int / (elapsed_micros as int) == 0 {
        Some(1u64)
    } else {
        Some(((bytes * 1_000_000) as int / (elapsed_micros as int)) as u64)
    }
}

/// Computes the download rate for one transfer.
pub fn compute_throughput(bytes: u64, elapsed_micros: u64) -> (r: Option<u64>)
    ensures
        r == spec_throughput(bytes, elapsed_micros),
        r is Some ==> r.unwrap() >= 1,
{
    if bytes == 0 || elapsed_micros < 1000 {
        None
    } else {
        let q = (bytes as u128) * 1_000_000 / (elapsed_micros as u128);
        if q > u64::MAX as u128 {
            Some(u64::MAX)
        } else if q == 0 {
            Some(1)
        } else {
            Some(q as u64)
        }
    }
}

/// The lowest-latency prefix that bandwidth testing will probe: the first
/// `count` entries, or all of them when fewer survived.
pub fn select_speed_candidates(ping_results: &Vec<PingResult>, count: usize) -> (out: Vec<
    PingResult,
>)
    ensures
        out@ == ping_results@.take(vstd::math::min(count as int, ping_results@.len() as int)),
{
    let n = ping_results.len();
    let k = if count < n {
        count
    } else {
        n
    };
    let mut out: Vec<PingResult> = Vec::new();
    let mut i: usize = 0;
    while i < k
        invariant
            i <= k <= n == ping_results@.len(),
            out@ =~= ping_results@.take(i as int),
        decreases k - i,
    {
        out.push(ping_results[i]);
        proof {
            assert(out@ =~= ping_results@.take(i + 1));
        }
        i = i + 1;
    }
    out
}

/// The measurement one tested candidate yields: nothing when the transfer
/// failed or fell under the failure policy, otherwise the latency summary
/// with the measured rate attached.
pub open spec fn spec_speed_entry(p: PingResult, d: Option<(u64, u64)>) -> Option<SpeedResult> {
    match d {
        None => None,
        Some((bytes, micros)) => match spec_throughput(bytes, micros) {
            None => None,
            Some(bps) => Some(
                SpeedResult {
                    addr: p.addr,
                    latency_ns: p.latency_ns,
                    lost: p.lost,
                    attempts: p.attempts,
                    bytes_per_sec: bps,
                },
            ),
        },
    }
}

/// The measurements a list of tested candidates yields, in input order, so
/// the latency ordering of the prefix is preserved.
pub open spec fn spec_speed_results(
    ps: Seq<PingResult>,
    ds: Seq<Option<(u64, u64)>>,
) -> Seq<SpeedResult>
    decreases ps.len(),
{
    if ps.len() == 0 || ds.len() != ps.len() {
        Seq::empty()
    } else {
        let rest = spec_speed_results(ps.drop_last(), ds.drop_last());
        match spec_speed_entry(ps.last(), ds.last()) {
            Some(r) => rest.push(r),
            None => rest,
        }
    }
}

/// Pairs each selected candidate with its download outcome, drops the
/// failures, and carries latency and loss forward unchanged.
pub fn build_speed_results(
    selected: &Vec<PingResult>,
    downloads: &Vec<Option<(u64, u64)>>,
) -> (out: Vec<SpeedResult>)
    requires
        selected@.len() == downloads@.len(),
    ensures
        out@ == spec_speed_results(selected@, downloads@),
{
    let n = selected.len();
    let mut out: Vec<SpeedResult> = Vec::new();
    let mut i: usize = 0;
    while i < n
        invariant
            i <= n == selected@.len() == downloads@.len(),
            out@ == spec_speed_results(selected@.take(i as int), downloads@.take(i as int)),
        decreases n - i,
    {
        proof {
            assert(selected@.take(i + 1).drop_last() =~= selected@.take(i as int));
            assert(downloads@.take(i + 1).drop_last() =~= downloads@.take(i as int));
            assert(selected@.take(i + 1).last() == selected@[i as int]);
            assert(downloads@.take(i + 1).last() == downloads@[i as int]);
        }
        let p = selected[i];
        let d = downloads[i];
        match d {
            Some((bytes, micros)) => match compute_throughput(bytes, micros) {
                Some(bps) => out.push(
                    SpeedResult {
                        addr: p.addr,
                        latency_ns: p.latency_ns,
                        lost: p.lost,
                        attempts: p.attempts,
                        bytes_per_sec: bps,
                    },
                ),
                None => {},
            },
            None => {},
        }
        i = i + 1;
    }
    proof {
        assert(selected@.take(n as int) =~= selected@);
        assert(downloads@.take(n as int) =~= downloads@);
    }
    out
}

/// Every measurement the bandwidth stage emits has a positive rate: a
/// candidate whose transfer failed, carried no byte, or ended under the
/// measurable threshold is absent instead.
pub proof fn lemma_speed_results_positive(
    ps: Seq<PingResult>,
    ds: Seq<Option<(u64, u64)>>,
    r: SpeedResult,
)
    requires
        spec_speed_results(ps, ds).contains(r),
    ensures
        r.bytes_per_sec >= 1,
    decreases ps.len(),
{
    let s = spec_speed_results(ps, ds);
    if ps.len() > 0 && ds.len() == ps.len() {
        let rest = spec_speed_results(ps.drop_last(), ds.drop_last());
        match spec_speed_entry(ps.last(), ds.last()) {
            Some(q) => {
                if r != q {
                    let w = choose|w: int| 0 <= w < s.len() && s[w] == r;
                    assert(rest[w] == r || s.last() == r);
                    assert(rest.contains(r));
                    lemma_speed_results_positive(ps.drop_last(), ds.drop_last(), r);
                }
            },
            None => {
                lemma_speed_results_positive(ps.drop_last(), ds.drop_last(), r);
            },
        }
    }
}

} // verus!
