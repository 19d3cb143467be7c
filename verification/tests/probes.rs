use cfip::permits::ProbePermits;
use cfip::ping::{evaluate_candidate, summarize_latency};
use cfip::speed::{build_speed_results, compute_throughput, select_speed_candidates};
use cfip::Candidate;

fn cand(a: u32) -> Candidate {
    Candidate { v6: false, addr: a as u128 }
}

#[test]
fn six_losses_out_of_ten_discards() {
    // Loss rate 0.6 is above the 0.5 threshold, whatever the latency.
    let mut attempts: Vec<Option<u64>> = vec![None; 6];
    attempts.extend([Some(1), Some(1), Some(1), Some(1)]);
    assert!(evaluate_candidate(cand(1), &attempts, u64::MAX).is_none());
}

#[test]
fn half_losses_out_of_ten_is_retained() {
    // Exactly 0.5 is the boundary and is kept.
    let mut attempts: Vec<Option<u64>> = vec![None; 5];
    attempts.extend([Some(100), Some(200), Some(300), Some(400), Some(500)]);
    let r = evaluate_candidate(cand(2), &attempts, 1000).expect("retained at the boundary");
    assert_eq!(r.lost, 5);
    assert_eq!(r.attempts, 10);
    assert_eq!(r.latency_ns, 300);
}

#[test]
fn zero_successes_discards() {
    let attempts: Vec<Option<u64>> = vec![None, None];
    assert!(evaluate_candidate(cand(3), &attempts, u64::MAX).is_none());
}

#[test]
fn no_attempts_discards() {
    let attempts: Vec<Option<u64>> = Vec::new();
    assert!(evaluate_candidate(cand(3), &attempts, u64::MAX).is_none());
}

#[test]
fn average_over_successes_only_and_ceiling() {
    let attempts = vec![Some(1_000), None, Some(3_000)];
    let r = evaluate_candidate(cand(4), &attempts, 2_000).expect("within the ceiling");
    assert_eq!(r.latency_ns, 2_000);
    assert_eq!(r.lost, 1);
    assert_eq!(r.attempts, 3);
    // One nanosecond lower ceiling and the candidate is gone.
    assert!(evaluate_candidate(cand(4), &attempts, 1_999).is_none());
}

#[test]
fn survivors_come_out_sorted_by_latency() {
    let outcomes = vec![
        (cand(30), vec![Some(300u64)]),
        (cand(10), vec![Some(100u64)]),
        (cand(99), vec![None]),
        (cand(20), vec![Some(200u64)]),
    ];
    let out = summarize_latency(&outcomes, 1_000);
    assert_eq!(out.len(), 3);
    assert_eq!(out[0].addr, cand(10));
    assert_eq!(out[1].addr, cand(20));
    assert_eq!(out[2].addr, cand(30));
    assert!(out[0].latency_ns <= out[1].latency_ns);
    assert!(out[1].latency_ns <= out[2].latency_ns);
}

#[test]
fn throughput_is_bytes_per_second() {
    // Ten million bytes in one second.
    assert_eq!(compute_throughput(10_000_000, 1_000_000), Some(10_000_000));
    // A thousand bytes in two milliseconds: half a million per second.
    assert_eq!(compute_throughput(1_000, 2_000), Some(500_000));
}

#[test]
fn immeasurable_transfers_are_dropped() {
    assert_eq!(compute_throughput(0, 1_000_000), None);
    assert_eq!(compute_throughput(5_000, 999), None);
    assert_eq!(compute_throughput(5_000, 1_000), Some(5_000_000));
}

#[test]
fn measurable_transfers_report_a_positive_rate() {
    // Five bytes over ten seconds is under one byte per second; the rate
    // rounds up to one instead of flooring to zero.
    assert_eq!(compute_throughput(5, 10_000_000), Some(1));
    assert_eq!(compute_throughput(1, 1_000_000), Some(1));
}

#[test]
fn bandwidth_tests_only_the_lowest_latency_prefix() {
    let outcomes = vec![
        (cand(1), vec![Some(100u64)]),
        (cand(2), vec![Some(200u64)]),
        (cand(3), vec![Some(300u64)]),
    ];
    let survivors = summarize_latency(&outcomes, 1_000);
    let selected = select_speed_candidates(&survivors, 2);
    assert_eq!(selected.len(), 2);
    assert_eq!(selected[0].addr, cand(1));
    assert_eq!(selected[1].addr, cand(2));
    // Asking for more than survived takes them all.
    assert_eq!(select_speed_candidates(&survivors, 10).len(), 3);
}

#[test]
fn failed_downloads_are_dropped_and_latency_carried_forward() {
    let outcomes = vec![
        (cand(1), vec![Some(100u64)]),
        (cand(2), vec![Some(200u64)]),
        (cand(3), vec![Some(300u64)]),
    ];
    let survivors = summarize_latency(&outcomes, 1_000);
    let downloads = vec![Some((1_000_000u64, 1_000_000u64)), None, Some((0u64, 1_000_000u64))];
    let out = build_speed_results(&survivors, &downloads);
    assert_eq!(out.len(), 1);
    assert_eq!(out[0].addr, cand(1));
    assert_eq!(out[0].latency_ns, 100);
    assert_eq!(out[0].lost, 0);
    assert_eq!(out[0].attempts, 1);
    assert_eq!(out[0].bytes_per_sec, 1_000_000);
}

#[test]
fn permit_pool_never_exceeds_its_cap() {
    let mut pool = ProbePermits::new(2);
    assert!(pool.try_acquire());
    assert!(pool.try_acquire());
    assert!(!pool.try_acquire());
    assert_eq!(pool.in_flight, 2);
    pool.release();
    assert!(pool.try_acquire());
    assert!(pool.in_flight <= pool.cap);
    pool.release();
    pool.release();
    assert_eq!(pool.in_flight, 0);
}
