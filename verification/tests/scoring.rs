use cfip::cloudflare::{first_record_id, first_zone_id, DnsRecord, Zone};
use cfip::config::Config;
use cfip::score::{calculate_scores, SCORE_SCALE};
use cfip::speed::SpeedResult;
use cfip::Candidate;

fn entry(a: u32, latency_ns: u64, bytes_per_sec: u64) -> SpeedResult {
    SpeedResult {
        addr: Candidate { v6: false, addr: a as u128 },
        latency_ns,
        lost: 0,
        attempts: 10,
        bytes_per_sec,
    }
}

#[test]
fn empty_input_empty_output() {
    let out = calculate_scores(&Vec::new());
    assert!(out.is_empty());
}

#[test]
fn singleton_scores_exactly_one() {
    let out = calculate_scores(&vec![entry(1, 123_456, 789_000)]);
    assert_eq!(out.len(), 1);
    assert_eq!(out[0].score_ppm, SCORE_SCALE);
    assert_eq!(out[0].latency_ns, 123_456);
    assert_eq!(out[0].bytes_per_sec, 789_000);
}

#[test]
fn identical_pair_both_score_one() {
    let out = calculate_scores(&vec![entry(1, 5_000_000, 2_000_000), entry(2, 5_000_000, 2_000_000)]);
    assert_eq!(out.len(), 2);
    assert_eq!(out[0].score_ppm, SCORE_SCALE);
    assert_eq!(out[1].score_ppm, SCORE_SCALE);
}

#[test]
fn throughput_dominance_example() {
    // A: 10 ms and 10 MB/s; B: 100 ms and 1 MB/s. A is best on both axes,
    // so A scores a full one and B a flat zero.
    let a = entry(0xA, 10_000_000, 10 * 1_048_576);
    let b = entry(0xB, 100_000_000, 1_048_576);
    let out = calculate_scores(&vec![b, a]);
    assert_eq!(out.len(), 2);
    assert_eq!(out[0].addr.addr, 0xA);
    assert_eq!(out[0].score_ppm, SCORE_SCALE);
    assert_eq!(out[1].addr.addr, 0xB);
    assert_eq!(out[1].score_ppm, 0);
    assert!(out[0].score_ppm > out[1].score_ppm);
}

#[test]
fn three_entries_exact_scores() {
    // Latencies 10/20/30 ms, throughputs 1/2/3 MB-ish: the middle entry
    // normalizes to one half on both axes.
    let r1 = entry(1, 10_000_000, 1_000_000);
    let r2 = entry(2, 20_000_000, 2_000_000);
    let r3 = entry(3, 30_000_000, 3_000_000);
    let out = calculate_scores(&vec![r1, r2, r3]);
    assert_eq!(out.len(), 3);
    // 0.3 * 0 + 0.7 * 1 = 0.7 for the fast-download entry,
    // 0.3 * 0.5 + 0.7 * 0.5 = 0.5 for the middle one,
    // 0.3 * 1 + 0.7 * 0 = 0.3 for the low-latency one.
    assert_eq!(out[0].addr.addr, 3);
    assert_eq!(out[0].score_ppm, 700_000);
    assert_eq!(out[1].addr.addr, 2);
    assert_eq!(out[1].score_ppm, 500_000);
    assert_eq!(out[2].addr.addr, 1);
    assert_eq!(out[2].score_ppm, 300_000);
}

#[test]
fn scoring_twice_yields_identical_rankings() {
    let input = vec![
        entry(1, 10_000_000, 5_000_000),
        entry(2, 15_000_000, 9_000_000),
        entry(3, 40_000_000, 1_000_000),
        entry(4, 15_000_000, 9_000_000),
    ];
    let first = calculate_scores(&input);
    let second = calculate_scores(&input);
    assert_eq!(first, second);
}

#[test]
fn output_is_sorted_descending_by_score() {
    let input = vec![
        entry(1, 12_000_000, 4_000_000),
        entry(2, 9_000_000, 8_000_000),
        entry(3, 33_000_000, 2_500_000),
        entry(4, 21_000_000, 6_000_000),
    ];
    let out = calculate_scores(&input);
    assert_eq!(out.len(), 4);
    for w in out.windows(2) {
        assert!(w[0].score_ppm >= w[1].score_ppm);
    }
}

#[test]
fn default_config_matches_documented_knobs() {
    let c = Config::default();
    assert_eq!(c.count, 10);
    assert_eq!(c.threads, 200);
    assert_eq!(c.speed_count, 10);
    assert_eq!(c.port, 443);
    assert_eq!(c.timeout_ms, 1000);
    assert_eq!(c.latency_limit_ms, 300);
    assert_eq!(c.ping_times, 10);
    assert_eq!(c.download_size, 10_485_760);
    assert_eq!(c.test_url, "https://speed.cloudflare.com/__down");
    assert!(c.output.is_none());
    assert!(!c.ipv6);
    assert!(!c.quiet);
}

#[test]
fn zone_lookup_takes_the_first_answer() {
    assert!(first_zone_id(Vec::new()).is_none());
    let zones = vec![
        Zone { id: "z1".to_string(), name: "a.example".to_string(), status: "active".to_string() },
        Zone { id: "z2".to_string(), name: "b.example".to_string(), status: "active".to_string() },
    ];
    assert_eq!(first_zone_id(zones).as_deref(), Some("z1"));
}

#[test]
fn record_lookup_takes_the_first_answer() {
    assert!(first_record_id(Vec::new()).is_none());
    let records = vec![DnsRecord {
        id: "r9".to_string(),
        name: "edge.example".to_string(),
        record_type: "A".to_string(),
        content: "1.2.3.4".to_string(),
        proxied: false,
        ttl: 1,
    }];
    assert_eq!(first_record_id(records).as_deref(), Some("r9"));
}
