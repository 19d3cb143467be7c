//! Multi-criteria scoring and ranking.
//!
//! Latency and throughput are normalized across the bandwidth-tested set and
//! combined into a composite score, kept in millionths so that a score of
//! one million means the best possible entry. Throughput is weighted more
//! heavily than latency by design: the composite is three tenths latency
//! score plus seven tenths throughput score. The ranking is a pure function
//! of the measurement sequence — no randomness, no hidden state — so
//! repeated runs over the same measurements agree exactly.

use vstd::prelude::*;

use vstd::multiset::Multiset;
use vstd::seq_lib::lemma_multiset_commutative;

use crate::speed::SpeedResult;
use crate::Candidate;

verus! {

/// Scores are fixed-point, in millionths: this value is a score of one.
pub const SCORE_SCALE: u64 = 1_000_000;

/// The final, ranked, read-only output of the pipeline.
#[derive(Clone, Copy, PartialEq, Eq, Structural, Debug)]
pub struct ScoredResult {
    pub addr: Candidate,
    pub latency_ns: u64,
    pub lost: u64,
    pub attempts: u64,
    pub bytes_per_sec: u64,
    /// Composite score in millionths, between zero and `SCORE_SCALE`.
    pub score_ppm: u64,
}

/// Least latency among the first `n` entries.
pub open spec fn min_latency_upto(s: Seq<SpeedResult>, n: int) -> int
    decreases n,
{
    if n <= 1 {
        s[0].latency_ns as int
    } else {
        let m = min_latency_upto(s, n - 1);
        if s[n - 1].latency_ns < m {
            s[n - 1].latency_ns as int
        } else {
            m
        }
    }
}

/// Greatest latency among the first `n` entries.
pub open spec fn max_latency_upto(s: Seq<SpeedResult>, n: int) -> int
    decreases n,
{
    if n <= 1 {
        s[0].latency_ns as int
    } else {
        let m = max_latency_upto(s, n - 1);
        if s[n - 1].latency_ns > m {
            s[n - 1].latency_ns as int
        } else {
            m
        }
    }
}

/// Least throughput among the first `n` entries.
pub open spec fn min_speed_upto(s: Seq<SpeedResult>, n: int) -> int
    decreases n,
{
    if n <= 1 {
        s[0].bytes_per_sec as int
    } else {
        let m = min_speed_upto(s, n - 1);
        if s[n - 1].bytes_per_sec < m {
            s[n - 1].bytes_per_sec as int
        } else {
            m
        }
    }
}

/// Greatest throughput among the first `n` entries.
pub open spec fn max_speed_upto(s: Seq<SpeedResult>, n: int) -> int
    decreases n,
{
    if n <= 1 {
        s[0].bytes_per_sec as int
    } else {
        let m = max_speed_upto(s, n - 1);
        if s[n - 1].bytes_per_sec > m {
            s[n - 1].bytes_per_sec as int
        } else {
            m
        }
    }
}

/// Every entry lies between the minima and maxima of its set.
proof fn lemma_extrema_bound(s: Seq<SpeedResult>, n: int, k: int)
    requires
        0 <= k < n <= s.len(),
    ensures
        min_latency_upto(s, n) <= s[k].latency_ns <= max_latency_upto(s, n),
        min_speed_upto(s, n) <= s[k].bytes_per_sec <= max_speed_upto(s, n),
    decreases n,
{
    if n > 1 && k < n - 1 {
        lemma_extrema_bound(s, n - 1, k);
    }
}

/// Normalized latency score in millionths: lower latency scores higher, and
/// a degenerate range (all latencies equal) scores full for everyone.
pub open spec fn lat_score(lat: int, lo: int, hi: int) -> int {
    if lo < hi {
        (hi - lat) * (SCORE_SCALE as int) / (hi - lo)
    } else {
        SCORE_SCALE as int
    }
}

/// Normalized throughput score in millionths: higher throughput scores
/// higher, and a degenerate range scores full for everyone.
pub open spec fn spd_score(spd: int, lo: int, hi: int) -> int {
    if lo < hi {
        (spd - lo) * (SCORE_SCALE as int) / (hi - lo)
    } else {
        SCORE_SCALE as int
    }
}

/// Weighted composite of the two normalized scores, in millionths.
pub open spec fn composite(ls: int, ss: int) -> int {
    (3 * ls + 7 * ss) / 10
}

/// A normalized score stays between zero and the scale when the value lies
/// within the range it was normalized over.
proof fn lemma_norm_score_bounds(v: int, lo: int, hi: int)
    requires
        lo <= v <= hi,
    ensures
        0 <= lat_score(v, lo, hi) <= SCORE_SCALE,
        0 <= spd_score(v, lo, hi) <= SCORE_SCALE,
{
    if lo < hi {
        let d = hi - lo;
        let sc = SCORE_SCALE as int;
        vstd::arithmetic::mul::lemma_mul_inequality(hi - v, d, sc);
        vstd::arithmetic::mul::lemma_mul_inequality(v - lo, d, sc);
        vstd::arithmetic::mul::lemma_mul_nonnegative(hi - v, sc);
        vstd::arithmetic::mul::lemma_mul_nonnegative(v - lo, sc);
        vstd::arithmetic::div_mod::lemma_div_is_ordered((hi - v) * sc, d * sc, d);
        vstd::arithmetic::div_mod::lemma_div_is_ordered((v - lo) * sc, d * sc, d);
        vstd::arithmetic::div_mod::lemma_div_is_ordered(0, (hi - v) * sc, d);
        vstd::arithmetic::div_mod::lemma_div_is_ordered(0, (v - lo) * sc, d);
        vstd::arithmetic::div_mod::lemma_div_multiples_vanish(sc, d);
    }
}

/// One entry scored against the extrema of its set.
pub open spec fn spec_score_entry(
    r: SpeedResult,
    llo: int,
    lhi: int,
    slo: int,
    shi: int,
) -> ScoredResult {
    ScoredResult {
        addr: r.addr,
        latency_ns: r.latency_ns,
        lost: r.lost,
        attempts: r.attempts,
        bytes_per_sec: r.bytes_per_sec,
        score_ppm: composite(
            lat_score(r.latency_ns as int, llo, lhi),
            spd_score(r.bytes_per_sec as int, slo, shi),
        ) as u64,
    }
}

/// Index of the first entry holding the greatest score among the first `n`.
pub open spec fn first_max_upto(s: Seq<ScoredResult>, n: int) -> int
    decreases n,
{
    if n <= 1 {
        0
    } else {
        let p = first_max_upto(s, n - 1);
        if s[n - 1].score_ppm > s[p].score_ppm {
            n - 1
        } else {
            p
        }
    }
}

/// The first-maximum index is in range and holds a maximal score.
proof fn lemma_first_max_upto(s: Seq<ScoredResult>, n: int)
    requires
        1 <= n <= s.len(),
    ensures
        0 <= first_max_upto(s, n) < n,
        forall|k: int|
            0 <= k < n ==> (#[trigger] s[k]).score_ppm <= s[first_max_upto(s, n)].score_ppm,
    decreases n,
{
    if n > 1 {
        lemma_first_max_upto(s, n - 1);
    }
}

/// Descending by composite score.
pub open spec fn sorted_desc(s: Seq<ScoredResult>) -> bool {
    forall|i: int, j: int| 0 <= i <= j < s.len() ==> s[i].score_ppm >= s[j].score_ppm
}

/// Sorts by repeatedly extracting the first entry of greatest score, which
/// keeps equal-scored entries in their original order.
pub open spec fn spec_sort_desc(s: Seq<ScoredResult>) -> Seq<ScoredResult>
    decreases s.len(),
    via spec_sort_desc_decreases
{
    if s.len() == 0 {
        Seq::empty()
    } else {
        let p = first_max_upto(s, s.len() as int);
        seq![s[p]] + spec_sort_desc(s.remove(p))
    }
}

#[via_fn]
proof fn spec_sort_desc_decreases(s: Seq<ScoredResult>) {
    if s.len() > 0 {
        lemma_first_max_upto(s, s.len() as int);
    }
}

/// The sort returns the same entries, as many of them, in descending score
/// order.
pub proof fn lemma_sort_desc_props(s: Seq<ScoredResult>)
    ensures
        spec_sort_desc(s).to_multiset() == s.to_multiset(),
        spec_sort_desc(s).len() == s.len(),
        sorted_desc(spec_sort_desc(s)),
    decreases s.len(),
{
    broadcast use vstd::seq_lib::group_to_multiset_ensures;

    if s.len() > 0 {
        let n = s.len() as int;
        let p = first_max_upto(s, n);
        lemma_first_max_upto(s, n);
        let rest = s.remove(p);
        lemma_sort_desc_props(rest);
        let sorted = spec_sort_desc(s);
        lemma_multiset_commutative(seq![s[p]], spec_sort_desc(rest));
        assert(seq![s[p]].to_multiset() =~= Multiset::empty().insert(s[p])) by {
            assert(seq![s[p]] =~= Seq::empty().push(s[p]));
        }
        assert(sorted.to_multiset() =~= s.to_multiset());
        assert forall|i: int, j: int|
            0 <= i <= j < sorted.len() implies sorted[i].score_ppm >= sorted[j].score_ppm by {
            if i == 0 && j > 0 {
                let x = spec_sort_desc(rest)[j - 1];
                assert(spec_sort_desc(rest).contains(x));
                assert(spec_sort_desc(rest).to_multiset().count(x) > 0);
                assert(rest.contains(x));
                let w = choose|w: int| 0 <= w < rest.len() && rest[w] == x;
                if w < p {
                    assert(rest[w] == s[w]);
                } else {
                    assert(rest[w] == s[w + 1]);
                }
            } else if i > 0 {
                assert(spec_sort_desc(rest)[i - 1].score_ppm >= spec_sort_desc(
                    rest,
                )[j - 1].score_ppm);
            }
        }
    }
}

/// What the scorer returns: nothing for no measurements, the trivially best
/// single entry for one measurement, and otherwise every entry scored
/// against the set's extrema and sorted descending by composite score.
pub open spec fn spec_rank(s: Seq<SpeedResult>) -> Seq<ScoredResult> {
    if s.len() == 0 {
        Seq::empty()
    } else if s.len() == 1 {
        seq![
            ScoredResult {
                addr: s[0].addr,
                latency_ns: s[0].latency_ns,
                lost: s[0].lost,
                attempts: s[0].attempts,
                bytes_per_sec: s[0].bytes_per_sec,
                score_ppm: SCORE_SCALE,
            },
        ]
    } else {
        let n = s.len() as int;
        spec_sort_desc(
            Seq::new(
                s.len(),
                |i: int|
                    spec_score_entry(
                        s[i],
                        min_latency_upto(s, n),
                        max_latency_upto(s, n),
                        min_speed_upto(s, n),
                        max_speed_upto(s, n),
                    ),
            ),
        )
    }
}

/// Index of the first entry of greatest score.
fn index_of_max_score(v: &Vec<ScoredResult>) -> (p: usize)
    requires
        v@.len() > 0,
    ensures
        0 <= p < v@.len(),
        p == first_max_upto(v@, v@.len() as int),
{
    let mut p: usize = 0;
    let mut i: usize = 1;
    while i < v.len()
        invariant
            0 <= p < i <= v@.len(),
            p == first_max_upto(v@, i as int),
        decreases v@.len() - i,
    {
        if v[i].score_ppm > v[p].score_ppm {
            p = i;
        }
        i = i + 1;
    }
    p
}

/// Selection sort pinned to its specification, so that the whole ranking is
/// a function of its input.
fn sort_desc_by_score(results: Vec<ScoredResult>) -> (out: Vec<ScoredResult>)
    ensures
        out@ == spec_sort_desc(results@),
{
    let mut v = results;
    let ghost orig = v@;
    let mut out: Vec<ScoredResult> = Vec::new();
    proof {
        assert(out@ + spec_sort_desc(v@) =~= spec_sort_desc(orig));
    }
    while v.len() > 0
        invariant
            spec_sort_desc(orig) == out@ + spec_sort_desc(v@),
        decreases v@.len(),
    {
        let ghost pre_out = out@;
        let ghost pre_v = v@;
        let p = index_of_max_score(&v);
        let x = v.remove(p);
        out.push(x);
        proof {
            assert(spec_sort_desc(pre_v) == seq![x] + spec_sort_desc(v@));
            assert(out@ =~= pre_out + seq![x]);
            assert((pre_out + seq![x]) + spec_sort_desc(v@) =~= pre_out + (seq![x]
                + spec_sort_desc(v@)));
        }
    }
    proof {
        assert(out@ + spec_sort_desc(v@) =~= out@);
    }
    out
}

/// Normalizes latency and throughput across the set, combines them into the
/// weighted composite, and ranks descending by composite score.
pub fn calculate_scores(results: &Vec<SpeedResult>) -> (out: Vec<ScoredResult>)
    ensures
        out@ == spec_rank(results@),
        sorted_desc(out@),
{
    let n = results.len();
    if n == 0 {
        let out: Vec<ScoredResult> = Vec::new();
        proof {
            assert(out@ =~= spec_rank(results@));
        }
        return out;
    }
    if n == 1 {
        let r = results[0];
        let mut out: Vec<ScoredResult> = Vec::new();
        out.push(
            ScoredResult {
                addr: r.addr,
                latency_ns: r.latency_ns,
                lost: r.lost,
                attempts: r.attempts,
                bytes_per_sec: r.bytes_per_sec,
                score_ppm: SCORE_SCALE,
            },
        );
        proof {
            assert(out@ =~= spec_rank(results@));
        }
        return out;
    }
    let mut llo = results[0].latency_ns;
    let mut lhi = results[0].latency_ns;
    let mut slo = results[0].bytes_per_sec;
    let mut shi = results[0].bytes_per_sec;
    let mut i: usize = 1;
    while i < n
        invariant
            1 <= i <= n == results@.len(),
            llo == min_latency_upto(results@, i as int),
            lhi == max_latency_upto(results@, i as int),
            slo == min_speed_upto(results@, i as int),
            shi == max_speed_upto(results@, i as int),
        decreases n - i,
    {
        let r = results[i];
        if r.latency_ns < llo {
            llo = r.latency_ns;
        }
        if r.latency_ns > lhi {
            lhi = r.latency_ns;
        }
        if r.bytes_per_sec < slo {
            slo = r.bytes_per_sec;
        }
        if r.bytes_per_sec > shi {
            shi = r.bytes_per_sec;
        }
        i = i + 1;
    }
    let mut scored: Vec<ScoredResult> = Vec::new();
    let mut j: usize = 0;
    while j < n
        invariant
            0 <= j <= n == results@.len(),
            llo == min_latency_upto(results@, n as int),
            lhi == max_latency_upto(results@, n as int),
            slo == min_speed_upto(results@, n as int),
            shi == max_speed_upto(results@, n as int),
            scored@.len() == j,
            forall|k: int|
                0 <= k < j ==> scored@[k] == spec_score_entry(
                    results@[k],
                    llo as int,
                    lhi as int,
                    slo as int,
                    shi as int,
                ),
        decreases n - j,
    {
        let r = results[j];
        proof {
            lemma_extrema_bound(results@, n as int, j as int);
            lemma_norm_score_bounds(r.latency_ns as int, llo as int, lhi as int);
            lemma_norm_score_bounds(r.bytes_per_sec as int, slo as int, shi as int);
        }
        let ls: u64 = if llo < lhi {
            (((lhi - r.latency_ns) as u128 * 1_000_000) / ((lhi - llo) as u128)) as u64
        } else {
            SCORE_SCALE
        };
        let ss: u64 = if slo < shi {
            (((r.bytes_per_sec - slo) as u128 * 1_000_000) / ((shi - slo) as u128)) as u64
        } else {
            SCORE_SCALE
        };
        let sc: u64 = (3 * ls + 7 * ss) / 10;
        scored.push(
            ScoredResult {
                addr: r.addr,
                latency_ns: r.latency_ns,
                lost: r.lost,
                attempts: r.attempts,
                bytes_per_sec: r.bytes_per_sec,
                score_ppm: sc,
            },
        );
        j = j + 1;
    }
    proof {
        assert(scored@ =~= Seq::new(
            results@.len(),
            |i: int|
                spec_score_entry(
                    results@[i],
                    min_latency_upto(results@, n as int),
                    max_latency_upto(results@, n as int),
                    min_speed_upto(results@, n as int),
                    max_speed_upto(results@, n as int),
                ),
        ));
        lemma_sort_desc_props(scored@);
    }
    sort_desc_by_score(scored)
}

/// A single measurement ranks alone with a score of exactly one million —
/// a full score of one: normalization across a range of one is undefined,
/// so the convention is "trivially best".
pub proof fn lemma_singleton_full_score(s: Seq<SpeedResult>)
    requires
        s.len() == 1,
    ensures
        spec_rank(s).len() == 1,
        spec_rank(s)[0].score_ppm == SCORE_SCALE,
{
}

/// Two entries with identical latency and identical throughput both receive
/// the full score: both normalization ranges are degenerate.
pub proof fn lemma_identical_pair_full_score(s: Seq<SpeedResult>)
    requires
        s.len() == 2,
        s[0].latency_ns == s[1].latency_ns,
        s[0].bytes_per_sec == s[1].bytes_per_sec,
    ensures
        spec_rank(s).len() == 2,
        spec_rank(s)[0].score_ppm == SCORE_SCALE,
        spec_rank(s)[1].score_ppm == SCORE_SCALE,
{
    let n = s.len() as int;
    assert(min_latency_upto(s, 1) == s[0].latency_ns);
    assert(max_latency_upto(s, 1) == s[0].latency_ns);
    assert(min_speed_upto(s, 1) == s[0].bytes_per_sec);
    assert(max_speed_upto(s, 1) == s[0].bytes_per_sec);
    assert(min_latency_upto(s, n) == max_latency_upto(s, n));
    assert(min_speed_upto(s, n) == max_speed_upto(s, n));
    let mapped = Seq::new(
        s.len(),
        |i: int|
            spec_score_entry(
                s[i],
                min_latency_upto(s, n),
                max_latency_upto(s, n),
                min_speed_upto(s, n),
                max_speed_upto(s, n),
            ),
    );
    assert(mapped[0].score_ppm == SCORE_SCALE);
    assert(mapped[1].score_ppm == SCORE_SCALE);
    lemma_sort_desc_props(mapped);
    let ranked = spec_rank(s);
    assert(ranked == spec_sort_desc(mapped));
    assert forall|i: int| 0 <= i < 2 implies ranked[i].score_ppm == SCORE_SCALE by {
        broadcast use vstd::seq_lib::group_to_multiset_ensures;

        assert(ranked.contains(ranked[i]));
        assert(mapped.to_multiset().count(ranked[i]) > 0);
        assert(mapped.contains(ranked[i]));
        let w = choose|w: int| 0 <= w < mapped.len() && mapped[w] == ranked[i];
        assert(w == 0 || w == 1);
    }
}

/// The ranking is a pure function of the measurement sequence — no hidden
/// state, no randomness — so running the scorer twice over the same
/// measurements yields identical rankings.
pub proof fn lemma_rank_deterministic(a: Seq<SpeedResult>, b: Seq<SpeedResult>)
    requires
        a == b,
    ensures
        spec_rank(a) == spec_rank(b),
{
}

} // verus!
