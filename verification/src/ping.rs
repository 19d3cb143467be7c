//! Latency measurement summaries.
//!
//! The surrounding binary performs the connection attempts (each attempt
//! yields the elapsed nanoseconds of a successful connect, or nothing for a
//! failure or timeout) and hands the per-candidate outcomes to this module.
//! Here the per-candidate decision policy is applied: a candidate with no
//! successful attempt, a loss rate above one half, or an average latency
//! above the configured ceiling is discarded; the survivors are sorted
//! ascending by average latency, since the next stage consumes a prefix.

use vstd::prelude::*;

use crate::Candidate;

verus! {

/// One surviving candidate's latency summary. The loss rate is kept exactly,
/// as lost attempts over total attempts.
#[derive(Clone, Copy, PartialEq, Eq, Structural, Debug)]
pub struct PingResult {
    pub addr: Candidate,
    /// Arithmetic mean of the elapsed times of the successful attempts only,
    /// in nanoseconds, rounded down.
    pub latency_ns: u64,
    /// Attempts that failed or timed out.
    pub lost: u64,
    /// Total attempts made for this candidate.
    pub attempts: u64,
}

/// Number of successful attempts in an outcome list.
pub open spec fn success_count(att: Seq<Option<u64>>) -> nat
    decreases att.len(),
{
    if att.len() == 0 {
        0
    } else {
        success_count(att.drop_last()) + if att.last() is Some {
            1nat
        } else {
            0nat
        }
    }
}

/// Sum of the elapsed times of the successful attempts.
pub open spec fn success_sum(att: Seq<Option<u64>>) -> nat
    decreases att.len(),
{
    if att.len() == 0 {
        0
    } else {
        success_sum(att.drop_last()) + match att.last() {
            Some(v) => v as nat,
            None => 0nat,
        }
    }
}

/// No more successes than attempts.
proof fn lemma_success_count_le(att: Seq<Option<u64>>)
    ensures
        success_count(att) <= att.len(),
    decreases att.len(),
{
    if att.len() > 0 {
        lemma_success_count_le(att.drop_last());
    }
}

/// The sum of successes is bounded by their count times the largest value a
/// single attempt can report.
proof fn lemma_success_sum_bound(att: Seq<Option<u64>>)
    ensures
        success_sum(att) <= success_count(att) * 0xffff_ffff_ffff_ffff,
    decreases att.len(),
{
    if att.len() > 0 {
        lemma_success_sum_bound(att.drop_last());
        vstd::arithmetic::mul::lemma_mul_is_distributive_add_other_way(
            0xffff_ffff_ffff_ffff,
            success_count(att.drop_last()) as int,
            1,
        );
    }
}

/// The per-candidate decision policy, evaluated after all attempts for the
/// candidate completed: discarded with no success, with a loss rate above
/// one half (exactly one half is retained), or with an average latency above
/// the ceiling; otherwise the summary is emitted.
pub open spec fn spec_evaluate(addr: Candidate, att: Seq<Option<u64>>, limit_ns: u64) -> Option<
    PingResult,
> {
    let n = att.len();
    let s = success_count(att);
    if s == 0 {
        None
    } else if 2 * (n - s) > n {
        None
    } else if success_sum(att) / s > limit_ns {
        None
    } else {
        Some(
            PingResult {
                addr,
                latency_ns: (success_sum(att) / s) as u64,
                lost: (n - s) as u64,
                attempts: n as u64,
            },
        )
    }
}

/// Applies the decision policy to one candidate's attempt outcomes.
pub fn evaluate_candidate(addr: Candidate, attempts: &Vec<Option<u64>>, latency_limit_ns: u64) -> (r:
    Option<PingResult>)
    ensures
        r == spec_evaluate(addr, attempts@, latency_limit_ns),
{
    let n = attempts.len();
    let mut succ: usize = 0;
    let mut sum: u128 = 0;
    let mut i: usize = 0;
    while i < n
        invariant
            i <= n == attempts@.len(),
            succ == success_count(attempts@.take(i as int)),
            sum == success_sum(attempts@.take(i as int)),
            succ <= i,
            sum <= i * 0xffff_ffff_ffff_ffff,
        decreases n - i,
    {
        proof {
            assert(attempts@.take(i + 1).drop_last() =~= attempts@.take(i as int));
            assert(attempts@.take(i + 1).last() == attempts@[i as int]);
        }
        let a = attempts[i];
        if let Some(v) = a {
            succ = succ + 1;
            sum = sum + v as u128;
        }
        i = i + 1;
    }
    proof {
        assert(attempts@.take(n as int) =~= attempts@);
    }
    if succ == 0 {
        return None;
    }
    let lost = n - succ;
    if lost > succ {
        return None;
    }
    proof {
        lemma_success_sum_bound(attempts@);
        vstd::arithmetic::div_mod::lemma_div_is_ordered(
            sum as int,
            succ * 0xffff_ffff_ffff_ffff,
            succ as int,
        );
        vstd::arithmetic::div_mod::lemma_div_multiples_vanish(0xffff_ffff_ffff_ffff, succ as int);
        vstd::arithmetic::mul::lemma_mul_is_commutative(succ as int, 0xffff_ffff_ffff_ffff);
    }
    let avg = (sum / (succ as u128)) as u64;
    if avg > latency_limit_ns {
        None
    } else {
        Some(PingResult { addr, latency_ns: avg, lost: lost as u64, attempts: n as u64 })
    }
}

/// Ascending by average latency.
pub open spec fn sorted_by_latency(s: Seq<PingResult>) -> bool {
    forall|i: int, j: int| 0 <= i <= j < s.len() ==> s[i].latency_ns <= s[j].latency_ns
}

/// The summaries the decision policy emits for a list of per-candidate
/// outcomes, in input order.
pub open spec fn spec_survivors(
    outcomes: Seq<(Candidate, Vec<Option<u64>>)>,
    limit_ns: u64,
) -> Seq<PingResult>
    decreases outcomes.len(),
{
    if outcomes.len() == 0 {
        Seq::empty()
    } else {
        let rest = spec_survivors(outcomes.drop_last(), limit_ns);
        match spec_evaluate(outcomes.last().0, outcomes.last().1@, limit_ns) {
            Some(p) => rest.push(p),
            None => rest,
        }
    }
}

/// Index of a minimum-latency entry (the first one, on ties).
fn index_of_min_latency(v: &Vec<PingResult>) -> (p: usize)
    requires
        v@.len() > 0,
    ensures
        0 <= p < v@.len(),
        forall|i: int| 0 <= i < v@.len() ==> v@[p as int].latency_ns <= #[trigger] v@[i].latency_ns,
{
    let mut p: usize = 0;
    let mut i: usize = 1;
    while i < v.len()
        invariant
            0 <= p < i <= v@.len(),
            forall|k: int| 0 <= k < i ==> v@[p as int].latency_ns <= #[trigger] v@[k].latency_ns,
        decreases v@.len() - i,
    {
        if v[i].latency_ns < v[p].latency_ns {
            p = i;
        }
        i = i + 1;
    }
    p
}

/// Sorts latency summaries ascending by average latency. The output holds
/// exactly the input entries, reordered.
pub fn sort_by_latency(results: Vec<PingResult>) -> (out: Vec<PingResult>)
    ensures
        out@.to_multiset() == results@.to_multiset(),
        sorted_by_latency(out@),
{
    let mut v = results;
    let ghost orig = v@;
    let mut out: Vec<PingResult> = Vec::new();
    proof {
        broadcast use vstd::seq_lib::group_to_multiset_ensures;

        assert(out@.to_multiset().add(v@.to_multiset()) =~= orig.to_multiset());
    }
    while v.len() > 0
        invariant
            out@.to_multiset().add(v@.to_multiset()) == orig.to_multiset(),
            sorted_by_latency(out@),
            forall|a: int, b: int|
                0 <= a < out@.len() && 0 <= b < v@.len() ==> out@[a].latency_ns
                    <= v@[b].latency_ns,
        decreases v@.len(),
    {
        let ghost pre_out = out@;
        let ghost pre_v = v@;
        let p = index_of_min_latency(&v);
        let x = v.remove(p);
        out.push(x);
        proof {
            broadcast use vstd::seq_lib::group_to_multiset_ensures;

            assert(pre_v.contains(pre_v[p as int]));
            assert(out@.to_multiset().add(v@.to_multiset()) =~= orig.to_multiset());
            assert forall|a: int, b: int|
                0 <= a < out@.len() && 0 <= b < v@.len() implies out@[a].latency_ns
                <= v@[b].latency_ns by {
                if b < p {
                    assert(v@[b] == pre_v[b]);
                } else {
                    assert(v@[b] == pre_v[b + 1]);
                }
            }
        }
    }
    proof {
        broadcast use vstd::seq_lib::group_to_multiset_ensures;

        assert(out@.to_multiset() =~= orig.to_multiset());
    }
    out
}

/// Applies the decision policy to every candidate's outcomes and returns the
/// surviving summaries, sorted ascending by average latency. A discarded
/// candidate is simply absent: there is no error for an unreachable one.
pub fn summarize_latency(
    outcomes: &Vec<(Candidate, Vec<Option<u64>>)>,
    latency_limit_ns: u64,
) -> (out: Vec<PingResult>)
    ensures
        out@.to_multiset() == spec_survivors(outcomes@, latency_limit_ns).to_multiset(),
        sorted_by_latency(out@),
{
    let mut acc: Vec<PingResult> = Vec::new();
    let mut i: usize = 0;
    while i < outcomes.len()
        invariant
            i <= outcomes@.len(),
            acc@ == spec_survivors(outcomes@.take(i as int), latency_limit_ns),
        decreases outcomes@.len() - i,
    {
        proof {
            assert(outcomes@.take(i + 1).drop_last() =~= outcomes@.take(i as int));
            assert(outcomes@.take(i + 1).last() == outcomes@[i as int]);
        }
        let pair = &outcomes[i];
        match evaluate_candidate(pair.0, &pair.1, latency_limit_ns) {
            Some(p) => acc.push(p),
            None => {},
        }
        i = i + 1;
    }
    proof {
        assert(outcomes@.take(outcomes@.len() as int) =~= outcomes@);
    }
    sort_by_latency(acc)
}

/// A candidate that lost more attempts than it won — strictly more than half,
/// for instance six losses out of ten — is never emitted, whatever its
/// latency. A loss rate of exactly one half is retained.
pub proof fn lemma_lossy_discarded(addr: Candidate, att: Seq<Option<u64>>, limit_ns: u64)
    requires
        2 * (att.len() - success_count(att)) > att.len(),
    ensures
        spec_evaluate(addr, att, limit_ns) is None,
{
}

/// The boundary case of the loss filter: a candidate that lost exactly half
/// of its attempts is retained, provided anything succeeded and the average
/// stayed within the ceiling.
pub proof fn lemma_half_loss_retained(addr: Candidate, att: Seq<Option<u64>>, limit_ns: u64)
    requires
        success_count(att) >= 1,
        2 * (att.len() - success_count(att)) <= att.len(),
        success_sum(att) / success_count(att) <= limit_ns,
    ensures
        spec_evaluate(addr, att, limit_ns) is Some,
{
}

/// Every emitted summary passed the whole decision policy: at least one
/// success, a loss rate of at most one half, and an average latency within
/// the ceiling.
pub proof fn lemma_survivor_passed_filters(
    outcomes: Seq<(Candidate, Vec<Option<u64>>)>,
    limit_ns: u64,
    p: PingResult,
)
    requires
        spec_survivors(outcomes, limit_ns).contains(p),
        forall|i: int|
            0 <= i < outcomes.len() ==> (#[trigger] outcomes[i].1)@.len() <= u64::MAX,
    ensures
        p.lost < p.attempts,
        2 * p.lost <= p.attempts,
        p.latency_ns <= limit_ns,
    decreases outcomes.len(),
{
    let s = spec_survivors(outcomes, limit_ns);
    if outcomes.len() > 0 {
        let rest = spec_survivors(outcomes.drop_last(), limit_ns);
        match spec_evaluate(outcomes.last().0, outcomes.last().1@, limit_ns) {
            Some(q) => {
                if p == q {
                    let att = outcomes.last().1@;
                    let n = att.len();
                    let sc = success_count(att);
                    assert(outcomes[outcomes.len() - 1].1@.len() <= u64::MAX);
                    assert(sc <= n) by {
                        lemma_success_count_le(att);
                    }
                    assert(p.lost == n - sc && p.attempts == n && sc >= 1);
                } else {
                    let w = choose|w: int| 0 <= w < s.len() && s[w] == p;
                    assert(rest[w] == p || s.last() == p);
                    assert(rest.contains(p));
                    lemma_survivor_passed_filters(outcomes.drop_last(), limit_ns, p);
                }
            },
            None => {
                lemma_survivor_passed_filters(outcomes.drop_last(), limit_ns, p);
            },
        }
    }
}

} // verus!
