//! CIDR ranges and candidate sampling.
//!
//! A range is kept as its network address (an integer), a prefix length and
//! an address-family flag. Sampling turns a list of ranges into a bounded,
//! randomized list of candidate addresses: per range, the network and
//! broadcast addresses are excluded whenever the range holds more than two
//! addresses, a fixed policy table bounds the per-range sample count, and the
//! sampled addresses of one range are pairwise distinct.

use vstd::prelude::*;

use vstd::arithmetic::power2::pow2;

use crate::Candidate;
use crate::PipelineError;

verus! {

/// A CIDR block: network address plus prefix length, IPv4 or IPv6.
#[derive(Clone, Copy, PartialEq, Eq, Structural, Debug)]
pub struct AddressRange {
    pub v6: bool,
    pub base: u128,
    pub prefix: u8,
}

impl AddressRange {
    /// Width in bits of the address family.
    pub open spec fn bits(self) -> nat {
        if self.v6 {
            128
        } else {
            32
        }
    }

    /// Number of addresses in the block.
    pub open spec fn size(self) -> nat {
        pow2((self.bits() - self.prefix) as nat)
    }

    /// A well-formed range has a valid prefix and a network address whose
    /// host bits are clear, so every address of the block fits the family.
    pub open spec fn wf(self) -> bool {
        &&& self.prefix <= self.bits()
        &&& self.base + self.size() <= pow2(self.bits())
    }

    /// How many addresses of the block are usable as candidates: all of them
    /// for blocks of one or two addresses, all but the network and broadcast
    /// addresses otherwise.
    pub open spec fn usable_count(self) -> nat {
        if self.size() > 2 {
            (self.size() - 2) as nat
        } else {
            self.size()
        }
    }

    /// The lowest usable address of the block.
    pub open spec fn first_usable(self) -> int {
        if self.size() > 2 {
            self.base + 1
        } else {
            self.base as int
        }
    }

    /// Per-range sample bound from the prefix length: a fixed policy table
    /// for IPv4, a flat five for IPv6.
    pub open spec fn policy_count(self) -> nat {
        if self.v6 {
            5
        } else if self.prefix == 32 {
            1
        } else if self.prefix == 31 {
            self.usable_count()
        } else if 25 <= self.prefix {
            2
        } else if 21 <= self.prefix {
            5
        } else if 17 <= self.prefix {
            10
        } else {
            20
        }
    }

    /// How many candidates sampling draws from this range: the policy bound,
    /// capped at the number of usable addresses.
    pub open spec fn sample_count(self) -> nat {
        if self.policy_count() <= self.usable_count() {
            self.policy_count()
        } else {
            self.usable_count()
        }
    }
}

/// `c` is an address this range may contribute: right family, and within the
/// usable addresses of the block.
pub open spec fn is_usable(r: AddressRange, c: Candidate) -> bool {
    &&& c.v6 == r.v6
    &&& r.first_usable() <= c.addr < r.first_usable() + r.usable_count()
}

/// The blocks of the two ranges share no address (ranges of different
/// families never do).
pub open spec fn ranges_disjoint(a: AddressRange, b: AddressRange) -> bool {
    ||| a.v6 != b.v6
    ||| a.base + a.size() <= b.base
    ||| b.base + b.size() <= a.base
}

/// No two ranges of the list share an address.
pub open spec fn pairwise_disjoint(rs: Seq<AddressRange>) -> bool {
    forall|i: int, j: int|
        0 <= i < rs.len() && 0 <= j < rs.len() && i != j ==> ranges_disjoint(rs[i], rs[j])
}

/// An address usable in two disjoint ranges is a contradiction.
pub proof fn lemma_usable_disjoint(a: AddressRange, b: AddressRange, c: Candidate)
    requires
        ranges_disjoint(a, b),
        is_usable(a, c),
    ensures
        !is_usable(b, c),
{
}

/// The network and broadcast addresses of a block with more than two
/// addresses are never usable, so they never appear in a sample.
pub proof fn lemma_usable_excludes_edges(r: AddressRange, c: Candidate)
    requires
        r.wf(),
        r.size() > 2,
        is_usable(r, c),
    ensures
        c.addr != r.base,
        c.addr != r.base + r.size() - 1,
{
}

/// The powers of two at the top of the `u128` word, derived from the tables
/// vstd keeps for the lower exponents.
proof fn lemma_pow2_128()
    ensures
        pow2(127) == 0x80000000000000000000000000000000,
        pow2(128) == 0x100000000000000000000000000000000,
{
    vstd::arithmetic::power2::lemma2_to64();
    vstd::arithmetic::power2::lemma2_to64_rest();
    vstd::arithmetic::power2::lemma_pow2_adds(64, 63);
    vstd::arithmetic::power2::lemma_pow2_adds(64, 64);
}

/// Computes `pow2(e)` for exponents below the width of `u128`.
fn pow2_u128(e: u8) -> (r: u128)
    requires
        e < 128,
    ensures
        r == pow2(e as nat),
{
    let mut acc: u128 = 1;
    let mut i: u8 = 0;
    proof {
        vstd::arithmetic::power2::lemma2_to64();
    }
    while i < e
        invariant
            i <= e < 128,
            acc == pow2(i as nat),
        decreases e - i,
    {
        proof {
            vstd::arithmetic::power2::lemma2_to64();
            vstd::arithmetic::power2::lemma_pow2_adds(i as nat, 1);
            if i + 1 < 127 {
                vstd::arithmetic::power2::lemma_pow2_strictly_increases((i + 1) as nat, 127);
            }
            lemma_pow2_128();
        }
        acc = acc * 2;
        i = i + 1;
    }
    acc
}

impl AddressRange {
    /// Number of host bits of the block.
    fn host_bits(&self) -> (r: u8)
        requires
            self.wf(),
        ensures
            r == self.bits() - self.prefix,
    {
        if self.v6 {
            128 - self.prefix
        } else {
            32 - self.prefix
        }
    }

    /// Executable count of usable addresses; `2^128 - 2` for the full IPv6
    /// space, which still fits the word.
    pub fn usable(&self) -> (r: u128)
        requires
            self.wf(),
        ensures
            r == self.usable_count(),
    {
        let h = self.host_bits();
        proof {
            vstd::arithmetic::power2::lemma2_to64();
        }
        if h == 0 {
            1
        } else if h == 1 {
            2
        } else if h == 128 {
            proof {
                lemma_pow2_128();
            }
            u128::MAX - 1
        } else {
            let s = pow2_u128(h);
            proof {
                vstd::arithmetic::power2::lemma_pow2_strictly_increases(1, h as nat);
            }
            s - 2
        }
    }

    /// Executable lowest usable address.
    pub fn first(&self) -> (r: u128)
        requires
            self.wf(),
        ensures
            r == self.first_usable(),
    {
        let h = self.host_bits();
        proof {
            vstd::arithmetic::power2::lemma2_to64();
            lemma_pow2_128();
            if h >= 2 {
                vstd::arithmetic::power2::lemma_pow2_strictly_increases(1, h as nat);
            }
        }
        if h >= 2 {
            self.base + 1
        } else {
            self.base
        }
    }

    /// Executable per-range sample bound.
    pub fn policy(&self) -> (r: u128)
        requires
            self.wf(),
        ensures
            r == self.policy_count(),
    {
        if self.v6 {
            5
        } else if self.prefix == 32 {
            1
        } else if self.prefix == 31 {
            self.usable()
        } else if 25 <= self.prefix {
            2
        } else if 21 <= self.prefix {
            5
        } else if 17 <= self.prefix {
            10
        } else {
            20
        }
    }
}

/// The range a line of the document denotes, or nothing for one that is not
/// a CIDR: a function of the line's bytes alone, computed by the outside
/// parser behind `parse_range`.
pub uninterp spec fn parsed_range(line: Seq<u8>) -> Option<AddressRange>;

/// Relies on `ipnetwork::IpNetwork`: `FromStr` is deterministic in the
/// line's bytes and rejects a prefix wider than the address family, and
/// `network` masks the host bits of the parsed address to zero, so the
/// whole block fits the family's address space. `prefix` reads the prefix
/// length back.
#[verifier::external_body]
fn parse_range(line: &[u8]) -> (r: Option<AddressRange>)
    ensures
        r == parsed_range(line@),
        r is Some ==> r.unwrap().wf(),
{
    let s = match core::str::from_utf8(line) {
        Ok(s) => s,
        Err(_) => return None,
    };
    match s.parse::<ipnetwork::IpNetwork>() {
        Ok(ipnetwork::IpNetwork::V4(n)) => Some(
            AddressRange { v6: false, base: u32::from(n.network()) as u128, prefix: n.prefix() },
        ),
        Ok(ipnetwork::IpNetwork::V6(n)) => Some(
            AddressRange { v6: true, base: u128::from(n.network()), prefix: n.prefix() },
        ),
        Err(_) => None,
    }
}

/// Relies on `rand::random_range`: a uniform draw from the given range; on
/// `0..bound` with a positive bound the result is below the bound.
#[verifier::external_body]
fn rand_below(bound: u128) -> (r: u128)
    requires
        1 <= bound,
    ensures
        r < bound,
{
    rand::random_range(0..bound)
}

/// Relies on `rand::seq::SliceRandom::shuffle`: the slice after the call is
/// a permutation of the slice before it, so the entries are kept and only
/// reordered.
#[verifier::external_body]
fn shuffle_candidates(v: &mut Vec<Candidate>)
    ensures
        final(v)@.to_multiset() == old(v)@.to_multiset(),
        final(v)@.len() == old(v)@.len(),
{
    rand::seq::SliceRandom::shuffle(v.as_mut_slice(), &mut rand::rng());
}

/// Whether the byte is horizontal whitespace or a carriage return, the
/// padding tolerated around a CIDR line.
pub open spec fn is_blank(b: u8) -> bool {
    b == 32 || b == 9 || b == 13
}

/// Executable test for `is_blank`.
fn blank(b: u8) -> (r: bool)
    ensures
        r == is_blank(b),
{
    b == 32 || b == 9 || b == 13
}

/// Index of the first line feed, or the length when there is none.
pub open spec fn first_nl(t: Seq<u8>) -> int
    decreases t.len(),
{
    if t.len() == 0 {
        0
    } else if t[0] == 10 {
        0
    } else {
        1 + first_nl(t.drop_first())
    }
}

/// The first line feed lies within the text.
proof fn lemma_first_nl_bounds(t: Seq<u8>)
    ensures
        0 <= first_nl(t) <= t.len(),
    decreases t.len(),
{
    if t.len() > 0 && t[0] != 10 {
        lemma_first_nl_bounds(t.drop_first());
    }
}

/// The position where a scan stops — everything before it is not a line
/// feed, and it holds one unless it is the end — is the first line feed.
proof fn lemma_first_nl_is(t: Seq<u8>, j: int)
    requires
        0 <= j <= t.len(),
        forall|k: int| 0 <= k < j ==> t[k] != 10,
        j < t.len() ==> t[j] == 10,
    ensures
        first_nl(t) == j,
    decreases j,
{
    if t.len() > 0 && j > 0 {
        lemma_first_nl_is(t.drop_first(), j - 1);
    }
}

/// The document, split at line feeds; a trailing line feed closes the last
/// line rather than opening an empty one.
pub open spec fn spec_lines(t: Seq<u8>) -> Seq<Seq<u8>>
    decreases t.len(),
    via spec_lines_decreases
{
    if t.len() == 0 {
        Seq::empty()
    } else {
        let j = first_nl(t);
        if j == t.len() {
            seq![t]
        } else {
            seq![t.take(j)] + spec_lines(t.skip(j + 1))
        }
    }
}

#[via_fn]
proof fn spec_lines_decreases(t: Seq<u8>) {
    lemma_first_nl_bounds(t);
}

/// The line without its leading blanks.
pub open spec fn spec_trim_front(l: Seq<u8>) -> Seq<u8>
    decreases l.len(),
{
    if l.len() > 0 && is_blank(l[0]) {
        spec_trim_front(l.drop_first())
    } else {
        l
    }
}

/// The line without its trailing blanks.
pub open spec fn spec_trim_back(l: Seq<u8>) -> Seq<u8>
    decreases l.len(),
{
    if l.len() > 0 && is_blank(l.last()) {
        spec_trim_back(l.drop_last())
    } else {
        l
    }
}

/// The line without blanks on either end.
pub open spec fn spec_trim(l: Seq<u8>) -> Seq<u8> {
    spec_trim_back(spec_trim_front(l))
}

/// Where a forward scan over blanks stops is where the front trim ends.
proof fn lemma_trim_front_is(l: Seq<u8>, s: int)
    requires
        0 <= s <= l.len(),
        forall|k: int| 0 <= k < s ==> is_blank(l[k]),
        s < l.len() ==> !is_blank(l[s]),
    ensures
        spec_trim_front(l) == l.skip(s),
    decreases s,
{
    if s == 0 {
        assert(l.skip(0) =~= l);
    } else {
        lemma_trim_front_is(l.drop_first(), s - 1);
        assert(l.drop_first().skip(s - 1) =~= l.skip(s));
    }
}

/// Where a backward scan over blanks stops is where the back trim ends.
proof fn lemma_trim_back_is(l: Seq<u8>, e: int)
    requires
        0 <= e <= l.len(),
        forall|k: int| e <= k < l.len() ==> is_blank(l[k]),
        e > 0 ==> !is_blank(l[e - 1]),
    ensures
        spec_trim_back(l) == l.take(e),
    decreases l.len(),
{
    if e == l.len() {
        assert(l.take(e) =~= l);
    } else {
        lemma_trim_back_is(l.drop_last(), e);
        assert(l.drop_last().take(e) =~= l.take(e));
    }
}

/// What one line of the document contributes: nothing when it is blank
/// after trimming, otherwise whatever the trimmed line parses to.
pub open spec fn line_parse(l: Seq<u8>) -> Option<AddressRange> {
    if spec_trim(l).len() == 0 {
        None
    } else {
        parsed_range(spec_trim(l))
    }
}

/// The per-line parse results of the whole document, in document order.
pub open spec fn spec_parsed_lines(t: Seq<u8>) -> Seq<Option<AddressRange>> {
    spec_lines(t).map_values(|l: Seq<u8>| line_parse(l))
}

/// The ranges a list of per-line parse results yields: the hits, in
/// document order, each blank or unparsable line simply skipped.
pub open spec fn spec_collect(parsed: Seq<Option<AddressRange>>) -> Seq<AddressRange>
    decreases parsed.len(),
{
    if parsed.len() == 0 {
        Seq::empty()
    } else {
        let rest = spec_collect(parsed.drop_last());
        match parsed.last() {
            Some(r) => rest.push(r),
            None => rest,
        }
    }
}

/// Whatever parsed keeps its shape: a hit that is well-formed stays so
/// through collection.
proof fn lemma_collect_wf(parsed: Seq<Option<AddressRange>>)
    requires
        forall|k: int|
            0 <= k < parsed.len() && (#[trigger] parsed[k]) is Some ==> parsed[k].unwrap().wf(),
    ensures
        forall|i: int| 0 <= i < spec_collect(parsed).len() ==> (#[trigger] spec_collect(
            parsed,
        )[i]).wf(),
    decreases parsed.len(),
{
    if parsed.len() > 0 {
        lemma_collect_wf(parsed.drop_last());
        let rest = spec_collect(parsed.drop_last());
        assert forall|i: int| 0 <= i < spec_collect(parsed).len() implies (#[trigger] spec_collect(
            parsed,
        )[i]).wf() by {
            if i < rest.len() {
                assert(spec_collect(parsed)[i] == rest[i]);
            } else {
                assert(parsed[parsed.len() - 1] is Some);
                assert(spec_collect(parsed)[i] == parsed[parsed.len() - 1].unwrap());
            }
        }
    }
}

/// The collected range list is empty exactly when no line parsed — the
/// condition the fatal check on an entirely empty parsed result fires on.
pub proof fn lemma_no_ranges_iff_no_line_parses(parsed: Seq<Option<AddressRange>>)
    ensures
        spec_collect(parsed).len() == 0 <==> (forall|k: int|
            0 <= k < parsed.len() ==> (#[trigger] parsed[k]) is None),
    decreases parsed.len(),
{
    if parsed.len() > 0 {
        lemma_no_ranges_iff_no_line_parses(parsed.drop_last());
        if parsed.last() is Some {
            assert(parsed[parsed.len() - 1] is Some);
        } else {
            assert forall|k: int|
                0 <= k < parsed.drop_last().len() implies (#[trigger] parsed.drop_last()[k])
                == parsed[k] by {}
            if spec_collect(parsed).len() == 0 {
                assert forall|k: int| 0 <= k < parsed.len() implies (#[trigger] parsed[k])
                    is None by {
                    if k < parsed.len() - 1 {
                        assert(parsed.drop_last()[k] is None);
                    }
                }
            } else {
                assert(!(forall|k: int|
                    0 <= k < parsed.drop_last().len() ==> (#[trigger] parsed.drop_last()[k])
                        is None));
                let w = choose|w: int|
                    0 <= w < parsed.drop_last().len() && !((#[trigger] parsed.drop_last()[w])
                        is None);
                assert(parsed[w] is Some);
            }
        }
    }
}

/// Keeps the lines that parsed, in document order.
pub fn collect_ranges(parsed: &Vec<Option<AddressRange>>) -> (out: Vec<AddressRange>)
    ensures
        out@ == spec_collect(parsed@),
{
    let n = parsed.len();
    let mut out: Vec<AddressRange> = Vec::new();
    let mut i: usize = 0;
    while i < n
        invariant
            i <= n == parsed@.len(),
            out@ == spec_collect(parsed@.take(i as int)),
        decreases n - i,
    {
        proof {
            assert(parsed@.take(i + 1).drop_last() =~= parsed@.take(i as int));
            assert(parsed@.take(i + 1).last() == parsed@[i as int]);
        }
        match &parsed[i] {
            Some(r) => out.push(*r),
            None => {},
        }
        i = i + 1;
    }
    proof {
        assert(parsed@.take(n as int) =~= parsed@);
    }
    out
}

/// Splits the fetched document into lines, trims each, skips blank lines and
/// lines that do not parse as CIDR, and returns the parsed ranges — all of
/// them well-formed — in document order.
pub fn parse_ranges(text: &Vec<u8>) -> (out: Vec<AddressRange>)
    ensures
        out@ == spec_collect(spec_parsed_lines(text@)),
        forall|i: int| 0 <= i < out@.len() ==> (#[trigger] out@[i]).wf(),
{
    let n = text.len();
    let mut parsed: Vec<Option<AddressRange>> = Vec::new();
    let mut i: usize = 0;
    proof {
        assert(text@.skip(0) =~= text@);
        assert(parsed@ + spec_parsed_lines(text@) =~= spec_parsed_lines(text@));
    }
    while i < n
        invariant
            i <= n,
            n == text@.len(),
            spec_parsed_lines(text@) == parsed@ + spec_parsed_lines(text@.skip(i as int)),
            forall|k: int|
                0 <= k < parsed@.len() && (#[trigger] parsed@[k]) is Some
                    ==> parsed@[k].unwrap().wf(),
        decreases n - i,
    {
        let mut j: usize = i;
        while j < n && text[j] != 10
            invariant
                i <= j <= n,
                n == text@.len(),
                forall|k: int| i <= k < j ==> text@[k] != 10,
            decreases n - j,
        {
            j = j + 1;
        }
        let mut s: usize = i;
        let mut e: usize = j;
        while s < e && blank(text[s])
            invariant
                i <= s <= e <= n,
                e == j,
                n == text@.len(),
                forall|k: int| i <= k < s ==> is_blank(text@[k]),
            decreases e - s,
        {
            s = s + 1;
        }
        while e > s && blank(text[e - 1])
            invariant
                i <= s <= e <= j <= n,
                n == text@.len(),
                forall|k: int| e <= k < j ==> is_blank(text@[k]),
            decreases e - s,
        {
            e = e - 1;
        }
        let ghost raw = text@.subrange(i as int, j as int);
        proof {
            let suf = text@.skip(i as int);
            assert forall|k: int| 0 <= k < j - i implies suf[k] != 10 by {
                assert(suf[k] == text@[i + k]);
            }
            lemma_first_nl_is(suf, j - i);
            assert forall|k: int| 0 <= k < s - i implies is_blank(raw[k]) by {
                assert(raw[k] == text@[i + k]);
            }
            lemma_trim_front_is(raw, s - i);
            assert(raw.skip(s - i) =~= text@.subrange(s as int, j as int));
            let fronted = text@.subrange(s as int, j as int);
            assert forall|k: int| e - s <= k < fronted.len() implies is_blank(fronted[k]) by {
                assert(fronted[k] == text@[s + k]);
            }
            lemma_trim_back_is(fronted, e - s);
            assert(fronted.take(e - s) =~= text@.subrange(s as int, e as int));
            assert(spec_trim(raw) == text@.subrange(s as int, e as int));
        }
        let mut entry: Option<AddressRange> = None;
        if s < e {
            let mut line: Vec<u8> = Vec::new();
            let mut p: usize = s;
            while p < e
                invariant
                    s <= p <= e <= n,
                    n == text@.len(),
                    line@ =~= text@.subrange(s as int, p as int),
                decreases e - p,
            {
                line.push(text[p]);
                proof {
                    assert(line@ =~= text@.subrange(s as int, p + 1));
                }
                p = p + 1;
            }
            entry = parse_range(line.as_slice());
        }
        let next: usize = if j < n {
            j + 1
        } else {
            n
        };
        proof {
            assert(entry == line_parse(raw));
            let suf = text@.skip(i as int);
            if j == n {
                assert(suf =~= raw);
                assert(spec_lines(suf) == seq![raw]);
                assert(spec_parsed_lines(suf) =~= seq![line_parse(raw)]);
                assert(text@.skip(next as int) =~= Seq::<u8>::empty());
                assert(spec_parsed_lines(text@.skip(next as int)) =~= Seq::<
                    Option<AddressRange>,
                >::empty());
            } else {
                assert(suf.take(j - i) =~= raw);
                assert(suf.skip(j - i + 1) =~= text@.skip(next as int));
                assert(spec_lines(suf) == seq![raw] + spec_lines(text@.skip(next as int)));
                assert(spec_parsed_lines(suf) =~= seq![line_parse(raw)] + spec_parsed_lines(
                    text@.skip(next as int),
                ));
            }
            assert(parsed@ + spec_parsed_lines(suf) =~= (parsed@ + seq![entry])
                + spec_parsed_lines(text@.skip(next as int)));
        }
        parsed.push(entry);
        i = next;
    }
    proof {
        assert(text@.skip(n as int) =~= Seq::<u8>::empty());
        assert(spec_parsed_lines(text@.skip(n as int)) =~= Seq::<Option<AddressRange>>::empty());
        assert(spec_parsed_lines(text@) =~= parsed@);
        lemma_collect_wf(parsed@);
    }
    collect_ranges(&parsed)
}

/// The fatal check on the parsed range list: an empty list means the whole
/// run has nothing to measure; any other list passes through unchanged.
pub fn require_ranges(ranges: Vec<AddressRange>) -> (r: Result<
    Vec<AddressRange>,
    PipelineError,
>)
    ensures
        r is Ok <==> ranges@.len() > 0,
        r is Ok ==> r.unwrap()@ == ranges@,
        r is Err ==> r.unwrap_err() == PipelineError::NoRanges,
{
    if ranges.len() == 0 {
        Err(PipelineError::NoRanges)
    } else {
        Ok(ranges)
    }
}

/// How many candidates sampling returns for this list of ranges: the sum of
/// the per-range sample counts.
pub open spec fn total_sample_count(rs: Seq<AddressRange>) -> nat
    decreases rs.len(),
{
    if rs.len() == 0 {
        0
    } else {
        total_sample_count(rs.drop_last()) + rs.last().sample_count()
    }
}

/// The candidate is a usable address of one of the ranges.
pub open spec fn in_some_range(rs: Seq<AddressRange>, c: Candidate) -> bool {
    exists|j: int| 0 <= j < rs.len() && is_usable(rs[j], c)
}

/// Membership in one range's usable addresses, as a predicate over
/// candidates.
pub open spec fn usable_in(r: AddressRange) -> spec_fn(Candidate) -> bool {
    |c: Candidate| is_usable(r, c)
}

/// How many of the candidates are usable addresses of this range.
pub open spec fn count_in_range(s: Seq<Candidate>, r: AddressRange) -> nat {
    s.filter(usable_in(r)).len()
}

/// Filtering keeps a sequence that satisfies the predicate throughout.
proof fn lemma_filter_all(s: Seq<Candidate>, pred: spec_fn(Candidate) -> bool)
    requires
        forall|i: int| 0 <= i < s.len() ==> pred(#[trigger] s[i]),
    ensures
        s.filter(pred) == s,
    decreases s.len(),
{
    reveal(Seq::filter);
    if s.len() > 0 {
        lemma_filter_all(s.drop_last(), pred);
        assert(s =~= s.drop_last().push(s.last()));
        assert(s.filter(pred) =~= s.drop_last().filter(pred).push(s.last()));
    }
}

/// Filtering commutes with forgetting the order: the multiset of the
/// filtered sequence is the filtered multiset.
proof fn lemma_filter_to_multiset(s: Seq<Candidate>, pred: spec_fn(Candidate) -> bool)
    ensures
        s.filter(pred).to_multiset() == s.to_multiset().filter(pred),
    decreases s.len(),
{
    broadcast use vstd::seq_lib::group_to_multiset_ensures;
    broadcast use vstd::multiset::axiom_filter_count;

    reveal(Seq::filter);
    if s.len() > 0 {
        lemma_filter_to_multiset(s.drop_last(), pred);
        assert(s =~= s.drop_last().push(s.last()));
        assert(s.to_multiset() =~= s.drop_last().to_multiset().insert(s.last()));
        if pred(s.last()) {
            assert(s.filter(pred) =~= s.drop_last().filter(pred).push(s.last()));
        }
        assert forall|v: Candidate| s.filter(pred).to_multiset().count(v) == s.to_multiset().filter(
            pred,
        ).count(v) by {
            assert(s.drop_last().filter(pred).to_multiset().count(v) == s.drop_last().to_multiset()
                .filter(pred).count(v));
        }
        assert(s.filter(pred).to_multiset() =~= s.to_multiset().filter(pred));
    } else {
        assert forall|v: Candidate| s.filter(pred).to_multiset().count(v) == s.to_multiset().filter(
            pred,
        ).count(v) by {
            assert(!s.contains(v));
            assert(!s.filter(pred).contains(v));
        }
        assert(s.filter(pred).to_multiset() =~= s.to_multiset().filter(pred));
    }
}

/// Linear membership scan over drawn offsets.
fn contains_u128(v: &Vec<u128>, x: u128) -> (r: bool)
    ensures
        r == v@.contains(x),
{
    let mut i: usize = 0;
    while i < v.len()
        invariant
            i <= v@.len(),
            forall|k: int| 0 <= k < i ==> v@[k] != x,
        decreases v@.len() - i,
    {
        if v[i] == x {
            return true;
        }
        i = i + 1;
    }
    false
}

/// Draws the per-range sample: every usable address when the policy bound
/// covers them all, otherwise a uniform random subset, without replacement,
/// of policy-bound size.
pub fn sample_from_range(r: &AddressRange) -> (out: Vec<Candidate>)
    requires
        r.wf(),
    ensures
        out@.len() == r.sample_count(),
        out@.no_duplicates(),
        forall|i: int| 0 <= i < out@.len() ==> is_usable(*r, #[trigger] out@[i]),
{
    let usable = r.usable();
    let first = r.first();
    let policy = r.policy();
    proof {
        lemma_pow2_128();
        vstd::arithmetic::power2::lemma2_to64();
        if !r.v6 {
            vstd::arithmetic::power2::lemma_pow2_strictly_increases(32, 128);
        }
        assert(r.first_usable() + r.usable_count() <= r.base + r.size());
        assert(r.base + r.size() <= pow2(128));
    }
    let mut out: Vec<Candidate> = Vec::new();
    if policy >= usable {
        let mut i: u128 = 0;
        while i < usable
            invariant
                i <= usable,
                usable == r.usable_count(),
                first == r.first_usable(),
                first + usable <= u128::MAX as int + 1,
                out@.len() == i,
                forall|a: int| 0 <= a < i ==> (#[trigger] out@[a]).addr == first + a,
                forall|a: int| 0 <= a < i ==> (#[trigger] out@[a]).v6 == r.v6,
            decreases usable - i,
        {
            out.push(Candidate { v6: r.v6, addr: first + i });
            i = i + 1;
        }
        proof {
            assert forall|a: int, b: int|
                0 <= a < out@.len() && 0 <= b < out@.len() && a != b implies out@[a]
                != out@[b] by {
                assert(out@[a].addr != out@[b].addr);
            }
        }
    } else {
        let k = policy;
        let mut offs: Vec<u128> = Vec::new();
        let mut j: u128 = usable - k;
        while j < usable
            invariant
                usable - k <= j <= usable,
                offs@.len() == j - (usable - k),
                offs@.no_duplicates(),
                forall|a: int| 0 <= a < offs@.len() ==> #[trigger] offs@[a] < j,
            decreases usable - j,
        {
            let t = rand_below(j + 1);
            let ghost pre = offs@;
            if contains_u128(&offs, t) {
                offs.push(j);
            } else {
                offs.push(t);
            }
            proof {
                assert forall|a: int, b: int|
                    0 <= a < offs@.len() && 0 <= b < offs@.len() && a != b implies offs@[a]
                    != offs@[b] by {
                    if a < pre.len() && b < pre.len() {
                        assert(pre[a] != pre[b]);
                    } else if pre.contains(t) {
                        assert(offs@.last() == j);
                    } else {
                        assert(offs@.last() == t);
                        if a == pre.len() as int {
                            assert(pre[b] != t);
                        } else if b == pre.len() as int {
                            assert(pre[a] != t);
                        }
                    }
                }
            }
            j = j + 1;
        }
        let count = offs.len();
        let mut i: usize = 0;
        while i < count
            invariant
                i <= count == offs@.len(),
                usable == r.usable_count(),
                first == r.first_usable(),
                first + usable <= u128::MAX as int + 1,
                offs@.no_duplicates(),
                forall|a: int| 0 <= a < offs@.len() ==> #[trigger] offs@[a] < usable,
                out@.len() == i,
                forall|a: int| 0 <= a < i ==> (#[trigger] out@[a]).addr == first + offs@[a],
                forall|a: int| 0 <= a < i ==> (#[trigger] out@[a]).v6 == r.v6,
            decreases count - i,
        {
            out.push(Candidate { v6: r.v6, addr: first + offs[i] });
            i = i + 1;
        }
        proof {
            assert forall|a: int, b: int|
                0 <= a < out@.len() && 0 <= b < out@.len() && a != b implies out@[a]
                != out@[b] by {
                assert(offs@[a] != offs@[b]);
                assert(out@[a].addr != out@[b].addr);
            }
        }
    }
    out
}

/// Samples every range in turn, concatenates the per-range samples, and
/// applies one final full shuffle to destroy the per-range ordering. The
/// output length is the sum of the per-range sample counts, every candidate
/// is a usable address of one of the ranges, and for ranges that share no
/// address the candidates are pairwise distinct and each range is
/// represented exactly its sample count of times — never more than its
/// policy bound, never more than its usable addresses.
pub fn sample_ips(ranges: &Vec<AddressRange>) -> (out: Vec<Candidate>)
    requires
        forall|i: int| 0 <= i < ranges@.len() ==> (#[trigger] ranges@[i]).wf(),
    ensures
        out@.len() == total_sample_count(ranges@),
        forall|i: int| 0 <= i < out@.len() ==> in_some_range(ranges@, #[trigger] out@[i]),
        pairwise_disjoint(ranges@) ==> out@.no_duplicates(),
        pairwise_disjoint(ranges@) ==> forall|j: int|
            0 <= j < ranges@.len() ==> count_in_range(out@, #[trigger] ranges@[j])
                == ranges@[j].sample_count(),
{
    let mut out: Vec<Candidate> = Vec::new();
    let mut idx: usize = 0;
    proof {
        assert forall|j: int| 0 <= j < ranges@.len() implies count_in_range(
            out@,
            #[trigger] ranges@[j],
        ) == 0nat by {
            out@.lemma_all_neg_filter_empty(usable_in(ranges@[j]));
        }
    }
    while idx < ranges.len()
        invariant
            idx <= ranges@.len(),
            forall|i: int| 0 <= i < ranges@.len() ==> (#[trigger] ranges@[i]).wf(),
            out@.len() == total_sample_count(ranges@.take(idx as int)),
            forall|i: int|
                0 <= i < out@.len() ==> exists|j: int|
                    0 <= j < idx && is_usable(ranges@[j], #[trigger] out@[i]),
            pairwise_disjoint(ranges@) ==> out@.no_duplicates(),
            pairwise_disjoint(ranges@) ==> forall|j: int|
                0 <= j < ranges@.len() ==> count_in_range(out@, #[trigger] ranges@[j]) == (if j
                    < idx {
                    ranges@[j].sample_count()
                } else {
                    0nat
                }),
        decreases ranges@.len() - idx,
    {
        let mut s = sample_from_range(&ranges[idx]);
        let ghost pre = out@;
        let ghost sv = s@;
        out.append(&mut s);
        proof {
            assert(ranges@.take(idx + 1).drop_last() =~= ranges@.take(idx as int));
            assert(ranges@.take(idx + 1).last() == ranges@[idx as int]);
            assert(out@.len() == total_sample_count(ranges@.take(idx + 1)));
            assert forall|i: int| 0 <= i < out@.len() implies exists|j: int|
                0 <= j < idx + 1 && is_usable(ranges@[j], #[trigger] out@[i]) by {
                if i < pre.len() {
                    assert(out@[i] == pre[i]);
                    let j = choose|j: int| 0 <= j < idx && is_usable(ranges@[j], pre[i]);
                    assert(0 <= j < idx + 1 && is_usable(ranges@[j], out@[i]));
                } else {
                    assert(out@[i] == sv[i - pre.len()]);
                    assert(is_usable(ranges@[idx as int], out@[i]));
                }
            }
            if pairwise_disjoint(ranges@) {
                assert forall|a: int, b: int|
                    0 <= a < out@.len() && 0 <= b < out@.len() && a != b implies out@[a]
                    != out@[b] by {
                    if a < pre.len() && b < pre.len() {
                        assert(pre[a] != pre[b]);
                    } else if a >= pre.len() && b >= pre.len() {
                        assert(sv[a - pre.len()] != sv[b - pre.len()]);
                    } else {
                        let lo = if a < b {
                            a
                        } else {
                            b
                        };
                        let hi = if a < b {
                            b
                        } else {
                            a
                        };
                        let j = choose|j: int| 0 <= j < idx && is_usable(ranges@[j], pre[lo]);
                        assert(is_usable(ranges@[idx as int], sv[hi - pre.len()]));
                        assert(ranges_disjoint(ranges@[j], ranges@[idx as int]));
                        lemma_usable_disjoint(
                            ranges@[j],
                            ranges@[idx as int],
                            pre[lo],
                        );
                    }
                }
                assert forall|j: int| 0 <= j < ranges@.len() implies count_in_range(
                    out@,
                    #[trigger] ranges@[j],
                ) == (if j < idx + 1 {
                    ranges@[j].sample_count()
                } else {
                    0nat
                }) by {
                    let pj = usable_in(ranges@[j]);
                    Seq::<Candidate>::filter_distributes_over_add(pre, sv, pj);
                    assert(out@.filter(pj) == pre.filter(pj) + sv.filter(pj));
                    if j == idx as int {
                        assert forall|a: int| 0 <= a < sv.len() implies pj(#[trigger] sv[a]) by {
                            assert(is_usable(ranges@[idx as int], sv[a]));
                        }
                        lemma_filter_all(sv, pj);
                    } else {
                        assert forall|a: int| 0 <= a < sv.len() implies !pj(#[trigger] sv[a]) by {
                            assert(is_usable(ranges@[idx as int], sv[a]));
                            assert(ranges_disjoint(ranges@[idx as int], ranges@[j]));
                            lemma_usable_disjoint(ranges@[idx as int], ranges@[j], sv[a]);
                        }
                        sv.lemma_all_neg_filter_empty(pj);
                    }
                }
            }
        }
        idx = idx + 1;
    }
    proof {
        assert(ranges@.take(ranges@.len() as int) =~= ranges@);
    }
    let ghost pre = out@;
    shuffle_candidates(&mut out);
    proof {
        broadcast use vstd::seq_lib::group_to_multiset_ensures;

        assert forall|i: int| 0 <= i < out@.len() implies in_some_range(
            ranges@,
            #[trigger] out@[i],
        ) by {
            assert(out@.contains(out@[i]));
            assert(out@.to_multiset().count(out@[i]) > 0);
            assert(pre.contains(out@[i]));
            let w = choose|w: int| 0 <= w < pre.len() && pre[w] == out@[i];
            assert(in_some_range(ranges@, pre[w]));
        }
        if pairwise_disjoint(ranges@) {
            pre.lemma_multiset_has_no_duplicates();
            assert forall|x: Candidate| out@.to_multiset().contains(x) implies out@.to_multiset()
                .count(x) == 1 by {
                assert(pre.to_multiset().count(x) == out@.to_multiset().count(x));
            }
            out@.lemma_multiset_has_no_duplicates_conv();
            assert forall|j: int| 0 <= j < ranges@.len() implies count_in_range(
                out@,
                #[trigger] ranges@[j],
            ) == ranges@[j].sample_count() by {
                let pj = usable_in(ranges@[j]);
                lemma_filter_to_multiset(pre, pj);
                lemma_filter_to_multiset(out@, pj);
                assert(pre.filter(pj).to_multiset() == out@.filter(pj).to_multiset());
                assert(pre.filter(pj).len() == pre.filter(pj).to_multiset().len());
                assert(out@.filter(pj).len() == out@.filter(pj).to_multiset().len());
            }
        }
    }
    out
}

} // verus!

