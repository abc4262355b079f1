//! Turning the results of a run into its report: which results come first,
//! how many rows are shown, what is printed and with which exit code.
use vstd::prelude::*;
use vstd::string::*;
use vstd::utf8::encode_utf8;
use vstd::multiset::Multiset;
use crate::cache::{CacheStore, lookup_spec};
use crate::cli::ColorWhen;
use crate::error::{AppError, ErrorView};
use crate::hack::HackMatch;
use crate::input::{InputMode, ParsedInput};
use crate::output::{
    CheckMethod, DomainResult, OutputOptions, ResultKind, ResultView, json_lines, lines_text,
    plain_lines, render, shown_filter, stdout_is_terminal, visible_results, visible_spec,
};
use crate::text::{concat3, dec_digits, u64_to_decimal};
use crate::tld::{pinned_index, pinned_table, position_from, position_of, views};

verus! {

broadcast use vstd::string::group_string_axioms;

/// What a run prints and the exit code it ends with.
#[derive(Debug, Clone)]
pub struct RunReport {
    pub stdout: String,
    pub stderr: Vec<String>,
    pub exit_code: i32,
}

/// Rows shown on a terminal when no limit is given.
pub const DEFAULT_TERMINAL_LIMIT: usize = 25;

/// The row limit in effect: `--limit 0` shows everything, a positive limit
/// is kept, and without one plain output to a terminal stops at 25 rows.
pub open spec fn limit_for(limit: Option<usize>, json: bool, terminal: bool) -> Option<usize> {
    match limit {
        Some(n) => if n == 0 { None } else { Some(n) },
        None => if terminal && !json { Some(DEFAULT_TERMINAL_LIMIT) } else { None },
    }
}

/// The row limit for the given options, output to a terminal or not.
pub fn row_limit_for(limit: Option<usize>, json: bool, terminal: bool) -> (r: Option<usize>)
    ensures
        r == limit_for(limit, json, terminal),
{
    match limit {
        Some(n) => if n == 0 { None } else { Some(n) },
        None => if terminal && !json { Some(DEFAULT_TERMINAL_LIMIT) } else { None },
    }
}

/// The row limit for this process, whose standard output may or may not be
/// a terminal.
pub fn row_limit(limit: Option<usize>, json: bool) -> (r: Option<usize>)
    ensures
        exists|terminal: bool| r == limit_for(limit, json, terminal),
{
    let terminal = stdout_is_terminal();
    row_limit_for(limit, json, terminal)
}

/// `sld.tld`.
pub open spec fn domain_of(sld: Seq<char>, tld: Seq<char>) -> Seq<char> {
    sld + "."@ + tld
}

pub open spec fn result_of(domain: Seq<char>, available: bool, kind: ResultKind, method: CheckMethod) -> ResultView {
    ResultView { domain, available, kind, method }
}

pub open spec fn result_views(r: Seq<DomainResult>) -> Seq<ResultView> {
    r.map_values(|x: DomainResult| x@)
}

/// Whether a second-level label is short enough (at most 3 bytes) for the
/// cache.
pub open spec fn is_short(sld: Seq<char>) -> bool {
    encode_utf8(sld).len() <= 3
}

/// Whether the results of a label are read from the cache (a short label)
/// rather than asked of DNS.
pub fn uses_cache(sld: &str) -> (b: bool)
    ensures
        b == is_short(sld@),
{
    sld.as_bytes().len() <= 3
}

/// How a search proceeds.
#[derive(Debug, Clone, Copy, PartialEq, Eq, Structural)]
pub struct SearchPlan {
    /// Domain hacks are searched.
    pub hacks: bool,
    /// The regular results are read from the cache rather than asked of
    /// DNS.
    pub regular_from_cache: bool,
}

/// The plan for a parsed input: hacks are searched only for a bare label
/// (a TLD prefix turns them off), and a short label's regular results come
/// from the cache.
pub fn plan_search(input: &ParsedInput) -> (p: SearchPlan)
    ensures
        p.hacks == (input.mode == InputMode::SldOnly),
        p.regular_from_cache == is_short(input.sld@),
{
    SearchPlan {
        hacks: match input.mode {
            InputMode::SldOnly => true,
            InputMode::SldWithTldPrefix => false,
        },
        regular_from_cache: uses_cache(input.sld.as_str()),
    }
}

// ---------------------------------------------------------------------------
// Regular results
// ---------------------------------------------------------------------------

/// The domains `sld.tld` for each TLD, in order.
pub fn regular_domains(sld: &str, tlds: &[String]) -> (r: Vec<String>)
    ensures
        r@.len() == tlds@.len(),
        forall|i: int| 0 <= i < r@.len() ==> (#[trigger] r@[i])@ == domain_of(sld@, tlds@[i]@),
{
    let mut r: Vec<String> = Vec::new();
    let mut i: usize = 0;
    while i < tlds.len()
        invariant
            i <= tlds@.len(),
            r@.len() == i,
            forall|j: int| 0 <= j < i ==> (#[trigger] r@[j])@ == domain_of(sld@, tlds@[j]@),
        decreases tlds@.len() - i,
    {
        r.push(concat3(sld, ".", tlds[i].as_str()));
        i = i + 1;
    }
    r
}

/// The regular results of a short label, read from the cache, one per TLD
/// in order. The first failed lookup is the error.
pub fn regular_cache_results(sld: &str, tlds: &[String], cache: &CacheStore) -> (r: Result<Vec<DomainResult>, AppError>)
    ensures
        match r {
            Ok(v) => {
                &&& v@.len() == tlds@.len()
                &&& forall|i: int| 0 <= i < v@.len() ==> {
                    &&& lookup_spec(cache.file_view(), sld@, tlds@[i]@) == Ok::<bool, ErrorView>((#[trigger] v@[i]).available)
                    &&& v@[i]@ == result_of(domain_of(sld@, tlds@[i]@), v@[i].available, ResultKind::Regular, CheckMethod::Cache)
                }
            },
            Err(e) => exists|i: int| {
                &&& 0 <= i < tlds@.len()
                &&& lookup_spec(cache.file_view(), sld@, tlds@[i]@) == Err::<bool, ErrorView>(e@)
                &&& forall|j: int| 0 <= j < i ==> (#[trigger] lookup_spec(cache.file_view(), sld@, tlds@[j]@)) is Ok
            },
        },
{
    let mut v: Vec<DomainResult> = Vec::new();
    let mut i: usize = 0;
    while i < tlds.len()
        invariant
            i <= tlds@.len(),
            v@.len() == i,
            forall|j: int| 0 <= j < i ==> {
                &&& lookup_spec(cache.file_view(), sld@, tlds@[j]@) == Ok::<bool, ErrorView>((#[trigger] v@[j]).available)
                &&& v@[j]@ == result_of(domain_of(sld@, tlds@[j]@), v@[j].available, ResultKind::Regular, CheckMethod::Cache)
            },
        decreases tlds@.len() - i,
    {
        let available = match cache.lookup(sld, tlds[i].as_str()) {
            Ok(b) => b,
            Err(e) => {
                assert forall|j: int| 0 <= j < i implies (#[trigger] lookup_spec(cache.file_view(), sld@, tlds@[j]@)) is Ok by {
                    assert(lookup_spec(cache.file_view(), sld@, tlds@[j]@) == Ok::<bool, ErrorView>(v@[j].available));
                }
                return Err(e);
            },
        };
        v.push(DomainResult {
            domain: concat3(sld, ".", tlds[i].as_str()),
            available,
            kind: ResultKind::Regular,
            method: CheckMethod::Cache,
        });
        i = i + 1;
    }
    Ok(v)
}


/// The regular results of names resolved over DNS, in order.
pub fn regular_dns_results(domains: Vec<String>, availability: &[bool]) -> (r: Vec<DomainResult>)
    requires
        availability@.len() == domains@.len(),
    ensures
        r@.len() == domains@.len(),
        forall|i: int| 0 <= i < r@.len() ==> (#[trigger] r@[i])@ == result_of(domains@[i]@, availability@[i],
            ResultKind::Regular, CheckMethod::Dns),
{
    let mut r: Vec<DomainResult> = Vec::new();
    let mut i: usize = 0;
    while i < domains.len()
        invariant
            i <= domains@.len(),
            availability@.len() == domains@.len(),
            r@.len() == i,
            forall|j: int| 0 <= j < i ==> (#[trigger] r@[j])@ == result_of(domains@[j]@, availability@[j],
                ResultKind::Regular, CheckMethod::Dns),
        decreases domains@.len() - i,
    {
        r.push(DomainResult {
            domain: domains[i].clone(),
            available: availability[i],
            kind: ResultKind::Regular,
            method: CheckMethod::Dns,
        });
        i = i + 1;
    }
    r
}

/// The position among the pinned TLDs that moves a regular result to the
/// front: only available results are moved.
pub open spec fn promote_rank(r: ResultView, tld: Seq<char>) -> Option<int> {
    if r.available { position_of(pinned_table(), tld) } else { None }
}

/// The results among the first `n` whose rank is `p`, in order.
pub open spec fn with_rank(rs: Seq<ResultView>, ts: Seq<Seq<char>>, p: Option<int>, n: int) -> Seq<ResultView>
    decreases n,
{
    if n <= 0 {
        Seq::empty()
    } else {
        with_rank(rs, ts, p, n - 1) + if promote_rank(rs[n - 1], ts[n - 1]) == p { seq![rs[n - 1]] } else { Seq::empty() }
    }
}

/// The results of ranks `0..k`, rank by rank.
pub open spec fn ranked(rs: Seq<ResultView>, ts: Seq<Seq<char>>, k: int) -> Seq<ResultView>
    decreases k,
{
    if k <= 0 {
        Seq::empty()
    } else {
        ranked(rs, ts, k - 1) + with_rank(rs, ts, Some(k - 1), rs.len() as int)
    }
}

/// The regular results with the available pinned ones first, in pinned
/// order, and the rest after them in their order.
pub open spec fn promoted(rs: Seq<ResultView>, ts: Seq<Seq<char>>) -> Seq<ResultView> {
    ranked(rs, ts, pinned_table().len() as int) + with_rank(rs, ts, None, rs.len() as int)
}

proof fn lemma_position_bound(t: Seq<Seq<char>>, x: Seq<char>, i: int)
    requires
        0 <= i,
    ensures
        position_from(t, x, i) matches Some(k) ==> i <= k < t.len(),
    decreases t.len() - i,
{
    if i < t.len() && t[i] != x {
        lemma_position_bound(t, x, i + 1);
    }
}

/// The results of ranks `0..k` among the first `n`, rank by rank.
spec fn ranked_n(rs: Seq<ResultView>, ts: Seq<Seq<char>>, k: int, n: int) -> Seq<ResultView>
    decreases k,
{
    if k <= 0 {
        Seq::empty()
    } else {
        ranked_n(rs, ts, k - 1, n) + with_rank(rs, ts, Some(k - 1), n)
    }
}

proof fn lemma_ranked_n_full(rs: Seq<ResultView>, ts: Seq<Seq<char>>, k: int)
    ensures
        ranked(rs, ts, k) == ranked_n(rs, ts, k, rs.len() as int),
    decreases k,
{
    if k > 0 {
        lemma_ranked_n_full(rs, ts, k - 1);
    }
}

/// The multiset of one rank class grows by the `n`-th result exactly when
/// that result has the rank.
proof fn lemma_with_rank_step(rs: Seq<ResultView>, ts: Seq<Seq<char>>, p: Option<int>, n: int)
    requires
        n >= 1,
    ensures
        with_rank(rs, ts, p, n).to_multiset() == if promote_rank(rs[n - 1], ts[n - 1]) == p {
            with_rank(rs, ts, p, n - 1).to_multiset().insert(rs[n - 1])
        } else {
            with_rank(rs, ts, p, n - 1).to_multiset()
        },
{
    broadcast use vstd::multiset::group_multiset_axioms;
    let prev = with_rank(rs, ts, p, n - 1);
    if promote_rank(rs[n - 1], ts[n - 1]) == p {
        assert(with_rank(rs, ts, p, n) =~= prev.push(rs[n - 1]));
        vstd::seq_lib::to_multiset_build(prev, rs[n - 1]);
    } else {
        assert(with_rank(rs, ts, p, n) =~= prev);
    }
}

/// The multiset of the classes `0..k` grows by the `n`-th result exactly
/// when its rank is one of them.
proof fn lemma_ranked_n_step(rs: Seq<ResultView>, ts: Seq<Seq<char>>, k: int, n: int)
    requires
        n >= 1,
        k >= 0,
    ensures
        ranked_n(rs, ts, k, n).to_multiset() == if promote_rank(rs[n - 1], ts[n - 1]) matches Some(r) && 0 <= r < k {
            ranked_n(rs, ts, k, n - 1).to_multiset().insert(rs[n - 1])
        } else {
            ranked_n(rs, ts, k, n - 1).to_multiset()
        },
    decreases k,
{
    broadcast use vstd::multiset::group_multiset_axioms;
    if k == 0 {
        assert(ranked_n(rs, ts, 0, n) =~= Seq::<ResultView>::empty());
        assert(ranked_n(rs, ts, 0, n - 1) =~= Seq::<ResultView>::empty());
    } else {
        lemma_ranked_n_step(rs, ts, k - 1, n);
        lemma_with_rank_step(rs, ts, Some(k - 1), n);
        vstd::seq_lib::lemma_multiset_commutative(ranked_n(rs, ts, k - 1, n), with_rank(rs, ts, Some(k - 1), n));
        vstd::seq_lib::lemma_multiset_commutative(ranked_n(rs, ts, k - 1, n - 1), with_rank(rs, ts, Some(k - 1), n - 1));
        assert(ranked_n(rs, ts, k, n).to_multiset() =~= (if promote_rank(rs[n - 1], ts[n - 1]) matches Some(r) && 0 <= r < k {
            ranked_n(rs, ts, k, n - 1).to_multiset().insert(rs[n - 1])
        } else {
            ranked_n(rs, ts, k, n - 1).to_multiset()
        }));
    }
}

proof fn lemma_promoted_upto(rs: Seq<ResultView>, ts: Seq<Seq<char>>, n: int)
    requires
        0 <= n <= rs.len(),
        n <= ts.len(),
    ensures
        ranked_n(rs, ts, 12, n).to_multiset().add(with_rank(rs, ts, None, n).to_multiset()) == rs.take(n).to_multiset(),
    decreases n,
{
    broadcast use vstd::multiset::group_multiset_axioms;
    if n == 0 {
        lemma_ranked_n_empty(rs, ts, 12);
        assert(with_rank(rs, ts, None, 0) =~= Seq::<ResultView>::empty());
        assert(rs.take(0) =~= Seq::<ResultView>::empty());
        vstd::seq_lib::to_multiset_len(Seq::<ResultView>::empty());
        vstd::multiset::lemma_multiset_empty_len(Seq::<ResultView>::empty().to_multiset());
        assert(Seq::<ResultView>::empty().to_multiset() =~= Multiset::empty());
    } else {
        lemma_promoted_upto(rs, ts, n - 1);
        lemma_ranked_n_step(rs, ts, 12, n);
        lemma_with_rank_step(rs, ts, None, n);
        lemma_position_bound(pinned_table(), ts[n - 1], 0);
        assert(rs.take(n) =~= rs.take(n - 1).push(rs[n - 1]));
        vstd::seq_lib::to_multiset_build(rs.take(n - 1), rs[n - 1]);
        assert(ranked_n(rs, ts, 12, n).to_multiset().add(with_rank(rs, ts, None, n).to_multiset())
            =~= rs.take(n).to_multiset());
    }
}

proof fn lemma_ranked_n_empty(rs: Seq<ResultView>, ts: Seq<Seq<char>>, k: int)
    ensures
        ranked_n(rs, ts, k, 0) =~= Seq::<ResultView>::empty(),
    decreases k,
{
    if k > 0 {
        lemma_ranked_n_empty(rs, ts, k - 1);
        assert(with_rank(rs, ts, Some(k - 1), 0) =~= Seq::<ResultView>::empty());
    }
}

/// Moving the available pinned results to the front reorders the results
/// without losing or adding any.
pub proof fn lemma_promoted_permutes(rs: Seq<ResultView>, ts: Seq<Seq<char>>)
    requires
        rs.len() == ts.len(),
    ensures
        promoted(rs, ts).to_multiset() == rs.to_multiset(),
{
    broadcast use vstd::multiset::group_multiset_axioms;
    lemma_ranked_n_full(rs, ts, 12);
    lemma_promoted_upto(rs, ts, rs.len() as int);
    assert(rs.take(rs.len() as int) =~= rs);
    vstd::seq_lib::lemma_multiset_commutative(ranked(rs, ts, 12), with_rank(rs, ts, None, rs.len() as int));
}

/// Moves the available results of pinned TLDs to the front, in the order
/// of the pinned TLDs; `tlds[i]` is the TLD of `results[i]`.
pub fn promote_pinned(results: Vec<DomainResult>, tlds: &[String]) -> (r: Vec<DomainResult>)
    requires
        results@.len() == tlds@.len(),
    ensures
        result_views(r@) == promoted(result_views(results@), views(tlds@)),
{
    let ghost rs = result_views(results@);
    let ghost ts = views(tlds@);
    let n = results.len();
    let mut ranks: Vec<Option<usize>> = Vec::new();
    let mut i: usize = 0;
    while i < n
        invariant
            n == results@.len(),
            n == tlds@.len(),
            i <= n,
            rs == result_views(results@),
            ts == views(tlds@),
            ranks@.len() == i,
            forall|j: int| 0 <= j < i ==> match #[trigger] ranks@[j] {
                Some(k) => promote_rank(rs[j], ts[j]) == Some(k as int),
                None => promote_rank(rs[j], ts[j]) is None,
            },
        decreases n - i,
    {
        let rank = if results[i].available { pinned_index(tlds[i].as_str()) } else { None };
        ranks.push(rank);
        i = i + 1;
    }
    let mut out: Vec<DomainResult> = Vec::new();
    let mut p: usize = 0;
    proof {
        assert(result_views(out@) =~= ranked(rs, ts, 0));
    }
    while p < 12
        invariant
            n == results@.len(),
            n == tlds@.len(),
            n == ranks@.len(),
            p <= 12,
            pinned_table().len() == 12,
            rs == result_views(results@),
            ts == views(tlds@),
            forall|j: int| 0 <= j < n ==> match #[trigger] ranks@[j] {
                Some(k) => promote_rank(rs[j], ts[j]) == Some(k as int),
                None => promote_rank(rs[j], ts[j]) is None,
            },
            result_views(out@) == ranked(rs, ts, p as int),
        decreases 12 - p,
    {
        let ghost base = result_views(out@);
        let mut j: usize = 0;
        assert(base + with_rank(rs, ts, Some(p as int), 0) =~= base);
        while j < n
            invariant
                n == results@.len(),
                n == ranks@.len(),
                j <= n,
                rs == result_views(results@),
                forall|m: int| 0 <= m < n ==> match #[trigger] ranks@[m] {
                    Some(k) => promote_rank(rs[m], ts[m]) == Some(k as int),
                    None => promote_rank(rs[m], ts[m]) is None,
                },
                result_views(out@) == base + with_rank(rs, ts, Some(p as int), j as int),
            decreases n - j,
        {
            let ghost before = result_views(out@);
            if ranks[j] == Some(p) {
                out.push(results[j].duplicate());
                assert(result_views(out@) =~= before.push(rs[j as int]));
            }
            assert(result_views(out@) =~= base + with_rank(rs, ts, Some(p as int), j + 1));
            j = j + 1;
        }
        p = p + 1;
    }
    let ghost base = result_views(out@);
    let mut j: usize = 0;
    assert(base + with_rank(rs, ts, None, 0) =~= base);
    while j < n
        invariant
            n == results@.len(),
            n == ranks@.len(),
            j <= n,
            rs == result_views(results@),
            forall|m: int| 0 <= m < n ==> match #[trigger] ranks@[m] {
                Some(k) => promote_rank(rs[m], ts[m]) == Some(k as int),
                None => promote_rank(rs[m], ts[m]) is None,
            },
            result_views(out@) == base + with_rank(rs, ts, None, j as int),
        decreases n - j,
    {
        let ghost before = result_views(out@);
        if ranks[j].is_none() {
            out.push(results[j].duplicate());
            assert(result_views(out@) =~= before.push(rs[j as int]));
        }
        assert(result_views(out@) =~= base + with_rank(rs, ts, None, j + 1));
        j = j + 1;
    }
    out
}


// ---------------------------------------------------------------------------
// Hack results
// ---------------------------------------------------------------------------

/// The results of domain hacks before DNS: short labels are read from the
/// cache; each long one holds a place, listed in `dns_positions`, for the
/// DNS answer about the matching domain of `dns_domains`.
#[derive(Debug)]
pub struct HackPlan {
    pub results: Vec<DomainResult>,
    pub dns_positions: Vec<usize>,
    pub dns_domains: Vec<String>,
}

/// The positions of the hacks whose label is too long for the cache, among
/// the first `n`.
pub open spec fn long_positions(ms: Seq<HackMatch>, n: int) -> Seq<int>
    decreases n,
{
    if n <= 0 {
        Seq::empty()
    } else {
        long_positions(ms, n - 1) + if !is_short(ms[n - 1].sld@) { seq![n - 1] } else { Seq::empty() }
    }
}

pub open spec fn hack_domain(m: HackMatch) -> Seq<char> {
    domain_of(m.sld@, m.tld@)
}

proof fn lemma_long_positions_bounds(ms: Seq<HackMatch>, n: int)
    requires
        0 <= n <= ms.len(),
    ensures
        forall|k: int| 0 <= k < long_positions(ms, n).len() ==> 0 <= #[trigger] long_positions(ms, n)[k] < n,
        forall|a: int, b: int| 0 <= a < b < long_positions(ms, n).len() ==> long_positions(ms, n)[a] < long_positions(ms, n)[b],
    decreases n,
{
    if n > 0 {
        lemma_long_positions_bounds(ms, n - 1);
        let prev = long_positions(ms, n - 1);
        let cur = long_positions(ms, n);
        assert forall|k: int| 0 <= k < cur.len() implies 0 <= #[trigger] cur[k] < n by {
            if k < prev.len() {
                assert(cur[k] == prev[k]);
            }
        }
        assert forall|a: int, b: int| 0 <= a < b < cur.len() implies cur[a] < cur[b] by {
            assert(cur[a] == prev[a]);
            if b < prev.len() {
                assert(cur[b] == prev[b]);
            }
        }
    }
}

/// Reads the short hacks from the cache and lays out the long ones for DNS.
/// The first failed cache lookup is the error.
pub fn plan_hacks(matches: &[HackMatch], cache: &CacheStore) -> (r: Result<HackPlan, AppError>)
    ensures
        match r {
            Ok(plan) => {
                &&& plan.results@.len() == matches@.len()
                &&& plan.dns_positions@.map_values(|p: usize| p as int) == long_positions(matches@, matches@.len() as int)
                &&& plan.dns_domains@.len() == plan.dns_positions@.len()
                &&& forall|k: int| 0 <= k < plan.dns_domains@.len() ==>
                    (#[trigger] plan.dns_domains@[k])@ == hack_domain(matches@[plan.dns_positions@[k] as int])
                &&& forall|i: int| 0 <= i < matches@.len() ==> {
                    let m = #[trigger] matches@[i];
                    if is_short(m.sld@) {
                        &&& lookup_spec(cache.file_view(), m.sld@, m.tld@) == Ok::<bool, ErrorView>(plan.results@[i].available)
                        &&& plan.results@[i]@ == result_of(hack_domain(m), plan.results@[i].available, ResultKind::Hack, CheckMethod::Cache)
                    } else {
                        plan.results@[i]@ == result_of(Seq::empty(), false, ResultKind::Hack, CheckMethod::Dns)
                    }
                }
            },
            Err(e) => exists|i: int| {
                &&& 0 <= i < matches@.len()
                &&& is_short(matches@[i].sld@)
                &&& lookup_spec(cache.file_view(), matches@[i].sld@, matches@[i].tld@) == Err::<bool, ErrorView>(e@)
                &&& forall|j: int| 0 <= j < i && is_short(#[trigger] matches@[j].sld@) ==>
                    lookup_spec(cache.file_view(), matches@[j].sld@, matches@[j].tld@) is Ok
            },
        },
{
    let ghost ms = matches@;
    let mut results: Vec<DomainResult> = Vec::new();
    let mut positions: Vec<usize> = Vec::new();
    let mut domains: Vec<String> = Vec::new();
    let mut i: usize = 0;
    assert(positions@.map_values(|p: usize| p as int) =~= long_positions(ms, 0));
    while i < matches.len()
        invariant
            ms == matches@,
            i <= ms.len(),
            results@.len() == i,
            positions@.map_values(|p: usize| p as int) == long_positions(ms, i as int),
            domains@.len() == positions@.len(),
            forall|k: int| 0 <= k < domains@.len() ==>
                (#[trigger] domains@[k])@ == hack_domain(ms[positions@[k] as int]),
            forall|j: int| 0 <= j < i ==> {
                let m = #[trigger] ms[j];
                if is_short(m.sld@) {
                    &&& lookup_spec(cache.file_view(), m.sld@, m.tld@) == Ok::<bool, ErrorView>(results@[j].available)
                    &&& results@[j]@ == result_of(hack_domain(m), results@[j].available, ResultKind::Hack, CheckMethod::Cache)
                } else {
                    results@[j]@ == result_of(Seq::empty(), false, ResultKind::Hack, CheckMethod::Dns)
                }
            },
        decreases ms.len() - i,
    {
        let m = &matches[i];
        let domain = concat3(m.sld.as_str(), ".", m.tld.as_str());
        if uses_cache(m.sld.as_str()) {
            let available = match cache.lookup(m.sld.as_str(), m.tld.as_str()) {
                Ok(b) => b,
                Err(e) => {
                    assert forall|j: int| 0 <= j < i && is_short(#[trigger] ms[j].sld@) implies
                        lookup_spec(cache.file_view(), ms[j].sld@, ms[j].tld@) is Ok by {
                        assert(lookup_spec(cache.file_view(), ms[j].sld@, ms[j].tld@) == Ok::<bool, ErrorView>(results@[j].available));
                    }
                    return Err(e);
                },
            };
            results.push(DomainResult { domain, available, kind: ResultKind::Hack, method: CheckMethod::Cache });
            assert(positions@.map_values(|p: usize| p as int) =~= long_positions(ms, i + 1));
        } else {
            let ghost before = positions@.map_values(|p: usize| p as int);
            positions.push(i);
            domains.push(domain);
            results.push(DomainResult {
                domain: String::new(),
                available: false,
                kind: ResultKind::Hack,
                method: CheckMethod::Dns,
            });
            assert(positions@.map_values(|p: usize| p as int) =~= before.push(i as int));
            assert(positions@.map_values(|p: usize| p as int) =~= long_positions(ms, i + 1));
        }
        i = i + 1;
    }
    Ok(HackPlan { results, dns_positions: positions, dns_domains: domains })
}

/// Puts the DNS answers into the places the plan held for them and returns
/// the hack results in order.
pub fn fill_hack_dns(plan: HackPlan, availability: &[bool]) -> (r: Vec<DomainResult>)
    requires
        availability@.len() == plan.dns_positions@.len(),
        plan.dns_domains@.len() == plan.dns_positions@.len(),
        forall|k: int| 0 <= k < plan.dns_positions@.len() ==> (#[trigger] plan.dns_positions@[k]) < plan.results@.len(),
        forall|a: int, b: int| 0 <= a < b < plan.dns_positions@.len() ==> plan.dns_positions@[a] < plan.dns_positions@[b],
    ensures
        r@.len() == plan.results@.len(),
        forall|k: int| 0 <= k < plan.dns_positions@.len() ==> (#[trigger] r@[plan.dns_positions@[k] as int])@
            == result_of(plan.dns_domains@[k]@, availability@[k], ResultKind::Hack, CheckMethod::Dns),
        forall|i: int| 0 <= i < r@.len() && !plan.dns_positions@.contains(i as usize) ==> (#[trigger] r@[i]) == plan.results@[i],
{
    let HackPlan { results, dns_positions, dns_domains } = plan;
    let mut out = results;
    let mut k: usize = 0;
    while k < dns_positions.len()
        invariant
            k <= dns_positions@.len(),
            availability@.len() == dns_positions@.len(),
            dns_domains@.len() == dns_positions@.len(),
            out@.len() == results@.len(),
            forall|a: int| 0 <= a < dns_positions@.len() ==> (#[trigger] dns_positions@[a]) < results@.len(),
            forall|a: int, b: int| 0 <= a < b < dns_positions@.len() ==> dns_positions@[a] < dns_positions@[b],
            forall|a: int| 0 <= a < k ==> (#[trigger] out@[dns_positions@[a] as int])@
                == result_of(dns_domains@[a]@, availability@[a], ResultKind::Hack, CheckMethod::Dns),
            forall|i: int| 0 <= i < out@.len() && !dns_positions@.take(k as int).contains(i as usize) ==> (#[trigger] out@[i]) == results@[i],
        decreases dns_positions@.len() - k,
    {
        let pos = dns_positions[k];
        let ghost before = out@;
        out.set(pos, DomainResult {
            domain: dns_domains[k].clone(),
            available: availability[k],
            kind: ResultKind::Hack,
            method: CheckMethod::Dns,
        });
        proof {
            assert forall|a: int| 0 <= a < k implies (#[trigger] out@[dns_positions@[a] as int])@
                == result_of(dns_domains@[a]@, availability@[a], ResultKind::Hack, CheckMethod::Dns) by {
                assert(dns_positions@[a] < dns_positions@[k as int]);
            }
            assert forall|i: int| 0 <= i < out@.len() && !dns_positions@.take(k + 1).contains(i as usize) implies (#[trigger] out@[i]) == results@[i] by {
                assert(dns_positions@.take(k + 1)[k as int] == pos);
                if dns_positions@.take(k as int).contains(i as usize) {
                    let w = choose|w: int| 0 <= w < k && dns_positions@.take(k as int)[w] == i as usize;
                    assert(dns_positions@.take(k + 1)[w] == i as usize);
                }
            }
        }
        k = k + 1;
    }
    assert(dns_positions@.take(dns_positions@.len() as int) =~= dns_positions@);
    out
}

/// Domain hacks that the plan laid out satisfy what filling it asks.
pub proof fn lemma_plan_positions(ms: Seq<HackMatch>)
    ensures
        forall|k: int| 0 <= k < long_positions(ms, ms.len() as int).len() ==>
            0 <= #[trigger] long_positions(ms, ms.len() as int)[k] < ms.len(),
        forall|a: int, b: int| 0 <= a < b < long_positions(ms, ms.len() as int).len() ==>
            long_positions(ms, ms.len() as int)[a] < long_positions(ms, ms.len() as int)[b],
{
    lemma_long_positions_bounds(ms, ms.len() as int);
}


// ---------------------------------------------------------------------------
// The report
// ---------------------------------------------------------------------------

/// The number of available results.
pub open spec fn count_available(rs: Seq<DomainResult>) -> nat
    decreases rs.len(),
{
    if rs.len() == 0 {
        0
    } else {
        count_available(rs.drop_last()) + if rs.last().available { 1nat } else { 0nat }
    }
}

pub open spec fn no_available_note(input: Seq<char>) -> Seq<char> {
    "note: no available domains found for '"@ + input + "'"@
}

pub open spec fn truncation_note(remaining: nat, shown: nat, total: nat) -> Seq<char> {
    "note: "@ + dec_digits(remaining) + " more domains not shown (showing "@ + dec_digits(shown) + " of "@
        + dec_digits(total) + "; use --limit 0 to show all)"@
}

/// The notes printed after the results: that nothing is available, and
/// that plain output was cut short.
pub open spec fn notes_spec(all: Seq<DomainResult>, input: Seq<char>, show_all: bool, json: bool, limit: Option<usize>) -> Seq<Seq<char>> {
    let shown = visible_spec(all, show_all, limit).len();
    let total = visible_spec(all, show_all, None).len();
    (if count_available(all) == 0 { seq![no_available_note(input)] } else { Seq::empty() })
        + (if !json && shown < total { seq![truncation_note((total - shown) as nat, shown, total)] } else { Seq::empty() })
}

proof fn lemma_count_available(rs: Seq<DomainResult>)
    ensures
        (count_available(rs) > 0) <==> exists|i: int| 0 <= i < rs.len() && (#[trigger] rs[i]).available,
    decreases rs.len(),
{
    if rs.len() > 0 {
        let p = rs.drop_last();
        lemma_count_available(p);
        if exists|i: int| 0 <= i < rs.len() && (#[trigger] rs[i]).available {
            let i = choose|i: int| 0 <= i < rs.len() && (#[trigger] rs[i]).available;
            if i < p.len() {
                assert(p[i].available);
            }
        }
        if exists|i: int| 0 <= i < p.len() && (#[trigger] p[i]).available {
            let i = choose|i: int| 0 <= i < p.len() && (#[trigger] p[i]).available;
            assert(rs[i].available);
        }
    }
}

proof fn lemma_dec_digits_first(n: nat)
    ensures
        dec_digits(n).len() >= 1,
        '0' <= dec_digits(n)[0] <= '9',
    decreases n,
{
    if n >= 10 {
        lemma_dec_digits_first(n / 10);
    }
}

/// What a run ends with agrees with what it found: exit code 0 exactly when
/// some checked domain is available, 1 otherwise, and the "no available
/// domains" note is among the notes exactly when none is.
pub proof fn lemma_exit_code_and_note(all: Seq<DomainResult>, input: Seq<char>, show_all: bool, json: bool, limit: Option<usize>)
    ensures
        (if count_available(all) > 0 { 0i32 } else { 1i32 }) == 0
            <==> exists|i: int| 0 <= i < all.len() && (#[trigger] all[i]).available,
        notes_spec(all, input, show_all, json, limit).contains(no_available_note(input))
            <==> count_available(all) == 0,
{
    lemma_count_available(all);
    let notes = notes_spec(all, input, show_all, json, limit);
    let note = no_available_note(input);
    if count_available(all) == 0 {
        assert(notes[0] == note);
    } else if notes.contains(note) {
        let shown = visible_spec(all, show_all, limit).len();
        let total = visible_spec(all, show_all, None).len();
        let i = choose|i: int| 0 <= i < notes.len() && notes[i] == note;
        let t = truncation_note((total - shown) as nat, shown, total);
        assert(notes[i] == t);
        reveal_strlit("note: ");
        reveal_strlit("note: no available domains found for '");
        lemma_dec_digits_first((total - shown) as nat);
        assert(t[6] == dec_digits((total - shown) as nat)[0]);
        assert(note[6] == 'n');
    }
}

fn count_available_results(rs: &[DomainResult]) -> (n: usize)
    ensures
        n == count_available(rs@),
{
    let mut n: usize = 0;
    let mut i: usize = 0;
    while i < rs.len()
        invariant
            i <= rs@.len(),
            n == count_available(rs@.take(i as int)),
            n <= i,
        decreases rs@.len() - i,
    {
        assert(rs@.take(i + 1).drop_last() =~= rs@.take(i as int));
        if rs[i].available {
            n = n + 1;
        }
        i = i + 1;
    }
    assert(rs@.take(rs@.len() as int) =~= rs@);
    n
}

fn truncation_note_text(remaining: usize, shown: usize, total: usize) -> (s: String)
    ensures
        s@ == truncation_note(remaining as nat, shown as nat, total as nat),
{
    let mut s = String::from_str("note: ");
    let a = u64_to_decimal(remaining as u64);
    s.append(a.as_str());
    s.append(" more domains not shown (showing ");
    let b = u64_to_decimal(shown as u64);
    s.append(b.as_str());
    s.append(" of ");
    let c = u64_to_decimal(total as u64);
    s.append(c.as_str());
    s.append("; use --limit 0 to show all)");
    s
}

/// The results of a run in printing order: hacks first, then the regular
/// results, with available pinned TLDs moved to the front when hacks were
/// searched (no TLD prefix was given).
pub open spec fn ordered_results(hacks: Seq<DomainResult>, regular: Seq<DomainResult>, regular_tlds: Seq<Seq<char>>, sld_only: bool) -> Seq<ResultView> {
    result_views(hacks) + if sld_only { promoted(result_views(regular), regular_tlds) } else { result_views(regular) }
}

/// Builds the report of a run from its hack and regular results
/// (`regular_tlds[i]` being the TLD of `regular[i]`): the rows shown, the
/// notes, and exit code 0 when a domain is available, 1 otherwise.
pub fn compose_report(
    input: &str,
    sld_only: bool,
    hacks: Vec<DomainResult>,
    regular: Vec<DomainResult>,
    regular_tlds: &[String],
    show_all: bool,
    json: bool,
    limit: Option<usize>,
    color: ColorWhen,
) -> (r: RunReport)
    requires
        regular@.len() == regular_tlds@.len(),
    ensures
        exists|all: Seq<DomainResult>| {
            &&& result_views(all) == ordered_results(hacks@, regular@, views(regular_tlds@), sld_only)
            &&& json ==> r.stdout@ == lines_text(json_lines(visible_spec(all, show_all, limit), show_all))
            &&& !json ==> exists|use_color: bool| {
                &&& r.stdout@ == lines_text(plain_lines(visible_spec(all, show_all, limit), show_all, use_color))
                &&& color == ColorWhen::Always ==> use_color
                &&& color == ColorWhen::Never ==> !use_color
            }
            &&& r.stderr@.map_values(|l: String| l@) == notes_spec(all, input@, show_all, json, limit)
            &&& r.exit_code == if count_available(all) > 0 { 0i32 } else { 1i32 }
        },
        r.exit_code == 0 || r.exit_code == 1,
        (r.exit_code == 0) <==> exists|i: int| 0 <= i < ordered_results(hacks@, regular@, views(regular_tlds@), sld_only).len()
            && (#[trigger] ordered_results(hacks@, regular@, views(regular_tlds@), sld_only)[i]).available,
        (r.exit_code == 1) <==> r.stderr@.map_values(|l: String| l@).contains(no_available_note(input@)),
{
    let ordered_regular = if sld_only { promote_pinned(regular, regular_tlds) } else { regular };
    let mut all = hacks;
    let ghost hv = result_views(all@);
    let mut tail = ordered_regular;
    let ghost tv = result_views(tail@);
    all.append(&mut tail);
    assert(result_views(all@) =~= hv + tv);
    let available = count_available_results(&all);
    let visible = visible_results(&all, show_all, limit);
    let everything = visible_results(&all, show_all, None);
    let stdout = render(&visible, OutputOptions { json, show_all, color });
    let mut stderr: Vec<String> = Vec::new();
    if available == 0 {
        stderr.push(concat3("note: no available domains found for '", input, "'"));
    }
    let ghost first = stderr@.map_values(|l: String| l@);
    if !json && visible.len() < everything.len() {
        let note = truncation_note_text(everything.len() - visible.len(), visible.len(), everything.len());
        stderr.push(note);
        assert(stderr@.map_values(|l: String| l@) =~= first.push(
            truncation_note((everything.len() - visible.len()) as nat, visible.len() as nat, everything.len() as nat)));
    }
    assert(stderr@.map_values(|l: String| l@) =~= notes_spec(all@, input@, show_all, json, limit));
    proof {
        let ord = ordered_results(hacks@, regular@, views(regular_tlds@), sld_only);
        lemma_exit_code_and_note(all@, input@, show_all, json, limit);
        assert(result_views(all@) == ord);
        assert forall|i: int| 0 <= i < all@.len() implies (#[trigger] all@[i]).available == ord[i].available by {
            assert(ord[i] == all@[i]@);
        }
        if exists|i: int| 0 <= i < ord.len() && (#[trigger] ord[i]).available {
            let i = choose|i: int| 0 <= i < ord.len() && (#[trigger] ord[i]).available;
            assert(all@[i].available);
        }
        if exists|i: int| 0 <= i < all@.len() && (#[trigger] all@[i]).available {
            let i = choose|i: int| 0 <= i < all@.len() && (#[trigger] all@[i]).available;
            assert(ord[i].available);
        }
    }
    RunReport { stdout, stderr, exit_code: if available > 0 { 0 } else { 1 } }
}

} // verus!
