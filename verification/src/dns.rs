//! DNS-over-HTTPS answers: what a status means, when a lookup has its
//! answer, and the summary of a batch.
use vstd::prelude::*;
use vstd::string::*;
use crate::text::{concat2, u64_to_decimal, dec_digits};

verus! {

broadcast use vstd::string::group_string_axioms;

/// Lookups run at once by default.
pub const DEFAULT_CONCURRENCY: usize = 100;

/// The DNS status and the number of answers of one DoH response.
#[derive(Debug, Clone, PartialEq, Eq, Structural)]
pub struct DnsStatus {
    pub status: u16,
    pub answer_count: usize,
}

/// Why a lookup has no answer.
#[derive(Debug, Clone, PartialEq, Eq)]
pub enum DnsQueryError {
    Network(String),
}

/// The outcome of one domain of a batch.
#[derive(Debug)]
pub struct DnsBatchEntry {
    pub domain: String,
    pub available: Result<bool, DnsQueryError>,
}

/// The outcomes of a batch, in the order of the domains, with the number
/// of lookups that failed.
#[derive(Debug)]
pub struct DnsBatchResult {
    pub results: Vec<DnsBatchEntry>,
    pub failures: usize,
    pub total: usize,
}

impl DnsQueryError {
    /// A copy of the error.
    pub fn duplicate(&self) -> (e: DnsQueryError)
        ensures
            e == *self,
    {
        match self {
            DnsQueryError::Network(s) => DnsQueryError::Network(s.clone()),
        }
    }

    /// The message of the error.
    pub fn message(&self) -> (m: &str)
        ensures
            match self {
                DnsQueryError::Network(s) => m@ == s@,
            },
    {
        match self {
            DnsQueryError::Network(s) => s.as_str(),
        }
    }
}

/// A status that settles a lookup: `NOERROR` (0) or `NXDOMAIN` (3).
pub fn is_definitive_status(status: u16) -> (b: bool)
    ensures
        b == (status == 0 || status == 3),
{
    status == 0 || status == 3
}

/// A domain is available when its status is `NXDOMAIN`.
pub fn is_available_status(status: &DnsStatus) -> (b: bool)
    ensures
        b == (status.status == 3),
{
    status.status == 3
}

/// Whether the first of two racing requests settles the lookup: it does
/// when it answered with a settling status; otherwise the other one is
/// awaited.
pub fn race_settles(first: &Result<DnsStatus, DnsQueryError>) -> (b: bool)
    ensures
        b == match first {
            Ok(s) => s.status == 0 || s.status == 3,
            Err(_) => false,
        },
{
    match first {
        Ok(s) => is_definitive_status(s.status),
        Err(_) => false,
    }
}

/// The error for a response with HTTP status `code`: 429 means the provider
/// limits the rate; any other status than a success is unexpected.
pub fn http_status_error(code: u16) -> (e: DnsQueryError)
    ensures
        match e {
            DnsQueryError::Network(m) => m@ == if code == 429 {
                "HTTP 429 rate limited"@
            } else {
                "unexpected HTTP status "@ + dec_digits(code as nat)
            },
        },
{
    if code == 429 {
        DnsQueryError::Network(String::from_str("HTTP 429 rate limited"))
    } else {
        let digits = u64_to_decimal(code as u64);
        DnsQueryError::Network(concat2("unexpected HTTP status ", digits.as_str()))
    }
}

/// The number of failed lookups.
pub open spec fn count_failed(rs: Seq<Result<bool, DnsQueryError>>) -> nat
    decreases rs.len(),
{
    if rs.len() == 0 { 0 } else { count_failed(rs.drop_last()) + if rs.last() is Err { 1nat } else { 0nat } }
}

/// The summary of a batch: each domain with its outcome, in order, and the
/// number of failures.
pub fn batch_result(domains: Vec<String>, outcomes: Vec<Result<bool, DnsQueryError>>) -> (b: DnsBatchResult)
    requires
        outcomes@.len() == domains@.len(),
    ensures
        b.total == domains@.len(),
        b.failures == count_failed(outcomes@),
        b.results@.len() == domains@.len(),
        forall|i: int| 0 <= i < b.results@.len() ==> (#[trigger] b.results@[i]).domain == domains@[i]
            && b.results@[i].available == outcomes@[i],
{
    let total = domains.len();
    let mut results: Vec<DnsBatchEntry> = Vec::new();
    let mut failures: usize = 0;
    let mut ds = domains;
    let mut os = outcomes;
    let ghost dv = ds@;
    let ghost ov = os@;
    let mut i: usize = 0;
    while i < total
        invariant
            total == dv.len(),
            ov.len() == dv.len(),
            i <= total,
            results@.len() == i,
            failures == count_failed(ov.take(i as int)),
            failures <= i,
            ds@ == dv,
            os@ == ov,
            forall|k: int| 0 <= k < i ==> (#[trigger] results@[k]).domain == dv[k] && results@[k].available == ov[k],
        decreases total - i,
    {
        assert(ov.take(i + 1).drop_last() =~= ov.take(i as int));
        let outcome = match &os[i] {
            Ok(b) => Ok(*b),
            Err(e) => Err(e.duplicate()),
        };
        if outcome.is_err() {
            failures = failures + 1;
        }
        results.push(DnsBatchEntry { domain: ds[i].clone(), available: outcome });
        i = i + 1;
    }
    assert(ov.take(total as int) =~= ov);
    DnsBatchResult { results, failures, total }
}

} // verus!
