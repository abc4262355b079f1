//! The once-a-day check for a newer release: when a check is due, and what
//! notice a release tag gives.
use vstd::prelude::*;
use vstd::string::*;
use crate::cache::{join_path, path_join};
use crate::error::{AppError, ErrorView, help_err};
use crate::text::{chars_of, concat3, string_from_range};
use crate::tld::{dec_value, is_digit, trim, trim_bounds};

verus! {

broadcast use vstd::string::group_string_axioms;

/// Seconds between two checks: one day.
pub const CHECK_INTERVAL_SECONDS: i64 = 86400;

/// Where the time of the last check is kept, where releases are looked up,
/// and the running version.
#[derive(Debug, Clone)]
pub struct UpdateConfig {
    pub cache_dir: String,
    pub api_url: String,
    pub current_version: String,
}

impl UpdateConfig {
    /// `<cache_dir>/last_update_check`, which holds the time of the last
    /// check in Unix seconds.
    pub fn stamp_path(&self) -> (p: String)
        ensures
            p@ == path_join(self.cache_dir@, "last_update_check"@),
    {
        join_path(self.cache_dir.as_str(), "last_update_check")
    }
}

/// A newer release than the running one.
#[derive(Debug, Clone, PartialEq, Eq)]
pub struct UpdateNotice {
    pub latest_version: String,
    pub current_version: String,
}

/// The lines printed for an update notice.
pub open spec fn notice_lines(latest: Seq<char>, current: Seq<char>) -> Seq<Seq<char>> {
    seq![
        "note: domaingrep v"@ + latest + " is available (current: v"@ + current + ")"@,
        "  -> brew upgrade domaingrep"@,
        "  -> cargo install domaingrep"@,
        "  -> curl -fsSL https://domaingrep.dev/install.sh | sh"@,
    ]
}

impl UpdateNotice {
    /// The notice and the ways to upgrade, one line each.
    pub fn render_lines(&self) -> (r: Vec<String>)
        ensures
            r@.map_values(|l: String| l@) == notice_lines(self.latest_version@, self.current_version@),
    {
        let mut first = concat3("note: domaingrep v", self.latest_version.as_str(), " is available (current: v");
        first.append(self.current_version.as_str());
        first.append(")");
        let r = vec![
            first,
            String::from_str("  -> brew upgrade domaingrep"),
            String::from_str("  -> cargo install domaingrep"),
            String::from_str("  -> curl -fsSL https://domaingrep.dev/install.sh | sh"),
        ];
        assert(r@.map_values(|l: String| l@) =~= notice_lines(self.latest_version@, self.current_version@));
        r
    }
}

// ---------------------------------------------------------------------------
// When to check
// ---------------------------------------------------------------------------

pub open spec fn all_digits(d: Seq<char>) -> bool {
    forall|i: int| 0 <= i < d.len() ==> is_digit(#[trigger] d[i])
}

/// `i64::from_str`: an optional sign, then one or more decimal digits whose
/// value fits in an `i64`.
pub open spec fn parse_i64_spec(s: Seq<char>) -> Option<int> {
    if s.len() > 0 && s[0] == '-' {
        let d = s.drop_first();
        if d.len() > 0 && all_digits(d) && dec_value(d) <= 0x8000_0000_0000_0000 { Some(-(dec_value(d) as int)) } else { None }
    } else {
        let d = if s.len() > 0 && s[0] == '+' { s.drop_first() } else { s };
        if d.len() > 0 && all_digits(d) && dec_value(d) <= 0x7fff_ffff_ffff_ffff { Some(dec_value(d) as int) } else { None }
    }
}

proof fn lemma_dec_value_prefix(d: Seq<char>, k: int)
    requires
        0 <= k <= d.len(),
        all_digits(d),
    ensures
        dec_value(d.take(k)) <= dec_value(d),
    decreases d.len() - k,
{
    if k < d.len() {
        lemma_dec_value_prefix(d, k + 1);
        assert(d.take(k + 1).drop_last() =~= d.take(k));
    } else {
        assert(d.take(k) =~= d);
    }
}

/// The value of the digits `s[start..]` when they are all digits, at least
/// one, and the value is at most `limit`.
pub(crate) fn parse_digits(s: &[char], start: usize, limit: u64) -> (r: Option<u64>)
    requires
        start <= s@.len(),
    ensures
        ({
            let d = s@.skip(start as int);
            match r {
                Some(v) => d.len() > 0 && all_digits(d) && dec_value(d) <= limit && v == dec_value(d),
                None => !(d.len() > 0 && all_digits(d) && dec_value(d) <= limit),
            }
        }),
{
    let ghost d = s@.skip(start as int);
    if start >= s.len() {
        return None;
    }
    let mut k: usize = start;
    while k < s.len()
        invariant
            start <= k <= s@.len(),
            d == s@.skip(start as int),
            forall|j: int| 0 <= j < k - start ==> is_digit(#[trigger] d[j]),
        decreases s@.len() - k,
    {
        if !('0' <= s[k] && s[k] <= '9') {
            assert(!is_digit(d[k - start]));
            return None;
        }
        k = k + 1;
    }
    let mut v: u64 = 0;
    let mut i: usize = start;
    while i < s.len()
        invariant
            start <= i <= s@.len(),
            d == s@.skip(start as int),
            all_digits(d),
            v as nat == dec_value(d.take(i - start)),
            v <= limit,
        decreases s@.len() - i,
    {
        assert(s[i as int] == d[i - start]);
        assert(is_digit(d[i - start]));
        let digit: u64 = (s[i] as u32 - '0' as u32) as u64;
        assert(d.take(i - start + 1).drop_last() =~= d.take(i - start));
        if digit > limit || v > (limit - digit) / 10 {
            proof {
                lemma_dec_value_prefix(d, i - start + 1);
                if digit <= limit {
                    assert(v * 10 + digit > limit) by (nonlinear_arith)
                        requires v > (limit - digit) / 10, digit <= limit;
                }
            }
            return None;
        }
        assert(v * 10 + digit <= limit) by (nonlinear_arith)
            requires v <= (limit - digit) / 10, digit <= limit;
        v = v * 10 + digit;
        i = i + 1;
    }
    assert(d.take(d.len() as int) =~= d);
    Some(v)
}

/// Parses an `i64` the way `str::parse::<i64>` does.
pub fn parse_i64(s: &[char]) -> (r: Option<i64>)
    ensures
        match r {
            Some(v) => parse_i64_spec(s@) == Some(v as int),
            None => parse_i64_spec(s@) is None,
        },
{
    if s.len() > 0 && s[0] == '-' {
        assert(s@.skip(1) =~= s@.drop_first());
        match parse_digits(s, 1, 0x8000_0000_0000_0000) {
            Some(m) => {
                if m == 0x8000_0000_0000_0000 {
                    Some(i64::MIN)
                } else {
                    Some(-(m as i64))
                }
            },
            None => None,
        }
    } else {
        let start: usize = if s.len() > 0 && s[0] == '+' { 1 } else { 0 };
        assert(s@.skip(1) =~= s@.drop_first());
        assert(s@.skip(0) =~= s@);
        match parse_digits(s, start, 0x7fff_ffff_ffff_ffff) {
            Some(m) => Some(m as i64),
            None => None,
        }
    }
}

/// Whether a check is due at `now` (seconds since the epoch), given the
/// contents of the last-check file if it could be read: yes without a
/// readable timestamp, else when a day has passed since it.
pub open spec fn check_due_spec(contents: Option<Seq<char>>, now: i64) -> bool {
    match contents {
        None => true,
        Some(c) => match parse_i64_spec(trim(c)) {
            None => true,
            Some(t) => now - t >= CHECK_INTERVAL_SECONDS,
        },
    }
}

/// Decides whether the update check is due.
pub fn check_due(contents: Option<&str>, now: i64) -> (b: bool)
    ensures
        b == check_due_spec(match contents { Some(c) => Some(c@), None => None }, now),
{
    let text = match contents {
        Some(c) => c,
        None => { return true; },
    };
    let s = chars_of(text);
    let (a, b) = trim_bounds(&s, 0, s.len());
    assert(s@.subrange(0, s@.len() as int) =~= s@);
    let t = &s.as_slice()[a..b];
    assert(t@ =~= s@.subrange(a as int, b as int));
    match parse_i64(t) {
        None => true,
        Some(ts) => (now as i128) - (ts as i128) >= CHECK_INTERVAL_SECONDS as i128,
    }
}

// ---------------------------------------------------------------------------
// Versions
// ---------------------------------------------------------------------------

/// The canonical form (`major.minor.patch[-pre][+build]`) of a semantic
/// version written as `text`, or `None` when `text` is not one.
pub uninterp spec fn semver_display(text: Seq<char>) -> Option<Seq<char>>;

/// Whether the semantic version `a` is ordered after `b`.
pub uninterp spec fn semver_after(a: Seq<char>, b: Seq<char>) -> bool;

/// `semver::Version::parse`, then `to_string`: the canonical form of the
/// version, or `None` when the text is not a semantic version.
#[verifier::external_body]
fn semver_canonical(text: &str) -> (r: Option<String>)
    ensures
        match r {
            Some(s) => semver_display(text@) == Some(s@),
            None => semver_display(text@) is None,
        },
{
    match semver::Version::parse(text) {
        Ok(v) => Some(v.to_string()),
        Err(_) => None,
    }
}

/// `semver::Version::parse` of both texts and `>` (the order of `Version`,
/// build metadata included).
#[verifier::external_body]
fn semver_greater(a: &str, b: &str) -> (r: bool)
    requires
        semver_display(a@) is Some,
        semver_display(b@) is Some,
    ensures
        r == semver_after(a@, b@),
{
    match (semver::Version::parse(a), semver::Version::parse(b)) {
        (Ok(x), Ok(y)) => x > y,
        _ => false,
    }
}

/// `s` without its leading `v`s.
pub open spec fn strip_v(s: Seq<char>) -> Seq<char>
    decreases s.len(),
{
    if s.len() > 0 && s[0] == 'v' { strip_v(s.drop_first()) } else { s }
}

pub open spec fn invalid_version_err(input: Seq<char>) -> ErrorView {
    help_err("invalid release version '"@ + input + "'"@, "expected a semantic version like v0.3.0"@)
}

fn strip_v_start(s: &[char]) -> (k: usize)
    ensures
        k <= s@.len(),
        s@.skip(k as int) == strip_v(s@),
{
    let mut k: usize = 0;
    assert(s@.skip(0) =~= s@);
    while k < s.len() && s[k] == 'v'
        invariant
            k <= s@.len(),
            strip_v(s@) == strip_v(s@.skip(k as int)),
        decreases s@.len() - k,
    {
        assert(s@.skip(k as int).drop_first() =~= s@.skip(k + 1));
        k = k + 1;
    }
    k
}

/// The version text after its leading `v`s, checked to be a semantic
/// version; its canonical form is returned with it.
fn parse_version(input: &str) -> (r: Result<(String, String), AppError>)
    ensures
        match r {
            Ok((stripped, canonical)) => stripped@ == strip_v(input@)
                && semver_display(strip_v(input@)) == Some(canonical@),
            Err(e) => semver_display(strip_v(input@)) is None && e@ == invalid_version_err(input@),
        },
{
    let s = chars_of(input);
    let k = strip_v_start(&s);
    let stripped = string_from_range(&s, k, s.len());
    assert(s@.subrange(k as int, s@.len() as int) =~= s@.skip(k as int));
    match semver_canonical(stripped.as_str()) {
        Some(c) => Ok((stripped, c)),
        None => {
            let m = concat3("invalid release version '", input, "'");
            Err(AppError::new(m.as_str()).with_help("expected a semantic version like v0.3.0"))
        },
    }
}

/// What the latest release tag means for the running version: a notice
/// when it is newer, nothing when it is not, and an error when either is
/// not a semantic version (after leading `v`s; the tag is trimmed first).
pub open spec fn notice_spec(current: Seq<char>, tag: Seq<char>) -> Result<Option<(Seq<char>, Seq<char>)>, ErrorView> {
    let latest = trim(tag);
    match semver_display(strip_v(current)) {
        None => Err(invalid_version_err(current)),
        Some(c) => match semver_display(strip_v(latest)) {
            None => Err(invalid_version_err(latest)),
            Some(l) => if semver_after(strip_v(latest), strip_v(current)) { Ok(Some((l, c))) } else { Ok(None) },
        },
    }
}

/// Compares the latest release tag with the running version.
pub fn update_notice_for(current_version: &str, latest_tag: &str) -> (r: Result<Option<UpdateNotice>, AppError>)
    ensures
        match r {
            Ok(Some(n)) => notice_spec(current_version@, latest_tag@) == Ok::<Option<(Seq<char>, Seq<char>)>, ErrorView>(
                Some((n.latest_version@, n.current_version@))),
            Ok(None) => notice_spec(current_version@, latest_tag@) == Ok::<Option<(Seq<char>, Seq<char>)>, ErrorView>(None),
            Err(e) => notice_spec(current_version@, latest_tag@) == Err::<Option<(Seq<char>, Seq<char>)>, ErrorView>(e@),
        },
{
    let (current_text, current) = match parse_version(current_version) {
        Ok(p) => p,
        Err(e) => { return Err(e); },
    };
    let t = chars_of(latest_tag);
    let (a, b) = trim_bounds(&t, 0, t.len());
    assert(t@.subrange(0, t@.len() as int) =~= t@);
    let trimmed = string_from_range(&t, a, b);
    let (latest_text, latest) = match parse_version(trimmed.as_str()) {
        Ok(p) => p,
        Err(e) => { return Err(e); },
    };
    if semver_greater(latest_text.as_str(), current_text.as_str()) {
        Ok(Some(UpdateNotice { latest_version: latest, current_version: current }))
    } else {
        Ok(None)
    }
}

} // verus!
