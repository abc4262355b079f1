//! TLD lists: length ranges, filtering, ordering, pinning, grouping, and the
//! parsing of the IANA TLD list.
use vstd::prelude::*;
use vstd::string::*;
use vstd::utf8::encode_utf8;
use crate::error::{AppError, ErrorView, invalid_tld_len_err, help_err};
use crate::text::{chars_eq, chars_of, chars_start_with, concat2, concat3, hex_digit, lower_chars, lower_seq, push_char, string_from_chars, string_from_range, is_ws, is_whitespace};
use crate::resolve::{ResolveResponse, RCODE_NOERROR, RCODE_NXDOMAIN};

verus! {

broadcast use vstd::string::group_string_axioms;

// ---------------------------------------------------------------------------
// Decimal numbers
// ---------------------------------------------------------------------------

pub open spec fn is_digit(c: char) -> bool {
    '0' <= c && c <= '9'
}

/// The value of a string of decimal digits.
pub open spec fn dec_value(d: Seq<char>) -> nat
    decreases d.len(),
{
    if d.len() == 0 {
        0
    } else {
        dec_value(d.drop_last()) * 10 + (d.last() as nat - '0' as nat) as nat
    }
}

/// The digits of a number: the text after a leading `+`, if any.
pub open spec fn digits_part(s: Seq<char>) -> Seq<char> {
    if s.len() > 1 && s[0] == '+' { s.drop_first() } else { s }
}

/// `usize::from_str`: an optional `+`, then one or more decimal digits whose
/// value fits in a `usize`.
pub open spec fn parse_usize_spec(s: Seq<char>) -> Option<nat> {
    let d = digits_part(s);
    if d.len() == 0 || !(forall|i: int| 0 <= i < d.len() ==> is_digit(#[trigger] d[i])) {
        None
    } else if dec_value(d) > usize::MAX {
        None
    } else {
        Some(dec_value(d))
    }
}

proof fn lemma_dec_value_grows(d: Seq<char>, k: int)
    requires
        0 <= k <= d.len(),
        forall|i: int| 0 <= i < d.len() ==> is_digit(#[trigger] d[i]),
    ensures
        dec_value(d.take(k)) <= dec_value(d),
    decreases d.len() - k,
{
    if k < d.len() {
        lemma_dec_value_grows(d, k + 1);
        assert(d.take(k + 1).drop_last() =~= d.take(k));
    } else {
        assert(d.take(k) =~= d);
    }
}

/// Parses a `usize` the way `str::parse::<usize>` does.
pub fn parse_usize(s: &[char]) -> (r: Option<usize>)
    ensures
        match r {
            Some(v) => parse_usize_spec(s@) == Some(v as nat),
            None => parse_usize_spec(s@) is None,
        },
{
    let start: usize = if s.len() > 1 && s[0] == '+' { 1 } else { 0 };
    let ghost d = digits_part(s@);
    assert(d =~= s@.skip(start as int));
    if start >= s.len() {
        return None;
    }
    let mut i: usize = start;
    while i < s.len()
        invariant
            start <= i <= s@.len(),
            d =~= s@.skip(start as int),
            d == digits_part(s@),
            forall|j: int| start <= j < i ==> is_digit(#[trigger] s@[j]),
        decreases s@.len() - i,
    {
        if !('0' <= s[i] && s[i] <= '9') {
            assert(!is_digit(d[i - start]));
            assert(0 <= i - start < d.len());
            assert(!(forall|j: int| 0 <= j < d.len() ==> is_digit(#[trigger] d[j])));
            assert(parse_usize_spec(s@) is None);
            return None;
        }
        i = i + 1;
    }
    assert(forall|j: int| 0 <= j < d.len() ==> is_digit(#[trigger] d[j])) by {
        assert forall|j: int| 0 <= j < d.len() implies is_digit(#[trigger] d[j]) by {
            assert(d[j] == s@[start + j]);
        }
    }
    let mut v: usize = 0;
    let mut k: usize = start;
    while k < s.len()
        invariant
            start <= k <= s@.len(),
            d =~= s@.skip(start as int),
            d == digits_part(s@),
            forall|j: int| 0 <= j < d.len() ==> is_digit(#[trigger] d[j]),
            v as nat == dec_value(d.take(k - start)),
        decreases s@.len() - k,
    {
        let c = s[k];
        assert(c == d[k - start]);
        let digit = (c as u32 - '0' as u32) as usize;
        assert(d.take(k - start + 1).drop_last() =~= d.take(k - start));
        if v > (usize::MAX - digit) / 10 {
            proof {
                lemma_dec_value_grows(d, k - start + 1);
                assert(dec_value(d.take(k - start + 1)) == v * 10 + digit);
                assert(v * 10 + digit > usize::MAX) by (nonlinear_arith)
                    requires v > (usize::MAX - digit) / 10, digit < 10;
            }
            return None;
        }
        assert(v * 10 + digit <= usize::MAX) by (nonlinear_arith)
            requires v <= (usize::MAX - digit) / 10, digit < 10;
        v = v * 10 + digit;
        k = k + 1;
    }
    assert(d.take(d.len() as int) =~= d);
    Some(v)
}

// ---------------------------------------------------------------------------
// Length ranges
// ---------------------------------------------------------------------------

/// An inclusive range of TLD lengths; `max == None` means unbounded.
#[derive(Debug, Clone, Copy, PartialEq, Eq, Structural)]
pub struct TldLenRange {
    pub min: usize,
    pub max: Option<usize>,
}

/// A positive integer, or the `--tld-len` error for `s`.
pub open spec fn positive_spec(s: Seq<char>, input: Seq<char>) -> Result<usize, ErrorView> {
    match parse_usize_spec(s) {
        Some(v) => if v == 0 { Err(invalid_tld_len_err(s)) } else { Ok(v as usize) },
        None => Err(invalid_tld_len_err(s)),
    }
}

/// Index of the first `..` in `s` at or after `i`, or `s.len()`.
pub open spec fn find_range_dots(s: Seq<char>, i: int) -> int
    decreases s.len() - i,
{
    if i + 1 >= s.len() {
        s.len() as int
    } else if s[i] == '.' && s[i + 1] == '.' {
        i
    } else {
        find_range_dots(s, i + 1)
    }
}

/// The range that a `--tld-len` argument denotes (`2`, `2..5`, `..3`,
/// `4..`), or the error reported for it.
pub open spec fn tld_len_range_spec(s: Seq<char>) -> Result<TldLenRange, ErrorView> {
    let k = find_range_dots(s, 0);
    if k < s.len() {
        let left = s.subrange(0, k);
        let right = s.subrange(k + 2, s.len() as int);
        let min = if left.len() == 0 { Ok(1usize) } else { positive_spec(left, s) };
        match min {
            Err(e) => Err(e),
            Ok(min) => {
                let max = if right.len() == 0 { Ok(None) } else {
                    match positive_spec(right, s) { Ok(v) => Ok(Some(v)), Err(e) => Err(e) }
                };
                match max {
                    Err(e) => Err(e),
                    Ok(max) => match max {
                        Some(m) => if min > m { Err(invalid_tld_len_err(s)) } else { Ok(TldLenRange { min, max }) },
                        None => Ok(TldLenRange { min, max }),
                    },
                }
            },
        }
    } else {
        match positive_spec(s, s) {
            Ok(v) => Ok(TldLenRange { min: v, max: Some(v) }),
            Err(e) => Err(e),
        }
    }
}

fn parse_positive(s: &[char]) -> (r: Result<usize, AppError>)
    ensures
        match r {
            Ok(v) => positive_spec(s@, s@) == Ok::<usize, ErrorView>(v),
            Err(e) => positive_spec(s@, s@) == Err::<usize, ErrorView>(e@),
        },
{
    match parse_usize(s) {
        Some(v) => {
            if v == 0 {
                let t = string_from_chars(s);
                Err(AppError::invalid_tld_len(t.as_str()))
            } else {
                Ok(v)
            }
        },
        None => {
            let t = string_from_chars(s);
            Err(AppError::invalid_tld_len(t.as_str()))
        },
    }
}

impl TldLenRange {
    /// Parses a `--tld-len` argument: `N`, `A..B`, `..B` or `A..`, with
    /// positive bounds and `A <= B`.
    pub fn parse(input: &str) -> (r: Result<Self, AppError>)
        ensures
            match r {
                Ok(v) => tld_len_range_spec(input@) == Ok::<TldLenRange, ErrorView>(v),
                Err(e) => tld_len_range_spec(input@) == Err::<TldLenRange, ErrorView>(e@),
            },
    {
        let s = chars_of(input);
        let n = s.len();
        let mut k: usize = 0;
        while n > 0 && k < n - 1 && !(s[k] == '.' && s[k + 1] == '.')
            invariant
                n == s@.len(),
                k <= n,
                find_range_dots(s@, 0) == find_range_dots(s@, k as int),
            decreases n - k,
        {
            k = k + 1;
        }
        if n > 0 && k < n - 1 {
            let left = &s.as_slice()[0..k];
            let right = &s.as_slice()[k + 2..n];
            assert(left@ =~= s@.subrange(0, k as int));
            assert(right@ =~= s@.subrange(k + 2, n as int));
            let min = if left.len() == 0 {
                1
            } else {
                match parse_positive(left) {
                    Ok(v) => v,
                    Err(e) => { return Err(e); },
                }
            };
            let max = if right.len() == 0 {
                None
            } else {
                match parse_positive(right) {
                    Ok(v) => Some(v),
                    Err(e) => { return Err(e); },
                }
            };
            match max {
                Some(m) => {
                    if min > m {
                        return Err(AppError::invalid_tld_len(input));
                    }
                },
                None => {},
            }
            Ok(TldLenRange { min, max })
        } else {
            let exact = match parse_positive(&s) {
                Ok(v) => v,
                Err(e) => { return Err(e); },
            };
            Ok(TldLenRange { min: exact, max: Some(exact) })
        }
    }

    pub open spec fn contains_spec(&self, len: int) -> bool {
        len >= self.min && match self.max {
            Some(m) => len <= m,
            None => true,
        }
    }

    /// Whether `len` lies in the range.
    pub fn contains(&self, len: usize) -> (b: bool)
        ensures
            b == self.contains_spec(len as int),
    {
        if len < self.min {
            return false;
        }
        match self.max {
            Some(max) => len <= max,
            None => true,
        }
    }
}


// ---------------------------------------------------------------------------
// Popularity and pinning tables
// ---------------------------------------------------------------------------

/// TLDs in order of popularity: a lower position sorts first among TLDs of
/// the same length.
pub open spec fn popularity_table() -> Seq<Seq<char>> {
    seq![
        "com"@, "net"@, "org"@, "io"@, "ai"@, "co"@, "app"@, "dev"@, "me"@, "sh"@,
        "xyz"@, "info"@, "biz"@, "tech"@, "online"@, "site"@, "store"@, "shop"@, "us"@, "uk"@,
        "de"@, "ca"@, "so"@, "to"@, "gg"@, "tv"@, "cc"@, "ly"@, "fm"@, "club"@,
        "blog"@, "cloud"@, "design"@, "studio"@, "space"@, "website"@, "live"@, "pro"@, "art"@,
    ]
}

/// TLDs whose available results are listed first, in this order.
pub open spec fn pinned_table() -> Seq<Seq<char>> {
    seq!["com"@, "net"@, "org"@, "io"@, "ai"@, "co"@, "app"@, "me"@, "sh"@, "dev"@, "xyz"@, "shop"@]
}

fn popularity_entries() -> (v: Vec<&'static str>)
    ensures
        v@.map_values(|e: &str| e@) == popularity_table(),
{
    let v = vec![
        "com", "net", "org", "io", "ai", "co", "app", "dev", "me", "sh",
        "xyz", "info", "biz", "tech", "online", "site", "store", "shop", "us", "uk",
        "de", "ca", "so", "to", "gg", "tv", "cc", "ly", "fm", "club",
        "blog", "cloud", "design", "studio", "space", "website", "live", "pro", "art",
    ];
    assert(v@.map_values(|e: &str| e@) =~= popularity_table());
    v
}

fn pinned_entries() -> (v: Vec<&'static str>)
    ensures
        v@.map_values(|e: &str| e@) == pinned_table(),
{
    let v = vec!["com", "net", "org", "io", "ai", "co", "app", "me", "sh", "dev", "xyz", "shop"];
    assert(v@.map_values(|e: &str| e@) =~= pinned_table());
    v
}

/// The first position at or after `i` where `x` occurs in `t`.
pub open spec fn position_from(t: Seq<Seq<char>>, x: Seq<char>, i: int) -> Option<int>
    decreases t.len() - i,
{
    if i < 0 || i >= t.len() {
        None
    } else if t[i] == x {
        Some(i)
    } else {
        position_from(t, x, i + 1)
    }
}

/// The first position of `x` in `t`.
pub open spec fn position_of(t: Seq<Seq<char>>, x: Seq<char>) -> Option<int> {
    position_from(t, x, 0)
}

fn find_entry(table: &Vec<&'static str>, x: &[char]) -> (r: Option<usize>)
    ensures
        match r {
            Some(i) => position_of(table@.map_values(|e: &str| e@), x@) == Some(i as int),
            None => position_of(table@.map_values(|e: &str| e@), x@) is None,
        },
{
    let ghost t = table@.map_values(|e: &str| e@);
    let mut i: usize = 0;
    while i < table.len()
        invariant
            i <= table@.len(),
            t == table@.map_values(|e: &str| e@),
            position_of(t, x@) == position_from(t, x@, i as int),
        decreases table@.len() - i,
    {
        let entry = chars_of(table[i]);
        if chars_eq(&entry, x) {
            return Some(i);
        }
        i = i + 1;
    }
    None
}

/// The position of `tld` in the popularity table.
pub fn popularity_index(tld: &str) -> (r: Option<usize>)
    ensures
        match r {
            Some(i) => position_of(popularity_table(), tld@) == Some(i as int),
            None => position_of(popularity_table(), tld@) is None,
        },
{
    let table = popularity_entries();
    let x = chars_of(tld);
    find_entry(&table, &x)
}

/// The position of `tld` among the pinned TLDs.
pub fn pinned_index(tld: &str) -> (r: Option<usize>)
    ensures
        match r {
            Some(i) => position_of(pinned_table(), tld@) == Some(i as int),
            None => position_of(pinned_table(), tld@) is None,
        },
{
    let table = pinned_entries();
    let x = chars_of(tld);
    find_entry(&table, &x)
}

/// Whether `tld` is one of the pinned TLDs.
pub fn is_pinned(tld: &str) -> (b: bool)
    ensures
        b == (position_of(pinned_table(), tld@) is Some),
{
    pinned_index(tld).is_some()
}


// ---------------------------------------------------------------------------
// Ordering
// ---------------------------------------------------------------------------

/// Length of a TLD in UTF-8 bytes.
pub open spec fn byte_len(t: Seq<char>) -> nat {
    encode_utf8(t).len()
}

/// Popularity rank: the position in the popularity table, or the table's
/// length (after every ranked TLD) for a TLD that is not in it.
pub open spec fn rank_code(t: Seq<char>) -> nat {
    match position_of(popularity_table(), t) {
        Some(i) => i as nat,
        None => popularity_table().len(),
    }
}

/// Strict lexicographic order by code point (the order of `str::cmp`,
/// since UTF-8 keeps code point order).
pub open spec fn chars_lt(a: Seq<char>, b: Seq<char>) -> bool
    decreases a.len(),
{
    if a.len() == 0 {
        b.len() > 0
    } else if b.len() == 0 {
        false
    } else if a[0] != b[0] {
        a[0] < b[0]
    } else {
        chars_lt(a.drop_first(), b.drop_first())
    }
}

/// Lexicographic order by the first difference: when two strings agree
/// before position `i` and differ at it, the one with the smaller
/// character there comes first.
pub proof fn lemma_chars_lt_first_difference(a: Seq<char>, b: Seq<char>, i: int)
    requires
        0 <= i < a.len(),
        i < b.len(),
        a[i] != b[i],
        forall|j: int| 0 <= j < i ==> a[j] == b[j],
    ensures
        chars_lt(a, b) <==> a[i] < b[i],
    decreases i,
{
    if i > 0 {
        assert(a[0] == b[0]);
        lemma_chars_lt_first_difference(a.drop_first(), b.drop_first(), i - 1);
    }
}

/// A proper prefix comes before every longer string that extends it.
pub proof fn lemma_chars_lt_prefix(a: Seq<char>, b: Seq<char>)
    requires
        a.len() < b.len(),
        forall|j: int| 0 <= j < a.len() ==> a[j] == b[j],
    ensures
        chars_lt(a, b),
        !chars_lt(b, a),
    decreases a.len(),
{
    if a.len() > 0 {
        assert(a[0] == b[0]);
        lemma_chars_lt_prefix(a.drop_first(), b.drop_first());
    }
}

/// The TLD order: shorter first, then more popular first, then
/// alphabetically.
pub open spec fn tld_lt(a: Seq<char>, b: Seq<char>) -> bool {
    ||| byte_len(a) < byte_len(b)
    ||| byte_len(a) == byte_len(b) && rank_code(a) < rank_code(b)
    ||| byte_len(a) == byte_len(b) && rank_code(a) == rank_code(b) && chars_lt(a, b)
}

/// Between two TLDs of the same length and the same popularity rank, the
/// order is alphabetical: the one with the smaller character at the first
/// position where they differ comes first.
pub proof fn lemma_tld_ties_alphabetical(a: Seq<char>, b: Seq<char>, i: int)
    requires
        byte_len(a) == byte_len(b),
        rank_code(a) == rank_code(b),
        0 <= i < a.len(),
        i < b.len(),
        a[i] != b[i],
        forall|j: int| 0 <= j < i ==> a[j] == b[j],
    ensures
        tld_lt(a, b) <==> a[i] < b[i],
        tld_lt(b, a) <==> b[i] < a[i],
{
    lemma_chars_lt_first_difference(a, b, i);
    lemma_chars_lt_first_difference(b, a, i);
}

pub open spec fn tld_le(a: Seq<char>, b: Seq<char>) -> bool {
    !tld_lt(b, a)
}

/// Every TLD comes no later than the ones after it.
pub open spec fn tlds_sorted(s: Seq<Seq<char>>) -> bool {
    forall|i: int, j: int| 0 <= i < j < s.len() ==> tld_le(#[trigger] s[i], #[trigger] s[j])
}

/// The text of each string.
pub open spec fn views(s: Seq<String>) -> Seq<Seq<char>> {
    s.map_values(|x: String| x@)
}

pub proof fn lemma_chars_lt_transitive(a: Seq<char>, b: Seq<char>, c: Seq<char>)
    requires
        chars_lt(a, b),
        chars_lt(b, c),
    ensures
        chars_lt(a, c),
    decreases a.len(),
{
    if a.len() > 0 && b.len() > 0 && c.len() > 0 && a[0] == b[0] && b[0] == c[0] {
        lemma_chars_lt_transitive(a.drop_first(), b.drop_first(), c.drop_first());
    }
}

pub proof fn lemma_chars_lt_irreflexive(a: Seq<char>)
    ensures
        !chars_lt(a, a),
    decreases a.len(),
{
    if a.len() > 0 {
        lemma_chars_lt_irreflexive(a.drop_first());
    }
}

pub proof fn lemma_chars_lt_total(a: Seq<char>, b: Seq<char>)
    ensures
        a == b || chars_lt(a, b) || chars_lt(b, a),
    decreases a.len(),
{
    if a.len() > 0 && b.len() > 0 && a[0] == b[0] {
        lemma_chars_lt_total(a.drop_first(), b.drop_first());
        if a.drop_first() == b.drop_first() {
            assert(a =~= seq![a[0]] + a.drop_first());
            assert(b =~= seq![b[0]] + b.drop_first());
        }
    } else if a.len() == 0 && b.len() == 0 {
        assert(a =~= b);
    }
}

/// The TLD order is transitive.
pub proof fn lemma_tld_lt_transitive(a: Seq<char>, b: Seq<char>, c: Seq<char>)
    requires
        tld_lt(a, b),
        tld_lt(b, c),
    ensures
        tld_lt(a, c),
{
    if byte_len(a) == byte_len(b) && byte_len(b) == byte_len(c) && rank_code(a) == rank_code(b)
        && rank_code(b) == rank_code(c) {
        lemma_chars_lt_transitive(a, b, c);
    }
}

/// The TLD order is irreflexive and total: two different TLDs are always
/// ordered one way or the other.
pub proof fn lemma_tld_lt_strict_total(a: Seq<char>, b: Seq<char>)
    ensures
        !tld_lt(a, a),
        a != b ==> (tld_lt(a, b) || tld_lt(b, a)),
        !(tld_lt(a, b) && tld_lt(b, a)),
{
    lemma_chars_lt_irreflexive(a);
    lemma_chars_lt_total(a, b);
    if tld_lt(a, b) && tld_lt(b, a) {
        lemma_tld_lt_transitive(a, b, a);
    }
}

struct SortKey {
    len: usize,
    rank: usize,
    chars: Vec<char>,
}

spec fn key_ok(k: SortKey) -> bool {
    k.len == byte_len(k.chars@) && k.rank == rank_code(k.chars@)
}

fn sort_key(t: &str) -> (k: SortKey)
    ensures
        key_ok(k),
        k.chars@ == t@,
{
    let len = t.as_bytes().len();
    let rank = match popularity_index(t) {
        Some(i) => i,
        None => 39,
    };
    proof {
        reveal_with_fuel(position_from, 2);
        assert(popularity_table().len() == 39);
    }
    SortKey { len, rank, chars: chars_of(t) }
}

fn chars_less(a: &[char], b: &[char]) -> (r: bool)
    ensures
        r == chars_lt(a@, b@),
{
    let mut i: usize = 0;
    assert(a@.skip(0) =~= a@);
    assert(b@.skip(0) =~= b@);
    while i < a.len() && i < b.len()
        invariant
            i <= a@.len(),
            i <= b@.len(),
            chars_lt(a@, b@) == chars_lt(a@.skip(i as int), b@.skip(i as int)),
        decreases a@.len() - i,
    {
        if a[i] != b[i] {
            return a[i] < b[i];
        }
        assert(a@.skip(i as int).drop_first() =~= a@.skip(i + 1));
        assert(b@.skip(i as int).drop_first() =~= b@.skip(i + 1));
        i = i + 1;
    }
    a.len() < b.len()
}

fn key_less(a: &SortKey, b: &SortKey) -> (r: bool)
    requires
        key_ok(*a),
        key_ok(*b),
    ensures
        r == tld_lt(a.chars@, b.chars@),
{
    if a.len != b.len {
        a.len < b.len
    } else if a.rank != b.rank {
        a.rank < b.rank
    } else {
        chars_less(&a.chars, &b.chars)
    }
}


spec fn keys_match(keys: Seq<SortKey>, out: Seq<String>) -> bool {
    &&& keys.len() == out.len()
    &&& forall|k: int| 0 <= k < keys.len() ==> key_ok(#[trigger] keys[k]) && keys[k].chars@ == out[k]@
}

/// Inserts `t` into the sorted `out` after every TLD that does not come
/// after it, keeping `keys` in step.
fn insert_sorted(keys: &mut Vec<SortKey>, out: &mut Vec<String>, t: String)
    requires
        keys_match(old(keys)@, old(out)@),
        tlds_sorted(views(old(out)@)),
    ensures
        keys_match(final(keys)@, final(out)@),
        tlds_sorted(views(final(out)@)),
        views(final(out)@).to_multiset() == views(old(out)@).to_multiset().insert(t@),
{
    let key = sort_key(t.as_str());
    let ghost v = views(out@);
    let mut p: usize = 0;
    while p < keys.len() && !key_less(&key, &keys[p])
        invariant
            p <= keys@.len(),
            keys_match(keys@, out@),
            v == views(out@),
            key_ok(key),
            key.chars@ == t@,
            forall|m: int| 0 <= m < p ==> !tld_lt(t@, #[trigger] v[m]),
        decreases keys@.len() - p,
    {
        p = p + 1;
    }
    proof {
        assert(p < v.len() ==> tld_lt(t@, v[p as int]));
    }
    keys.insert(p, key);
    out.insert(p, t);
    proof {
        let n = views(out@);
        assert(n =~= v.insert(p as int, t@));
        vstd::seq_lib::to_multiset_insert(v, p as int, t@);
        assert forall|i: int, j: int| 0 <= i < j < n.len() implies tld_le(#[trigger] n[i], #[trigger] n[j]) by {
            if j < p {
            } else if j == p {
            } else if i > p {
                assert(n[i] == v[i - 1] && n[j] == v[j - 1]);
            } else if i == p {
                assert(n[j] == v[j - 1]);
                if tld_lt(v[j - 1], t@) {
                    if j - 1 > p {
                        assert(tld_le(v[p as int], v[j - 1]));
                    }
                    lemma_tld_lt_transitive(v[j - 1], t@, v[p as int]);
                    lemma_tld_lt_strict_total(v[j - 1], v[p as int]);
                }
            } else {
                assert(n[j] == v[j - 1]);
            }
        }
        assert forall|k: int| 0 <= k < keys@.len() implies key_ok(#[trigger] keys@[k]) && keys@[k].chars@ == out@[k]@ by {
            if k < p {
            } else if k > p {
                assert(keys@[k] == old(keys)@[k - 1]);
            }
        }
    }
}

/// The strings of `src` in TLD order.
fn sorted_copy(src: &[String]) -> (r: Vec<String>)
    ensures
        tlds_sorted(views(r@)),
        views(r@).to_multiset() == views(src@).to_multiset(),
{
    let mut keys: Vec<SortKey> = Vec::new();
    let mut out: Vec<String> = Vec::new();
    let mut i: usize = 0;
    proof {
        assert(views(out@).to_multiset() =~= views(src@).take(0).to_multiset()) by {
            assert(views(out@) =~= Seq::<Seq<char>>::empty());
            assert(views(src@).take(0) =~= Seq::<Seq<char>>::empty());
        }
    }
    while i < src.len()
        invariant
            i <= src@.len(),
            keys_match(keys@, out@),
            tlds_sorted(views(out@)),
            views(out@).to_multiset() == views(src@).take(i as int).to_multiset(),
        decreases src@.len() - i,
    {
        let t = src[i].clone();
        insert_sorted(&mut keys, &mut out, t);
        proof {
            assert(views(src@).take(i + 1) =~= views(src@).take(i as int).push(src@[i as int]@));
            vstd::seq_lib::to_multiset_build(views(src@).take(i as int), src@[i as int]@);
        }
        i = i + 1;
    }
    assert(views(src@).take(src@.len() as int) =~= views(src@));
    out
}

/// Sorts TLDs in place: by length in bytes, then by popularity, then
/// alphabetically.
pub fn sort_tlds(tlds: &mut [String])
    ensures
        final(tlds)@.len() == old(tlds)@.len(),
        tlds_sorted(views(final(tlds)@)),
        views(final(tlds)@).to_multiset() == views(old(tlds)@).to_multiset(),
{
    let sorted = sorted_copy(tlds);
    let ghost target = views(sorted@);
    proof {
        vstd::seq_lib::to_multiset_len(views(sorted@));
        vstd::seq_lib::to_multiset_len(views(tlds@));
    }
    let n = tlds.len();
    let mut k: usize = 0;
    while k < n
        invariant
            n == tlds@.len(),
            n == sorted@.len(),
            k <= n,
            target == views(sorted@),
            forall|m: int| 0 <= m < k ==> tlds@[m]@ == target[m],
        decreases n - k,
    {
        tlds[k] = sorted[k].clone();
        k = k + 1;
    }
    assert(views(tlds@) =~= target);
}


// ---------------------------------------------------------------------------
// Filtering and grouping
// ---------------------------------------------------------------------------

pub open spec fn opt_str_view(o: Option<&str>) -> Option<Seq<char>> {
    match o {
        Some(p) => Some(p@),
        None => None,
    }
}

/// Whether `t` starts with the prefix (when one is given) and has a byte
/// length in the range (when one is given).
pub open spec fn tld_selected(t: Seq<char>, prefix: Option<Seq<char>>, range: Option<TldLenRange>) -> bool {
    &&& match prefix {
        Some(p) => p.len() <= t.len() && t.subrange(0, p.len() as int) == p,
        None => true,
    }
    &&& match range {
        Some(r) => r.contains_spec(byte_len(t) as int),
        None => true,
    }
}

pub open spec fn selector(prefix: Option<Seq<char>>, range: Option<TldLenRange>) -> spec_fn(Seq<char>) -> bool {
    |t: Seq<char>| tld_selected(t, prefix, range)
}

/// Only TLDs that start with the prefix pass the prefix filter: each one
/// kept is at least as long as the prefix and begins with it; and every
/// TLD that does, within the length range, is kept.
pub proof fn lemma_filter_keeps_prefixed(tlds: Seq<Seq<char>>, prefix: Seq<char>, range: Option<TldLenRange>)
    ensures
        forall|i: int| 0 <= i < tlds.filter(selector(Some(prefix), range)).len() ==> {
            let t = #[trigger] tlds.filter(selector(Some(prefix), range))[i];
            prefix.len() <= t.len() && t.subrange(0, prefix.len() as int) == prefix
        },
        forall|i: int| 0 <= i < tlds.len() && prefix.len() <= tlds[i].len()
            && (#[trigger] tlds[i]).subrange(0, prefix.len() as int) == prefix
            && (range matches Some(g) ==> g.contains_spec(byte_len(tlds[i]) as int))
            ==> tlds.filter(selector(Some(prefix), range)).contains(tlds[i]),
{
    let f = tlds.filter(selector(Some(prefix), range));
    assert forall|i: int| 0 <= i < f.len() implies {
        let t = #[trigger] f[i];
        prefix.len() <= t.len() && t.subrange(0, prefix.len() as int) == prefix
    } by {
        tlds.lemma_filter_pred(selector(Some(prefix), range), i);
    }
    assert forall|i: int| 0 <= i < tlds.len() && prefix.len() <= tlds[i].len()
        && (#[trigger] tlds[i]).subrange(0, prefix.len() as int) == prefix
        && (range matches Some(g) ==> g.contains_spec(byte_len(tlds[i]) as int))
        implies f.contains(tlds[i]) by {
        assert(selector(Some(prefix), range)(tlds[i]));
        tlds.lemma_filter_contains(selector(Some(prefix), range), i);
    }
}

fn is_selected(t: &str, prefix: Option<&str>, range: Option<TldLenRange>) -> (b: bool)
    ensures
        b == tld_selected(t@, opt_str_view(prefix), range),
{
    let ok_prefix = match prefix {
        Some(p) => {
            let tc = chars_of(t);
            let pc = chars_of(p);
            chars_start_with(&tc, &pc)
        },
        None => true,
    };
    if !ok_prefix {
        return false;
    }
    match range {
        Some(r) => r.contains(t.as_bytes().len()),
        None => true,
    }
}

/// The TLDs that start with `prefix` and whose length lies in `range`, in
/// TLD order.
pub fn filter_tlds(tlds: &[String], prefix: Option<&str>, range: Option<TldLenRange>) -> (r: Vec<String>)
    ensures
        tlds_sorted(views(r@)),
        views(r@).to_multiset() == views(tlds@).filter(selector(opt_str_view(prefix), range)).to_multiset(),
        forall|i: int| 0 <= i < r@.len() ==> (prefix matches Some(p) ==>
            p@.len() <= (#[trigger] r@[i])@.len() && r@[i]@.subrange(0, p@.len() as int) == p@),
{
    let ghost pred = selector(opt_str_view(prefix), range);
    let mut picked: Vec<String> = Vec::new();
    let mut i: usize = 0;
    assert(views(tlds@).take(0) =~= Seq::<Seq<char>>::empty());
    assert(views(picked@) =~= views(tlds@).take(0).filter(pred)) by {
        reveal(Seq::filter);
    }
    while i < tlds.len()
        invariant
            i <= tlds@.len(),
            pred == selector(opt_str_view(prefix), range),
            views(picked@) == views(tlds@).take(i as int).filter(pred),
        decreases tlds@.len() - i,
    {
        let ghost before = views(picked@);
        let ghost x = tlds@[i as int]@;
        assert(views(tlds@).take(i + 1).drop_last() =~= views(tlds@).take(i as int));
        assert(views(tlds@).take(i + 1).last() == x);
        proof {
            reveal(Seq::filter);
        }
        if is_selected(tlds[i].as_str(), prefix, range) {
            assert(pred(x));
            picked.push(tlds[i].clone());
            assert(views(picked@) =~= before.push(x));
            assert(views(tlds@).take(i + 1).filter(pred) == views(tlds@).take(i as int).filter(pred).push(x));
        } else {
            assert(!pred(x));
            assert(views(tlds@).take(i + 1).filter(pred) == views(tlds@).take(i as int).filter(pred));
        }
        i = i + 1;
    }
    assert(views(tlds@).take(tlds@.len() as int) =~= views(tlds@));
    let r = sorted_copy(&picked);
    proof {
        if let Some(p) = prefix {
            let f = views(tlds@).filter(pred);
            assert(pred == selector(Some(p@), range));
            lemma_filter_keeps_prefixed(views(tlds@), p@, range);
            views(r@).to_multiset_ensures();
            f.to_multiset_ensures();
            assert forall|i: int| 0 <= i < r@.len() implies
                p@.len() <= (#[trigger] r@[i])@.len() && r@[i]@.subrange(0, p@.len() as int) == p@ by {
                let x = r@[i]@;
                assert(views(r@)[i] == x);
                assert(views(r@).contains(x));
                assert(views(r@).to_multiset().count(x) > 0);
                assert(views(r@).to_multiset() == views(picked@).to_multiset());
                assert(views(picked@) == f);
                assert(f.to_multiset().count(x) > 0);
                assert(f.contains(x));
                let k = choose|k: int| 0 <= k < f.len() && f[k] == x;
                assert(f[k] == x);
            }
        }
    }
    r
}

/// Consecutive runs of at most `size` items; every run is non-empty.
pub open spec fn chunks_of<A>(s: Seq<A>, size: nat) -> Seq<Seq<A>>
    decreases s.len(),
{
    if s.len() == 0 || size == 0 {
        Seq::empty()
    } else if s.len() <= size {
        seq![s]
    } else {
        seq![s.take(size as int)] + chunks_of(s.skip(size as int), size)
    }
}

/// The concatenation of a sequence of sequences.
pub open spec fn flatten_all<A>(g: Seq<Seq<A>>) -> Seq<A>
    decreases g.len(),
{
    if g.len() == 0 {
        Seq::empty()
    } else {
        g[0] + flatten_all(g.drop_first())
    }
}

/// The text of each string of each group.
pub open spec fn group_views(g: Seq<Vec<String>>) -> Seq<Seq<Seq<char>>> {
    g.map_values(|v: Vec<String>| views(v@))
}

/// Splits `tlds` into consecutive groups of `group_size` (at least one) TLDs;
/// the last group may be shorter.
pub fn split_groups(tlds: &[String], group_size: usize) -> (r: Vec<Vec<String>>)
    ensures
        group_views(r@) == chunks_of(views(tlds@), if group_size == 0 { 1 } else { group_size as nat }),
{
    let size: usize = if group_size == 0 { 1 } else { group_size };
    let ghost all = views(tlds@);
    let mut r: Vec<Vec<String>> = Vec::new();
    let mut start: usize = 0;
    let n = tlds.len();
    assert(all.skip(0) =~= all);
    while start < n
        invariant
            n == tlds@.len(),
            all == views(tlds@),
            start <= n,
            size >= 1,
            group_views(r@) + chunks_of(all.skip(start as int), size as nat) == chunks_of(all, size as nat),
        decreases n - start,
    {
        let end: usize = if n - start > size { start + size } else { n };
        let mut group: Vec<String> = Vec::new();
        let mut k: usize = start;
        while k < end
            invariant
                start <= k <= end,
                end <= n,
                n == tlds@.len(),
                all == views(tlds@),
                views(group@) == all.subrange(start as int, k as int),
            decreases end - k,
        {
            let ghost g0 = views(group@);
            group.push(tlds[k].clone());
            assert(views(group@) =~= g0.push(all[k as int]));
            assert(views(group@) =~= all.subrange(start as int, k + 1));
            k = k + 1;
        }
        let ghost rest = all.skip(start as int);
        proof {
            if n - start > size {
                assert(rest.take(size as int) =~= views(group@));
                assert(rest.skip(size as int) =~= all.skip(end as int));
            } else {
                assert(rest =~= views(group@));
                assert(all.skip(end as int) =~= Seq::<Seq<char>>::empty());
            }
        }
        let ghost before = group_views(r@);
        r.push(group);
        assert(group_views(r@) =~= before.push(views(group@)));
        assert(before + chunks_of(rest, size as nat) =~= group_views(r@) + chunks_of(all.skip(end as int), size as nat));
        start = end;
    }
    assert(all.skip(n as int) =~= Seq::<Seq<char>>::empty());
    assert(group_views(r@) + chunks_of(all.skip(n as int), size as nat) =~= group_views(r@));
    r
}

/// Grouping loses and adds nothing: the groups, one after another, are the
/// original sequence.
pub proof fn lemma_chunks_flatten<A>(s: Seq<A>, size: nat)
    requires
        size >= 1,
    ensures
        flatten_all(chunks_of(s, size)) == s,
        forall|k: int| 0 <= k < chunks_of(s, size).len() ==>
            0 < (#[trigger] chunks_of(s, size)[k]).len() <= size,
    decreases s.len(),
{
    if s.len() == 0 {
        assert(flatten_all(chunks_of(s, size)) =~= s);
    } else if s.len() <= size {
        let g = chunks_of(s, size);
        assert(g.drop_first() =~= Seq::<Seq<A>>::empty());
        assert(flatten_all(g.drop_first()) =~= Seq::<A>::empty());
        assert(flatten_all(g) =~= s);
    } else {
        let g = chunks_of(s, size);
        lemma_chunks_flatten(s.skip(size as int), size);
        assert(g.drop_first() =~= chunks_of(s.skip(size as int), size));
        assert(s.take(size as int) + s.skip(size as int) =~= s);
        assert forall|k: int| 0 <= k < g.len() implies 0 < (#[trigger] g[k]).len() <= size by {
            if k > 0 {
                assert(g[k] == chunks_of(s.skip(size as int), size)[k - 1]);
            }
        }
    }
}


/// A sequence of TLDs has exactly one arrangement in TLD order: two sorted
/// sequences holding the same TLDs are equal.
pub proof fn lemma_sorted_unique(a: Seq<Seq<char>>, b: Seq<Seq<char>>)
    requires
        tlds_sorted(a),
        tlds_sorted(b),
        a.to_multiset() == b.to_multiset(),
    ensures
        a == b,
    decreases a.len(),
{
    broadcast use vstd::seq_lib::group_to_multiset_ensures;

    vstd::seq_lib::to_multiset_len(a);
    vstd::seq_lib::to_multiset_len(b);
    if a.len() == 0 {
        assert(a =~= b);
    } else {
        let x = a[0];
        let y = b[0];
        vstd::seq_lib::to_multiset_contains(a, y);
        vstd::seq_lib::to_multiset_contains(b, x);
        assert(b.to_multiset().count(y) > 0) by {
            vstd::seq_lib::to_multiset_contains(b, y);
            assert(b.contains(y));
        }
        assert(a.contains(y));
        let i = choose|i: int| 0 <= i < a.len() && a[i] == y;
        assert(a.to_multiset().count(x) > 0) by {
            vstd::seq_lib::to_multiset_contains(a, x);
            assert(a.contains(x));
        }
        assert(b.contains(x));
        let j = choose|j: int| 0 <= j < b.len() && b[j] == x;
        if i > 0 {
            assert(tld_le(a[0], a[i]));
        }
        if j > 0 {
            assert(tld_le(b[0], b[j]));
        }
        lemma_tld_lt_strict_total(x, y);
        assert(x == y);
        vstd::seq_lib::to_multiset_remove(a, 0);
        vstd::seq_lib::to_multiset_remove(b, 0);
        assert(a.remove(0) =~= a.drop_first());
        assert(b.remove(0) =~= b.drop_first());
        lemma_sorted_unique(a.drop_first(), b.drop_first());
        assert(a =~= b) by {
            assert forall|k: int| 0 <= k < a.len() implies a[k] == b[k] by {
                if k > 0 {
                    assert(a[k] == a.drop_first()[k - 1]);
                    assert(b[k] == b.drop_first()[k - 1]);
                }
            }
        }
    }
}


// ---------------------------------------------------------------------------
// The IANA TLD list
// ---------------------------------------------------------------------------

/// The pieces of a text between `\n` characters (the last piece is what
/// follows the last `\n`, possibly empty).
pub open spec fn split_lines(s: Seq<char>) -> Seq<Seq<char>>
    decreases s.len(),
{
    if s.len() == 0 {
        seq![Seq::<char>::empty()]
    } else {
        let r = split_lines(s.drop_last());
        if s.last() == '\n' {
            r.push(Seq::<char>::empty())
        } else {
            r.update(r.len() - 1, r.last().push(s.last()))
        }
    }
}

pub proof fn lemma_split_lines_nonempty(s: Seq<char>)
    ensures
        split_lines(s).len() > 0,
    decreases s.len(),
{
    if s.len() > 0 {
        lemma_split_lines_nonempty(s.drop_last());
    }
}

/// `t` without its leading whitespace.
pub open spec fn trim_start(t: Seq<char>) -> Seq<char>
    decreases t.len(),
{
    if t.len() > 0 && is_ws(t[0]) {
        trim_start(t.drop_first())
    } else {
        t
    }
}

/// `t` without its trailing whitespace.
pub open spec fn trim_end(t: Seq<char>) -> Seq<char>
    decreases t.len(),
{
    if t.len() > 0 && is_ws(t.last()) {
        trim_end(t.drop_last())
    } else {
        t
    }
}

/// `t` without leading and trailing whitespace (`str::trim`).
pub open spec fn trim(t: Seq<char>) -> Seq<char> {
    trim_end(trim_start(t))
}

/// TLDs that are left out of the candidates: infrastructure (`arpa`) and
/// those closed to public registration.
pub open spec fn excluded_tld(t: Seq<char>) -> bool {
    t == "arpa"@ || t == "edu"@ || t == "gov"@ || t == "int"@ || t == "mil"@ || t == "va"@
}

pub open spec fn all_lower_ascii(t: Seq<char>) -> bool {
    forall|i: int| 0 <= i < t.len() ==> 'a' <= #[trigger] t[i] && t[i] <= 'z'
}

/// The TLD that one line of the IANA list contributes, if any: the trimmed,
/// lowercased line, unless it is empty, a `#` comment, holds anything but
/// ASCII letters, or is excluded.
pub open spec fn iana_candidate(line: Seq<char>) -> Option<Seq<char>> {
    let t = trim(line);
    if t.len() == 0 || t[0] == '#' {
        None
    } else if all_lower_ascii(lower_seq(t)) && !excluded_tld(lower_seq(t)) {
        Some(lower_seq(t))
    } else {
        None
    }
}

/// The candidate TLDs of an IANA TLD list, in the list's order.
pub open spec fn iana_candidates(text: Seq<char>) -> Seq<Seq<char>> {
    split_lines(text).filter_map(candidate_fn())
}

pub open spec fn candidate_fn() -> spec_fn(Seq<char>) -> Option<Seq<char>> {
    |line: Seq<char>| iana_candidate(line)
}

pub open spec fn iana_format_err() -> ErrorView {
    help_err(
        "failed to parse TLD list response"@,
        "the TLD source did not return the expected IANA text format"@,
    )
}

/// Every candidate of an IANA list is a non-empty run of lowercase ASCII
/// letters and none of the excluded TLDs.
pub proof fn lemma_iana_candidates_valid(text: Seq<char>)
    ensures
        forall|i: int| 0 <= i < iana_candidates(text).len() ==> {
            let t = #[trigger] iana_candidates(text)[i];
            &&& t.len() > 0
            &&& all_lower_ascii(t)
            &&& !excluded_tld(t)
        },
{
    lemma_candidates_of_lines(split_lines(text));
}

proof fn lemma_candidates_of_lines(lines: Seq<Seq<char>>)
    ensures
        forall|i: int| 0 <= i < lines.filter_map(candidate_fn()).len() ==> {
            let t = #[trigger] lines.filter_map(candidate_fn())[i];
            &&& t.len() > 0
            &&& all_lower_ascii(t)
            &&& !excluded_tld(t)
        },
    decreases lines.len(),
{
    let f = candidate_fn();
    if lines.len() > 0 {
        lemma_candidates_of_lines(lines.drop_last());
        let rest = lines.drop_last().filter_map(f);
        let all = lines.filter_map(f);
        match iana_candidate(lines.last()) {
            Some(c) => {
                assert(all == rest + seq![c]);
                assert forall|i: int| 0 <= i < all.len() implies {
                    let t = #[trigger] all[i];
                    &&& t.len() > 0
                    &&& all_lower_ascii(t)
                    &&& !excluded_tld(t)
                } by {
                    if i < rest.len() {
                        assert(all[i] == rest[i]);
                    } else {
                        assert(all[i] == c);
                        assert(lower_seq(trim(lines.last())).len() == trim(lines.last()).len());
                    }
                }
            },
            None => {
                assert(all == rest);
            },
        }
    }
}

/// Trims the whitespace off `s[start..end]`, giving the bounds of the rest.
pub fn trim_bounds(s: &[char], start: usize, end: usize) -> (r: (usize, usize))
    requires
        start <= end <= s@.len(),
    ensures
        start <= r.0 <= r.1 <= end,
        s@.subrange(r.0 as int, r.1 as int) == trim(s@.subrange(start as int, end as int)),
{
    let mut a = start;
    while a < end && is_whitespace(s[a])
        invariant
            start <= a <= end,
            end <= s@.len(),
            trim_start(s@.subrange(start as int, end as int)) == trim_start(s@.subrange(a as int, end as int)),
        decreases end - a,
    {
        assert(s@.subrange(a as int, end as int).drop_first() =~= s@.subrange(a + 1, end as int));
        a = a + 1;
    }
    let mut b = end;
    while b > a && is_whitespace(s[b - 1])
        invariant
            start <= a <= b <= end,
            end <= s@.len(),
            trim_end(s@.subrange(a as int, end as int)) == trim_end(s@.subrange(a as int, b as int)),
        decreases b - a,
    {
        assert(s@.subrange(a as int, b as int).drop_last() =~= s@.subrange(a as int, b - 1));
        b = b - 1;
    }
    (a, b)
}

fn is_excluded_tld(t: &[char]) -> (b: bool)
    ensures
        b == excluded_tld(t@),
{
    let arpa = chars_of("arpa");
    let edu = chars_of("edu");
    let gov = chars_of("gov");
    let intl = chars_of("int");
    let mil = chars_of("mil");
    let va = chars_of("va");
    chars_eq(t, &arpa) || chars_eq(t, &edu) || chars_eq(t, &gov) || chars_eq(t, &intl)
        || chars_eq(t, &mil) || chars_eq(t, &va)
}

fn is_all_lower_ascii(t: &[char]) -> (b: bool)
    ensures
        b == all_lower_ascii(t@),
{
    let mut i: usize = 0;
    while i < t.len()
        invariant
            i <= t@.len(),
            forall|j: int| 0 <= j < i ==> 'a' <= #[trigger] t@[j] && t@[j] <= 'z',
        decreases t@.len() - i,
    {
        if !('a' <= t[i] && t[i] <= 'z') {
            return false;
        }
        i = i + 1;
    }
    true
}

/// The candidate that the line `s[start..end]` contributes.
fn line_candidate(s: &[char], start: usize, end: usize) -> (r: Option<String>)
    requires
        start <= end <= s@.len(),
    ensures
        match r {
            Some(t) => iana_candidate(s@.subrange(start as int, end as int)) == Some(t@),
            None => iana_candidate(s@.subrange(start as int, end as int)) is None,
        },
{
    let (a, b) = trim_bounds(s, start, end);
    if a == b || s[a] == '#' {
        return None;
    }
    let trimmed = &s[a..b];
    assert(trimmed@ =~= s@.subrange(a as int, b as int));
    let lowered = lower_chars(trimmed);
    if is_all_lower_ascii(&lowered) && !is_excluded_tld(&lowered) {
        Some(string_from_chars(&lowered))
    } else {
        None
    }
}

/// Parses the IANA list of TLDs (one per line, `#` comments) into the
/// candidate TLDs, lowercased, in the list's order. A list that yields no
/// candidate is refused.
pub fn parse_iana_candidates(text: &str) -> (r: Result<Vec<String>, AppError>)
    ensures
        r is Ok <==> iana_candidates(text@).len() > 0,
        match r {
            Ok(v) => views(v@) == iana_candidates(text@),
            Err(e) => e@ == iana_format_err(),
        },
{
    let s = chars_of(text);
    let ghost cand = candidate_fn();
    let mut out: Vec<String> = Vec::new();
    let mut start: usize = 0;
    let mut i: usize = 0;
    assert(s@.take(0) =~= Seq::<char>::empty());
    assert(split_lines(s@.take(0)).drop_last() =~= Seq::<Seq<char>>::empty());
    assert(s@.subrange(0, 0) =~= Seq::<char>::empty());
    while i < s.len()
        invariant
            start <= i <= s@.len(),
            s@ == text@,
            cand == candidate_fn(),
            split_lines(s@.take(i as int)).len() > 0,
            split_lines(s@.take(i as int)).last() == s@.subrange(start as int, i as int),
            split_lines(s@.take(i as int)).drop_last().filter_map(cand) == views(out@),
        decreases s@.len() - i,
    {
        let ghost r = split_lines(s@.take(i as int));
        let ghost before = views(out@);
        assert(s@.take(i + 1).drop_last() =~= s@.take(i as int));
        assert(s@.take(i + 1).last() == s@[i as int]);
        if s[i] == '\n' {
            let c = line_candidate(&s, start, i);
            proof {
                let n = split_lines(s@.take(i + 1));
                assert(n == r.push(Seq::<char>::empty()));
                assert(n.drop_last() =~= r);
                assert(r =~= r.drop_last().push(r.last()));
                assert(r.filter_map(cand) == r.drop_last().filter_map(cand) + match cand(r.last()) {
                    Some(x) => seq![x],
                    None => Seq::<Seq<char>>::empty(),
                });
                assert(s@.subrange(i + 1, i + 1) =~= Seq::<char>::empty());
            }
            match c {
                Some(t) => {
                    out.push(t);
                    assert(views(out@) =~= before + seq![cand(r.last())->0]);
                },
                None => {
                    assert(before + Seq::<Seq<char>>::empty() =~= before);
                },
            }
            start = i + 1;
        } else {
            proof {
                let n = split_lines(s@.take(i + 1));
                assert(n == r.update(r.len() - 1, r.last().push(s@[i as int])));
                assert(n.drop_last() =~= r.drop_last());
                assert(n.last() =~= s@.subrange(start as int, i + 1));
            }
        }
        i = i + 1;
    }
    let ghost all = split_lines(s@);
    assert(s@.take(s@.len() as int) =~= s@);
    let last = line_candidate(&s, start, s.len());
    let ghost before = views(out@);
    proof {
        assert(all =~= all.drop_last().push(all.last()));
        assert(all.filter_map(cand) == all.drop_last().filter_map(cand) + match cand(all.last()) {
            Some(x) => seq![x],
            None => Seq::<Seq<char>>::empty(),
        });
    }
    match last {
        Some(t) => {
            out.push(t);
            assert(views(out@) =~= before + seq![cand(all.last())->0]);
        },
        None => {
            assert(before + Seq::<Seq<char>>::empty() =~= before);
        },
    }
    assert(views(out@) == iana_candidates(text@));
    if out.len() == 0 {
        return Err(AppError::new("failed to parse TLD list response").with_help(
            "the TLD source did not return the expected IANA text format",
        ));
    }
    Ok(out)
}


// ---------------------------------------------------------------------------
// The ICANN registry agreements table
// ---------------------------------------------------------------------------

/// The fields of the header row of a CSV text, each trimmed, or the
/// reader's error message.
pub uninterp spec fn csv_header_row(text: Seq<char>) -> Result<Seq<Seq<char>>, Seq<char>>;

/// The records after the header row of a CSV text, fields trimmed, or the
/// message of the first error.
pub uninterp spec fn csv_record_rows(text: Seq<char>) -> Result<Seq<Seq<Seq<char>>>, Seq<char>>;

pub open spec fn row_view(r: Vec<String>) -> Seq<Seq<char>> {
    r@.map_values(|f: String| f@)
}

/// `csv::Reader::headers` of a reader built with `Trim::All` over the text:
/// the header fields, or the error's message.
#[verifier::external_body]
fn csv_header(text: &str) -> (r: Result<Vec<String>, String>)
    ensures
        match r {
            Ok(h) => csv_header_row(text@) == Ok::<Seq<Seq<char>>, Seq<char>>(row_view(h)),
            Err(m) => csv_header_row(text@) == Err::<Seq<Seq<char>>, Seq<char>>(m@),
        },
{
    let mut reader = csv::ReaderBuilder::new().trim(csv::Trim::All).from_reader(text.as_bytes());
    match reader.headers() {
        Ok(h) => Ok(h.iter().map(String::from).collect()),
        Err(e) => Err(e.to_string()),
    }
}

/// `csv::Reader::records` of a reader built with `Trim::All` over the text:
/// every record after the header, or the message of the first error.
#[verifier::external_body]
fn csv_records(text: &str) -> (r: Result<Vec<Vec<String>>, String>)
    ensures
        match r {
            Ok(rows) => csv_record_rows(text@) == Ok::<Seq<Seq<Seq<char>>>, Seq<char>>(rows@.map_values(|x: Vec<String>| row_view(x))),
            Err(m) => csv_record_rows(text@) == Err::<Seq<Seq<Seq<char>>>, Seq<char>>(m@),
        },
{
    let mut reader = csv::ReaderBuilder::new().trim(csv::Trim::All).from_reader(text.as_bytes());
    let mut rows = Vec::new();
    for record in reader.records() {
        match record {
            Ok(r) => rows.push(r.iter().map(String::from).collect()),
            Err(e) => return Err(e.to_string()),
        }
    }
    Ok(rows)
}

/// `s` without leading and trailing `"` characters.
pub open spec fn trim_quotes(s: Seq<char>) -> Seq<char>
    decreases s.len(),
{
    if s.len() > 0 && s[0] == '"' {
        trim_quotes(s.drop_first())
    } else if s.len() > 0 && s.last() == '"' {
        trim_quotes(s.drop_last())
    } else {
        s
    }
}

/// The first column whose header, unquoted and trimmed, is `name`.
pub open spec fn column_from(h: Seq<Seq<char>>, name: Seq<char>, i: int) -> Option<int>
    decreases h.len() - i,
{
    if i < 0 || i >= h.len() {
        None
    } else if trim(trim_quotes(h[i])) == name {
        Some(i)
    } else {
        column_from(h, name, i + 1)
    }
}

pub open spec fn icann_csv_err(message: Seq<char>) -> ErrorView {
    help_err(
        "failed to parse ICANN registry agreements response: "@ + message,
        "the ICANN registry agreements endpoint did not return the expected CSV format"@,
    )
}

pub open spec fn missing_column_err(name: Seq<char>) -> ErrorView {
    help_err("failed to parse ICANN registry agreements response"@, "missing expected CSV column '"@ + name + "'"@)
}

/// Field `i` of a record, empty when the record is shorter.
pub open spec fn field(r: Seq<Seq<char>>, i: int) -> Seq<char> {
    if 0 <= i < r.len() { r[i] } else { Seq::empty() }
}

/// The pieces of `s` between `sep` characters.
pub open spec fn split_on(s: Seq<char>, sep: char) -> Seq<Seq<char>>
    decreases s.len(),
{
    if s.len() == 0 {
        seq![Seq::<char>::empty()]
    } else {
        let r = split_on(s.drop_last(), sep);
        if s.last() == sep {
            r.push(Seq::<char>::empty())
        } else {
            r.update(r.len() - 1, r.last().push(s.last()))
        }
    }
}

/// Whether one of the comma-separated agreement types is the brand
/// agreement.
pub open spec fn is_brand(types: Seq<char>) -> bool {
    exists|k: int| 0 <= k < split_on(types, ',').len() && trim(#[trigger] split_on(types, ',')[k]) == "brand (spec 13)"@
}

/// The TLD a record excludes: one with a brand agreement or an agreement
/// that is not active; records whose TLD is not all ASCII letters are
/// skipped.
pub open spec fn excluded_by(r: Seq<Seq<char>>, ti: int, ai: int, si: int) -> Option<Seq<char>> {
    let tld = lower_seq(trim(field(r, ti)));
    if !all_lower_ascii(tld) {
        None
    } else if is_brand(lower_seq(field(r, ai))) || lower_seq(trim(field(r, si))) != "active"@ {
        Some(tld)
    } else {
        None
    }
}

/// The TLDs the records exclude, in order and with repeats.
pub open spec fn excluded_list(rows: Seq<Seq<Seq<char>>>, ti: int, ai: int, si: int) -> Seq<Seq<char>>
    decreases rows.len(),
{
    if rows.len() == 0 {
        Seq::empty()
    } else {
        excluded_list(rows.drop_last(), ti, ai, si) + match excluded_by(rows.last(), ti, ai, si) {
            Some(t) => seq![t],
            None => Seq::empty(),
        }
    }
}

/// The text without one leading byte order mark.
pub open spec fn strip_bom(s: Seq<char>) -> Seq<char> {
    if s.len() > 0 && s[0] == '\u{feff}' { s.drop_first() } else { s }
}

/// The TLDs excluded by an ICANN registry agreements table, or the error
/// for a table that cannot be read or lacks a column.
pub open spec fn icann_excluded_spec(text: Seq<char>) -> Result<Set<Seq<char>>, ErrorView> {
    let t = strip_bom(text);
    match csv_header_row(t) {
        Err(m) => Err(icann_csv_err(m)),
        Ok(h) => match column_from(h, "Top Level Domain"@, 0) {
            None => Err(missing_column_err("Top Level Domain"@)),
            Some(ti) => match column_from(h, "Agreement Type"@, 0) {
                None => Err(missing_column_err("Agreement Type"@)),
                Some(ai) => match column_from(h, "Agreement Status"@, 0) {
                    None => Err(missing_column_err("Agreement Status"@)),
                    Some(si) => match csv_record_rows(t) {
                        Err(m) => Err(icann_csv_err(m)),
                        Ok(rows) => Ok(excluded_list(rows, ti, ai, si).to_set()),
                    },
                },
            },
        },
    }
}

fn trim_quotes_bounds(s: &[char]) -> (r: (usize, usize))
    ensures
        r.0 <= r.1 <= s@.len(),
        s@.subrange(r.0 as int, r.1 as int) == trim_quotes(s@),
{
    let mut a: usize = 0;
    let mut b: usize = s.len();
    assert(s@.subrange(0, s@.len() as int) =~= s@);
    while a < b && (s[a] == '"' || s[b - 1] == '"')
        invariant
            a <= b <= s@.len(),
            trim_quotes(s@) == trim_quotes(s@.subrange(a as int, b as int)),
        decreases b - a,
    {
        if s[a] == '"' {
            assert(s@.subrange(a as int, b as int).drop_first() =~= s@.subrange(a + 1, b as int));
            a = a + 1;
        } else {
            assert(s@.subrange(a as int, b as int).drop_last() =~= s@.subrange(a as int, b - 1));
            b = b - 1;
        }
    }
    (a, b)
}

/// The index of the CSV column named `name`.
fn find_csv_header(headers: &Vec<String>, name: &str) -> (r: Result<usize, AppError>)
    ensures
        match r {
            Ok(i) => column_from(row_view(*headers), name@, 0) == Some(i as int),
            Err(e) => column_from(row_view(*headers), name@, 0) is None && e@ == missing_column_err(name@),
        },
{
    let ghost h = row_view(*headers);
    let target = chars_of(name);
    let mut i: usize = 0;
    while i < headers.len()
        invariant
            i <= headers@.len(),
            h == row_view(*headers),
            target@ == name@,
            column_from(h, name@, 0) == column_from(h, name@, i as int),
        decreases headers@.len() - i,
    {
        let c = chars_of(headers[i].as_str());
        let (qa, qb) = trim_quotes_bounds(&c);
        let unq = &c.as_slice()[qa..qb];
        assert(unq@ =~= trim_quotes(c@));
        let (ta, tb) = trim_bounds(unq, 0, unq.len());
        assert(unq@.subrange(0, unq@.len() as int) =~= unq@);
        let core = &unq[ta..tb];
        assert(core@ =~= trim(trim_quotes(h[i as int])));
        if chars_eq(core, &target) {
            return Ok(i);
        }
        i = i + 1;
    }
    let m = concat3("missing expected CSV column '", name, "'");
    Err(AppError::new("failed to parse ICANN registry agreements response").with_help(m.as_str()))
}

fn icann_csv_parse_error(message: &str) -> (e: AppError)
    ensures
        e@ == icann_csv_err(message@),
{
    let m = concat2("failed to parse ICANN registry agreements response: ", message);
    AppError::new(m.as_str()).with_help("the ICANN registry agreements endpoint did not return the expected CSV format")
}

fn field_chars(r: &Vec<String>, i: usize) -> (c: Vec<char>)
    ensures
        c@ == field(row_view(*r), i as int),
{
    if i < r.len() {
        chars_of(r[i].as_str())
    } else {
        Vec::new()
    }
}

/// Whether a comma-separated list of agreement types names the brand
/// agreement.
fn has_brand(types: &[char]) -> (b: bool)
    ensures
        b == is_brand(types@),
{
    let brand = chars_of("brand (spec 13)");
    let mut found = false;
    let mut start: usize = 0;
    let mut i: usize = 0;
    assert(types@.take(0) =~= Seq::<char>::empty());
    assert(types@.subrange(0, 0) =~= Seq::<char>::empty());
    while i < types.len()
        invariant
            start <= i <= types@.len(),
            brand@ == "brand (spec 13)"@,
            split_on(types@.take(i as int), ',').len() > 0,
            split_on(types@.take(i as int), ',').last() == types@.subrange(start as int, i as int),
            found == exists|k: int| 0 <= k < split_on(types@.take(i as int), ',').len() - 1
                && trim(#[trigger] split_on(types@.take(i as int), ',')[k]) == "brand (spec 13)"@,
        decreases types@.len() - i,
    {
        let ghost r = split_on(types@.take(i as int), ',');
        assert(types@.take(i + 1).drop_last() =~= types@.take(i as int));
        assert(types@.take(i + 1).last() == types@[i as int]);
        if types[i] == ',' {
            let (a, b) = trim_bounds(types, start, i);
            let piece = &types[a..b];
            assert(piece@ =~= types@.subrange(a as int, b as int));
            let hit = chars_eq(piece, &brand);
            proof {
                let n = split_on(types@.take(i + 1), ',');
                assert(n == r.push(Seq::<char>::empty()));
                assert forall|k: int| 0 <= k < r.len() implies n[k] == r[k] by {}
                assert(types@.subrange(i + 1, i + 1) =~= Seq::<char>::empty());
                if hit {
                    assert(trim(n[r.len() - 1]) == "brand (spec 13)"@);
                }
                if found || hit {
                    assert(exists|k: int| 0 <= k < n.len() - 1 && trim(#[trigger] n[k]) == "brand (spec 13)"@);
                } else {
                    assert(!exists|k: int| 0 <= k < n.len() - 1 && trim(#[trigger] n[k]) == "brand (spec 13)"@) by {
                        if exists|k: int| 0 <= k < n.len() - 1 && trim(#[trigger] n[k]) == "brand (spec 13)"@ {
                            let k = choose|k: int| 0 <= k < n.len() - 1 && trim(#[trigger] n[k]) == "brand (spec 13)"@;
                            if k < r.len() - 1 {
                                assert(trim(r[k]) == "brand (spec 13)"@);
                            }
                        }
                    }
                }
            }
            found = found || hit;
            start = i + 1;
        } else {
            proof {
                let n = split_on(types@.take(i + 1), ',');
                assert(n == r.update(r.len() - 1, r.last().push(types@[i as int])));
                assert(n.last() =~= types@.subrange(start as int, i + 1));
                assert forall|k: int| 0 <= k < n.len() - 1 implies n[k] == r[k] by {}
            }
        }
        i = i + 1;
    }
    assert(types@.take(types@.len() as int) =~= types@);
    let (a, b) = trim_bounds(types, start, types.len());
    let piece = &types[a..b];
    assert(piece@ =~= types@.subrange(a as int, b as int));
    let hit = chars_eq(piece, &brand);
    proof {
        let n = split_on(types@, ',');
        if hit {
            assert(trim(n[n.len() - 1]) == "brand (spec 13)"@);
        }
        if !(found || hit) {
            assert(!is_brand(types@)) by {
                if is_brand(types@) {
                    let k = choose|k: int| 0 <= k < n.len() && trim(#[trigger] n[k]) == "brand (spec 13)"@;
                    if k < n.len() - 1 {
                        assert(trim(n[k]) == "brand (spec 13)"@);
                    }
                }
            }
        }
    }
    found || hit
}

fn record_exclusion(r: &Vec<String>, ti: usize, ai: usize, si: usize) -> (x: Option<String>)
    ensures
        match x {
            Some(t) => excluded_by(row_view(*r), ti as int, ai as int, si as int) == Some(t@),
            None => excluded_by(row_view(*r), ti as int, ai as int, si as int) is None,
        },
{
    let tf = field_chars(r, ti);
    let (a, b) = trim_bounds(&tf, 0, tf.len());
    assert(tf@.subrange(0, tf@.len() as int) =~= tf@);
    let tld = lower_chars(&tf.as_slice()[a..b]);
    assert(tf@.subrange(a as int, b as int) =~= trim(tf@));
    if !is_all_lower_ascii(&tld) {
        return None;
    }
    let types = lower_chars(&field_chars(r, ai));
    let sf = field_chars(r, si);
    let (c, d) = trim_bounds(&sf, 0, sf.len());
    assert(sf@.subrange(0, sf@.len() as int) =~= sf@);
    let status = lower_chars(&sf.as_slice()[c..d]);
    let active = chars_of("active");
    if has_brand(&types) || !chars_eq(&status, &active) {
        Some(string_from_chars(&tld))
    } else {
        None
    }
}

fn contains_string(v: &Vec<String>, t: &[char]) -> (b: bool)
    ensures
        b == views(v@).contains(t@),
{
    let ghost vs = views(v@);
    let mut i: usize = 0;
    while i < v.len()
        invariant
            i <= v@.len(),
            vs == views(v@),
            forall|j: int| 0 <= j < i ==> vs[j] != t@,
        decreases v@.len() - i,
    {
        let c = chars_of(v[i].as_str());
        if chars_eq(&c, t) {
            assert(vs[i as int] == t@);
            return true;
        }
        i = i + 1;
    }
    false
}

/// Reads an ICANN registry agreements table (CSV with a header row) and
/// returns the TLDs that are not open to the public: those under a brand
/// agreement or an agreement that is no longer active. Each TLD is listed
/// once.
pub fn parse_icann_excluded_tlds(text: &str) -> (r: Result<Vec<String>, AppError>)
    ensures
        match r {
            Ok(v) => icann_excluded_spec(text@) == Ok::<Set<Seq<char>>, ErrorView>(views(v@).to_set())
                && views(v@).no_duplicates(),
            Err(e) => icann_excluded_spec(text@) == Err::<Set<Seq<char>>, ErrorView>(e@),
        },
{
    let s = chars_of(text);
    let body = if s.len() > 0 && s[0] == '\u{feff}' { string_from_range(&s, 1, s.len()) } else { string_from_chars(&s) };
    assert(s@.subrange(1, s@.len() as int) =~= s@.drop_first());
    let t = body.as_str();
    let header = match csv_header(t) {
        Ok(h) => h,
        Err(m) => { return Err(icann_csv_parse_error(m.as_str())); },
    };
    let ti = match find_csv_header(&header, "Top Level Domain") {
        Ok(i) => i,
        Err(e) => { return Err(e); },
    };
    let ai = match find_csv_header(&header, "Agreement Type") {
        Ok(i) => i,
        Err(e) => { return Err(e); },
    };
    let si = match find_csv_header(&header, "Agreement Status") {
        Ok(i) => i,
        Err(e) => { return Err(e); },
    };
    let rows = match csv_records(t) {
        Ok(rows) => rows,
        Err(m) => { return Err(icann_csv_parse_error(m.as_str())); },
    };
    let ghost rv = rows@.map_values(|x: Vec<String>| row_view(x));
    let mut out: Vec<String> = Vec::new();
    let mut i: usize = 0;
    assert(rv.take(0) =~= Seq::<Seq<Seq<char>>>::empty());
    assert(views(out@).to_set() =~= excluded_list(rv.take(0), ti as int, ai as int, si as int).to_set());
    while i < rows.len()
        invariant
            i <= rows@.len(),
            rv == rows@.map_values(|x: Vec<String>| row_view(x)),
            views(out@).to_set() == excluded_list(rv.take(i as int), ti as int, ai as int, si as int).to_set(),
            views(out@).no_duplicates(),
        decreases rows@.len() - i,
    {
        let ghost before = views(out@);
        let ghost prev = excluded_list(rv.take(i as int), ti as int, ai as int, si as int);
        assert(rv.take(i + 1).drop_last() =~= rv.take(i as int));
        assert(rv.take(i + 1).last() == row_view(rows@[i as int]));
        match record_exclusion(&rows[i], ti, ai, si) {
            Some(tld) => {
                let tc = chars_of(tld.as_str());
                let seen = contains_string(&out, &tc);
                proof {
                    let next = excluded_list(rv.take(i + 1), ti as int, ai as int, si as int);
                    assert(next == prev + seq![tld@]);
                    assert(next.to_set() =~= prev.to_set().insert(tld@)) by {
                        vstd::seq_lib::seq_to_set_distributes_over_add(prev, seq![tld@]);
                        assert(seq![tld@].to_set() =~= Set::empty().insert(tld@)) by {
                            assert(seq![tld@][0] == tld@);
                        }
                    }
                }
                if !seen {
                    out.push(tld);
                    proof {
                        assert(views(out@) =~= before.push(tc@));
                        assert(views(out@).to_set() =~= before.to_set().insert(tc@)) by {
                            vstd::seq_lib::seq_to_set_distributes_over_add(before, seq![tc@]);
                            assert(seq![tc@].to_set() =~= Set::empty().insert(tc@)) by {
                                assert(seq![tc@][0] == tc@);
                            }
                            assert(before.push(tc@) =~= before + seq![tc@]);
                        }
                        assert(views(out@).no_duplicates()) by {
                            assert forall|a: int, b: int| 0 <= a < b < views(out@).len() implies views(out@)[a] != views(out@)[b] by {
                                if b == before.len() {
                                    assert(!before.contains(tc@));
                                    assert(views(out@)[a] == before[a]);
                                }
                            }
                        }
                    }
                } else {
                    proof {
                        assert(before.to_set().contains(tc@));
                        assert(before.to_set().insert(tc@) =~= before.to_set());
                    }
                }
            },
            None => {
                assert(excluded_list(rv.take(i + 1), ti as int, ai as int, si as int) =~= prev);
            },
        }
        i = i + 1;
    }
    assert(rv.take(rows@.len() as int) =~= rv);
    Ok(out)
}


// ---------------------------------------------------------------------------
// Fetching and probing the TLD list
// ---------------------------------------------------------------------------

/// The IANA list of TLDs.
pub const IANA_TLD_SOURCE_URL: &'static str = "https://data.iana.org/TLD/tlds-alpha-by-domain.txt";
/// ICANN's table of registry agreements.
pub const ICANN_REGISTRY_AGREEMENTS_URL: &'static str = "https://www.icann.org/en/registry-agreements/csvdownload";
/// A mirror of ICANN's table of registry agreements.
pub const ICANN_REGISTRY_AGREEMENTS_FALLBACK_URL: &'static str =
    "https://raw.githubusercontent.com/case/iana-data/main/data/source/icann-registry-agreement-table.csv";
/// Where the TLD list is read from by default.
pub const DEFAULT_TLD_SOURCE_URL: &'static str = IANA_TLD_SOURCE_URL;

/// How many times a text is requested before giving up.
pub const HTTP_FETCH_ATTEMPTS: usize = 4;
/// The delay before the first retry; each further retry waits twice as long.
pub const HTTP_FETCH_RETRY_BASE_DELAY_MS: u64 = 500;

/// Whether an HTTP status is worth retrying: a server error or 429.
pub fn is_retryable_status(status: u16) -> (b: bool)
    ensures
        b == (500 <= status <= 599 || status == 429),
{
    (500 <= status && status <= 599) || status == 429
}

pub open spec fn pow2(n: nat) -> nat
    decreases n,
{
    if n == 0 { 1 } else { 2 * pow2((n - 1) as nat) }
}

/// The delay in milliseconds after failed attempt `attempt` (counting from
/// 0): 500 ms doubled for each earlier attempt.
pub fn http_fetch_retry_delay(attempt: usize) -> (ms: u64)
    requires
        attempt <= 55,
    ensures
        ms == HTTP_FETCH_RETRY_BASE_DELAY_MS * pow2(attempt as nat),
{
    let mut f: u64 = 1;
    let mut i: usize = 0;
    proof {
        assert(pow2(55) == 0x80_0000_0000_0000) by {
            reveal_with_fuel(pow2, 56);
        }
        lemma_pow2_mono(0, 55);
    }
    while i < attempt
        invariant
            i <= attempt,
            attempt <= 55,
            f == pow2(i as nat),
            pow2(55) == 0x80_0000_0000_0000,
            f <= pow2(55),
        decreases attempt - i,
    {
        proof {
            lemma_pow2_mono(i as nat + 1, 55);
        }
        f = f * 2;
        i = i + 1;
    }
    HTTP_FETCH_RETRY_BASE_DELAY_MS * f
}

proof fn lemma_pow2_mono(a: nat, b: nat)
    requires
        a <= b,
    ensures
        pow2(a) <= pow2(b),
    decreases b,
{
    if a < b {
        lemma_pow2_mono(a, (b - 1) as nat);
    }
}

/// What came of one request for a text.
#[derive(Debug, Clone, Copy, PartialEq, Eq, Structural)]
pub enum FetchOutcome {
    /// A success status; the body can be read.
    Success,
    /// Another HTTP status.
    Status(u16),
    /// The request failed before a response.
    Transport,
}

/// What to do after a request.
#[derive(Debug, Clone, Copy, PartialEq, Eq, Structural)]
pub enum FetchAction {
    UseBody,
    GiveUp,
    RetryAfter(u64),
}

/// The step after attempt `attempt` (from 0) came to `outcome`: read the
/// body on success; give up on a status not worth retrying or after the
/// last attempt; otherwise wait and retry.
pub fn next_fetch_action(attempt: usize, outcome: FetchOutcome) -> (a: FetchAction)
    requires
        attempt < HTTP_FETCH_ATTEMPTS,
    ensures
        a == match outcome {
            FetchOutcome::Success => FetchAction::UseBody,
            FetchOutcome::Status(s) => if !(500 <= s <= 599 || s == 429) || attempt + 1 == HTTP_FETCH_ATTEMPTS {
                FetchAction::GiveUp
            } else {
                FetchAction::RetryAfter((HTTP_FETCH_RETRY_BASE_DELAY_MS * pow2(attempt as nat)) as u64)
            },
            FetchOutcome::Transport => if attempt + 1 == HTTP_FETCH_ATTEMPTS {
                FetchAction::GiveUp
            } else {
                FetchAction::RetryAfter((HTTP_FETCH_RETRY_BASE_DELAY_MS * pow2(attempt as nat)) as u64)
            },
        },
{
    match outcome {
        FetchOutcome::Success => FetchAction::UseBody,
        FetchOutcome::Status(s) => {
            if !is_retryable_status(s) || attempt + 1 == HTTP_FETCH_ATTEMPTS {
                FetchAction::GiveUp
            } else {
                FetchAction::RetryAfter(http_fetch_retry_delay(attempt))
            }
        },
        FetchOutcome::Transport => {
            if attempt + 1 == HTTP_FETCH_ATTEMPTS {
                FetchAction::GiveUp
            } else {
                FetchAction::RetryAfter(http_fetch_retry_delay(attempt))
            }
        },
    }
}

/// `prefix` + `tld` for every TLD, in order.
pub open spec fn prefixed(prefix: Seq<char>, tlds: Seq<Seq<char>>) -> Seq<Seq<char>> {
    tlds.map_values(|t: Seq<char>| prefix + t)
}

/// The `nic.{tld}` names whose delegation shows that a TLD is live.
pub fn nic_queries(tlds: &[String]) -> (r: Vec<String>)
    ensures
        views(r@) == prefixed("nic."@, views(tlds@)),
{
    let mut r: Vec<String> = Vec::new();
    let mut i: usize = 0;
    while i < tlds.len()
        invariant
            i <= tlds@.len(),
            views(r@) == prefixed("nic."@, views(tlds@).take(i as int)),
        decreases tlds@.len() - i,
    {
        let ghost before = views(r@);
        r.push(concat2("nic.", tlds[i].as_str()));
        assert(views(r@) =~= before.push("nic."@ + tlds@[i as int]@));
        assert(views(tlds@).take(i + 1) =~= views(tlds@).take(i as int).push(tlds@[i as int]@));
        assert(prefixed("nic."@, views(tlds@).take(i + 1)) =~= prefixed("nic."@, views(tlds@).take(i as int)).push("nic."@ + tlds@[i as int]@));
        i = i + 1;
    }
    assert(views(tlds@).take(tlds@.len() as int) =~= views(tlds@));
    r
}

/// The TLDs (paired with responses in order) whose response passes `keep`.
pub open spec fn kept(tlds: Seq<Seq<char>>, responses: Seq<Option<ResolveResponse>>, nx: bool) -> Seq<Seq<char>>
    decreases tlds.len(),
{
    if tlds.len() == 0 {
        Seq::empty()
    } else {
        let n = (tlds.len() - 1) as int;
        kept(tlds.drop_last(), responses, nx) + if response_passes(responses[n], nx) { seq![tlds[n]] } else { Seq::empty() }
    }
}

/// A live TLD answers `NOERROR` with at least one record for `nic.{tld}`
/// (`nx == false`); a TLD without a wildcard answers `NXDOMAIN` for a
/// random name (`nx == true`). No answer passes neither test.
pub open spec fn response_passes(r: Option<ResolveResponse>, nx: bool) -> bool {
    match r {
        Some(resp) => if nx { resp.rcode == RCODE_NXDOMAIN } else { resp.rcode == RCODE_NOERROR && resp.answer_count > 0 },
        None => false,
    }
}

/// The TLDs whose response passes the test (`nx` as in `response_passes`),
/// in order.
pub fn select_by_response(tlds: &[String], responses: &[Option<ResolveResponse>], nx: bool) -> (r: Vec<String>)
    requires
        responses@.len() == tlds@.len(),
    ensures
        views(r@) == kept(views(tlds@), responses@, nx),
{
    let mut r: Vec<String> = Vec::new();
    let mut i: usize = 0;
    while i < tlds.len()
        invariant
            i <= tlds@.len(),
            responses@.len() == tlds@.len(),
            views(r@) == kept(views(tlds@).take(i as int), responses@, nx),
        decreases tlds@.len() - i,
    {
        let ghost before = views(r@);
        assert(views(tlds@).take(i + 1).drop_last() =~= views(tlds@).take(i as int));
        let pass = match responses[i] {
            Some(resp) => if nx { resp.rcode == RCODE_NXDOMAIN } else { resp.rcode == RCODE_NOERROR && resp.answer_count > 0 },
            None => false,
        };
        if pass {
            r.push(tlds[i].clone());
            assert(views(r@) =~= before.push(tlds@[i as int]@));
        }
        i = i + 1;
    }
    assert(views(tlds@).take(tlds@.len() as int) =~= views(tlds@));
    r
}

/// The candidates that are not excluded, in order.
pub fn remove_excluded(candidates: &[String], excluded: &[String]) -> (r: Vec<String>)
    ensures
        views(r@) == views(candidates@).filter(|t: Seq<char>| !views(excluded@).contains(t)),
{
    let ghost pred = |t: Seq<char>| !views(excluded@).contains(t);
    let mut r: Vec<String> = Vec::new();
    let mut i: usize = 0;
    assert(views(candidates@).take(0) =~= Seq::<Seq<char>>::empty());
    assert(views(r@) =~= views(candidates@).take(0).filter(pred)) by {
        reveal(Seq::filter);
    }
    while i < candidates.len()
        invariant
            i <= candidates@.len(),
            pred == (|t: Seq<char>| !views(excluded@).contains(t)),
            views(r@) == views(candidates@).take(i as int).filter(pred),
        decreases candidates@.len() - i,
    {
        let ghost before = views(r@);
        let ghost x = candidates@[i as int]@;
        assert(views(candidates@).take(i + 1).drop_last() =~= views(candidates@).take(i as int));
        assert(views(candidates@).take(i + 1).last() == x);
        proof {
            reveal(Seq::filter);
        }
        let c = chars_of(candidates[i].as_str());
        let ex = excluded_contains(excluded, &c);
        if !ex {
            r.push(candidates[i].clone());
            assert(views(r@) =~= before.push(x));
        }
        i = i + 1;
    }
    assert(views(candidates@).take(candidates@.len() as int) =~= views(candidates@));
    r
}

fn excluded_contains(v: &[String], t: &[char]) -> (b: bool)
    ensures
        b == views(v@).contains(t@),
{
    let ghost vs = views(v@);
    let mut i: usize = 0;
    while i < v.len()
        invariant
            i <= v@.len(),
            vs == views(v@),
            forall|j: int| 0 <= j < i ==> vs[j] != t@,
        decreases v@.len() - i,
    {
        let c = chars_of(v[i].as_str());
        if chars_eq(&c, t) {
            assert(vs[i as int] == t@);
            return true;
        }
        i = i + 1;
    }
    false
}

/// The eight lowercase hexadecimal digits of `v`, zero-padded (`{:08x}`).
pub open spec fn hex_fixed(v: nat, n: nat) -> Seq<char>
    decreases n,
{
    if n == 0 { Seq::empty() } else { hex_fixed(v / 16, (n - 1) as nat).push(hex_digit((v % 16) as int)) }
}

fn hex_fixed_exec(v: u32, n: u32) -> (s: String)
    ensures
        s@ == hex_fixed(v as nat, n as nat),
    decreases n,
{
    if n == 0 {
        return String::new();
    }
    let mut s = hex_fixed_exec(v / 16, n - 1);
    let d: u8 = (v % 16) as u8;
    let c: char = if d < 10 { (d + 48u8) as char } else { (d - 10u8 + 97u8) as char };
    push_char(&mut s, c);
    s
}

/// The probe name of a TLD for the random number `r`.
pub open spec fn probe_name(r: u32, tld: Seq<char>) -> Seq<char> {
    "xyzzy-probe-test-"@ + hex_fixed(r as nat, 8) + "."@ + tld
}

/// The probe name of `tld` for the number `r`.
pub fn probe_query(tld: &str, r: u32) -> (q: String)
    ensures
        q@ == probe_name(r, tld@),
{
    let mut q = String::from_str("xyzzy-probe-test-");
    let h = hex_fixed_exec(r, 8);
    q.append(h.as_str());
    q.append(".");
    q.append(tld);
    q
}

/// Whether `q` is a probe name of `tld` for some number.
pub open spec fn is_probe_of(q: Seq<char>, tld: Seq<char>) -> bool {
    exists|x: u32| probe_name(x, tld) == q
}

/// A random number (`rand::random::<u32>()`); any value may come.
#[verifier::external_body]
fn random_u32() -> u32 {
    rand::random::<u32>()
}

/// One probe name per TLD, each under its own random number: a name that
/// should not exist unless the TLD answers for every name.
pub fn probe_queries(tlds: &[String]) -> (r: Vec<String>)
    ensures
        r@.len() == tlds@.len(),
        forall|i: int| 0 <= i < r@.len() ==> is_probe_of((#[trigger] r@[i])@, tlds@[i]@),
{
    let mut r: Vec<String> = Vec::new();
    let ghost mut xs: Seq<u32> = Seq::empty();
    let mut i: usize = 0;
    while i < tlds.len()
        invariant
            i <= tlds@.len(),
            r@.len() == i,
            xs.len() == i,
            forall|j: int| 0 <= j < i ==> (#[trigger] r@[j])@ == probe_name(xs[j], tlds@[j]@),
        decreases tlds@.len() - i,
    {
        let x = random_u32();
        let q = probe_query(tlds[i].as_str(), x);
        r.push(q);
        proof {
            xs = xs.push(x);
        }
        i = i + 1;
    }
    assert forall|i: int| 0 <= i < r@.len() implies is_probe_of((#[trigger] r@[i])@, tlds@[i]@) by {
        assert(probe_name(xs[i], tlds@[i]@) == r@[i]@);
    }
    r
}

} // verus!
