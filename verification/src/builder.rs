//! The cache builder's own logic: reading the `--tlds` argument, laying out
//! scan batches and recording their answers, and merging partial caches.
use vstd::prelude::*;
use vstd::string::*;
use crate::cache::{
    CacheFile, CacheView, DOMAINS_PER_TLD, CACHE_FORMAT_VERSION, bit_at, bit_position, bitmap_len_spec,
    spec_sha256, zeros,
};
use crate::error::{AppError, ErrorView, help_err};
use crate::report::domain_of;
use crate::text::{chars_eq, chars_of, concat3, string_from_range};
use crate::tld::{
    lemma_tld_lt_strict_total, lemma_tld_lt_transitive, position_of, position_from, sort_tlds, split_on,
    tld_le, tld_lt, tlds_sorted, trim, trim_bounds, trim_start, views,
};

verus! {

broadcast use vstd::string::group_string_axioms;

/// Names resolved per batch while scanning.
pub const SCAN_BATCH_SIZE: usize = 25_000;

// ---------------------------------------------------------------------------
// The --tlds argument
// ---------------------------------------------------------------------------

/// The strings of a JSON array of strings, or `None` when the text is not
/// one.
pub uninterp spec fn json_string_list(text: Seq<char>) -> Option<Seq<Seq<char>>>;

/// `serde_json::from_str::<Vec<String>>`: the strings of a JSON array of
/// strings, or `None` when the text is not one.
#[verifier::external_body]
fn parse_json_strings(text: &str) -> (r: Option<Vec<String>>)
    ensures
        match r {
            Some(v) => json_string_list(text@) == Some(views(v@)),
            None => json_string_list(text@) is None,
        },
{
    serde_json::from_str::<Vec<String>>(text).ok()
}

/// The non-empty trimmed pieces, in order.
pub open spec fn nonempty_items(pieces: Seq<Seq<char>>) -> Seq<Seq<char>>
    decreases pieces.len(),
{
    if pieces.len() == 0 {
        Seq::empty()
    } else {
        nonempty_items(pieces.drop_last()) + if trim(pieces.last()).len() > 0 { seq![trim(pieces.last())] } else { Seq::empty() }
    }
}

/// The items in order, each only at its first occurrence.
pub open spec fn first_occurrences(s: Seq<Seq<char>>) -> Seq<Seq<char>>
    decreases s.len(),
{
    if s.len() == 0 {
        Seq::empty()
    } else {
        let r = first_occurrences(s.drop_last());
        if s.drop_last().contains(s.last()) { r } else { r.push(s.last()) }
    }
}

proof fn lemma_push_contains(p: Seq<Seq<char>>, l: Seq<char>, x: Seq<char>)
    ensures
        p.push(l).contains(x) <==> (p.contains(x) || l == x),
{
    if p.push(l).contains(x) {
        let i = choose|i: int| 0 <= i < p.push(l).len() && p.push(l)[i] == x;
        if i < p.len() {
            assert(p[i] == x);
        }
    }
    if p.contains(x) {
        let i = choose|i: int| 0 <= i < p.len() && p[i] == x;
        assert(p.push(l)[i] == x);
    }
    if l == x {
        assert(p.push(l)[p.len() as int] == x);
    }
}

proof fn lemma_first_occurrences_contains(s: Seq<Seq<char>>, x: Seq<char>)
    ensures
        first_occurrences(s).contains(x) <==> s.contains(x),
    decreases s.len(),
{
    if s.len() > 0 {
        let p = s.drop_last();
        let l = s.last();
        lemma_first_occurrences_contains(p, x);
        assert(s =~= p.push(l));
        lemma_push_contains(p, l, x);
        let r = first_occurrences(p);
        if !p.contains(l) {
            lemma_push_contains(r, l, x);
        } else if l == x {
            assert(p.contains(x));
        }
    } else {
        assert(first_occurrences(s) =~= Seq::<Seq<char>>::empty());
    }
}

/// What the `--tlds` argument names: a JSON array of strings when it starts
/// with `[` (after whitespace), else a comma-separated list, trimmed,
/// without empty items and repeats.
pub open spec fn parse_tlds_spec(text: Seq<char>) -> Result<Seq<Seq<char>>, ErrorView> {
    let t = trim_start(text);
    if t.len() > 0 && t[0] == '[' {
        match json_string_list(text) {
            Some(v) => Ok(v),
            None => Err(help_err(
                "failed to parse --tlds JSON array"@,
                "pass a JSON array like '[\"com\",\"io\"]' or a comma-separated list"@,
            )),
        }
    } else {
        let items = first_occurrences(nonempty_items(split_on(text, ',')));
        if items.len() == 0 {
            Err(help_err("no TLDs provided to --tlds"@, "pass a JSON array or comma-separated list of TLDs"@))
        } else {
            Ok(items)
        }
    }
}

fn contains_chars(v: &Vec<String>, t: &[char]) -> (b: bool)
    ensures
        b == views(v@).contains(t@),
{
    let ghost vs = views(v@);
    let mut i: usize = 0;
    while i < v.len()
        invariant
            i <= v@.len(),
            vs == views(v@),
            forall|j: int| 0 <= j < i ==> vs[j] != t@,
        decreases v@.len() - i,
    {
        let c = chars_of(v[i].as_str());
        if chars_eq(&c, t) {
            assert(vs[i as int] == t@);
            return true;
        }
        i = i + 1;
    }
    false
}

/// Adds the trimmed piece `s[start..end]` to `out` when it is non-empty and
/// new.
fn add_item(s: &[char], start: usize, end: usize, out: &mut Vec<String>, Ghost(seen): Ghost<Seq<Seq<char>>>)
    requires
        start <= end <= s@.len(),
        views(old(out)@) == first_occurrences(seen),
    ensures
        views(final(out)@) == first_occurrences(seen + if trim(s@.subrange(start as int, end as int)).len() > 0 {
            seq![trim(s@.subrange(start as int, end as int))]
        } else {
            Seq::empty()
        }),
{
    let (a, b) = trim_bounds(s, start, end);
    let ghost t = s@.subrange(a as int, b as int);
    if a == b {
        assert(seen + Seq::<Seq<char>>::empty() =~= seen);
        return;
    }
    let piece = &s[a..b];
    assert(piece@ =~= t);
    let ghost next = seen + seq![t];
    assert(next.drop_last() =~= seen);
    proof {
        lemma_first_occurrences_contains(seen, t);
    }
    if !contains_chars(out, piece) {
        let ghost before = views(out@);
        out.push(string_from_range(s, a, b));
        assert(views(out@) =~= before.push(t));
    }
}

/// Reads the `--tlds` argument.
pub fn parse_tlds(input: &str) -> (r: Result<Vec<String>, AppError>)
    ensures
        match r {
            Ok(v) => parse_tlds_spec(input@) == Ok::<Seq<Seq<char>>, ErrorView>(views(v@)),
            Err(e) => parse_tlds_spec(input@) == Err::<Seq<Seq<char>>, ErrorView>(e@),
        },
{
    let s = chars_of(input);
    let mut k: usize = 0;
    assert(s@.skip(0) =~= s@);
    while k < s.len() && crate::text::is_whitespace(s[k])
        invariant
            k <= s@.len(),
            trim_start(s@) == trim_start(s@.skip(k as int)),
        decreases s@.len() - k,
    {
        assert(s@.skip(k as int).drop_first() =~= s@.skip(k + 1));
        k = k + 1;
    }
    if k < s.len() && s[k] == '[' {
        return match parse_json_strings(input) {
            Some(v) => Ok(v),
            None => Err(AppError::new("failed to parse --tlds JSON array").with_help(
                "pass a JSON array like '[\"com\",\"io\"]' or a comma-separated list",
            )),
        };
    }
    let mut out: Vec<String> = Vec::new();
    let mut start: usize = 0;
    let mut i: usize = 0;
    assert(s@.take(0) =~= Seq::<char>::empty());
    assert(split_on(s@.take(0), ',').drop_last() =~= Seq::<Seq<char>>::empty());
    assert(s@.subrange(0, 0) =~= Seq::<char>::empty());
    while i < s.len()
        invariant
            start <= i <= s@.len(),
            s@ == input@,
            split_on(s@.take(i as int), ',').len() > 0,
            split_on(s@.take(i as int), ',').last() == s@.subrange(start as int, i as int),
            views(out@) == first_occurrences(nonempty_items(split_on(s@.take(i as int), ',').drop_last())),
        decreases s@.len() - i,
    {
        let ghost r = split_on(s@.take(i as int), ',');
        assert(s@.take(i + 1).drop_last() =~= s@.take(i as int));
        assert(s@.take(i + 1).last() == s@[i as int]);
        if s[i] == ',' {
            add_item(&s, start, i, &mut out, Ghost(nonempty_items(r.drop_last())));
            proof {
                let n = split_on(s@.take(i + 1), ',');
                assert(n == r.push(Seq::<char>::empty()));
                assert(n.drop_last() =~= r);
                assert(r.drop_last().push(r.last()) =~= r);
                assert(s@.subrange(i + 1, i + 1) =~= Seq::<char>::empty());
            }
            start = i + 1;
        } else {
            proof {
                let n = split_on(s@.take(i + 1), ',');
                assert(n == r.update(r.len() - 1, r.last().push(s@[i as int])));
                assert(n.drop_last() =~= r.drop_last());
                assert(n.last() =~= s@.subrange(start as int, i + 1));
            }
        }
        i = i + 1;
    }
    let ghost all = split_on(s@, ',');
    assert(s@.take(s@.len() as int) =~= s@);
    add_item(&s, start, s.len(), &mut out, Ghost(nonempty_items(all.drop_last())));
    assert(all.drop_last().push(all.last()) =~= all);
    proof {
        if k < s@.len() {
            assert(trim_start(s@.skip(k as int)) == s@.skip(k as int));
        } else {
            assert(s@.skip(k as int) =~= Seq::<char>::empty());
        }
    }
    if out.len() == 0 {
        return Err(AppError::new("no TLDs provided to --tlds").with_help("pass a JSON array or comma-separated list of TLDs"));
    }
    Ok(out)
}

// ---------------------------------------------------------------------------
// Scanning
// ---------------------------------------------------------------------------

/// The end of the scan batch that starts at `start`: at most
/// `SCAN_BATCH_SIZE` names further, and no further than `len`.
pub fn scan_batch_end(start: usize, len: usize) -> (end: usize)
    requires
        start <= len,
    ensures
        end == if len - start < SCAN_BATCH_SIZE { len as int } else { start + SCAN_BATCH_SIZE },
{
    if len - start < SCAN_BATCH_SIZE { len } else { start + SCAN_BATCH_SIZE }
}

/// The names `domain.tld` of the domains `start..end`.
pub fn scan_batch_names(domains: &[String], start: usize, end: usize, tld: &str) -> (r: Vec<String>)
    requires
        start <= end <= domains@.len(),
    ensures
        r@.len() == end - start,
        forall|k: int| 0 <= k < r@.len() ==> (#[trigger] r@[k])@ == domain_of(domains@[start + k]@, tld@),
{
    let mut r: Vec<String> = Vec::new();
    let mut i: usize = start;
    while i < end
        invariant
            start <= i <= end,
            end <= domains@.len(),
            r@.len() == i - start,
            forall|k: int| 0 <= k < r@.len() ==> (#[trigger] r@[k])@ == domain_of(domains@[start + k]@, tld@),
        decreases end - i,
    {
        r.push(concat3(domains[i].as_str(), ".", tld));
        i = i + 1;
    }
    r
}

/// The number of `true` entries.
pub open spec fn count_trues(s: Seq<bool>) -> nat
    decreases s.len(),
{
    if s.len() == 0 { 0 } else { count_trues(s.drop_last()) + if s.last() { 1nat } else { 0nat } }
}

/// Marks available, in TLD `tld_index`, the domains `start + k` whose answer
/// `availability[k]` is true, and returns how many there were.
pub fn record_scan_batch(cache: &mut CacheFile, tld_index: usize, start: usize, availability: &[bool]) -> (n: usize)
    requires
        old(cache).wf(),
        !old(cache)@.read_only,
        tld_index < old(cache)@.header.tlds.len(),
        start + availability@.len() <= DOMAINS_PER_TLD,
    ensures
        final(cache).wf(),
        final(cache)@.header == old(cache)@.header,
        final(cache)@.read_only == old(cache)@.read_only,
        final(cache)@.bitmap.len() == old(cache)@.bitmap.len(),
        n == count_trues(availability@),
        forall|q: int| 0 <= q < old(cache)@.bitmap.len() * 8 ==> #[trigger] bit_at(final(cache)@.bitmap, q) == (
            bit_at(old(cache)@.bitmap, q) || exists|k: int| 0 <= k < availability@.len() && availability@[k]
                && q == bit_position(tld_index as int, start + k)),
{
    let mut n: usize = 0;
    let mut k: usize = 0;
    let ghost old_bm = cache@.bitmap;
    while k < availability.len()
        invariant
            cache.wf(),
            !cache@.read_only,
            cache@.header == old(cache)@.header,
            cache@.read_only == old(cache)@.read_only,
            old_bm == old(cache)@.bitmap,
            cache@.bitmap.len() == old_bm.len(),
            tld_index < cache@.header.tlds.len(),
            start + availability@.len() <= DOMAINS_PER_TLD,
            k <= availability@.len(),
            n == count_trues(availability@.take(k as int)),
            n <= k,
            forall|q: int| 0 <= q < old_bm.len() * 8 ==> #[trigger] bit_at(cache@.bitmap, q) == (
                bit_at(old_bm, q) || exists|j: int| 0 <= j < k && availability@[j]
                    && q == bit_position(tld_index as int, start + j)),
        decreases availability@.len() - k,
    {
        assert(availability@.take(k + 1).drop_last() =~= availability@.take(k as int));
        let ghost before = cache@.bitmap;
        if availability[k] {
            let _ = cache.set_available_raw(tld_index, start + k, true);
            n = n + 1;
            assert forall|q: int| 0 <= q < old_bm.len() * 8 implies #[trigger] bit_at(cache@.bitmap, q) == (
                bit_at(old_bm, q) || exists|j: int| 0 <= j < k + 1 && availability@[j]
                    && q == bit_position(tld_index as int, start + j)) by {
                if q == bit_position(tld_index as int, start + k) {
                    assert(availability@[k as int] && q == bit_position(tld_index as int, start + k));
                } else {
                    assert(bit_at(cache@.bitmap, q) == bit_at(before, q));
                    if exists|j: int| 0 <= j < k + 1 && availability@[j] && q == bit_position(tld_index as int, start + j) {
                        let j = choose|j: int| 0 <= j < k + 1 && availability@[j] && q == bit_position(tld_index as int, start + j);
                        assert(j < k);
                    }
                }
            }
        } else {
            assert forall|q: int| 0 <= q < old_bm.len() * 8 implies #[trigger] bit_at(cache@.bitmap, q) == (
                bit_at(old_bm, q) || exists|j: int| 0 <= j < k + 1 && availability@[j]
                    && q == bit_position(tld_index as int, start + j)) by {
                if exists|j: int| 0 <= j < k + 1 && availability@[j] && q == bit_position(tld_index as int, start + j) {
                    let j = choose|j: int| 0 <= j < k + 1 && availability@[j] && q == bit_position(tld_index as int, start + j);
                    assert(j < k);
                }
            }
        }
        k = k + 1;
    }
    assert(availability@.take(availability@.len() as int) =~= availability@);
    n
}


// ---------------------------------------------------------------------------
// Merging partial caches
// ---------------------------------------------------------------------------

/// The error for a merge without partial caches.
pub fn no_partials_error() -> (e: AppError)
    ensures
        e@ == help_err("no partial bitmap files found"@, "run 'cache-builder scan' first or pass the correct --input-dir"@),
{
    AppError::new("no partial bitmap files found").with_help("run 'cache-builder scan' first or pass the correct --input-dir")
}

/// The TLDs of all partial caches, one cache after another.
pub open spec fn concat_tlds(ps: Seq<CacheView>) -> Seq<Seq<char>>
    decreases ps.len(),
{
    if ps.len() == 0 { Seq::empty() } else { concat_tlds(ps.drop_last()) + ps.last().header.tlds }
}

/// The sequence without repeats of adjacent equal items.
pub open spec fn dedup_adjacent(s: Seq<Seq<char>>) -> Seq<Seq<char>>
    decreases s.len(),
{
    if s.len() == 0 {
        Seq::empty()
    } else {
        let r = dedup_adjacent(s.drop_last());
        if s.len() >= 2 && s[s.len() - 2] == s.last() { r } else { r.push(s.last()) }
    }
}

/// The first cache, from `j` on, holding `t`, and the first position of `t`
/// in it.
pub open spec fn source_from(ps: Seq<CacheView>, t: Seq<char>, j: int) -> Option<(int, int)>
    decreases ps.len() - j,
{
    if j < 0 || j >= ps.len() {
        None
    } else {
        match position_of(ps[j].header.tlds, t) {
            Some(i) => Some((j, i)),
            None => source_from(ps, t, j + 1),
        }
    }
}

/// Bit `k` of TLD `t` of the merged cache for `tlds`: the same bit of the
/// TLD in the first partial cache holding it, or unset when none does.
pub open spec fn merged_bit(tlds: Seq<Seq<char>>, ps: Seq<CacheView>, t: int, k: int) -> bool {
    match source_from(ps, tlds[t], 0) {
        Some((j, i)) => bit_at(ps[j].bitmap, bit_position(i, k)),
        None => false,
    }
}

/// The merged bitmap for `tlds`: each TLD's bits are those of
/// `merged_bit`, and the padding bits after the last TLD are unset.
pub open spec fn merged_bitmap_of(bm: Seq<u8>, tlds: Seq<Seq<char>>, ps: Seq<CacheView>) -> bool {
    &&& bm.len() == bitmap_len_spec(tlds.len())
    &&& forall|t: int, k: int| 0 <= t < tlds.len() && 0 <= k < DOMAINS_PER_TLD
        ==> #[trigger] bit_at(bm, bit_position(t, k)) == merged_bit(tlds, ps, t, k)
    &&& forall|q: int| tlds.len() * DOMAINS_PER_TLD <= q < bm.len() * 8 ==> !#[trigger] bit_at(bm, q)
}

pub open spec fn cache_views(ps: Seq<CacheFile>) -> Seq<CacheView> {
    ps.map_values(|f: CacheFile| f@)
}

proof fn lemma_src_bits_in_bounds(count: int, src: int, len: int)
    requires
        0 <= src < count,
        len == (count * 49284 + 7) / 8,
    ensures
        (src + 1) * 49284 <= len * 8,
        (src + 1) * 49284 <= count * 49284,
{
    assert((src + 1) * 49284 <= count * 49284) by (nonlinear_arith)
        requires 0 <= src < count;
    assert(count * 49284 <= ((count * 49284 + 7) / 8) * 8) by (nonlinear_arith)
        requires count >= 0;
}

/// A bit of TLD `t` lies before the slice of any later TLD `d`.
proof fn lemma_slice_before(t: int, k: int, d: int)
    requires
        0 <= t < d,
        0 <= k < 49284,
    ensures
        t * 49284 + k < d * 49284,
{
    assert(t * 49284 + k < d * 49284) by (nonlinear_arith)
        requires 0 <= t < d, 0 <= k < 49284;
}

proof fn lemma_zero_bits(n: nat, q: int)
    requires
        0 <= q < n * 8,
    ensures
        !bit_at(zeros(n), q),
{
    let b: u8 = 0;
    assert(q / 8 < n);
    assert(zeros(n)[q / 8] == 0u8);
    let sh: u8 = (7 - q % 8) as u8;
    assert(((b >> sh) & 1u8) == 0u8) by (bit_vector)
        requires b == 0u8;
}

proof fn lemma_position_bounds(t: Seq<Seq<char>>, x: Seq<char>, i: int)
    requires
        0 <= i,
    ensures
        position_from(t, x, i) matches Some(k) ==> i <= k < t.len() && t[k] == x,
    decreases t.len() - i,
{
    if i < t.len() && t[i] != x {
        lemma_position_bounds(t, x, i + 1);
    }
}

proof fn lemma_source_bounds(ps: Seq<CacheView>, t: Seq<char>, j: int)
    requires
        0 <= j,
    ensures
        source_from(ps, t, j) matches Some((a, b)) ==> j <= a < ps.len() && 0 <= b < ps[a].header.tlds.len()
            && ps[a].header.tlds[b] == t,
    decreases ps.len() - j,
{
    if j < ps.len() {
        lemma_position_bounds(ps[j].header.tlds, t, 0);
        lemma_source_bounds(ps, t, j + 1);
    }
}

/// Finds the first partial cache holding `t`, and where.
fn find_source(partials: &[CacheFile], t: &[char]) -> (r: Option<(usize, usize)>)
    ensures
        match r {
            Some((j, i)) => source_from(cache_views(partials@), t@, 0) == Some((j as int, i as int)),
            None => source_from(cache_views(partials@), t@, 0) is None,
        },
{
    let ghost ps = cache_views(partials@);
    let mut j: usize = 0;
    while j < partials.len()
        invariant
            j <= partials@.len(),
            ps == cache_views(partials@),
            source_from(ps, t@, 0) == source_from(ps, t@, j as int),
        decreases partials@.len() - j,
    {
        let tl = &partials[j].header_ref().tlds;
        let ghost tv = views(tl@);
        assert(tv == ps[j as int].header.tlds);
        let mut i: usize = 0;
        while i < tl.len()
            invariant
                i <= tl@.len(),
                j < partials@.len(),
                tv == views(tl@),
                ps == cache_views(partials@),
                tv == ps[j as int].header.tlds,
                source_from(ps, t@, 0) == source_from(ps, t@, j as int),
                position_of(tv, t@) == position_from(tv, t@, i as int),
            decreases tl@.len() - i,
        {
            let c = chars_of(tl[i].as_str());
            if chars_eq(&c, t) {
                assert(tv[i as int] == t@);
                assert(position_from(tv, t@, i as int) == Some(i as int));
                return Some((j, i));
            }
            i = i + 1;
        }
        assert(position_of(tv, t@) is None);
        j = j + 1;
    }
    None
}

/// The number of TLDs over all partial caches.
pub open spec fn total_tlds(ps: Seq<CacheView>) -> nat {
    concat_tlds(ps).len()
}

proof fn lemma_concat_tlds_step(ps: Seq<CacheView>, j: int)
    requires
        0 <= j < ps.len(),
    ensures
        concat_tlds(ps.take(j + 1)).len() == concat_tlds(ps.take(j)).len() + ps[j].header.tlds.len(),
{
    assert(ps.take(j + 1).drop_last() =~= ps.take(j));
}

/// Whether the partial caches together hold few enough TLDs for one merged
/// cache to be addressed.
pub fn partials_fit(partials: &[CacheFile]) -> (b: bool)
    ensures
        b == (total_tlds(cache_views(partials@)) * DOMAINS_PER_TLD <= usize::MAX),
{
    let ghost ps = cache_views(partials@);
    let limit: usize = usize::MAX / DOMAINS_PER_TLD;
    let mut sum: usize = 0;
    let mut j: usize = 0;
    assert(ps.take(0) =~= Seq::<CacheView>::empty());
    while j < partials.len()
        invariant
            j <= partials@.len(),
            ps == cache_views(partials@),
            sum == concat_tlds(ps.take(j as int)).len(),
            sum <= limit,
            limit == usize::MAX / DOMAINS_PER_TLD,
        decreases partials@.len() - j,
    {
        let k = partials[j].header_ref().tlds.len();
        proof {
            lemma_concat_tlds_step(ps, j as int);
            assert(k == ps[j as int].header.tlds.len());
        }
        if k > limit - sum {
            proof {
                let rest = ps.skip(j + 1);
                assert(ps =~= ps.take(j + 1) + rest);
                lemma_concat_tlds_append(ps.take(j + 1), rest);
                let total = total_tlds(ps) as int;
                assert(total >= limit + 1);
                assert(!(total * 49284 <= usize::MAX)) by (nonlinear_arith)
                    requires total >= limit + 1, limit == usize::MAX / 49284;
            }
            return false;
        }
        sum = sum + k;
        j = j + 1;
    }
    proof {
        assert(ps.take(partials@.len() as int) =~= ps);
        let total = total_tlds(ps) as int;
        assert(total * 49284 <= usize::MAX) by (nonlinear_arith)
            requires total <= limit, limit == usize::MAX / 49284;
    }
    true
}

proof fn lemma_concat_tlds_append(a: Seq<CacheView>, b: Seq<CacheView>)
    ensures
        concat_tlds(a + b).len() == concat_tlds(a).len() + concat_tlds(b).len(),
    decreases b.len(),
{
    if b.len() == 0 {
        assert(a + b =~= a);
    } else {
        lemma_concat_tlds_append(a, b.drop_last());
        assert((a + b).drop_last() =~= a + b.drop_last());
    }
}

/// Merges partial caches into one cache dated `now`: the TLDs of all of
/// them, in TLD order and each once, with the bitmap of each TLD copied
/// from the first partial cache that holds it.
pub fn merge_partials(partials: &[CacheFile], now: i64) -> (f: CacheFile)
    requires
        forall|k: int| 0 <= k < partials@.len() ==> (#[trigger] partials@[k]).wf(),
        total_tlds(cache_views(partials@)) * DOMAINS_PER_TLD <= usize::MAX,
    ensures
        f.wf(),
        !f@.read_only,
        f@.header.format_version == CACHE_FORMAT_VERSION,
        f@.header.timestamp == now,
        exists|sorted: Seq<Seq<char>>| {
            &&& tlds_sorted(sorted)
            &&& sorted.to_multiset() == concat_tlds(cache_views(partials@)).to_multiset()
            &&& f@.header.tlds == dedup_adjacent(sorted)
        },
        merged_bitmap_of(f@.bitmap, f@.header.tlds, cache_views(partials@)),
        f@.header.checksum == spec_sha256(f@.bitmap),
{
    let ghost ps = cache_views(partials@);
    let mut all: Vec<String> = Vec::new();
    let mut j: usize = 0;
    assert(views(all@) =~= concat_tlds(ps.take(0)));
    while j < partials.len()
        invariant
            j <= partials@.len(),
            ps == cache_views(partials@),
            views(all@) == concat_tlds(ps.take(j as int)),
        decreases partials@.len() - j,
    {
        let tl = &partials[j].header_ref().tlds;
        let ghost base = views(all@);
        let mut i: usize = 0;
        while i < tl.len()
            invariant
                i <= tl@.len(),
                views(all@) == base + views(tl@).take(i as int),
            decreases tl@.len() - i,
        {
            let ghost before = views(all@);
            all.push(tl[i].clone());
            assert(views(all@) =~= before.push(tl@[i as int]@));
            assert(views(tl@).take(i + 1) =~= views(tl@).take(i as int).push(tl@[i as int]@));
            assert(views(all@) =~= base + views(tl@).take(i + 1));
            i = i + 1;
        }
        assert(views(tl@).take(tl@.len() as int) =~= views(tl@));
        assert(ps.take(j + 1).drop_last() =~= ps.take(j as int));
        assert(views(all@) =~= concat_tlds(ps.take(j + 1)));
        j = j + 1;
    }
    assert(ps.take(partials@.len() as int) =~= ps);
    let ghost unsorted = views(all@);
    sort_tlds(all.as_mut_slice());
    let ghost sorted = views(all@);
    let mut merged_tlds: Vec<String> = Vec::new();
    let mut k: usize = 0;
    assert(sorted.take(0) =~= Seq::<Seq<char>>::empty());
    while k < all.len()
        invariant
            k <= all@.len(),
            sorted == views(all@),
            views(merged_tlds@) == dedup_adjacent(sorted.take(k as int)),
            merged_tlds@.len() <= k,
            k > 0 ==> merged_tlds@.len() > 0 && views(merged_tlds@).last() == sorted[k - 1],
        decreases all@.len() - k,
    {
        assert(sorted.take(k + 1).drop_last() =~= sorted.take(k as int));
        let ghost before = views(merged_tlds@);
        let repeat = if k > 0 {
            let a = chars_of(all[k - 1].as_str());
            let b = chars_of(all[k].as_str());
            chars_eq(&a, &b)
        } else {
            false
        };
        if !repeat {
            merged_tlds.push(all[k].clone());
            assert(views(merged_tlds@) =~= before.push(sorted[k as int]));
        }
        k = k + 1;
    }
    assert(sorted.take(sorted.len() as int) =~= sorted);
    proof {
        vstd::seq_lib::to_multiset_len(sorted);
        vstd::seq_lib::to_multiset_len(unsorted);
        assert(unsorted.len() == total_tlds(ps));
    }
    let mut merged = CacheFile::empty(merged_tlds, now);
    let ghost tls = merged@.header.tlds;
    let n = merged.header_ref().tlds.len();
    proof {
        let z = merged@.bitmap;
        assert(n * 49284 <= z.len() * 8) by (nonlinear_arith)
            requires z.len() == (n * 49284 + 7) / 8, n >= 0;
        assert forall|q: int| 0 <= q < z.len() * 8 implies !#[trigger] bit_at(z, q) by {
            lemma_zero_bits(z.len(), q);
        }
    }
    let mut d: usize = 0;
    while d < n
        invariant
            merged.wf(),
            !merged@.read_only,
            merged@.header.tlds == tls,
            merged@.header.format_version == CACHE_FORMAT_VERSION,
            merged@.header.timestamp == now,
            n == tls.len(),
            d <= n,
            ps == cache_views(partials@),
            forall|q: int| 0 <= q < partials@.len() ==> (#[trigger] partials@[q]).wf(),
            n * DOMAINS_PER_TLD <= merged@.bitmap.len() * 8,
            forall|t: int, k: int| 0 <= t < d && 0 <= k < DOMAINS_PER_TLD
                ==> #[trigger] bit_at(merged@.bitmap, bit_position(t, k)) == merged_bit(tls, ps, t, k),
            forall|q: int| d * DOMAINS_PER_TLD <= q < merged@.bitmap.len() * 8 ==> !#[trigger] bit_at(merged@.bitmap, q),
        decreases n - d,
    {
        let t = chars_of(merged.header_ref().tlds[d].as_str());
        proof {
            lemma_source_bounds(ps, t@, 0);
        }
        let ghost before = merged@.bitmap;
        match find_source(partials, &t) {
            Some((src_file, src_index)) => {
                proof {
                    let pv = partials@[src_file as int]@;
                    assert(pv == ps[src_file as int]);
                    lemma_src_bits_in_bounds(pv.header.tlds.len() as int, src_index as int, pv.bitmap.len() as int);
                }
                let _ = merged.copy_tld_bitmap(d, partials[src_file].bitmap(), src_index);
                proof {
                    let after = merged@.bitmap;
                    let sb = ps[src_file as int].bitmap;
                    assert forall|t2: int, k: int| 0 <= t2 < d + 1 && 0 <= k < DOMAINS_PER_TLD
                        implies #[trigger] bit_at(after, bit_position(t2, k)) == merged_bit(tls, ps, t2, k) by {
                        if t2 < d {
                            lemma_slice_before(t2, k, d as int);
                            assert(bit_at(before, bit_position(t2, k)) == merged_bit(tls, ps, t2, k));
                            assert(0 <= bit_position(t2, k) < before.len() * 8) by (nonlinear_arith)
                                requires 0 <= t2 < d, d < n, 0 <= k < 49284, n * 49284 <= before.len() * 8,
                                    bit_position(t2, k) == t2 * 49284 + k;
                        } else {
                            assert(bit_at(after, bit_position(d as int, k)) == bit_at(sb, bit_position(src_index as int, k)));
                        }
                    }
                    assert forall|q: int| (d + 1) * DOMAINS_PER_TLD <= q < after.len() * 8
                        implies !#[trigger] bit_at(after, q) by {
                        assert(bit_position(d as int + 1, 0) == (d + 1) * 49284);
                        assert(!bit_at(before, q));
                    }
                }
            },
            None => {
                proof {
                    assert forall|t2: int, k: int| 0 <= t2 < d + 1 && 0 <= k < DOMAINS_PER_TLD
                        implies #[trigger] bit_at(before, bit_position(t2, k)) == merged_bit(tls, ps, t2, k) by {
                        if t2 == d {
                            assert(d * 49284 <= bit_position(t2, k));
                            assert(bit_position(t2, k) < n * 49284) by (nonlinear_arith)
                                requires t2 == d, d < n, 0 <= k < 49284, bit_position(t2, k) == t2 * 49284 + k;
                            assert(!bit_at(before, bit_position(t2, k)));
                        }
                    }
                }
            },
        }
        d = d + 1;
    }
    proof {
        assert forall|q: int| tls.len() * DOMAINS_PER_TLD <= q < merged@.bitmap.len() * 8
            implies !#[trigger] bit_at(merged@.bitmap, q) by {
            assert(d * DOMAINS_PER_TLD <= q);
        }
    }
    merged.finalize_checksum();
    merged
}


proof fn lemma_first_occurrences_distinct(s: Seq<Seq<char>>)
    ensures
        first_occurrences(s).no_duplicates(),
    decreases s.len(),
{
    if s.len() > 0 {
        let p = s.drop_last();
        lemma_first_occurrences_distinct(p);
        let r = first_occurrences(p);
        if !p.contains(s.last()) {
            lemma_first_occurrences_contains(p, s.last());
            let n = r.push(s.last());
            assert forall|a: int, b: int| 0 <= a < b < n.len() implies n[a] != n[b] by {
                if b == r.len() {
                    assert(n[a] == r[a]);
                    assert(r.contains(r[a]));
                }
            }
        }
    }
}

/// A comma-separated `--tlds` list never names a TLD twice.
pub proof fn lemma_parsed_tlds_distinct(text: Seq<char>)
    ensures
        !(trim_start(text).len() > 0 && trim_start(text)[0] == '[') ==> (parse_tlds_spec(text) matches Ok(v)
            ==> v.no_duplicates()),
{
    lemma_first_occurrences_distinct(nonempty_items(split_on(text, ',')));
}

proof fn lemma_dedup_contains(s: Seq<Seq<char>>, x: Seq<char>)
    ensures
        dedup_adjacent(s).contains(x) ==> s.contains(x),
        s.len() > 0 ==> dedup_adjacent(s).len() > 0 && dedup_adjacent(s).last() == s.last(),
    decreases s.len(),
{
    if s.len() > 0 {
        let p = s.drop_last();
        lemma_dedup_contains(p, x);
        let r = dedup_adjacent(p);
        if dedup_adjacent(s).contains(x) {
            let i = choose|i: int| 0 <= i < dedup_adjacent(s).len() && dedup_adjacent(s)[i] == x;
            if i < r.len() {
                assert(r[i] == x);
                assert(r.contains(x));
                let k = choose|k: int| 0 <= k < p.len() && p[k] == x;
                assert(s[k] == x);
            } else {
                assert(x == s.last());
                assert(s[s.len() - 1] == x);
            }
        }
    }
}

/// The merged cache lists its TLDs in strict TLD order, so each at most
/// once: removing adjacent repeats from a sorted list leaves a strictly
/// ordered one.
pub proof fn lemma_dedup_sorted_strict(s: Seq<Seq<char>>)
    requires
        tlds_sorted(s),
    ensures
        forall|i: int, j: int| 0 <= i < j < dedup_adjacent(s).len() ==>
            tld_lt(#[trigger] dedup_adjacent(s)[i], #[trigger] dedup_adjacent(s)[j]),
        dedup_adjacent(s).no_duplicates(),
    decreases s.len(),
{
    let d = dedup_adjacent(s);
    if s.len() > 0 {
        let p = s.drop_last();
        assert(tlds_sorted(p)) by {
            assert forall|i: int, j: int| 0 <= i < j < p.len() implies tld_le(#[trigger] p[i], #[trigger] p[j]) by {
                assert(p[i] == s[i] && p[j] == s[j]);
            }
        }
        lemma_dedup_sorted_strict(p);
        let r = dedup_adjacent(p);
        let l = s.last();
        if !(s.len() >= 2 && s[s.len() - 2] == l) {
            assert forall|i: int, j: int| 0 <= i < j < d.len() implies tld_lt(#[trigger] d[i], #[trigger] d[j]) by {
                if j < r.len() {
                    assert(d[i] == r[i] && d[j] == r[j]);
                } else {
                    assert(d[j] == l);
                    assert(d[i] == r[i]);
                    lemma_dedup_contains(p, r[i]);
                    assert(r.contains(r[i]));
                    let k = choose|k: int| 0 <= k < p.len() && p[k] == r[i];
                    assert(s[k] == r[i]);
                    assert(tld_le(s[k], s[s.len() - 1]));
                    lemma_tld_lt_strict_total(r[i], l);
                    if r[i] == l {
                        assert(s.len() >= 2);
                        lemma_dedup_contains(p, l);
                        assert(r.last() == p.last());
                        assert(tld_le(s[k], s[s.len() - 2]));
                        assert(tld_le(s[s.len() - 2], l));
                        lemma_tld_lt_strict_total(s[s.len() - 2], l);
                        if k < s.len() - 2 {
                            lemma_tld_lt_strict_total(s[k], s[s.len() - 2]);
                            if tld_lt(s[k], s[s.len() - 2]) {
                                lemma_tld_lt_transitive(s[k], s[s.len() - 2], l);
                                lemma_tld_lt_strict_total(l, l);
                            }
                        }
                    }
                }
            }
        } else {
            assert(d =~= r);
        }
    }
    assert forall|i: int, j: int| 0 <= i < j < d.len() implies d[i] != d[j] by {
        lemma_tld_lt_strict_total(d[i], d[j]);
    }
}

} // verus!
