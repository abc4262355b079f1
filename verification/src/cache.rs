//! The bitmap cache of 1-3 character domains: domain indexing, the
//! `cache.bin` file format, and availability lookups.
use vstd::prelude::*;
use vstd::string::*;
use vstd::slice::{slice_subrange, slice_to_vec};
use vstd::utf8::{encode_utf8, decode_utf8, valid_utf8};
use crate::error::{AppError, ErrorView, plain_err, cache_integrity_err};
use crate::text::{chars_eq, chars_of, concat2, concat3, dec_digits, find_ws, hex_lower, lemma_find_ws_bounds, lower_chars, lower_seq, push_char, scan_ws, string_from_range, to_hex_lower, u64_to_decimal};
use crate::error::io_err;
use flate2::read::GzDecoder;
use std::io::Read;
use sha2::{Digest, Sha256};

verus! {

broadcast use vstd::string::group_string_axioms;

pub const CACHE_FORMAT_VERSION: u16 = 1;
pub const DOMAINS_PER_TLD: usize = 49_284;
/// Cache age, in seconds, after which a background refresh starts.
pub const CACHE_MAX_AGE_SECONDS: i64 = 86_400;

/// The magic bytes that open a cache file: `DGRP`.
pub open spec fn cache_magic() -> Seq<u8> {
    seq![68u8, 71u8, 82u8, 80u8]
}

// ---------------------------------------------------------------------------
// Domain indexing
// ---------------------------------------------------------------------------

/// Characters allowed at the first and last position of a short domain.
pub open spec fn is_edge_char(c: char) -> bool {
    ('a' <= c && c <= 'z') || ('0' <= c && c <= '9')
}

/// Characters allowed in the middle of a 3-character domain.
pub open spec fn is_middle_char(c: char) -> bool {
    is_edge_char(c) || c == '-'
}

/// `a`-`z` map to 0-25, `0`-`9` to 26-35, `-` to 36.
pub open spec fn char_val(c: char) -> int {
    if 'a' <= c && c <= 'z' {
        c as int - 'a' as int
    } else if '0' <= c && c <= '9' {
        26 + (c as int - '0' as int)
    } else {
        36
    }
}

/// The character with value `v` (the inverse of [`char_val`]).
pub open spec fn val_char(v: int) -> char {
    if v < 26 {
        (v + 'a' as int) as char
    } else if v < 36 {
        (v - 26 + '0' as int) as char
    } else {
        '-'
    }
}

/// The position of a 1-3 character domain in the bitmap of one TLD:
/// 1-character domains first, then 2-character, then 3-character ones,
/// each in lexicographic order of character values.
pub open spec fn domain_index_spec(s: Seq<char>) -> Option<int> {
    if s.len() == 1 && is_edge_char(s[0]) {
        Some(char_val(s[0]))
    } else if s.len() == 2 && is_edge_char(s[0]) && is_edge_char(s[1]) {
        Some(36 + char_val(s[0]) * 36 + char_val(s[1]))
    } else if s.len() == 3 && is_edge_char(s[0]) && is_middle_char(s[1]) && is_edge_char(s[2]) {
        Some(1332 + char_val(s[0]) * (37 * 36) + char_val(s[1]) * 36 + char_val(s[2]))
    } else {
        None
    }
}

/// The domain at position `i` of a TLD's bitmap.
pub open spec fn short_domain(i: int) -> Seq<char> {
    if i < 36 {
        seq![val_char(i)]
    } else if i < 1332 {
        let j = i - 36;
        seq![val_char(j / 36), val_char(j % 36)]
    } else {
        let j = i - 1332;
        seq![val_char(j / 1332), val_char((j / 36) % 37), val_char(j % 36)]
    }
}

/// The error for a domain that has no position in the cache.
pub open spec fn domain_index_err(s: Seq<char>) -> ErrorView {
    if s.len() < 1 || s.len() > 3 {
        plain_err("short cache domain '"@ + s + "' must be 1 to 3 characters"@)
    } else {
        plain_err("invalid cache domain '"@ + s + "'"@)
    }
}

fn val_of(c: char) -> (v: u32)
    requires
        is_middle_char(c),
    ensures
        v as int == char_val(c),
        v < 37,
        is_edge_char(c) ==> v < 36,
{
    if 'a' <= c && c <= 'z' {
        (c as u32) - ('a' as u32)
    } else if '0' <= c && c <= '9' {
        26 + ((c as u32) - ('0' as u32))
    } else {
        36
    }
}

fn edge(c: char) -> (b: bool)
    ensures
        b == is_edge_char(c),
{
    ('a' <= c && c <= 'z') || ('0' <= c && c <= '9')
}

/// The bitmap position of a 1-3 character domain (`[a-z0-9]` at both ends,
/// `[a-z0-9-]` in the middle).
pub fn domain_to_index(domain: &str) -> (r: Result<u32, AppError>)
    ensures
        match r {
            Ok(i) => domain_index_spec(domain@) == Some(i as int),
            Err(e) => domain_index_spec(domain@) is None && e@ == domain_index_err(domain@),
        },
{
    let chars = chars_of(domain);
    let len = chars.len();
    if len < 1 || len > 3 {
        let m = concat3("short cache domain '", domain, "' must be 1 to 3 characters");
        return Err(AppError::from_message(m));
    }
    if !edge(chars[0]) || !edge(chars[len - 1]) || (len == 2 && chars[1] == '-')
        || (len == 3 && !edge(chars[1]) && chars[1] != '-') {
        let m = concat3("invalid cache domain '", domain, "'");
        return Err(AppError::from_message(m));
    }
    if len == 1 {
        Ok(val_of(chars[0]))
    } else if len == 2 {
        let a = val_of(chars[0]);
        let b = val_of(chars[1]);
        Ok(36 + a * 36 + b)
    } else {
        let a = val_of(chars[0]);
        let m = val_of(chars[1]);
        let b = val_of(chars[2]);
        Ok(1332u32 + a * 1332u32 + m * 36u32 + b)
    }
}

proof fn lemma_val_char(v: int)
    requires
        0 <= v < 37,
    ensures
        is_middle_char(val_char(v)),
        v < 36 ==> is_edge_char(val_char(v)),
        char_val(val_char(v)) == v,
{
}

proof fn lemma_char_val(c: char)
    requires
        is_middle_char(c),
    ensures
        0 <= char_val(c) < 37,
        is_edge_char(c) ==> char_val(c) < 36,
        val_char(char_val(c)) == c,
{
}

/// Every bitmap position names a domain whose position it is.
pub proof fn lemma_short_domain_index(i: int)
    requires
        0 <= i < DOMAINS_PER_TLD,
    ensures
        domain_index_spec(short_domain(i)) == Some(i),
{
    if i < 36 {
        lemma_val_char(i);
    } else if i < 1332 {
        let j = i - 36;
        assert(0 <= j / 36 < 36 && 0 <= j % 36 < 36) by (nonlinear_arith)
            requires 0 <= j < 1296;
        lemma_val_char(j / 36);
        lemma_val_char(j % 36);
        assert(j == (j / 36) * 36 + j % 36) by (nonlinear_arith);
    } else {
        let j = i - 1332;
        assert(0 <= j / 1332 < 36 && 0 <= (j / 36) % 37 < 37 && 0 <= j % 36 < 36) by (nonlinear_arith)
            requires 0 <= j < 47952;
        lemma_val_char(j / 1332);
        lemma_val_char((j / 36) % 37);
        lemma_val_char(j % 36);
        assert(j == (j / 1332) * 1332 + ((j / 36) % 37) * 36 + j % 36) by (nonlinear_arith)
            requires 0 <= j;
    }
}

/// Every cacheable domain is the domain at its own position: positions and
/// 1-3 character domains correspond one to one.
pub proof fn lemma_domain_index_short_domain(s: Seq<char>)
    requires
        domain_index_spec(s) is Some,
    ensures
        0 <= domain_index_spec(s)->0 < DOMAINS_PER_TLD,
        short_domain(domain_index_spec(s)->0) == s,
{
    let i = domain_index_spec(s)->0;
    if s.len() == 1 {
        lemma_char_val(s[0]);
        assert(short_domain(i) =~= s);
    } else if s.len() == 2 {
        lemma_char_val(s[0]);
        lemma_char_val(s[1]);
        let a = char_val(s[0]);
        let b = char_val(s[1]);
        assert((a * 36 + b) / 36 == a && (a * 36 + b) % 36 == b && a * 36 + b < 1296) by (nonlinear_arith)
            requires 0 <= a < 36, 0 <= b < 36;
        assert(short_domain(i) =~= s);
    } else {
        lemma_char_val(s[0]);
        lemma_char_val(s[1]);
        lemma_char_val(s[2]);
        let a = char_val(s[0]);
        let m = char_val(s[1]);
        let b = char_val(s[2]);
        let j = a * 1332 + m * 36 + b;
        assert(j / 1332 == a && (j / 36) % 37 == m && j % 36 == b && j < 47952) by (nonlinear_arith)
            requires 0 <= a < 36, 0 <= m < 37, 0 <= b < 36, j == a * 1332 + m * 36 + b;
        assert(short_domain(i) =~= s);
    }
}

fn char_of(v: u32) -> (c: char)
    requires
        v < 37,
    ensures
        c == val_char(v as int),
{
    if v < 26 {
        ((v as u8) + 97u8) as char
    } else if v < 36 {
        ((v as u8) - 26u8 + 48u8) as char
    } else {
        '-'
    }
}

/// All 1-3 character domains, in bitmap order.
pub fn all_short_domains() -> (v: Vec<String>)
    ensures
        v@.len() == DOMAINS_PER_TLD,
        forall|i: int| 0 <= i < DOMAINS_PER_TLD ==> (#[trigger] v@[i])@ == short_domain(i),
{
    let mut domains: Vec<String> = Vec::with_capacity(DOMAINS_PER_TLD);
    let mut i: u32 = 0;
    while i < 49_284u32
        invariant
            i <= 49_284,
            domains@.len() == i,
            forall|k: int| 0 <= k < i ==> (#[trigger] domains@[k])@ == short_domain(k),
        decreases 49_284 - i,
    {
        let mut s = String::new();
        if i < 36 {
            push_char(&mut s, char_of(i));
        } else if i < 1332 {
            let j = i - 36;
            assert(j / 36 < 36 && j % 36 < 36) by (nonlinear_arith) requires j < 1296;
            push_char(&mut s, char_of(j / 36));
            push_char(&mut s, char_of(j % 36));
        } else {
            let j = i - 1332;
            assert(j / 1332 < 37 && (j / 36) % 37 < 37 && j % 36 < 36) by (nonlinear_arith)
                requires j < 47952;
            push_char(&mut s, char_of(j / 1332));
            push_char(&mut s, char_of((j / 36) % 37));
            push_char(&mut s, char_of(j % 36));
        }
        assert(s@ =~= short_domain(i as int));
        domains.push(s);
        i = i + 1;
    }
    domains
}

// ---------------------------------------------------------------------------
// Bits
// ---------------------------------------------------------------------------

/// Bit `p` of a bitmap, most significant bit of each byte first.
pub open spec fn bit_at(bitmap: Seq<u8>, p: int) -> bool {
    ((bitmap[p / 8] >> (7 - p % 8) as u8) & 1u8) == 1u8
}

/// Number of bytes of a bitmap for `tld_count` TLDs.
pub open spec fn bitmap_len_spec(tld_count: nat) -> nat {
    ((tld_count * DOMAINS_PER_TLD + 7) / 8) as nat
}

/// Whether a cache of `tld_count` TLDs can be addressed: its bit count fits
/// in `usize`.
pub fn fits_in_cache(tld_count: usize) -> (b: bool)
    ensures
        b == (tld_count * DOMAINS_PER_TLD <= usize::MAX),
{
    let b = tld_count <= usize::MAX / DOMAINS_PER_TLD;
    assert(b == (tld_count * 49284 <= usize::MAX)) by (nonlinear_arith)
        requires b == (tld_count <= usize::MAX / 49284);
    b
}

fn bitmap_len_for_tld_count(tld_count: usize) -> (n: usize)
    requires
        tld_count * DOMAINS_PER_TLD <= usize::MAX,
    ensures
        n == bitmap_len_spec(tld_count as nat),
{
    let bits = tld_count * DOMAINS_PER_TLD;
    bits / 8 + if bits % 8 != 0 { 1 } else { 0 }
}

fn get_bit(bitmap: &[u8], bit_position: usize) -> (b: bool)
    requires
        bit_position / 8 < bitmap@.len(),
    ensures
        b == bit_at(bitmap@, bit_position as int),
{
    let byte_offset = bit_position / 8;
    let bit_offset = bit_position % 8;
    (bitmap[byte_offset] >> ((7 - bit_offset) as u8)) & 1u8 == 1u8
}

proof fn lemma_set_bit_byte(x: u8, k: u8, j: u8, available: bool)
    requires
        k < 8,
        j < 8,
    ensures
        ({
            let mask: u8 = 1u8 << k;
            let y: u8 = if available { x | mask } else { x & !mask };
            &&& (((y >> k) & 1u8) == 1u8) == available
            &&& j != k ==> ((y >> j) & 1u8) == ((x >> j) & 1u8)
        }),
{
    let mask: u8 = 1u8 << k;
    if available {
        assert((((x | mask) >> k) & 1u8) == 1u8) by (bit_vector)
            requires k < 8u8, mask == 1u8 << k;
        assert(j != k ==> (((x | mask) >> j) & 1u8) == ((x >> j) & 1u8)) by (bit_vector)
            requires k < 8u8, j < 8u8, mask == 1u8 << k;
    } else {
        assert((((x & !mask) >> k) & 1u8) == 0u8) by (bit_vector)
            requires k < 8u8, mask == 1u8 << k;
        assert(j != k ==> (((x & !mask) >> j) & 1u8) == ((x >> j) & 1u8)) by (bit_vector)
            requires k < 8u8, j < 8u8, mask == 1u8 << k;
    }
}

fn set_bit(bitmap: &mut Vec<u8>, bit_position: usize, available: bool)
    requires
        bit_position / 8 < old(bitmap)@.len(),
    ensures
        final(bitmap)@.len() == old(bitmap)@.len(),
        bit_at(final(bitmap)@, bit_position as int) == available,
        forall|p: int| 0 <= p < old(bitmap)@.len() * 8 && p != bit_position
            ==> bit_at(final(bitmap)@, p) == bit_at(old(bitmap)@, p),
{
    let byte_offset = bit_position / 8;
    let bit_offset = bit_position % 8;
    let mask: u8 = 1u8 << ((7 - bit_offset) as u8);
    let x = bitmap[byte_offset];
    let y = if available { x | mask } else { x & !mask };
    bitmap.set(byte_offset, y);
    proof {
        let k: u8 = (7 - bit_offset) as u8;
        lemma_set_bit_byte(x, k, k, available);
        assert forall|p: int| 0 <= p < old(bitmap)@.len() * 8 && p != bit_position
            implies bit_at(bitmap@, p) == bit_at(old(bitmap)@, p) by {
            if p / 8 == byte_offset {
                assert(p % 8 != bit_offset);
                lemma_set_bit_byte(x, k, (7 - p % 8) as u8, available);
            }
        }
    }
}


// ---------------------------------------------------------------------------
// Outside calls
// ---------------------------------------------------------------------------

/// The SHA-256 digest of `data`, as computed by the `sha2` crate.
pub uninterp spec fn spec_sha256(data: Seq<u8>) -> Seq<u8>;

/// `sha2::Sha256` over `bytes`. The contract says only that the 32-byte
/// result is the digest of `bytes` (named `spec_sha256`); nothing about how
/// SHA-256 is computed is stated.
#[verifier::external_body]
fn sha256_bytes(bytes: &[u8]) -> (d: [u8; 32])
    ensures
        d@ == spec_sha256(bytes@),
{
    let mut hasher = Sha256::new();
    hasher.update(bytes);
    hasher.finalize().into()
}

/// `std::str::from_utf8`, copied into a `String`: succeeds exactly on valid
/// UTF-8, and then holds the decoded characters.
#[verifier::external_body]
fn utf8_to_string(bytes: &[u8]) -> (r: Option<String>)
    ensures
        r is Some <==> valid_utf8(bytes@),
        r matches Some(s) ==> s@ == decode_utf8(bytes@),
{
    std::str::from_utf8(bytes).ok().map(|s| s.to_string())
}

// ---------------------------------------------------------------------------
// File format
// ---------------------------------------------------------------------------

/// Metadata written next to `cache.bin`.
#[derive(Debug, Clone, PartialEq, Eq)]
pub struct CacheMeta {
    pub format_version: u16,
    pub timestamp: i64,
    pub asset_url: String,
    pub asset_sha256: String,
}

/// The header of a cache file.
#[derive(Debug, Clone, PartialEq, Eq)]
pub struct CacheHeader {
    pub format_version: u16,
    pub timestamp: i64,
    pub tlds: Vec<String>,
    pub checksum: [u8; 32],
}

/// The mathematical content of a [`CacheHeader`].
pub struct HeaderView {
    pub format_version: u16,
    pub timestamp: i64,
    pub tlds: Seq<Seq<char>>,
    pub checksum: Seq<u8>,
}

impl View for CacheHeader {
    type V = HeaderView;

    open spec fn view(&self) -> HeaderView {
        HeaderView {
            format_version: self.format_version,
            timestamp: self.timestamp,
            tlds: self.tlds@.map_values(|t: String| t@),
            checksum: self.checksum@,
        }
    }
}

/// Little-endian bytes of a 16-bit value.
pub open spec fn le16_bytes(x: u16) -> Seq<u8> {
    seq![(x % 256) as u8, (x / 256) as u8]
}

/// The 16-bit value of two little-endian bytes.
pub open spec fn read_le16(b: Seq<u8>, at: int) -> u16 {
    (b[at] as int + 256 * b[at + 1] as int) as u16
}

/// Little-endian bytes of a 64-bit value.
pub open spec fn le64_bytes(x: u64) -> Seq<u8> {
    seq![
        (x & 0xff) as u8, ((x >> 8u64) & 0xff) as u8, ((x >> 16u64) & 0xff) as u8,
        ((x >> 24u64) & 0xff) as u8, ((x >> 32u64) & 0xff) as u8, ((x >> 40u64) & 0xff) as u8,
        ((x >> 48u64) & 0xff) as u8, ((x >> 56u64) & 0xff) as u8,
    ]
}

/// The 64-bit value of eight little-endian bytes.
pub open spec fn read_le64(b: Seq<u8>, at: int) -> u64 {
    (b[at] as u64) | ((b[at + 1] as u64) << 8u64) | ((b[at + 2] as u64) << 16u64)
        | ((b[at + 3] as u64) << 24u64) | ((b[at + 4] as u64) << 32u64)
        | ((b[at + 5] as u64) << 40u64) | ((b[at + 6] as u64) << 48u64)
        | ((b[at + 7] as u64) << 56u64)
}

/// One entry of the TLD table: a length byte, then the UTF-8 bytes.
pub open spec fn tld_entry(t: Seq<char>) -> Seq<u8> {
    seq![encode_utf8(t).len() as u8] + encode_utf8(t)
}

/// The TLD table of a cache file.
pub open spec fn tld_table(tlds: Seq<Seq<char>>) -> Seq<u8>
    decreases tlds.len(),
{
    if tlds.len() == 0 {
        Seq::<u8>::empty()
    } else {
        tld_entry(tlds[0]) + tld_table(tlds.drop_first())
    }
}

/// The bytes of a cache file with the given header fields and bitmap; the
/// stored checksum is that of the bitmap.
pub open spec fn cache_bytes(format_version: u16, timestamp: i64, tlds: Seq<Seq<char>>, bitmap: Seq<u8>) -> Seq<u8> {
    cache_magic() + le16_bytes(format_version) + le64_bytes(timestamp as u64)
        + le16_bytes(tlds.len() as u16) + spec_sha256(bitmap) + tld_table(tlds) + bitmap
}

/// Reads `k` TLD table entries of `b` from offset `off`: the TLDs and the
/// offset after them, or `None` if an entry runs past the end or is not UTF-8.
pub open spec fn parse_table(b: Seq<u8>, off: int, k: nat) -> Option<(Seq<Seq<char>>, int)>
    decreases k,
{
    if k == 0 {
        Some((Seq::<Seq<char>>::empty(), off))
    } else if off >= b.len() {
        None
    } else {
        let l = b[off] as int;
        if off + 1 + l > b.len() {
            None
        } else {
            let piece = b.subrange(off + 1, off + 1 + l);
            if !valid_utf8(piece) {
                None
            } else {
                match parse_table(b, off + 1 + l, (k - 1) as nat) {
                    Some((rest, o)) => Some((seq![decode_utf8(piece)] + rest, o)),
                    None => None,
                }
            }
        }
    }
}

/// The header of a cache file and the offset of its bitmap, or the error
/// reported for it.
pub open spec fn parse_cache_spec(b: Seq<u8>) -> Result<(HeaderView, int), ErrorView> {
    if b.len() < 48 || b.take(4) != cache_magic() {
        Err(cache_integrity_err())
    } else if read_le16(b, 4) != CACHE_FORMAT_VERSION {
        Err(plain_err("unsupported cache format version "@ + dec_digits(read_le16(b, 4) as nat)))
    } else {
        match parse_table(b, 48, read_le16(b, 14) as nat) {
            None => Err(cache_integrity_err()),
            Some((tlds, off)) => {
                if b.len() != off + bitmap_len_spec(tlds.len()) {
                    Err(cache_integrity_err())
                } else if b.subrange(16, 48) != spec_sha256(b.subrange(off, b.len() as int)) {
                    Err(cache_integrity_err())
                } else {
                    Ok((
                        HeaderView {
                            format_version: read_le16(b, 4),
                            timestamp: read_le64(b, 6) as i64,
                            tlds,
                            checksum: b.subrange(16, 48),
                        },
                        off,
                    ))
                }
            },
        }
    }
}

fn put_le16(out: &mut Vec<u8>, x: u16)
    ensures
        final(out)@ == old(out)@ + le16_bytes(x),
{
    let lo: u8 = (x & 0xffu16) as u8;
    let hi: u8 = (x >> 8u16) as u8;
    assert(lo == (x % 256) as u8 && hi == (x / 256) as u8) by (bit_vector)
        requires lo == (x & 0xffu16) as u8, hi == (x >> 8u16) as u8;
    out.push(lo);
    out.push(hi);
    assert(out@ =~= old(out)@ + le16_bytes(x));
}

fn put_le64(out: &mut Vec<u8>, x: u64)
    ensures
        final(out)@ == old(out)@ + le64_bytes(x),
{
    out.push((x & 0xff) as u8);
    out.push(((x >> 8u64) & 0xff) as u8);
    out.push(((x >> 16u64) & 0xff) as u8);
    out.push(((x >> 24u64) & 0xff) as u8);
    out.push(((x >> 32u64) & 0xff) as u8);
    out.push(((x >> 40u64) & 0xff) as u8);
    out.push(((x >> 48u64) & 0xff) as u8);
    out.push(((x >> 56u64) & 0xff) as u8);
    assert(out@ =~= old(out)@ + le64_bytes(x));
}

fn get_le16(b: &[u8], at: usize) -> (x: u16)
    requires
        at + 2 <= b@.len(),
    ensures
        x == read_le16(b@, at as int),
{
    let lo = b[at];
    let hi = b[at + 1];
    let x: u16 = (lo as u16) | ((hi as u16) << 8u16);
    assert(x as int == lo as int + 256 * hi as int) by (bit_vector)
        requires x == (lo as u16) | ((hi as u16) << 8u16);
    x
}

fn get_le64(b: &[u8], at: usize) -> (x: u64)
    requires
        at + 8 <= b@.len(),
    ensures
        x == read_le64(b@, at as int),
{
    (b[at] as u64) | ((b[at + 1] as u64) << 8u64) | ((b[at + 2] as u64) << 16u64)
        | ((b[at + 3] as u64) << 24u64) | ((b[at + 4] as u64) << 32u64)
        | ((b[at + 5] as u64) << 40u64) | ((b[at + 6] as u64) << 48u64)
        | ((b[at + 7] as u64) << 56u64)
}

fn arrays_equal(a: &[u8], b: &[u8]) -> (r: bool)
    ensures
        r == (a@ == b@),
{
    if a.len() != b.len() {
        return false;
    }
    let mut i: usize = 0;
    while i < a.len()
        invariant
            a@.len() == b@.len(),
            i <= a@.len(),
            forall|j: int| 0 <= j < i ==> a@[j] == b@[j],
        decreases a@.len() - i,
    {
        if a[i] != b[i] {
            return false;
        }
        i = i + 1;
    }
    assert(a@ =~= b@);
    true
}

fn parse_header(bytes: &[u8]) -> (r: Result<(CacheHeader, usize), AppError>)
    ensures
        match r {
            Ok((h, off)) => parse_cache_spec(bytes@) == Ok::<(HeaderView, int), ErrorView>((h@, off as int)),
            Err(e) => parse_cache_spec(bytes@) == Err::<(HeaderView, int), ErrorView>(e@),
        },
{
    if bytes.len() < 48 || bytes[0] != 68u8 || bytes[1] != 71u8 || bytes[2] != 82u8 || bytes[3] != 80u8 {
        assert(bytes@.len() >= 48 ==> (bytes@.take(4) == cache_magic() <==> (bytes@[0] == 68u8
            && bytes@[1] == 71u8 && bytes@[2] == 82u8 && bytes@[3] == 80u8))) by {
            if bytes@.len() >= 48 && bytes@[0] == 68u8 && bytes@[1] == 71u8 && bytes@[2] == 82u8 && bytes@[3] == 80u8 {
                assert(bytes@.take(4) =~= cache_magic());
            }
        }
        return Err(AppError::cache_integrity_failed());
    }
    assert(bytes@.take(4) =~= cache_magic());
    let format_version = get_le16(bytes, 4);
    if format_version != CACHE_FORMAT_VERSION {
        let digits = u64_to_decimal(format_version as u64);
        let mut m = String::from_str("unsupported cache format version ");
        m.append(digits.as_str());
        return Err(AppError::from_message(m));
    }
    let timestamp = get_le64(bytes, 6) as i64;
    let tld_count = get_le16(bytes, 14);
    let mut checksum: [u8; 32] = [0u8; 32];
    let mut c: usize = 0;
    while c < 32
        invariant
            c <= 32,
            bytes@.len() >= 48,
            forall|j: int| 0 <= j < c ==> checksum@[j] == bytes@[16 + j],
        decreases 32 - c,
    {
        checksum[c] = bytes[16 + c];
        c = c + 1;
    }
    assert(checksum@ =~= bytes@.subrange(16, 48));

    let mut offset: usize = 48;
    let mut tlds: Vec<String> = Vec::new();
    let mut i: u16 = 0;
    while i < tld_count
        invariant
            i <= tld_count,
            48 <= offset <= bytes@.len(),
            bytes@.len() >= 48,
            bytes@.take(4) == cache_magic(),
            read_le16(bytes@, 4) == CACHE_FORMAT_VERSION,
            tld_count == read_le16(bytes@, 14),
            tlds@.len() == i,
            parse_table(bytes@, 48, tld_count as nat) == match parse_table(bytes@, offset as int, (tld_count - i) as nat) {
                Some((rest, o)) => Some((tlds@.map_values(|t: String| t@) + rest, o)),
                None => None::<(Seq<Seq<char>>, int)>,
            },
        decreases tld_count - i,
    {
        if offset >= bytes.len() {
            return Err(AppError::cache_integrity_failed());
        }
        let len = bytes[offset] as usize;
        offset = offset + 1;
        if len > bytes.len() - offset {
            return Err(AppError::cache_integrity_failed());
        }
        let piece = slice_subrange(bytes, offset, offset + len);
        let tld = match utf8_to_string(piece) {
            Some(t) => t,
            None => { return Err(AppError::cache_integrity_failed()); },
        };
        let ghost before = tlds@.map_values(|t: String| t@);
        offset = offset + len;
        tlds.push(tld);
        assert(tlds@.map_values(|t: String| t@) =~= before.push(decode_utf8(piece@)));
        proof {
            let next = parse_table(bytes@, offset as int, (tld_count - i - 1) as nat);
            match next {
                Some((rest, o)) => {
                    assert(before + (seq![decode_utf8(piece@)] + rest) =~= before.push(decode_utf8(piece@)) + rest);
                },
                None => {},
            }
        }
        i = i + 1;
    }
    assert(tlds@.map_values(|t: String| t@) + Seq::<Seq<char>>::empty() =~= tlds@.map_values(|t: String| t@));
    let bitmap_len = bitmap_len_for_tld_count(tlds.len());
    if bytes.len() - offset != bitmap_len {
        return Err(AppError::cache_integrity_failed());
    }
    let actual = sha256_bytes(slice_subrange(bytes, offset, bytes.len()));
    if !arrays_equal(&checksum, &actual) {
        return Err(AppError::cache_integrity_failed());
    }
    Ok((CacheHeader { format_version, timestamp, tlds, checksum }, offset))
}


// ---------------------------------------------------------------------------
// Cache files
// ---------------------------------------------------------------------------

/// A parsed cache file: its header and the availability bitmap.
#[derive(Debug)]
pub struct CacheFile {
    pub header: CacheHeader,
    bitmap: Vec<u8>,
    read_only: bool,
}

/// The mathematical content of a [`CacheFile`]; `read_only` is set for a
/// file that was loaded from a memory-mapped cache.
pub struct CacheView {
    pub header: HeaderView,
    pub bitmap: Seq<u8>,
    pub read_only: bool,
}

impl View for CacheFile {
    type V = CacheView;

    closed spec fn view(&self) -> CacheView {
        CacheView { header: self.header@, bitmap: self.bitmap@, read_only: self.read_only }
    }
}

/// A bitmap of `n` zero bytes.
pub open spec fn zeros(n: nat) -> Seq<u8> {
    Seq::new(n, |i: int| 0u8)
}

/// A bit position of TLD `tld_index` and domain `domain_index`.
pub open spec fn bit_position(tld_index: int, domain_index: int) -> int {
    tld_index * DOMAINS_PER_TLD + domain_index
}

/// `bitmap` with bit `p` set to `v` and every other bit as before.
pub open spec fn bit_set_to(old: Seq<u8>, new: Seq<u8>, p: int, v: bool) -> bool {
    &&& new.len() == old.len()
    &&& bit_at(new, p) == v
    &&& forall|q: int| 0 <= q < old.len() * 8 && q != p ==> bit_at(new, q) == bit_at(old, q)
}

/// The error for a bit position outside the cache.
pub open spec fn out_of_bounds_err() -> ErrorView {
    plain_err("cache bit position out of bounds"@)
}

/// The error for a write to a memory-mapped cache.
pub open spec fn read_only_err() -> ErrorView {
    plain_err("cannot mutate a memory-mapped cache file"@)
}

proof fn lemma_bit_in_bitmap(count: int, t: int, d: int)
    requires
        0 <= t < count,
        0 <= d < DOMAINS_PER_TLD,
    ensures
        0 <= bit_position(t, d) < count * DOMAINS_PER_TLD,
        bit_position(t, d) / 8 < bitmap_len_spec(count as nat),
{
    assert(0 <= t * 49284 + d < count * 49284) by (nonlinear_arith)
        requires 0 <= t < count, 0 <= d < 49284;
    let x = t * 49284 + d;
    assert(x / 8 < (count * 49284 + 7) / 8) by (nonlinear_arith)
        requires 0 <= x < count * 49284;
}

impl CacheFile {
    /// The bitmap has the length the header's TLD count calls for.
    pub open spec fn wf(&self) -> bool {
        &&& self@.bitmap.len() == bitmap_len_spec(self@.header.tlds.len())
        &&& self@.header.tlds.len() * DOMAINS_PER_TLD <= usize::MAX
    }

    /// A cache for `tlds` with every domain unavailable.
    pub fn empty(tlds: Vec<String>, timestamp: i64) -> (f: Self)
        requires
            tlds@.len() * DOMAINS_PER_TLD <= usize::MAX,
        ensures
            f.wf(),
            f@.header.format_version == CACHE_FORMAT_VERSION,
            f@.header.timestamp == timestamp,
            f@.header.tlds == tlds@.map_values(|t: String| t@),
            f@.bitmap == zeros(bitmap_len_spec(tlds@.len())),
            f@.header.checksum == spec_sha256(zeros(bitmap_len_spec(tlds@.len()))),
            !f@.read_only,
    {
        let n = bitmap_len_for_tld_count(tlds.len());
        let bitmap: Vec<u8> = vec![0u8; n];
        assert(bitmap@ =~= zeros(n as nat));
        let checksum = sha256_bytes(bitmap.as_slice());
        CacheFile {
            header: CacheHeader { format_version: CACHE_FORMAT_VERSION, timestamp, tlds, checksum },
            bitmap,
            read_only: false,
        }
    }

    /// Parses a cache file held in memory.
    pub fn from_bytes(bytes: &[u8]) -> (r: Result<Self, AppError>)
        ensures
            match r {
                Ok(f) => {
                    &&& parse_cache_spec(bytes@) is Ok
                    &&& f@.header == parse_cache_spec(bytes@)->Ok_0.0
                    &&& f@.bitmap == bytes@.subrange(parse_cache_spec(bytes@)->Ok_0.1, bytes@.len() as int)
                    &&& !f@.read_only
                    &&& f.wf()
                },
                Err(e) => parse_cache_spec(bytes@) == Err::<(HeaderView, int), ErrorView>(e@),
            },
    {
        let (header, offset) = match parse_header(bytes) {
            Ok(p) => p,
            Err(e) => { return Err(e); },
        };
        proof {
            lemma_parse_table_len(bytes@, 48, read_le16(bytes@, 14) as nat);
        }
        let bitmap = slice_to_vec(slice_subrange(bytes, offset, bytes.len()));
        Ok(CacheFile { header, bitmap, read_only: false })
    }

    /// Parses a cache file read from a memory mapping; the result refuses writes.
    pub fn from_mapped_bytes(bytes: &[u8]) -> (r: Result<Self, AppError>)
        ensures
            match r {
                Ok(f) => {
                    &&& parse_cache_spec(bytes@) is Ok
                    &&& f@.header == parse_cache_spec(bytes@)->Ok_0.0
                    &&& f@.bitmap == bytes@.subrange(parse_cache_spec(bytes@)->Ok_0.1, bytes@.len() as int)
                    &&& f@.read_only
                    &&& f.wf()
                },
                Err(e) => parse_cache_spec(bytes@) == Err::<(HeaderView, int), ErrorView>(e@),
            },
    {
        let (header, offset) = match parse_header(bytes) {
            Ok(p) => p,
            Err(e) => { return Err(e); },
        };
        proof {
            lemma_parse_table_len(bytes@, 48, read_le16(bytes@, 14) as nat);
        }
        let bitmap = slice_to_vec(slice_subrange(bytes, offset, bytes.len()));
        Ok(CacheFile { header, bitmap, read_only: true })
    }

    /// The file's bytes: header with a checksum of the current bitmap, TLD
    /// table, bitmap.
    pub fn to_bytes(&self) -> (out: Vec<u8>)
        ensures
            out@ == cache_bytes(self@.header.format_version, self@.header.timestamp, self@.header.tlds, self@.bitmap),
            spec_sha256(self@.bitmap).len() == 32,
            self.wf() && self@.header.format_version == CACHE_FORMAT_VERSION && header_fits(self@.header.tlds) ==> {
                let off = 48 + tld_table(self@.header.tlds).len() as int;
                &&& parse_cache_spec(out@) == Ok::<(HeaderView, int), ErrorView>((
                    HeaderView {
                        format_version: CACHE_FORMAT_VERSION,
                        timestamp: self@.header.timestamp,
                        tlds: self@.header.tlds,
                        checksum: spec_sha256(self@.bitmap),
                    },
                    off,
                ))
                &&& out@.subrange(off, out@.len() as int) == self@.bitmap
            },
    {
        let checksum = sha256_bytes(self.bitmap.as_slice());
        let mut bytes: Vec<u8> = Vec::new();
        bytes.push(68u8);
        bytes.push(71u8);
        bytes.push(82u8);
        bytes.push(80u8);
        assert(bytes@ =~= cache_magic());
        put_le16(&mut bytes, self.header.format_version);
        put_le64(&mut bytes, self.header.timestamp as u64);
        put_le16(&mut bytes, self.header.tlds.len() as u16);
        bytes.extend_from_slice(checksum.as_slice());
        let ghost prefix = bytes@;
        assert(prefix =~= cache_magic() + le16_bytes(self@.header.format_version)
            + le64_bytes(self@.header.timestamp as u64) + le16_bytes(self@.header.tlds.len() as u16)
            + spec_sha256(self@.bitmap));
        let ghost tl = self@.header.tlds;
        let mut i: usize = 0;
        while i < self.header.tlds.len()
            invariant
                i <= self.header.tlds@.len(),
                tl == self@.header.tlds,
                bytes@ == prefix + tld_table(tl.take(i as int)),
            decreases self.header.tlds@.len() - i,
        {
            let t = self.header.tlds[i].as_str();
            let tb = t.as_bytes();
            bytes.push(tb.len() as u8);
            bytes.extend_from_slice(tb);
            proof {
                lemma_tld_table_push(tl.take(i as int), tl[i as int]);
                assert(tl.take(i + 1) =~= tl.take(i as int).push(tl[i as int]));
            }
            assert(bytes@ =~= prefix + tld_table(tl.take(i + 1)));
            i = i + 1;
        }
        assert(tl.take(tl.len() as int) =~= tl);
        bytes.extend_from_slice(self.bitmap.as_slice());
        assert(bytes@ =~= cache_bytes(self@.header.format_version, self@.header.timestamp, tl, self@.bitmap));
        proof {
            assert(checksum@.len() == 32);
            if self.wf() && self@.header.format_version == CACHE_FORMAT_VERSION && header_fits(tl) {
                lemma_cache_round_trip(self@.header.timestamp, tl, self@.bitmap);
            }
        }
        bytes
    }

    /// The header.
    pub fn header_ref(&self) -> (h: &CacheHeader)
        ensures
            h@ == self@.header,
    {
        &self.header
    }

    /// The availability bitmap.
    pub fn bitmap(&self) -> (b: &[u8])
        ensures
            b@ == self@.bitmap,
    {
        self.bitmap.as_slice()
    }

    /// Sets the availability of a 1-3 character domain for TLD `tld_index`.
    pub fn set_available_by_index(&mut self, tld_index: usize, domain: &str, available: bool) -> (r: Result<(), AppError>)
        requires
            old(self).wf(),
        ensures
            final(self).wf(),
            match domain_index_spec(domain@) {
                None => r matches Err(e) && e@ == domain_index_err(domain@) && final(self)@ == old(self)@,
                Some(d) => {
                    if tld_index >= old(self)@.header.tlds.len() {
                        r matches Err(e) && e@ == out_of_bounds_err() && final(self)@ == old(self)@
                    } else if old(self)@.read_only {
                        r matches Err(e) && e@ == read_only_err() && final(self)@ == old(self)@
                    } else {
                        &&& r is Ok
                        &&& final(self)@.header == old(self)@.header
                        &&& final(self)@.read_only == old(self)@.read_only
                        &&& bit_set_to(old(self)@.bitmap, final(self)@.bitmap, bit_position(tld_index as int, d), available)
                    }
                },
            },
    {
        match domain_to_index(domain) {
            Ok(domain_index) => {
                proof { lemma_domain_index_short_domain(domain@); }
                self.set_available_raw(tld_index, domain_index as usize, available)
            },
            Err(e) => Err(e),
        }
    }

    /// Sets bit `domain_index` of TLD `tld_index`.
    pub fn set_available_raw(&mut self, tld_index: usize, domain_index: usize, available: bool) -> (r: Result<(), AppError>)
        requires
            old(self).wf(),
        ensures
            final(self).wf(),
            if tld_index >= old(self)@.header.tlds.len() || domain_index >= DOMAINS_PER_TLD {
                r matches Err(e) && e@ == out_of_bounds_err() && final(self)@ == old(self)@
            } else if old(self)@.read_only {
                r matches Err(e) && e@ == read_only_err() && final(self)@ == old(self)@
            } else {
                &&& r is Ok
                &&& final(self)@.header == old(self)@.header
                &&& final(self)@.read_only == old(self)@.read_only
                &&& bit_set_to(old(self)@.bitmap, final(self)@.bitmap, bit_position(tld_index as int, domain_index as int), available)
            },
    {
        if tld_index >= self.header.tlds.len() || domain_index >= DOMAINS_PER_TLD {
            return Err(AppError::new("cache bit position out of bounds"));
        }
        proof { lemma_bit_in_bitmap(self.header.tlds@.len() as int, tld_index as int, domain_index as int); }
        let bit_position = tld_index * DOMAINS_PER_TLD + domain_index;
        if self.read_only {
            return Err(AppError::new("cannot mutate a memory-mapped cache file"));
        }
        set_bit(&mut self.bitmap, bit_position, available);
        Ok(())
    }

    /// Recomputes the header checksum from the current bitmap.
    pub fn finalize_checksum(&mut self)
        ensures
            final(self)@ == (CacheView {
                header: HeaderView { checksum: spec_sha256(old(self)@.bitmap), ..old(self)@.header },
                ..old(self)@
            }),
    {
        self.header.checksum = sha256_bytes(self.bitmap.as_slice());
    }

    /// Availability of a 1-3 character domain for TLD `tld_index`.
    pub fn lookup_by_index(&self, tld_index: usize, domain: &str) -> (r: Result<bool, AppError>)
        requires
            domain_index_spec(domain@) matches Some(d) ==> bit_position(tld_index as int, d) <= usize::MAX
                && bit_position(tld_index as int, d) / 8 < self@.bitmap.len(),
        ensures
            match domain_index_spec(domain@) {
                None => r matches Err(e) && e@ == domain_index_err(domain@),
                Some(d) => r == Ok::<bool, AppError>(bit_at(self@.bitmap, bit_position(tld_index as int, d))),
            },
    {
        match domain_to_index(domain) {
            Ok(domain_index) => Ok(self.is_available_raw(tld_index, domain_index as usize)),
            Err(e) => Err(e),
        }
    }

    /// Bit `domain_index` of TLD `tld_index`.
    pub fn is_available_raw(&self, tld_index: usize, domain_index: usize) -> (b: bool)
        requires
            bit_position(tld_index as int, domain_index as int) <= usize::MAX,
            bit_position(tld_index as int, domain_index as int) / 8 < self@.bitmap.len(),
        ensures
            b == bit_at(self@.bitmap, bit_position(tld_index as int, domain_index as int)),
    {
        assert(tld_index * DOMAINS_PER_TLD <= bit_position(tld_index as int, domain_index as int));
        let bit_position = tld_index * DOMAINS_PER_TLD + domain_index;
        get_bit(self.bitmap.as_slice(), bit_position)
    }
}

/// Reading a domain's availability gives back what was last written: after
/// one domain of one TLD is set to `v`, it reads `v`, and every other
/// domain of every TLD reads as before.
pub proof fn lemma_read_after_write(old_bm: Seq<u8>, new_bm: Seq<u8>, t: int, d: int, v: bool, t2: int, d2: int)
    requires
        bit_set_to(old_bm, new_bm, bit_position(t, d), v),
        0 <= t,
        0 <= t2,
        0 <= d < DOMAINS_PER_TLD,
        0 <= d2 < DOMAINS_PER_TLD,
        bit_position(t2, d2) < old_bm.len() * 8,
    ensures
        bit_at(new_bm, bit_position(t2, d2)) == if t2 == t && d2 == d { v } else { bit_at(old_bm, bit_position(t2, d2)) },
{
    if !(t2 == t && d2 == d) {
        assert(bit_position(t2, d2) != bit_position(t, d)) by (nonlinear_arith)
            requires
                !(t2 == t && d2 == d),
                0 <= t,
                0 <= t2,
                0 <= d < 49284,
                0 <= d2 < 49284,
                bit_position(t2, d2) == t2 * 49284 + d2,
                bit_position(t, d) == t * 49284 + d,
        {
            if t2 == t {
            } else if t2 < t {
                assert(t2 * 49284 + d2 < (t2 + 1) * 49284);
                assert((t2 + 1) * 49284 <= t * 49284);
            } else {
                assert(t * 49284 + d < (t + 1) * 49284);
                assert((t + 1) * 49284 <= t2 * 49284);
            }
        }
    }
}

proof fn lemma_parse_table_len(b: Seq<u8>, off: int, k: nat)
    ensures
        parse_table(b, off, k) matches Some((ts, o)) ==> ts.len() == k && off <= o,
    decreases k,
{
    if k > 0 && off < b.len() {
        let l = b[off] as int;
        lemma_parse_table_len(b, off + 1 + l, (k - 1) as nat);
    }
}

proof fn lemma_tld_table_push(tlds: Seq<Seq<char>>, t: Seq<char>)
    ensures
        tld_table(tlds.push(t)) == tld_table(tlds) + tld_entry(t),
    decreases tlds.len(),
{
    if tlds.len() == 0 {
        assert(tlds.push(t).drop_first() =~= Seq::<Seq<char>>::empty());
        assert(tld_table(Seq::<Seq<char>>::empty()) == Seq::<u8>::empty());
        assert(tld_table(tlds.push(t)) =~= tld_entry(t) + Seq::<u8>::empty());
        assert(tld_table(tlds) + tld_entry(t) =~= tld_entry(t));
    } else {
        lemma_tld_table_push(tlds.drop_first(), t);
        assert(tlds.push(t).drop_first() =~= tlds.drop_first().push(t));
        assert(tld_table(tlds.push(t)) =~= tld_entry(tlds[0]) + (tld_table(tlds.drop_first()) + tld_entry(t)));
    }
}


proof fn lemma_le16_round_trip(x: u16)
    ensures
        read_le16(le16_bytes(x), 0) == x,
{
}

proof fn lemma_le64_round_trip(x: u64)
    ensures
        read_le64(le64_bytes(x), 0) == x,
{
    let b0 = (x & 0xff) as u8;
    let b1 = ((x >> 8u64) & 0xff) as u8;
    let b2 = ((x >> 16u64) & 0xff) as u8;
    let b3 = ((x >> 24u64) & 0xff) as u8;
    let b4 = ((x >> 32u64) & 0xff) as u8;
    let b5 = ((x >> 40u64) & 0xff) as u8;
    let b6 = ((x >> 48u64) & 0xff) as u8;
    let b7 = ((x >> 56u64) & 0xff) as u8;
    assert((b0 as u64) | ((b1 as u64) << 8u64) | ((b2 as u64) << 16u64) | ((b3 as u64) << 24u64)
        | ((b4 as u64) << 32u64) | ((b5 as u64) << 40u64) | ((b6 as u64) << 48u64)
        | ((b7 as u64) << 56u64) == x) by (bit_vector)
        requires
            b0 == (x & 0xff) as u8, b1 == ((x >> 8u64) & 0xff) as u8,
            b2 == ((x >> 16u64) & 0xff) as u8, b3 == ((x >> 24u64) & 0xff) as u8,
            b4 == ((x >> 32u64) & 0xff) as u8, b5 == ((x >> 40u64) & 0xff) as u8,
            b6 == ((x >> 48u64) & 0xff) as u8, b7 == ((x >> 56u64) & 0xff) as u8;
}

proof fn lemma_parse_table_of_table(b: Seq<u8>, off: int, tlds: Seq<Seq<char>>)
    requires
        0 <= off,
        off + tld_table(tlds).len() <= b.len(),
        b.subrange(off, off + tld_table(tlds).len()) == tld_table(tlds),
        forall|i: int| 0 <= i < tlds.len() ==> encode_utf8(#[trigger] tlds[i]).len() < 256,
    ensures
        parse_table(b, off, tlds.len()) == Some((tlds, off + tld_table(tlds).len())),
    decreases tlds.len(),
{
    broadcast use vstd::utf8::encode_utf8_valid_utf8, vstd::utf8::encode_utf8_decode_utf8;
    if tlds.len() == 0 {
        assert(tlds =~= Seq::<Seq<char>>::empty());
    } else {
        let t = tlds[0];
        let e = encode_utf8(t);
        let rest = tlds.drop_first();
        assert(encode_utf8(tlds[0]).len() < 256);
        let l = e.len() as int;
        let tab = tld_table(tlds);
        assert(tab == seq![e.len() as u8] + e + tld_table(rest));
        assert(b[off] == tab[0]);
        assert(b[off] as int == l);
        let sub = b.subrange(off, off + tab.len());
        assert forall|k: int| 0 <= k < l implies b.subrange(off + 1, off + 1 + l)[k] == e[k] by {
            assert(sub[1 + k] == b[off + 1 + k]);
            assert(tab[1 + k] == e[k]);
        }
        assert(b.subrange(off + 1, off + 1 + l) =~= e);
        let rt = tld_table(rest);
        assert forall|k: int| 0 <= k < rt.len() implies b.subrange(off + 1 + l, off + 1 + l + rt.len())[k] == rt[k] by {
            assert(sub[1 + l + k] == b[off + 1 + l + k]);
            assert(tab[1 + l + k] == rt[k]);
        }
        assert(b.subrange(off + 1 + l, off + 1 + l + rt.len()) =~= rt);
        assert forall|i: int| 0 <= i < rest.len() implies encode_utf8(#[trigger] rest[i]).len() < 256 by {
            assert(rest[i] == tlds[i + 1]);
        }
        lemma_parse_table_of_table(b, off + 1 + l, rest);
        assert(seq![t] + rest =~= tlds);
    }
}

/// Whether the TLDs fit the header: their count the 16-bit count field,
/// and each one's UTF-8 length the 8-bit length field.
pub open spec fn header_fits(tlds: Seq<Seq<char>>) -> bool {
    &&& tlds.len() < 65536
    &&& forall|i: int| 0 <= i < tlds.len() ==> encode_utf8(#[trigger] tlds[i]).len() < 256
}

#[verifier::rlimit(50)]
/// What a cache file reads back of what was written: parsing the bytes of a
/// cache with format version 1 gives back its timestamp and TLDs, a checksum
/// equal to the digest of its bitmap, and the bitmap itself. The TLD count
/// must fit the 16-bit count field and every TLD the 8-bit length field.
pub proof fn lemma_cache_round_trip(timestamp: i64, tlds: Seq<Seq<char>>, bitmap: Seq<u8>)
    requires
        tlds.len() < 65536,
        forall|i: int| 0 <= i < tlds.len() ==> encode_utf8(#[trigger] tlds[i]).len() < 256,
        bitmap.len() == bitmap_len_spec(tlds.len()),
        spec_sha256(bitmap).len() == 32,
    ensures
        ({
            let b = cache_bytes(CACHE_FORMAT_VERSION, timestamp, tlds, bitmap);
            let off = 48 + tld_table(tlds).len() as int;
            &&& parse_cache_spec(b) == Ok::<(HeaderView, int), ErrorView>((
                HeaderView {
                    format_version: CACHE_FORMAT_VERSION,
                    timestamp,
                    tlds,
                    checksum: spec_sha256(bitmap),
                },
                off,
            ))
            &&& b.subrange(off, b.len() as int) == bitmap
        }),
{
    let b = cache_bytes(CACHE_FORMAT_VERSION, timestamp, tlds, bitmap);
    let tab = tld_table(tlds);
    let off = 48 + tab.len() as int;
    let v = le16_bytes(CACHE_FORMAT_VERSION);
    let t8 = le64_bytes(timestamp as u64);
    let c = le16_bytes(tlds.len() as u16);
    let d = spec_sha256(bitmap);
    assert(b == cache_magic() + v + t8 + c + d + tab + bitmap);
    assert(b.len() == off + bitmap.len());
    assert(b.take(4) =~= cache_magic());
    lemma_le16_round_trip(CACHE_FORMAT_VERSION);
    assert(b.subrange(4, 6) =~= v);
    assert(read_le16(b, 4) == read_le16(v, 0));
    lemma_le64_round_trip(timestamp as u64);
    assert(b.subrange(6, 14) =~= t8);
    assert(read_le64(b, 6) == read_le64(t8, 0));
    assert(((timestamp as u64) as i64) == timestamp) by (bit_vector);
    lemma_le16_round_trip(tlds.len() as u16);
    assert(b.subrange(14, 16) =~= c);
    assert(read_le16(b, 14) == read_le16(c, 0));
    assert(read_le16(b, 14) as nat == tlds.len());
    assert(b.subrange(48, off) =~= tab);
    lemma_parse_table_of_table(b, 48, tlds);
    assert(b.subrange(16, 48) =~= d);
    assert(b.subrange(off, b.len() as int) =~= bitmap);
}

/// `new` is `old` with the bit slice of TLD `dst` replaced by the bit slice
/// of TLD `src` in `src_bm`: each of its `DOMAINS_PER_TLD` bits equals the
/// source bit of the same domain, and every bit outside the slice is kept.
pub open spec fn tld_slice_copied(old: Seq<u8>, new: Seq<u8>, dst: int, src_bm: Seq<u8>, src: int) -> bool {
    &&& new.len() == old.len()
    &&& forall|d: int| 0 <= d < DOMAINS_PER_TLD
        ==> #[trigger] bit_at(new, bit_position(dst, d)) == bit_at(src_bm, bit_position(src, d))
    &&& forall|q: int| 0 <= q < old.len() * 8 && !(bit_position(dst, 0) <= q < bit_position(dst + 1, 0))
        ==> #[trigger] bit_at(new, q) == bit_at(old, q)
}

proof fn lemma_byte_of_bit(p: int, n: int)
    requires
        0 <= p < n * 8,
    ensures
        p / 8 < n,
{
}

impl CacheFile {
    /// Copies the bit slice of TLD `src_tld_index` in `src_bitmap` over that
    /// of TLD `dst_tld_index`, bit by bit; every other bit is kept.
    pub fn copy_tld_bitmap(&mut self, dst_tld_index: usize, src_bitmap: &[u8], src_tld_index: usize) -> (r: Result<(), AppError>)
        requires
            old(self).wf(),
            (src_tld_index + 1) * DOMAINS_PER_TLD <= usize::MAX,
            dst_tld_index < old(self)@.header.tlds.len() && !old(self)@.read_only
                ==> (src_tld_index + 1) * DOMAINS_PER_TLD <= src_bitmap@.len() * 8,
        ensures
            final(self).wf(),
            if dst_tld_index >= old(self)@.header.tlds.len() {
                r matches Err(e) && e@ == plain_err("destination TLD index out of bounds"@) && final(self)@ == old(self)@
            } else if old(self)@.read_only {
                r matches Err(e) && e@ == read_only_err() && final(self)@ == old(self)@
            } else {
                &&& r is Ok
                &&& final(self)@.header == old(self)@.header
                &&& final(self)@.read_only == old(self)@.read_only
                &&& tld_slice_copied(old(self)@.bitmap, final(self)@.bitmap, dst_tld_index as int,
                        src_bitmap@, src_tld_index as int)
            },
    {
        if dst_tld_index >= self.header.tlds.len() {
            return Err(AppError::new("destination TLD index out of bounds"));
        }
        if self.read_only {
            return Err(AppError::new("cannot mutate a memory-mapped cache file"));
        }
        let ghost count = self.header.tlds@.len() as int;
        proof {
            assert(dst_tld_index * 49284 + 49284 <= count * 49284) by (nonlinear_arith)
                requires dst_tld_index < count;
            assert(count * 49284 <= ((count * 49284 + 7) / 8) * 8) by (nonlinear_arith)
                requires count >= 0;
            assert(src_tld_index * 49284 + 49284 == (src_tld_index + 1) * 49284) by (nonlinear_arith);
        }
        let bits = DOMAINS_PER_TLD;
        let src_bit_start = src_tld_index * bits;
        let dst_bit_start = dst_tld_index * bits;
        let ghost old_bm = self.bitmap@;
        let ghost old_view = self@;
        let ghost src = src_bitmap@;
        let mut i: usize = 0;
        while i < bits
            invariant
                bits == DOMAINS_PER_TLD,
                src == src_bitmap@,
                old_bm == old_view.bitmap,
                self@.header == old_view.header,
                self@.read_only == old_view.read_only,
                !self@.read_only,
                old_view.header.tlds.len() == count,
                i <= bits,
                src_bit_start == src_tld_index * DOMAINS_PER_TLD,
                dst_bit_start == dst_tld_index * DOMAINS_PER_TLD,
                src_bit_start + DOMAINS_PER_TLD <= src.len() * 8,
                dst_bit_start + DOMAINS_PER_TLD <= old_bm.len() * 8,
                src_bit_start + DOMAINS_PER_TLD <= usize::MAX,
                dst_bit_start + DOMAINS_PER_TLD <= usize::MAX,
                self.bitmap@.len() == old_bm.len(),
                forall|d: int| 0 <= d < i
                    ==> #[trigger] bit_at(self.bitmap@, dst_bit_start + d) == bit_at(src, src_bit_start + d),
                forall|q: int| 0 <= q < old_bm.len() * 8 && !(dst_bit_start <= q < dst_bit_start + i)
                    ==> #[trigger] bit_at(self.bitmap@, q) == bit_at(old_bm, q),
            decreases bits - i,
        {
            proof {
                lemma_byte_of_bit((src_bit_start + i) as int, src.len() as int);
                lemma_byte_of_bit((dst_bit_start + i) as int, old_bm.len() as int);
            }
            let v = get_bit(src_bitmap, src_bit_start + i);
            let ghost before = self.bitmap@;
            set_bit(&mut self.bitmap, dst_bit_start + i, v);
            proof {
                assert forall|d: int| 0 <= d < i + 1
                    implies #[trigger] bit_at(self.bitmap@, dst_bit_start + d) == bit_at(src, src_bit_start + d) by {
                    if d < i {
                        assert(bit_at(before, dst_bit_start + d) == bit_at(src, src_bit_start + d));
                    }
                }
                assert forall|q: int| 0 <= q < old_bm.len() * 8 && !(dst_bit_start <= q < dst_bit_start + i + 1)
                    implies #[trigger] bit_at(self.bitmap@, q) == bit_at(old_bm, q) by {
                    assert(bit_at(before, q) == bit_at(old_bm, q));
                }
            }
            i = i + 1;
        }
        proof {
            let nb = self.bitmap@;
            assert forall|d: int| 0 <= d < DOMAINS_PER_TLD implies
                #[trigger] bit_at(nb, bit_position(dst_tld_index as int, d))
                    == bit_at(src, bit_position(src_tld_index as int, d)) by {
                assert(bit_at(nb, dst_bit_start + d) == bit_at(src, src_bit_start + d));
            }
            assert forall|q: int| 0 <= q < old_bm.len() * 8
                && !(bit_position(dst_tld_index as int, 0) <= q < bit_position(dst_tld_index as int + 1, 0))
                implies #[trigger] bit_at(nb, q) == bit_at(old_bm, q) by {
                assert(!(dst_bit_start <= q < dst_bit_start + DOMAINS_PER_TLD));
            }
        }
        Ok(())
    }
}


// ---------------------------------------------------------------------------
// Cache store
// ---------------------------------------------------------------------------

/// The last index at which `t` occurs in `s`.
pub open spec fn last_index_of(s: Seq<Seq<char>>, t: Seq<char>) -> Option<int>
    decreases s.len(),
{
    if s.len() == 0 {
        None
    } else if s.last() == t {
        Some(s.len() - 1)
    } else {
        last_index_of(s.drop_last(), t)
    }
}

proof fn lemma_last_index_bounds(s: Seq<Seq<char>>, t: Seq<char>)
    ensures
        last_index_of(s, t) matches Some(i) ==> 0 <= i < s.len() && s[i] == t,
    decreases s.len(),
{
    if s.len() > 0 && s.last() != t {
        lemma_last_index_bounds(s.drop_last(), t);
    }
}

/// What a lookup of `domain` under `tld` gives: the availability bit of the
/// domain in the last occurrence of the TLD, or the error for an unknown
/// TLD or a domain outside the cached space.
pub open spec fn lookup_spec(f: CacheView, domain: Seq<char>, tld: Seq<char>) -> Result<bool, ErrorView> {
    match last_index_of(f.header.tlds, tld) {
        None => Err(plain_err("unknown TLD '."@ + tld + "' in cache lookup"@)),
        Some(i) => match domain_index_spec(domain) {
            None => Err(domain_index_err(domain)),
            Some(d) => Ok(bit_at(f.bitmap, bit_position(i, d))),
        },
    }
}

/// The loaded cache, with the directory it was loaded from.
#[derive(Debug)]
pub struct CacheStore {
    file: CacheFile,
    cache_dir: String,
}

impl CacheStore {
    #[verifier::type_invariant]
    spec fn inv(&self) -> bool {
        self.file.wf()
    }

    /// The content of the loaded cache file.
    pub closed spec fn file_view(&self) -> CacheView {
        self.file@
    }

    /// The cache directory.
    pub closed spec fn dir_view(&self) -> Seq<char> {
        self.cache_dir@
    }

    /// A store over a loaded cache file.
    pub fn from_file(file: CacheFile, cache_dir: String) -> (s: Self)
        requires
            file.wf(),
        ensures
            s.file_view() == file@,
            s.dir_view() == cache_dir@,
    {
        CacheStore { file, cache_dir }
    }

    pub fn header(&self) -> (h: &CacheHeader)
        ensures
            h@ == self.file_view().header,
    {
        &self.file.header
    }

    pub fn cache_dir(&self) -> (d: &str)
        ensures
            d@ == self.dir_view(),
    {
        self.cache_dir.as_str()
    }

    /// The TLDs of the cache, in file order.
    pub fn tlds(&self) -> (t: &[String])
        ensures
            t@.map_values(|s: String| s@) == self.file_view().header.tlds,
    {
        self.file.header.tlds.as_slice()
    }

    /// Availability of a 1-3 character domain under `tld`; when a TLD occurs
    /// more than once in the file, its last occurrence counts.
    pub fn lookup(&self, domain: &str, tld: &str) -> (r: Result<bool, AppError>)
        ensures
            match r {
                Ok(b) => lookup_spec(self.file_view(), domain@, tld@) == Ok::<bool, ErrorView>(b),
                Err(e) => lookup_spec(self.file_view(), domain@, tld@) == Err::<bool, ErrorView>(e@),
            },
            match last_index_of(self.file_view().header.tlds, tld@) {
                None => r matches Err(e) && e@ == plain_err("unknown TLD '."@ + tld@ + "' in cache lookup"@),
                Some(i) => match domain_index_spec(domain@) {
                    None => r matches Err(e) && e@ == domain_index_err(domain@),
                    Some(d) => r == Ok::<bool, AppError>(bit_at(self.file_view().bitmap, bit_position(i, d))),
                },
            },
    {
        proof { use_type_invariant(self); }
        let target = chars_of(tld);
        let tlds = &self.file.header.tlds;
        let ghost tv = self.file_view().header.tlds;
        let mut j: usize = tlds.len();
        assert(tv.take(tv.len() as int) =~= tv);
        while j > 0
            invariant
                j <= tlds@.len(),
                tv == tlds@.map_values(|s: String| s@),
                target@ == tld@,
                last_index_of(tv, tld@) == last_index_of(tv.take(j as int), tld@),
            ensures
                j > 0 ==> last_index_of(tv, tld@) == Some(j - 1),
                j == 0 ==> last_index_of(tv, tld@) is None,
            decreases j,
        {
            let c = chars_of(tlds[j - 1].as_str());
            assert(tv.take(j as int).drop_last() =~= tv.take(j - 1));
            if chars_eq(&c, &target) {
                break;
            }
            j = j - 1;
        }
        if j == 0 {
            let mut m = String::from_str("unknown TLD '.");
            m.append(tld);
            m.append("' in cache lookup");
            return Err(AppError::from_message(m));
        }
        let index = j - 1;
        match domain_to_index(domain) {
            Ok(d) => {
                proof {
                    lemma_domain_index_short_domain(domain@);
                    lemma_last_index_bounds(tv, tld@);
                    lemma_bit_in_bitmap(tv.len() as int, index as int, d as int);
                }
                Ok(self.file.is_available_raw(index, d as usize))
            },
            Err(e) => Err(e),
        }
    }

    /// Whether the cache is due for a refresh at time `now` (seconds since
    /// the epoch): the timestamp recorded in `cache.meta` if there is one,
    /// else that of the cache header, is a day old or more.
    pub fn is_stale(&self, meta_timestamp: Option<i64>, now: i64) -> (b: bool)
        ensures
            b == (now - match meta_timestamp {
                Some(t) => t,
                None => self.file_view().header.timestamp,
            } >= CACHE_MAX_AGE_SECONDS),
    {
        let timestamp = match meta_timestamp {
            Some(t) => t,
            None => self.file.header.timestamp,
        };
        (now as i128) - (timestamp as i128) >= CACHE_MAX_AGE_SECONDS as i128
    }
}

// ---------------------------------------------------------------------------
// Cache location and downloaded assets
// ---------------------------------------------------------------------------

/// `dir` joined with a relative file name, with a `/` between them unless
/// `dir` is empty or already ends with one.
pub open spec fn path_join(dir: Seq<char>, name: Seq<char>) -> Seq<char> {
    if dir.len() == 0 {
        name
    } else if dir.last() == '/' {
        dir + name
    } else {
        dir + "/"@ + name
    }
}

pub(crate) fn join_path(dir: &str, name: &str) -> (p: String)
    ensures
        p@ == path_join(dir@, name@),
{
    let d = chars_of(dir);
    if d.len() == 0 {
        String::from_str(name)
    } else if d[d.len() - 1] == '/' {
        concat2(dir, name)
    } else {
        concat3(dir, "/", name)
    }
}

/// Where the cache lives and where fresh copies are downloaded from.
#[derive(Debug, Clone)]
pub struct CacheConfig {
    pub cache_dir: String,
    pub asset_url: String,
    pub checksum_url: String,
}

impl CacheConfig {
    /// `<cache_dir>/cache.bin`.
    pub fn cache_bin_path(&self) -> (p: String)
        ensures
            p@ == path_join(self.cache_dir@, "cache.bin"@),
    {
        join_path(self.cache_dir.as_str(), "cache.bin")
    }

    /// `<cache_dir>/cache.meta`.
    pub fn cache_meta_path(&self) -> (p: String)
        ensures
            p@ == path_join(self.cache_dir@, "cache.meta"@),
    {
        join_path(self.cache_dir.as_str(), "cache.meta")
    }
}

/// The first whitespace-separated word of a checksum file, lowercased.
pub open spec fn parse_checksum_spec(input: Seq<char>) -> Option<Seq<char>> {
    let i = find_ws(input, 0, false);
    if i >= input.len() {
        None
    } else {
        Some(lower_seq(input.subrange(i, find_ws(input, i, true))))
    }
}

/// The expected digest named in a `.sha256` file: its first word, lowercased.
pub fn parse_checksum(input: &str) -> (r: Option<String>)
    ensures
        match r {
            Some(s) => parse_checksum_spec(input@) == Some(s@),
            None => parse_checksum_spec(input@) is None,
        },
{
    let c = chars_of(input);
    let i = scan_ws(&c, 0, false);
    if i >= c.len() {
        return None;
    }
    proof { lemma_find_ws_bounds(c@, i as int, true); }
    let j = scan_ws(&c, i, true);
    let word = lower_chars(&c.as_slice()[i..j]);
    Some(crate::text::string_from_chars(&word))
}

/// Lowercase hexadecimal SHA-256 digest of `bytes`.
pub fn hex_sha256(bytes: &[u8]) -> (s: String)
    ensures
        s@ == hex_lower(spec_sha256(bytes@)),
{
    let d = sha256_bytes(bytes);
    to_hex_lower(d.as_slice())
}

/// What gzip decompression (the `flate2` crate) yields for `data`: the
/// decompressed bytes, or `None` when `data` is not a valid gzip stream.
pub uninterp spec fn spec_gunzip(data: Seq<u8>) -> Option<Seq<u8>>;

/// `flate2::read::GzDecoder` over `data`, read to the end. The contract
/// names the outcome `spec_gunzip(data)`; the text of the error is not stated.
#[verifier::external_body]
fn gunzip(data: &[u8]) -> (r: Result<Vec<u8>, String>)
    ensures
        match r {
            Ok(v) => spec_gunzip(data@) == Some(v@),
            Err(_) => spec_gunzip(data@) is None,
        },
{
    let mut decoder = GzDecoder::new(data);
    let mut output = Vec::new();
    match decoder.read_to_end(&mut output) {
        Ok(_) => Ok(output),
        Err(err) => Err(err.to_string()),
    }
}

/// Decompresses a downloaded cache asset.
pub fn decompress_gzip(bytes: &[u8]) -> (r: Result<Vec<u8>, AppError>)
    ensures
        match r {
            Ok(v) => spec_gunzip(bytes@) == Some(v@),
            Err(e) => spec_gunzip(bytes@) is None
                && exists|m: Seq<char>| e@ == io_err("failed to decompress cache asset"@, m),
        },
{
    match gunzip(bytes) {
        Ok(v) => Ok(v),
        Err(msg) => {
            let e = AppError::io("failed to decompress cache asset", msg.as_str());
            assert(e@ == io_err("failed to decompress cache asset"@, msg@));
            Err(e)
        },
    }
}


/// The outcome of unpacking a downloaded cache asset, given the checksum
/// file's text and the compressed asset.
pub open spec fn unpack_spec(checksum_text: Seq<char>, compressed: Seq<u8>) -> Result<(Seq<u8>, HeaderView, int, Seq<char>), Option<ErrorView>> {
    match parse_checksum_spec(checksum_text) {
        None => Err(Some(crate::error::cache_download_failed_err())),
        Some(expected) => {
            if hex_lower(spec_sha256(compressed)) != expected {
                Err(Some(cache_integrity_err()))
            } else {
                match spec_gunzip(compressed) {
                    None => Err(None),
                    Some(bytes) => match parse_cache_spec(bytes) {
                        Err(e) => Err(Some(e)),
                        Ok((h, off)) => Ok((bytes, h, off, expected)),
                    },
                }
            }
        },
    }
}

/// Checks a downloaded cache asset against the expected digest (the first
/// word of the checksum file), decompresses it and parses it. Returns the
/// decompressed bytes, the parsed file and the expected digest.
pub fn unpack_cache_asset(checksum_text: &str, compressed: &[u8]) -> (r: Result<(Vec<u8>, CacheFile, String), AppError>)
    ensures
        match r {
            Ok((bytes, f, sha)) => unpack_spec(checksum_text@, compressed@) matches Ok((b, h, off, x))
                && bytes@ == b && f@.header == h && f@.bitmap == b.subrange(off, b.len() as int)
                && !f@.read_only && f.wf() && sha@ == x,
            Err(e) => match unpack_spec(checksum_text@, compressed@) {
                Err(Some(ev)) => e@ == ev,
                Err(None) => exists|m: Seq<char>| e@ == io_err("failed to decompress cache asset"@, m),
                Ok(_) => false,
            },
        },
{
    let expected = match parse_checksum(checksum_text) {
        Some(x) => x,
        None => { return Err(AppError::cache_download_failed()); },
    };
    let actual = hex_sha256(compressed);
    if actual != expected {
        return Err(AppError::cache_integrity_failed());
    }
    let bytes = match decompress_gzip(compressed) {
        Ok(b) => b,
        Err(e) => { return Err(e); },
    };
    let file = match CacheFile::from_bytes(bytes.as_slice()) {
        Ok(f) => f,
        Err(e) => { return Err(e); },
    };
    Ok((bytes, file, expected))
}

} // verus!
