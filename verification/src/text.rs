//! Character and string building blocks shared by the rest of the crate.
use vstd::prelude::*;
use vstd::string::*;

verus! {

broadcast use vstd::string::group_string_axioms;

/// Appends one character to a `String` (`String::push`).
#[verifier::external_body]
pub(crate) fn push_char(s: &mut String, c: char)
    ensures
        final(s)@ == old(s)@.push(c),
{
    s.push(c);
}

/// The characters of a string slice, in order.
pub fn chars_of(s: &str) -> (v: Vec<char>)
    ensures
        v@ == s@,
{
    let mut v: Vec<char> = Vec::new();
    for c in iter: s.chars()
        invariant
            v@ == iter.seq().take(iter.index() as int),
    {
        v.push(c);
    }
    v
}

/// Builds a `String` from a sequence of characters.
pub fn string_from_chars(v: &[char]) -> (s: String)
    ensures
        s@ == v@,
{
    let mut s = String::new();
    let mut i: usize = 0;
    while i < v.len()
        invariant
            i <= v@.len(),
            s@ == v@.subrange(0, i as int),
        decreases v@.len() - i,
    {
        push_char(&mut s, v[i]);
        i = i + 1;
    }
    s
}

/// Builds a `String` from a slice of a character sequence.
pub fn string_from_range(v: &[char], start: usize, end: usize) -> (s: String)
    requires
        start <= end <= v@.len(),
    ensures
        s@ == v@.subrange(start as int, end as int),
{
    let mut s = String::new();
    let mut i: usize = start;
    while i < end
        invariant
            start <= i <= end,
            end <= v@.len(),
            s@ == v@.subrange(start as int, i as int),
        decreases end - i,
    {
        push_char(&mut s, v[i]);
        i = i + 1;
    }
    s
}

/// Concatenation of two string slices into a new `String`.
pub fn concat2(a: &str, b: &str) -> (s: String)
    ensures
        s@ == a@ + b@,
{
    let mut s = String::from_str(a);
    s.append(b);
    s
}

/// Concatenation of three string slices into a new `String`.
pub fn concat3(a: &str, b: &str, c: &str) -> (s: String)
    ensures
        s@ == a@ + b@ + c@,
{
    let mut s = String::from_str(a);
    s.append(b);
    s.append(c);
    s
}

/// The ASCII decimal digit for `d < 10`.
pub open spec fn digit_char(d: nat) -> char {
    (d + 48) as char
}

/// Decimal representation of a natural number, without leading zeros.
pub open spec fn dec_digits(n: nat) -> Seq<char>
    decreases n,
{
    if n < 10 {
        seq![digit_char(n)]
    } else {
        dec_digits(n / 10).push(digit_char(n % 10))
    }
}

/// Formats an unsigned integer in decimal.
pub fn u64_to_decimal(n: u64) -> (s: String)
    ensures
        s@ == dec_digits(n as nat),
    decreases n,
{
    let d: u8 = (n % 10) as u8;
    let c: char = (d + 48u8) as char;
    if n < 10 {
        let mut s = String::new();
        push_char(&mut s, c);
        s
    } else {
        let mut s = u64_to_decimal(n / 10);
        push_char(&mut s, c);
        s
    }
}

/// ASCII lowercase mapping of one character.
pub open spec fn lower_char(c: char) -> char {
    if 'A' <= c && c <= 'Z' {
        ((c as u32) + 32) as char
    } else {
        c
    }
}

/// ASCII lowercase mapping of a character sequence (`to_ascii_lowercase`).
pub open spec fn lower_seq(s: Seq<char>) -> Seq<char> {
    Seq::new(s.len(), |i: int| lower_char(s[i]))
}

/// `char::to_ascii_lowercase`.
pub fn to_lower_char(c: char) -> (r: char)
    ensures
        r == lower_char(c),
{
    if 'A' <= c && c <= 'Z' {
        let b: u8 = c as u8;
        assert(b == c as u32);
        (b + 32u8) as char
    } else {
        c
    }
}

/// ASCII lowercase copy of a character sequence.
pub fn lower_chars(v: &[char]) -> (r: Vec<char>)
    ensures
        r@ == lower_seq(v@),
{
    let mut r: Vec<char> = Vec::new();
    let mut i: usize = 0;
    while i < v.len()
        invariant
            i <= v@.len(),
            r@ =~= lower_seq(v@.subrange(0, i as int)),
        decreases v@.len() - i,
    {
        r.push(to_lower_char(v[i]));
        i = i + 1;
    }
    assert(v@.subrange(0, v@.len() as int) =~= v@);
    r
}

/// Character-wise equality of two character slices.
pub fn chars_eq(a: &[char], b: &[char]) -> (r: bool)
    ensures
        r == (a@ == b@),
{
    if a.len() != b.len() {
        return false;
    }
    let mut i: usize = 0;
    while i < a.len()
        invariant
            a@.len() == b@.len(),
            i <= a@.len(),
            forall|j: int| 0 <= j < i ==> a@[j] == b@[j],
        decreases a@.len() - i,
    {
        if a[i] != b[i] {
            return false;
        }
        i = i + 1;
    }
    assert(a@ =~= b@);
    true
}

/// Whether `p` is a prefix of `s`.
pub fn chars_start_with(s: &[char], p: &[char]) -> (r: bool)
    ensures
        r == (p@.len() <= s@.len() && s@.subrange(0, p@.len() as int) == p@),
{
    if p.len() > s.len() {
        return false;
    }
    let mut i: usize = 0;
    while i < p.len()
        invariant
            p@.len() <= s@.len(),
            i <= p@.len(),
            forall|j: int| 0 <= j < i ==> s@[j] == p@[j],
        decreases p@.len() - i,
    {
        if s[i] != p[i] {
            assert(s@.subrange(0, p@.len() as int)[i as int] != p@[i as int]);
            return false;
        }
        i = i + 1;
    }
    assert(s@.subrange(0, p@.len() as int) =~= p@);
    true
}


/// Unicode `White_Space` characters (`char::is_whitespace`).
pub open spec fn is_ws(c: char) -> bool {
    ('\u{9}' <= c && c <= '\u{d}') || c == ' ' || c == '\u{85}' || c == '\u{a0}' || c == '\u{1680}'
        || ('\u{2000}' <= c && c <= '\u{200a}') || c == '\u{2028}' || c == '\u{2029}'
        || c == '\u{202f}' || c == '\u{205f}' || c == '\u{3000}'
}

/// `char::is_whitespace`.
pub fn is_whitespace(c: char) -> (b: bool)
    ensures
        b == is_ws(c),
{
    ('\u{9}' <= c && c <= '\u{d}') || c == ' ' || c == '\u{85}' || c == '\u{a0}' || c == '\u{1680}'
        || ('\u{2000}' <= c && c <= '\u{200a}') || c == '\u{2028}' || c == '\u{2029}'
        || c == '\u{202f}' || c == '\u{205f}' || c == '\u{3000}'
}

/// Index of the first character at or after `i` that is (`ws == true`) or
/// is not (`ws == false`) whitespace, or `s.len()`.
pub open spec fn find_ws(s: Seq<char>, i: int, ws: bool) -> int
    decreases s.len() - i,
{
    if i >= s.len() {
        s.len() as int
    } else if is_ws(s[i]) == ws {
        i
    } else {
        find_ws(s, i + 1, ws)
    }
}

pub proof fn lemma_find_ws_bounds(s: Seq<char>, i: int, ws: bool)
    requires
        0 <= i <= s.len(),
    ensures
        i <= find_ws(s, i, ws) <= s.len(),
        find_ws(s, i, ws) < s.len() ==> is_ws(s[find_ws(s, i, ws)]) == ws,
        forall|j: int| i <= j < find_ws(s, i, ws) ==> is_ws(s[j]) != ws,
    decreases s.len() - i,
{
    if i < s.len() && is_ws(s[i]) != ws {
        lemma_find_ws_bounds(s, i + 1, ws);
    }
}

/// Finds the first character at or after `i` whose whitespace-ness is `ws`.
pub fn scan_ws(s: &[char], i: usize, ws: bool) -> (j: usize)
    requires
        i <= s@.len(),
    ensures
        j == find_ws(s@, i as int, ws),
{
    let mut j = i;
    while j < s.len() && is_whitespace(s[j]) != ws
        invariant
            i <= j <= s@.len(),
            find_ws(s@, i as int, ws) == find_ws(s@, j as int, ws),
        decreases s@.len() - j,
    {
        j = j + 1;
    }
    j
}

/// The lowercase hexadecimal digit for `d < 16`.
pub open spec fn hex_digit(d: int) -> char {
    if d < 10 { (d + 48) as char } else { (d - 10 + 97) as char }
}

/// Lowercase hexadecimal encoding of bytes, two digits per byte.
pub open spec fn hex_lower(d: Seq<u8>) -> Seq<char>
    decreases d.len(),
{
    if d.len() == 0 {
        Seq::<char>::empty()
    } else {
        hex_lower(d.drop_last()) + seq![hex_digit(d.last() as int / 16), hex_digit(d.last() as int % 16)]
    }
}

fn hex_char(d: u8) -> (c: char)
    requires
        d < 16,
    ensures
        c == hex_digit(d as int),
{
    if d < 10 { (d + 48u8) as char } else { (d - 10u8 + 97u8) as char }
}

/// Lowercase hexadecimal encoding of bytes.
pub fn to_hex_lower(d: &[u8]) -> (s: String)
    ensures
        s@ == hex_lower(d@),
{
    let mut s = String::new();
    let mut i: usize = 0;
    while i < d.len()
        invariant
            i <= d@.len(),
            s@ == hex_lower(d@.take(i as int)),
        decreases d@.len() - i,
    {
        let b = d[i];
        push_char(&mut s, hex_char(b / 16));
        push_char(&mut s, hex_char(b % 16));
        assert(d@.take(i + 1).drop_last() =~= d@.take(i as int));
        assert(s@ =~= hex_lower(d@.take(i + 1)));
        i = i + 1;
    }
    assert(d@.take(d@.len() as int) =~= d@);
    s
}

} // verus!
