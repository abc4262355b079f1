//! Parsing and validation of the single domain argument.
use vstd::prelude::*;
use vstd::string::*;
use vstd::utf8::encode_utf8;
use crate::error::{AppError, ErrorView, full_err, no_domain_err};
use crate::text::{chars_of, concat3, dec_digits, lower_char, lower_chars, lower_seq, push_char, string_from_chars, string_from_range, u64_to_decimal};

verus! {

broadcast use vstd::string::group_string_axioms;

/// Whether the input names only a second-level label (domain hacks enabled)
/// or a label followed by a TLD prefix.
#[derive(Debug, Clone, Copy, PartialEq, Eq, Structural)]
pub enum InputMode {
    SldOnly,
    SldWithTldPrefix,
}

/// The result of parsing the domain argument.
#[derive(Debug, Clone, PartialEq, Eq)]
pub struct ParsedInput {
    pub original: String,
    pub normalized: String,
    pub sld: String,
    pub tld_prefix: Option<String>,
    pub mode: InputMode,
}

/// The mathematical content of a [`ParsedInput`].
pub struct ParsedView {
    pub original: Seq<char>,
    pub normalized: Seq<char>,
    pub sld: Seq<char>,
    pub tld_prefix: Option<Seq<char>>,
    pub mode: InputMode,
}

impl View for ParsedInput {
    type V = ParsedView;

    open spec fn view(&self) -> ParsedView {
        ParsedView {
            original: self.original@,
            normalized: self.normalized@,
            sld: self.sld@,
            tld_prefix: match self.tld_prefix {
                Some(p) => Some(p@),
                None => None,
            },
            mode: self.mode,
        }
    }
}

/// `'` + `s` + `'`.
pub open spec fn quote(s: Seq<char>) -> Seq<char> {
    "'"@ + s + "'"@
}

/// The first rule of RFC 1035 label syntax that `label` (given by its UTF-8
/// bytes and its characters) breaks, as the error reported for it.
pub open spec fn label_error(bytes: Seq<u8>, label: Seq<char>) -> Option<ErrorView> {
    if bytes.len() == 0 {
        Some(no_domain_err())
    } else if bytes.len() > 63 {
        Some(
            full_err(
                "domain too long ("@ + dec_digits(bytes.len()) + " characters, max 63)"@,
                quote(label),
                "domain labels must be 63 characters or fewer (RFC 1035)"@,
            ),
        )
    } else if bytes[0] == 45u8 {
        Some(
            full_err(
                "domain cannot start with a hyphen"@,
                quote(label),
                "remove the leading hyphen, e.g., 'abc'"@,
            ),
        )
    } else if bytes[bytes.len() - 1] == 45u8 {
        Some(
            full_err(
                "domain cannot end with a hyphen"@,
                quote(label),
                "remove the trailing hyphen, e.g., 'abc'"@,
            ),
        )
    } else if bytes.len() >= 4 && bytes[2] == 45u8 && bytes[3] == 45u8 {
        Some(
            full_err(
                "domain cannot contain hyphens in positions 3 and 4"@,
                quote(label),
                "avoid the reserved '--' pattern used by punycode A-labels"@,
            ),
        )
    } else {
        None
    }
}

/// Whether a string slice is an acceptable domain label.
pub open spec fn label_ok(s: Seq<char>) -> bool {
    label_error(encode_utf8(s), s) is None
}

/// Checks one label: 1 to 63 bytes, no leading or trailing hyphen, and no
/// `--` in the third and fourth positions.
pub fn validate_label(label: &str) -> (r: Result<(), AppError>)
    ensures
        match r {
            Ok(()) => label_error(label.spec_bytes(), label@) is None,
            Err(e) => label_error(label.spec_bytes(), label@) == Some(e@),
        },
{
    let bytes = label.as_bytes();
    let n = bytes.len();
    if n == 0 {
        return Err(AppError::no_domain());
    }
    if n > 63 {
        let digits = u64_to_decimal(n as u64);
        let mut m = String::from_str("domain too long (");
        m.append(digits.as_str());
        m.append(" characters, max 63)");
        let w = concat3("'", label, "'");
        return Err(
            AppError::from_message(m).with_where(w.as_str()).with_help(
                "domain labels must be 63 characters or fewer (RFC 1035)",
            ),
        );
    }
    if bytes[0] == 45u8 {
        let w = concat3("'", label, "'");
        return Err(
            AppError::new("domain cannot start with a hyphen").with_where(w.as_str()).with_help(
                "remove the leading hyphen, e.g., 'abc'",
            ),
        );
    }
    if bytes[n - 1] == 45u8 {
        let w = concat3("'", label, "'");
        return Err(
            AppError::new("domain cannot end with a hyphen").with_where(w.as_str()).with_help(
                "remove the trailing hyphen, e.g., 'abc'",
            ),
        );
    }
    if n >= 4 && bytes[2] == 45u8 && bytes[3] == 45u8 {
        let w = concat3("'", label, "'");
        return Err(
            AppError::new("domain cannot contain hyphens in positions 3 and 4").with_where(
                w.as_str(),
            ).with_help("avoid the reserved '--' pattern used by punycode A-labels"),
        );
    }
    Ok(())
}

/// Number of occurrences of `c` in `s` from index `i` on.
pub open spec fn count_from(s: Seq<char>, c: char, i: int) -> nat
    decreases s.len() - i,
{
    if i >= s.len() {
        0
    } else {
        (if s[i] == c { 1nat } else { 0nat }) + count_from(s, c, i + 1)
    }
}

/// Index of the first `c` in `s` at or after `i`, or `s.len()` if none.
pub open spec fn find_from(s: Seq<char>, c: char, i: int) -> int
    decreases s.len() - i,
{
    if i >= s.len() {
        s.len() as int
    } else if s[i] == c {
        i
    } else {
        find_from(s, c, i + 1)
    }
}

/// Characters accepted in a label: `a-z`, `0-9` and `-`.
pub open spec fn is_label_char(c: char) -> bool {
    ('a' <= c && c <= 'z') || ('0' <= c && c <= '9') || c == '-'
}

/// Index of the first character in `s` at or after `i` that is neither a
/// label character nor a dot, or `s.len()` if none.
pub open spec fn first_bad_from(s: Seq<char>, i: int) -> int
    decreases s.len() - i,
{
    if i >= s.len() {
        s.len() as int
    } else if s[i] != '.' && !is_label_char(s[i]) {
        i
    } else {
        first_bad_from(s, i + 1)
    }
}

/// The input lowercased, with one trailing dot removed.
pub open spec fn normalize(input: Seq<char>) -> Seq<char> {
    let l = lower_seq(input);
    if l.len() > 0 && l[l.len() - 1] == '.' {
        l.drop_last()
    } else {
        l
    }
}

/// The error for the character at index `k` of the normalized input `n`,
/// which is not allowed in a label.
pub open spec fn invalid_char_err(n: Seq<char>, k: int) -> ErrorView {
    full_err(
        "invalid character '"@ + seq![n[k]] + "' in domain '"@ + n + "'"@,
        "position "@ + dec_digits((k + 1) as nat),
        "only letters (a-z), numbers (0-9), and hyphens (-) are allowed"@,
    )
}

/// The parse of a domain argument, or the error reported for it. A dot
/// separates the label from the TLD prefix; a dot with nothing after it
/// (left when the input ends in two dots) belongs to no prefix and is a
/// character the label cannot hold.
pub open spec fn parse_spec(input: Seq<char>) -> Result<ParsedView, ErrorView> {
    let n = normalize(input);
    if input.len() == 0 {
        Err(no_domain_err())
    } else if count_from(n, '.', 0) > 1 {
        Err(
            full_err(
                "multi-label input '"@ + n + "' is not supported"@,
                quote(n),
                "pass a single label like 'abc' or 'abc.co'"@,
            ),
        )
    } else if n.len() == 0 {
        Err(no_domain_err())
    } else if first_bad_from(n, 0) < n.len() {
        Err(invalid_char_err(n, first_bad_from(n, 0)))
    } else if find_from(n, '.', 0) == n.len() - 1 {
        Err(invalid_char_err(n, n.len() - 1))
    } else {
        let d = find_from(n, '.', 0);
        let with_prefix = d + 1 < n.len();
        let sld = if with_prefix { n.subrange(0, d) } else { n };
        let prefix = if with_prefix { Some(n.subrange(d + 1, n.len() as int)) } else { None };
        let mode = if with_prefix { InputMode::SldWithTldPrefix } else { InputMode::SldOnly };
        if !label_ok(sld) {
            Err(label_error(encode_utf8(sld), sld)->0)
        } else if with_prefix && !label_ok(n.subrange(d + 1, n.len() as int)) {
            let p = n.subrange(d + 1, n.len() as int);
            Err(label_error(encode_utf8(p), p)->0)
        } else {
            Ok(ParsedView { original: input, normalized: n, sld, tld_prefix: prefix, mode })
        }
    }
}

proof fn lemma_first_bad_none(s: Seq<char>, i: int)
    requires
        0 <= i,
        first_bad_from(s, i) == s.len(),
    ensures
        forall|j: int| i <= j < s.len() ==> #[trigger] s[j] == '.' || is_label_char(s[j]),
    decreases s.len() - i,
{
    if i < s.len() {
        lemma_first_bad_none(s, i + 1);
    }
}

proof fn lemma_first_bad_bound(s: Seq<char>, i: int)
    requires
        0 <= i <= s.len(),
    ensures
        first_bad_from(s, i) <= s.len(),
    decreases s.len() - i,
{
    if i < s.len() {
        lemma_first_bad_bound(s, i + 1);
    }
}

proof fn lemma_find_from_props(s: Seq<char>, c: char, i: int)
    requires
        0 <= i <= s.len(),
    ensures
        i <= find_from(s, c, i) <= s.len(),
        forall|j: int| i <= j < find_from(s, c, i) ==> #[trigger] s[j] != c,
        find_from(s, c, i) < s.len() ==> s[find_from(s, c, i)] == c,
    decreases s.len() - i,
{
    if i < s.len() && s[i] != c {
        lemma_find_from_props(s, c, i + 1);
    }
}

proof fn lemma_count_one(s: Seq<char>, c: char, i: int, k: int)
    requires
        0 <= i <= k < s.len(),
        s[k] == c,
    ensures
        count_from(s, c, i) >= 1,
    decreases k - i,
{
    if i < k {
        lemma_count_one(s, c, i + 1, k);
    }
}

proof fn lemma_count_two(s: Seq<char>, c: char, i: int, k1: int, k2: int)
    requires
        0 <= i <= k1 < k2 < s.len(),
        s[k1] == c,
        s[k2] == c,
    ensures
        count_from(s, c, i) >= 2,
    decreases k1 - i,
{
    if i < k1 {
        lemma_count_two(s, c, i + 1, k1, k2);
    } else {
        lemma_count_one(s, c, i + 1, k2);
    }
}

/// A parsed label and TLD prefix hold only `a-z`, `0-9` and `-`, and each
/// passes the label rules; the mode says whether a prefix was given.
pub proof fn lemma_parsed_labels_valid(input: Seq<char>)
    ensures
        parse_spec(input) matches Ok(p) ==> {
            &&& label_ok(p.sld)
            &&& forall|i: int| 0 <= i < p.sld.len() ==> is_label_char(#[trigger] p.sld[i])
            &&& (p.tld_prefix matches Some(t) ==> label_ok(t)
                && forall|i: int| 0 <= i < t.len() ==> is_label_char(#[trigger] t[i]))
            &&& (p.mode == InputMode::SldOnly) == (p.tld_prefix is None)
        },
{
    if parse_spec(input) is Ok {
        let n = normalize(input);
        lemma_first_bad_bound(n, 0);
        lemma_first_bad_none(n, 0);
        lemma_find_from_props(n, '.', 0);
        let d = find_from(n, '.', 0);
        if d + 1 < n.len() {
            let sld = n.subrange(0, d);
            let t = n.subrange(d + 1, n.len() as int);
            assert forall|i: int| 0 <= i < sld.len() implies is_label_char(#[trigger] sld[i]) by {
                assert(n[i] != '.');
                assert(n[i] == '.' || is_label_char(n[i]));
            }
            assert forall|i: int| 0 <= i < t.len() implies is_label_char(#[trigger] t[i]) by {
                let j = d + 1 + i;
                assert(n[j] == '.' || is_label_char(n[j]));
                if n[j] == '.' {
                    lemma_count_two(n, '.', 0, d, j);
                }
            }
        } else {
            assert(d == n.len());
            assert forall|i: int| 0 <= i < n.len() implies is_label_char(#[trigger] n[i]) by {
                assert(n[i] != '.');
                assert(n[i] == '.' || is_label_char(n[i]));
            }
        }
    }
}

/// A successful parse splits the normalized input at its dot: with a
/// prefix, the label, a dot and the prefix put together give the
/// normalized input back (the prefix is everything after the dot); without
/// one, the label is the whole normalized input.
pub proof fn lemma_parse_splits_at_dot(input: Seq<char>)
    ensures
        parse_spec(input) matches Ok(p) ==> {
            &&& p.normalized == normalize(input)
            &&& (p.tld_prefix matches Some(t) ==> p.sld + seq!['.'] + t == p.normalized
                && p.mode == InputMode::SldWithTldPrefix)
            &&& (p.tld_prefix is None ==> p.sld == p.normalized && p.mode == InputMode::SldOnly)
        },
{
    if parse_spec(input) is Ok {
        let n = normalize(input);
        lemma_find_from_props(n, '.', 0);
        let d = find_from(n, '.', 0);
        if d + 1 < n.len() {
            assert(n.subrange(0, d) + seq!['.'] + n.subrange(d + 1, n.len() as int) =~= n);
        }
    }
}

/// The label rules are exactly the listed ones: a label of 1 to 63
/// characters from `a-z`, `0-9` and `-` that neither starts nor ends with
/// `-` and has no `--` in its third and fourth positions is accepted,
/// whatever character (a digit too) it starts with.
pub proof fn lemma_label_rules_accept(label: Seq<char>)
    requires
        1 <= label.len() <= 63,
        forall|i: int| 0 <= i < label.len() ==> is_label_char(#[trigger] label[i]),
        label[0] != '-',
        label[label.len() - 1] != '-',
        !(label.len() >= 4 && label[2] == '-' && label[3] == '-'),
    ensures
        label_ok(label),
{
    assert(vstd::utf8::is_ascii_chars(label));
    vstd::utf8::is_ascii_chars_encode_utf8(label);
    let b = encode_utf8(label);
    assert(b[0] == label[0] as u8);
    assert(b[b.len() - 1] == label[label.len() - 1] as u8);
    if label.len() >= 4 {
        assert(b[2] == label[2] as u8);
        assert(b[3] == label[3] as u8);
    }
}

/// And each listed rule is enforced: an empty label, one longer than 63
/// bytes, one that starts or ends with `-`, or one with `--` in its third
/// and fourth positions is refused.
pub proof fn lemma_label_rules_refuse(bytes: Seq<u8>, label: Seq<char>)
    requires
        bytes.len() == 0 || bytes.len() > 63 || bytes[0] == 45u8 || bytes[bytes.len() - 1] == 45u8
            || (bytes.len() >= 4 && bytes[2] == 45u8 && bytes[3] == 45u8),
    ensures
        label_error(bytes, label) is Some,
{
}

/// A trailing dot is ignored: the argument with one more dot at the end
/// parses to the same label, prefix and mode, or fails with the same error.
pub proof fn lemma_trailing_dot_ignored(s: Seq<char>)
    requires
        s.len() == 0 || s.last() != '.',
    ensures
        match (parse_spec(s.push('.')), parse_spec(s)) {
            (Ok(a), Ok(b)) => a.normalized == b.normalized && a.sld == b.sld && a.tld_prefix == b.tld_prefix
                && a.mode == b.mode,
            (Err(a), Err(b)) => s.len() > 0 ==> a == b,
            _ => false,
        },
{
    let t = s.push('.');
    assert(lower_seq(t) =~= lower_seq(s).push('.'));
    assert(normalize(t) =~= lower_seq(s));
    if s.len() > 0 {
        assert(lower_seq(s)[s.len() - 1] == lower_char(s.last()));
        assert(normalize(s) =~= lower_seq(s));
    } else {
        assert(normalize(t) =~= Seq::<char>::empty());
    }
}

fn invalid_char_error(norm: &Vec<char>, normalized: &str, k: usize) -> (e: AppError)
    requires
        k < norm@.len(),
        normalized@ == norm@,
    ensures
        e@ == invalid_char_err(norm@, k as int),
{
    let len = norm.len();
    assert(k + 1 <= len);
    let ch = norm[k];
    let mut m = String::from_str("invalid character '");
    let ghost m0 = m@;
    assert(m0 == "invalid character '"@);
    push_char(&mut m, ch);
    assert(m@ =~= m0 + seq![ch]);
    m.append("' in domain '");
    assert(m@ =~= m0 + seq![ch] + "' in domain '"@);
    m.append(normalized);
    m.append("'");
    assert(m@ =~= "invalid character '"@ + seq![norm@[k as int]] + "' in domain '"@ + norm@ + "'"@);
    let digits = u64_to_decimal((k + 1) as u64);
    let mut w = String::from_str("position ");
    w.append(digits.as_str());
    AppError::from_message(m).with_where(w.as_str()).with_help(
        "only letters (a-z), numbers (0-9), and hyphens (-) are allowed",
    )
}

/// Parses the domain argument: `abc` (second-level label only) or `abc.sh`
/// (label and TLD prefix).
pub fn parse(input: &str) -> (r: Result<ParsedInput, AppError>)
    ensures
        match r {
            Ok(p) => parse_spec(input@) == Ok::<ParsedView, ErrorView>(p@),
            Err(e) => parse_spec(input@) == Err::<ParsedView, ErrorView>(e@),
        },
{
    let chars = chars_of(input);
    if chars.len() == 0 {
        return Err(AppError::no_domain());
    }
    let mut norm = lower_chars(&chars);
    let ghost lowered = norm@;
    if norm.len() > 0 && norm[norm.len() - 1] == '.' {
        norm.pop();
    }
    assert(norm@ =~= normalize(input@));
    let n = norm.len();
    let normalized = string_from_chars(&norm);

    let mut dots: usize = 0;
    let mut i: usize = 0;
    while i < n
        invariant
            n == norm@.len(),
            i <= n,
            dots <= i,
            dots + count_from(norm@, '.', i as int) == count_from(norm@, '.', 0),
            normalized@ == norm@,
        decreases n - i,
    {
        if norm[i] == '.' {
            dots = dots + 1;
        }
        i = i + 1;
    }
    if dots > 1 {
        let m = concat3("multi-label input '", normalized.as_str(), "' is not supported");
        let w = concat3("'", normalized.as_str(), "'");
        return Err(
            AppError::from_message(m).with_where(w.as_str()).with_help(
                "pass a single label like 'abc' or 'abc.co'",
            ),
        );
    }
    if n == 0 {
        return Err(AppError::no_domain());
    }

    let mut k: usize = 0;
    while k < n
        invariant
            n == norm@.len(),
            k <= n,
            first_bad_from(norm@, 0) == first_bad_from(norm@, k as int),
            normalized@ == norm@,
            norm@ == normalize(input@),
            count_from(norm@, '.', 0) <= 1,
            input@.len() > 0,
        decreases n - k,
    {
        let ch = norm[k];
        if ch != '.' && !(('a' <= ch && ch <= 'z') || ('0' <= ch && ch <= '9') || ch == '-') {
            return Err(invalid_char_error(&norm, normalized.as_str(), k));
        }
        k = k + 1;
    }

    let mut d: usize = 0;
    while d < n && norm[d] != '.'
        invariant
            n == norm@.len(),
            d <= n,
            find_from(norm@, '.', 0) == find_from(norm@, '.', d as int),
        decreases n - d,
    {
        d = d + 1;
    }
    if d == n - 1 {
        return Err(invalid_char_error(&norm, normalized.as_str(), d));
    }
    let with_prefix = d < n && n - d > 1;
    let sld = if with_prefix { string_from_range(&norm, 0, d) } else { string_from_chars(&norm) };
    let tld_prefix = if with_prefix { Some(string_from_range(&norm, d + 1, n)) } else { None };
    let mode = if with_prefix { InputMode::SldWithTldPrefix } else { InputMode::SldOnly };

    match validate_label(sld.as_str()) {
        Ok(()) => {},
        Err(e) => { return Err(e); },
    }
    match &tld_prefix {
        Some(p) => {
            match validate_label(p.as_str()) {
                Ok(()) => {},
                Err(e) => { return Err(e); },
            }
        },
        None => {},
    }
    let original = String::from_str(input);
    Ok(ParsedInput { original, normalized, sld, tld_prefix, mode })
}

} // verus!
