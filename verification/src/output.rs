//! Rendering of results: plain lines (optionally marked and colored) or
//! NDJSON objects.
use vstd::prelude::*;
use vstd::string::*;
use is_terminal::IsTerminal;
use crate::cli::ColorWhen;
use crate::text::{concat2, concat3, hex_digit};

verus! {

broadcast use vstd::string::group_string_axioms;

/// How a result was found: as a domain hack or as a plain `label.tld`.
#[derive(Debug, Clone, Copy, PartialEq, Eq, Structural)]
pub enum ResultKind {
    Hack,
    Regular,
}

/// Where the availability of a result came from.
#[derive(Debug, Clone, Copy, PartialEq, Eq, Structural)]
pub enum CheckMethod {
    Cache,
    Dns,
}

/// One checked domain.
#[derive(Debug, Clone, PartialEq, Eq)]
pub struct DomainResult {
    pub domain: String,
    pub available: bool,
    pub kind: ResultKind,
    pub method: CheckMethod,
}

/// The mathematical content of a [`DomainResult`].
pub struct ResultView {
    pub domain: Seq<char>,
    pub available: bool,
    pub kind: ResultKind,
    pub method: CheckMethod,
}

impl View for DomainResult {
    type V = ResultView;

    open spec fn view(&self) -> ResultView {
        ResultView { domain: self.domain@, available: self.available, kind: self.kind, method: self.method }
    }
}

/// How results are printed.
#[derive(Debug, Clone, Copy)]
pub struct OutputOptions {
    pub json: bool,
    pub show_all: bool,
    pub color: ColorWhen,
}

impl DomainResult {
    /// A copy of the result.
    pub fn duplicate(&self) -> (r: DomainResult)
        ensures
            r == *self,
    {
        DomainResult { domain: self.domain.clone(), available: self.available, kind: self.kind, method: self.method }
    }
}

/// Whether a result is shown: all are with `--all`, otherwise only the
/// available ones.
pub open spec fn shown(r: DomainResult, show_all: bool) -> bool {
    show_all || r.available
}

pub open spec fn shown_filter(show_all: bool) -> spec_fn(DomainResult) -> bool {
    |r: DomainResult| shown(r, show_all)
}

/// The shown results, cut to `limit` rows when a limit is given.
pub open spec fn visible_spec(results: Seq<DomainResult>, show_all: bool, limit: Option<usize>) -> Seq<DomainResult> {
    let v = results.filter(shown_filter(show_all));
    match limit {
        Some(l) => if l < v.len() { v.take(l as int) } else { v },
        None => v,
    }
}

/// The rows shown are the first rows of the unlimited output, as many as
/// the limit allows, and each is a result that is shown (available, unless
/// all are shown).
pub proof fn lemma_visible_rows(results: Seq<DomainResult>, show_all: bool, limit: Option<usize>)
    ensures
        ({
            let all = visible_spec(results, show_all, None);
            let v = visible_spec(results, show_all, limit);
            &&& v == all.take(v.len() as int)
            &&& v.len() == match limit {
                Some(l) => if l < all.len() { l as int } else { all.len() as int },
                None => all.len() as int,
            }
            &&& forall|i: int| 0 <= i < v.len() ==> shown(#[trigger] v[i], show_all)
        }),
{
    let all = visible_spec(results, show_all, None);
    results.filter_lemma(shown_filter(show_all));
    assert(all.take(all.len() as int) =~= all);
    let v = visible_spec(results, show_all, limit);
    assert forall|i: int| 0 <= i < v.len() implies shown(#[trigger] v[i], show_all) by {
        assert(v[i] == all[i]);
        assert(shown_filter(show_all)(all[i]));
    }
}

/// The results that are shown, in order, at most `limit` of them.
pub fn visible_results(results: &[DomainResult], show_all: bool, limit: Option<usize>) -> (r: Vec<DomainResult>)
    ensures
        r@ == visible_spec(results@, show_all, limit),
{
    let ghost pred = shown_filter(show_all);
    let mut v: Vec<DomainResult> = Vec::new();
    let mut i: usize = 0;
    assert(results@.take(0) =~= Seq::<DomainResult>::empty());
    assert(v@ =~= results@.take(0).filter(pred)) by {
        reveal(Seq::filter);
    }
    while i < results.len()
        invariant
            i <= results@.len(),
            pred == shown_filter(show_all),
            v@ == results@.take(i as int).filter(pred),
        decreases results@.len() - i,
    {
        let ghost before = v@;
        let ghost x = results@[i as int];
        assert(results@.take(i + 1).drop_last() =~= results@.take(i as int));
        assert(results@.take(i + 1).last() == x);
        proof {
            reveal(Seq::filter);
        }
        if show_all || results[i].available {
            assert(pred(x));
            v.push(results[i].duplicate());
            assert(v@ =~= before.push(x));
        } else {
            assert(!pred(x));
        }
        i = i + 1;
    }
    assert(results@.take(results@.len() as int) =~= results@);
    match limit {
        Some(l) => {
            if l < v.len() {
                v.truncate(l);
            }
        },
        None => {},
    }
    v
}

// ---------------------------------------------------------------------------
// Text
// ---------------------------------------------------------------------------

/// Each line followed by a newline.
pub open spec fn lines_text(lines: Seq<Seq<char>>) -> Seq<char>
    decreases lines.len(),
{
    if lines.len() == 0 {
        Seq::empty()
    } else {
        lines_text(lines.drop_last()) + lines.last() + "\n"@
    }
}

/// Joins lines with newlines, ending with one; no lines give no text.
pub fn join_lines(lines: Vec<String>) -> (s: String)
    ensures
        s@ == lines_text(lines@.map_values(|l: String| l@)),
{
    let ghost ls = lines@.map_values(|l: String| l@);
    let mut s = String::new();
    let mut i: usize = 0;
    assert(ls.take(0) =~= Seq::<Seq<char>>::empty());
    while i < lines.len()
        invariant
            i <= lines@.len(),
            ls == lines@.map_values(|l: String| l@),
            s@ == lines_text(ls.take(i as int)),
        decreases lines@.len() - i,
    {
        s.append(lines[i].as_str());
        s.append("\n");
        assert(ls.take(i + 1).drop_last() =~= ls.take(i as int));
        i = i + 1;
    }
    assert(ls.take(lines@.len() as int) =~= ls);
    s
}

/// A line wrapped in the ANSI color for available (green) or unavailable
/// (dim) results, when colors are on.
pub open spec fn colored(line: Seq<char>, available: bool, use_color: bool) -> Seq<char> {
    if !use_color {
        line
    } else if available {
        "\u{1b}[32m"@ + line + "\u{1b}[0m"@
    } else {
        "\u{1b}[2m"@ + line + "\u{1b}[0m"@
    }
}

/// Colors one output line.
pub fn colorize(line: &str, available: bool, use_color: bool) -> (s: String)
    ensures
        s@ == colored(line@, available, use_color),
{
    if !use_color {
        return String::from_str(line);
    }
    if available {
        concat3("\u{1b}[32m", line, "\u{1b}[0m")
    } else {
        concat3("\u{1b}[2m", line, "\u{1b}[0m")
    }
}

/// The plain line of one result: the bare domain, or with `--all` the
/// domain after a two-character mark (`  ` available, `x ` not).
pub open spec fn plain_line(r: DomainResult, show_all: bool) -> Seq<char> {
    if show_all {
        (if r.available { "  "@ } else { "x "@ }) + r.domain@
    } else {
        r.domain@
    }
}

/// The lines of the plain output.
pub open spec fn plain_lines(results: Seq<DomainResult>, show_all: bool, use_color: bool) -> Seq<Seq<char>>
    decreases results.len(),
{
    if results.len() == 0 {
        Seq::empty()
    } else {
        let rest = plain_lines(results.drop_last(), show_all, use_color);
        let r = results.last();
        if shown(r, show_all) {
            rest.push(colored(plain_line(r, show_all), r.available, use_color))
        } else {
            rest
        }
    }
}

/// Renders results as plain text lines.
pub fn render_plain(results: &[DomainResult], show_all: bool, use_color: bool) -> (s: String)
    ensures
        s@ == lines_text(plain_lines(results@, show_all, use_color)),
{
    let mut lines: Vec<String> = Vec::new();
    let mut i: usize = 0;
    assert(results@.take(0) =~= Seq::<DomainResult>::empty());
    assert(lines@.map_values(|l: String| l@) =~= plain_lines(results@.take(0), show_all, use_color));
    while i < results.len()
        invariant
            i <= results@.len(),
            lines@.map_values(|l: String| l@) == plain_lines(results@.take(i as int), show_all, use_color),
        decreases results@.len() - i,
    {
        let r = &results[i];
        let ghost before = lines@.map_values(|l: String| l@);
        assert(results@.take(i + 1).drop_last() =~= results@.take(i as int));
        assert(results@.take(i + 1).last() == *r);
        if show_all || r.available {
            let line = if show_all {
                if r.available {
                    concat2("  ", r.domain.as_str())
                } else {
                    concat2("x ", r.domain.as_str())
                }
            } else {
                r.domain.clone()
            };
            let colored_line = colorize(line.as_str(), r.available, use_color);
            lines.push(colored_line);
            assert(lines@.map_values(|l: String| l@) =~= before.push(
                colored(plain_line(*r, show_all), r.available, use_color)));
        }
        i = i + 1;
    }
    assert(results@.take(results@.len() as int) =~= results@);
    join_lines(lines)
}

// ---------------------------------------------------------------------------
// NDJSON
// ---------------------------------------------------------------------------

/// How one character appears inside a JSON string.
pub open spec fn json_escape(c: char) -> Seq<char> {
    if c == '"' {
        "\\\""@
    } else if c == '\\' {
        "\\\\"@
    } else if c == '\u{8}' {
        "\\b"@
    } else if c == '\t' {
        "\\t"@
    } else if c == '\n' {
        "\\n"@
    } else if c == '\u{c}' {
        "\\f"@
    } else if c == '\r' {
        "\\r"@
    } else if (c as u32) < 0x20 {
        "\\u00"@ + seq![hex_digit((c as u32) as int / 16), hex_digit((c as u32) as int % 16)]
    } else {
        seq![c]
    }
}

/// The escaped characters of a string.
pub open spec fn json_escaped(s: Seq<char>) -> Seq<char>
    decreases s.len(),
{
    if s.len() == 0 {
        Seq::empty()
    } else {
        json_escaped(s.drop_last()) + json_escape(s.last())
    }
}

/// A string as a JSON string literal.
pub open spec fn json_quoted(s: Seq<char>) -> Seq<char> {
    "\""@ + json_escaped(s) + "\""@
}

/// `serde_json::to_string` on a string: the string in double quotes, with
/// `"` and `\` escaped by a backslash, the control characters `\b \t \n \f
/// \r` by their short escapes, every other character below U+0020 as
/// `\u00XX` in lowercase hexadecimal, and every other character as itself.
#[verifier::external_body]
fn json_string(s: &str) -> (r: String)
    ensures
        r@ == json_quoted(s@),
{
    match serde_json::to_string(s) {
        Ok(t) => t,
        Err(_) => String::new(),
    }
}

pub open spec fn kind_name(k: ResultKind) -> Seq<char> {
    match k {
        ResultKind::Hack => "hack"@,
        ResultKind::Regular => "regular"@,
    }
}

pub open spec fn method_name(m: CheckMethod) -> Seq<char> {
    match m {
        CheckMethod::Cache => "cache"@,
        CheckMethod::Dns => "dns"@,
    }
}

/// The JSON object of one result, fields in declaration order.
pub open spec fn json_object(r: DomainResult) -> Seq<char> {
    "{\"domain\":"@ + json_quoted(r.domain@) + ",\"available\":"@
        + (if r.available { "true"@ } else { "false"@ }) + ",\"kind\":\""@ + kind_name(r.kind)
        + "\",\"method\":\""@ + method_name(r.method) + "\"}"@
}

/// The NDJSON lines of the shown results.
pub open spec fn json_lines(results: Seq<DomainResult>, show_all: bool) -> Seq<Seq<char>>
    decreases results.len(),
{
    if results.len() == 0 {
        Seq::empty()
    } else {
        let rest = json_lines(results.drop_last(), show_all);
        if shown(results.last(), show_all) {
            rest.push(json_object(results.last()))
        } else {
            rest
        }
    }
}

fn json_object_text(r: &DomainResult) -> (s: String)
    ensures
        s@ == json_object(*r),
{
    let mut s = String::from_str("{\"domain\":");
    let quoted = json_string(r.domain.as_str());
    s.append(quoted.as_str());
    s.append(",\"available\":");
    s.append(if r.available { "true" } else { "false" });
    s.append(",\"kind\":\"");
    s.append(match r.kind {
        ResultKind::Hack => "hack",
        ResultKind::Regular => "regular",
    });
    s.append("\",\"method\":\"");
    s.append(match r.method {
        CheckMethod::Cache => "cache",
        CheckMethod::Dns => "dns",
    });
    s.append("\"}");
    s
}

/// Renders the shown results as NDJSON, one object per line.
pub fn render_json(results: &[DomainResult], show_all: bool) -> (s: String)
    ensures
        s@ == lines_text(json_lines(results@, show_all)),
{
    let mut lines: Vec<String> = Vec::new();
    let mut i: usize = 0;
    assert(results@.take(0) =~= Seq::<DomainResult>::empty());
    assert(lines@.map_values(|l: String| l@) =~= json_lines(results@.take(0), show_all));
    while i < results.len()
        invariant
            i <= results@.len(),
            lines@.map_values(|l: String| l@) == json_lines(results@.take(i as int), show_all),
        decreases results@.len() - i,
    {
        let ghost before = lines@.map_values(|l: String| l@);
        assert(results@.take(i + 1).drop_last() =~= results@.take(i as int));
        assert(results@.take(i + 1).last() == results@[i as int]);
        if show_all || results[i].available {
            lines.push(json_object_text(&results[i]));
            assert(lines@.map_values(|l: String| l@) =~= before.push(json_object(results@[i as int])));
        }
        i = i + 1;
    }
    assert(results@.take(results@.len() as int) =~= results@);
    join_lines(lines)
}

// ---------------------------------------------------------------------------
// Dispatch
// ---------------------------------------------------------------------------

/// Whether standard output is a terminal (`IsTerminal::is_terminal` on
/// `std::io::stdout()`); nothing is claimed of the answer, which depends on
/// how the process was started.
#[verifier::external_body]
pub(crate) fn stdout_is_terminal() -> bool {
    std::io::stdout().is_terminal()
}

/// Whether output is colored: always, never, or when standard output is a
/// terminal.
pub fn should_use_color(color: ColorWhen) -> (b: bool)
    ensures
        color == ColorWhen::Always ==> b,
        color == ColorWhen::Never ==> !b,
{
    match color {
        ColorWhen::Always => true,
        ColorWhen::Never => false,
        ColorWhen::Auto => stdout_is_terminal(),
    }
}

/// Renders results as NDJSON or plain text, as the options say.
pub fn render(results: &[DomainResult], options: OutputOptions) -> (s: String)
    ensures
        options.json ==> s@ == lines_text(json_lines(results@, options.show_all)),
        !options.json ==> exists|use_color: bool| {
            &&& s@ == lines_text(plain_lines(results@, options.show_all, use_color))
            &&& options.color == ColorWhen::Always ==> use_color
            &&& options.color == ColorWhen::Never ==> !use_color
        },
{
    if options.json {
        return render_json(results, options.show_all);
    }
    let use_color = should_use_color(options.color);
    render_plain(results, options.show_all, use_color)
}

} // verus!
