//! DNS resolution: response codes, resolver configuration and the resolver
//! list syntax. The lookup bookkeeping lives in `engine`, `slab` and
//! `wheel`; packets in `wire`.
pub mod engine;
pub mod slab;
pub mod wheel;
pub mod wire;

use vstd::prelude::*;
use vstd::string::*;
use crate::error::{AppError, ErrorView, help_err};
use crate::text::{chars_of, concat3, string_from_range};
use crate::tld::{trim, trim_bounds};

verus! {

broadcast use vstd::string::group_string_axioms;

/// The query type asked for: `NS`.
pub const QTYPE_NS: u16 = 2;
/// Response code: no error (the name exists).
pub const RCODE_NOERROR: u8 = 0;
/// Response code: the name does not exist.
pub const RCODE_NXDOMAIN: u8 = 3;

/// What a resolver answered for one name.
#[derive(Debug, Clone, Copy, PartialEq, Eq, Structural)]
pub struct ResolveResponse {
    pub rcode: u8,
    pub answer_count: u16,
}

/// A domain is available exactly when a resolver answered `NXDOMAIN`; no
/// answer at all counts as unavailable.
pub open spec fn available_spec(response: Option<ResolveResponse>) -> bool {
    match response {
        Some(r) => r.rcode == RCODE_NXDOMAIN,
        None => false,
    }
}

/// Whether a response means the name is available.
pub fn is_available(response: Option<ResolveResponse>) -> (b: bool)
    ensures
        b == available_spec(response),
        b == (response matches Some(r) && r.rcode == 3u8),
{
    match response {
        Some(r) => r.rcode == RCODE_NXDOMAIN,
        None => false,
    }
}

/// A name is available exactly when a resolver answered `NXDOMAIN` (3): no
/// answer means it is not, and a `NOERROR` (0) answer means the name exists,
/// whatever number of records came with it.
pub proof fn lemma_available_exactly_nxdomain(response: Option<ResolveResponse>)
    ensures
        available_spec(response) <==> (response matches Some(r) && r.rcode == 3u8),
        response matches Some(r) && r.rcode == 0u8 ==> !available_spec(response),
        response is None ==> !available_spec(response),
{
}

/// Whether a response code settles the lookup (`NOERROR` or `NXDOMAIN`);
/// any other code is retried.
pub fn is_definitive(rcode: u8) -> (b: bool)
    ensures
        b == (rcode == RCODE_NOERROR || rcode == RCODE_NXDOMAIN),
{
    rcode == RCODE_NOERROR || rcode == RCODE_NXDOMAIN
}

/// The availability of each name, from the responses in the same order.
pub fn availability(responses: &[Option<ResolveResponse>]) -> (r: Vec<bool>)
    ensures
        r@.len() == responses@.len(),
        forall|i: int| 0 <= i < r@.len() ==> r@[i] == available_spec(#[trigger] responses@[i]),
{
    let mut r: Vec<bool> = Vec::new();
    let mut i: usize = 0;
    while i < responses.len()
        invariant
            i <= responses@.len(),
            r@.len() == i,
            forall|j: int| 0 <= j < i ==> r@[j] == available_spec(#[trigger] responses@[j]),
        decreases responses@.len() - i,
    {
        r.push(is_available(responses[i]));
        i = i + 1;
    }
    r
}

// ---------------------------------------------------------------------------
// Resolver addresses and configuration
// ---------------------------------------------------------------------------

/// A resolver's socket address: the IP address bytes (4 for IPv4, 16 for
/// IPv6), the port, and for IPv6 the flow information and scope id.
#[derive(Debug, Clone, PartialEq, Eq)]
pub struct ResolverAddr {
    pub ip: Vec<u8>,
    pub port: u16,
    pub flowinfo: u32,
    pub scope_id: u32,
}

pub struct AddrView {
    pub ip: Seq<u8>,
    pub port: u16,
    pub flowinfo: u32,
    pub scope_id: u32,
}

impl View for ResolverAddr {
    type V = AddrView;

    open spec fn view(&self) -> AddrView {
        AddrView { ip: self.ip@, port: self.port, flowinfo: self.flowinfo, scope_id: self.scope_id }
    }
}

impl ResolverAddr {
    /// An IPv4 resolver address.
    pub fn v4(a: u8, b: u8, c: u8, d: u8, port: u16) -> (r: Self)
        ensures
            r@ == (AddrView { ip: seq![a, b, c, d], port, flowinfo: 0, scope_id: 0 }),
    {
        let ip = vec![a, b, c, d];
        assert(ip@ =~= seq![a, b, c, d]);
        ResolverAddr { ip, port, flowinfo: 0, scope_id: 0 }
    }

    /// Whether this is an IPv4 address.
    pub fn is_v4(&self) -> (b: bool)
        ensures
            b == (self@.ip.len() == 4),
    {
        self.ip.len() == 4
    }

    /// Field-wise equality of two addresses.
    pub fn same(&self, other: &ResolverAddr) -> (b: bool)
        ensures
            b == (self@ == other@),
    {
        if self.port != other.port || self.flowinfo != other.flowinfo || self.scope_id != other.scope_id
            || self.ip.len() != other.ip.len() {
            return false;
        }
        let mut i: usize = 0;
        while i < self.ip.len()
            invariant
                i <= self.ip@.len(),
                self.ip@.len() == other.ip@.len(),
                forall|j: int| 0 <= j < i ==> self.ip@[j] == other.ip@[j],
            decreases self.ip@.len() - i,
        {
            if self.ip[i] != other.ip[i] {
                return false;
            }
            i = i + 1;
        }
        assert(self.ip@ =~= other.ip@);
        true
    }

    /// A copy of the address.
    pub fn duplicate(&self) -> (r: ResolverAddr)
        ensures
            r@ == self@,
    {
        ResolverAddr { ip: self.ip.clone(), port: self.port, flowinfo: self.flowinfo, scope_id: self.scope_id }
    }
}

/// The public resolvers used when none are configured: Cloudflare, Google,
/// Quad9 and OpenDNS, two addresses each, port 53.
pub open spec fn default_resolver_views() -> Seq<AddrView> {
    seq![
        AddrView { ip: seq![1u8, 1, 1, 1], port: 53, flowinfo: 0, scope_id: 0 },
        AddrView { ip: seq![1u8, 0, 0, 1], port: 53, flowinfo: 0, scope_id: 0 },
        AddrView { ip: seq![8u8, 8, 8, 8], port: 53, flowinfo: 0, scope_id: 0 },
        AddrView { ip: seq![8u8, 8, 4, 4], port: 53, flowinfo: 0, scope_id: 0 },
        AddrView { ip: seq![9u8, 9, 9, 9], port: 53, flowinfo: 0, scope_id: 0 },
        AddrView { ip: seq![149u8, 112, 112, 112], port: 53, flowinfo: 0, scope_id: 0 },
        AddrView { ip: seq![208u8, 67, 222, 222], port: 53, flowinfo: 0, scope_id: 0 },
        AddrView { ip: seq![208u8, 67, 220, 220], port: 53, flowinfo: 0, scope_id: 0 },
    ]
}

pub open spec fn addr_views(v: Seq<ResolverAddr>) -> Seq<AddrView> {
    v.map_values(|a: ResolverAddr| a@)
}

/// The default resolvers.
pub fn default_resolvers() -> (r: Vec<ResolverAddr>)
    ensures
        addr_views(r@) == default_resolver_views(),
{
    let r = vec![
        ResolverAddr::v4(1, 1, 1, 1, 53),
        ResolverAddr::v4(1, 0, 0, 1, 53),
        ResolverAddr::v4(8, 8, 8, 8, 53),
        ResolverAddr::v4(8, 8, 4, 4, 53),
        ResolverAddr::v4(9, 9, 9, 9, 53),
        ResolverAddr::v4(149, 112, 112, 112, 53),
        ResolverAddr::v4(208, 67, 222, 222, 53),
        ResolverAddr::v4(208, 67, 220, 220, 53),
    ];
    assert(addr_views(r@) =~= default_resolver_views());
    r
}

/// Settings of the UDP resolver.
#[derive(Debug, Clone)]
pub struct ResolveConfig {
    pub resolvers: Vec<ResolverAddr>,
    pub concurrency: usize,
    pub query_timeout_ms: u64,
    pub max_attempts: u8,
    pub socket_count: usize,
    pub send_batch_size: usize,
    pub recv_batch_size: usize,
    pub recv_buf_size: usize,
    pub send_buf_size: usize,
}

/// The numeric settings of a configuration, as a tuple: concurrency,
/// timeout, attempts, sockets, send batch, receive batch, receive buffer,
/// send buffer.
pub open spec fn config_numbers(c: ResolveConfig) -> (usize, u64, u8, usize, usize, usize, usize, usize) {
    (c.concurrency, c.query_timeout_ms, c.max_attempts, c.socket_count, c.send_batch_size,
        c.recv_batch_size, c.recv_buf_size, c.send_buf_size)
}

/// Whether a configuration's numbers lie in the ranges that the resolver
/// works with.
pub open spec fn config_normal(c: ResolveConfig) -> bool {
    &&& 1 <= c.concurrency <= 60_000
    &&& c.query_timeout_ms >= 1
    &&& c.max_attempts >= 1
    &&& c.socket_count >= 1
    &&& c.send_batch_size >= 1
    &&& c.recv_batch_size >= 1
    &&& c.recv_buf_size >= 65536
    &&& c.send_buf_size >= 65536
}

pub open spec fn clamp_spec(x: int, lo: int, hi: int) -> int {
    if x < lo { lo } else if x > hi { hi } else { x }
}

pub open spec fn at_least(x: int, lo: int) -> int {
    if x < lo { lo } else { x }
}

impl ResolveConfig {
    /// The CLI's settings: the default resolvers, 1000 lookups in flight,
    /// 500 ms per attempt, 4 attempts, one socket, batches of 64 and 4 MiB
    /// socket buffers.
    pub fn default() -> (c: Self)
        ensures
            addr_views(c.resolvers@) == default_resolver_views(),
            config_numbers(c) == (1000usize, 500u64, 4u8, 1usize, 64usize, 64usize, 4194304usize, 4194304usize),
    {
        ResolveConfig {
            resolvers: default_resolvers(),
            concurrency: 1000,
            query_timeout_ms: 500,
            max_attempts: 4,
            socket_count: 1,
            send_batch_size: 64,
            recv_batch_size: 64,
            recv_buf_size: 4194304,
            send_buf_size: 4194304,
        }
    }

    /// The cache builder's settings: as the default, with 10000 lookups in
    /// flight and four sockets on Linux (one elsewhere).
    pub fn builder_default(on_linux: bool) -> (c: Self)
        ensures
            addr_views(c.resolvers@) == default_resolver_views(),
            config_numbers(c) == (10000usize, 500u64, 4u8, if on_linux { 4usize } else { 1usize }, 64usize,
                64usize, 4194304usize, 4194304usize),
    {
        let base = Self::default();
        ResolveConfig {
            concurrency: 10000,
            max_attempts: 4,
            socket_count: if on_linux { 4 } else { 1 },
            ..base
        }
    }

    /// The configuration with every number brought into its working range:
    /// concurrency into 1..=60000, the other counts to at least 1, the
    /// socket buffers to at least 64 KiB.
    pub fn normalized(self) -> (c: Self)
        ensures
            c.resolvers == self.resolvers,
            c.concurrency == clamp_spec(self.concurrency as int, 1, 60_000),
            c.query_timeout_ms == at_least(self.query_timeout_ms as int, 1),
            c.max_attempts == at_least(self.max_attempts as int, 1),
            c.socket_count == at_least(self.socket_count as int, 1),
            c.send_batch_size == at_least(self.send_batch_size as int, 1),
            c.recv_batch_size == at_least(self.recv_batch_size as int, 1),
            c.recv_buf_size == at_least(self.recv_buf_size as int, 65536),
            c.send_buf_size == at_least(self.send_buf_size as int, 65536),
            config_normal(c),
    {
        let mut c = self;
        c.concurrency = if c.concurrency < 1 { 1 } else if c.concurrency > 60_000 { 60_000 } else { c.concurrency };
        c.query_timeout_ms = if c.query_timeout_ms < 1 { 1 } else { c.query_timeout_ms };
        c.max_attempts = if c.max_attempts < 1 { 1 } else { c.max_attempts };
        c.socket_count = if c.socket_count < 1 { 1 } else { c.socket_count };
        c.send_batch_size = if c.send_batch_size < 1 { 1 } else { c.send_batch_size };
        c.recv_batch_size = if c.recv_batch_size < 1 { 1 } else { c.recv_batch_size };
        c.recv_buf_size = if c.recv_buf_size < 65536 { 65536 } else { c.recv_buf_size };
        c.send_buf_size = if c.send_buf_size < 65536 { 65536 } else { c.send_buf_size };
        c
    }
}

// ---------------------------------------------------------------------------
// Resolver lists
// ---------------------------------------------------------------------------

/// Separators of a resolver list: commas and ASCII whitespace.
pub open spec fn is_list_sep(c: char) -> bool {
    c == ',' || c == ' ' || c == '\t' || c == '\n' || c == '\u{c}' || c == '\r'
}

/// The pieces of a resolver list between separators.
pub open spec fn split_list(s: Seq<char>) -> Seq<Seq<char>>
    decreases s.len(),
{
    if s.len() == 0 {
        seq![Seq::<char>::empty()]
    } else {
        let r = split_list(s.drop_last());
        if is_list_sep(s.last()) {
            r.push(Seq::<char>::empty())
        } else {
            r.update(r.len() - 1, r.last().push(s.last()))
        }
    }
}

/// Whether a trimmed piece names a resolver (it is neither empty nor a
/// `#` comment).
pub open spec fn is_entry(t: Seq<char>) -> bool {
    t.len() > 0 && t[0] != '#'
}

/// The entries of a resolver list, trimmed, in order.
pub open spec fn entries_of(pieces: Seq<Seq<char>>) -> Seq<Seq<char>>
    decreases pieces.len(),
{
    if pieces.len() == 0 {
        Seq::empty()
    } else {
        let rest = entries_of(pieces.drop_last());
        let t = trim(pieces.last());
        if is_entry(t) { rest.push(t) } else { rest }
    }
}

/// The resolver entries of a list such as `1.1.1.1, 8.8.8.8:53`.
pub open spec fn resolver_entries(s: Seq<char>) -> Seq<Seq<char>> {
    entries_of(split_list(s))
}

/// Splits a resolver list into its entries: the pieces between commas and
/// ASCII whitespace, trimmed, without empty pieces and `#` comments.
pub fn resolver_tokens(input: &str) -> (r: Vec<String>)
    ensures
        r@.map_values(|t: String| t@) == resolver_entries(input@),
{
    let s = chars_of(input);
    let mut out: Vec<String> = Vec::new();
    let mut start: usize = 0;
    let mut i: usize = 0;
    assert(s@.take(0) =~= Seq::<char>::empty());
    assert(split_list(s@.take(0)).drop_last() =~= Seq::<Seq<char>>::empty());
    assert(s@.subrange(0, 0) =~= Seq::<char>::empty());
    while i < s.len()
        invariant
            start <= i <= s@.len(),
            s@ == input@,
            split_list(s@.take(i as int)).len() > 0,
            split_list(s@.take(i as int)).last() == s@.subrange(start as int, i as int),
            entries_of(split_list(s@.take(i as int)).drop_last()) == out@.map_values(|t: String| t@),
        decreases s@.len() - i,
    {
        let ghost r = split_list(s@.take(i as int));
        let ghost before = out@.map_values(|t: String| t@);
        assert(s@.take(i + 1).drop_last() =~= s@.take(i as int));
        assert(s@.take(i + 1).last() == s@[i as int]);
        let c = s[i];
        if c == ',' || c == ' ' || c == '\t' || c == '\n' || c == '\u{c}' || c == '\r' {
            let (a, b) = trim_bounds(&s, start, i);
            proof {
                let n = split_list(s@.take(i + 1));
                assert(n == r.push(Seq::<char>::empty()));
                assert(n.drop_last() =~= r);
                assert(r.drop_last().push(r.last()) =~= r);
                assert(s@.subrange(i + 1, i + 1) =~= Seq::<char>::empty());
            }
            if a < b && s[a] != '#' {
                out.push(string_from_range(&s, a, b));
                assert(out@.map_values(|t: String| t@) =~= before.push(s@.subrange(a as int, b as int)));
            }
            start = i + 1;
        } else {
            proof {
                let n = split_list(s@.take(i + 1));
                assert(n == r.update(r.len() - 1, r.last().push(s@[i as int])));
                assert(n.drop_last() =~= r.drop_last());
                assert(n.last() =~= s@.subrange(start as int, i + 1));
            }
        }
        i = i + 1;
    }
    let ghost all = split_list(s@);
    assert(s@.take(s@.len() as int) =~= s@);
    let ghost before = out@.map_values(|t: String| t@);
    let (a, b) = trim_bounds(&s, start, s.len());
    assert(all.drop_last().push(all.last()) =~= all);
    if a < b && s[a] != '#' {
        out.push(string_from_range(&s, a, b));
        assert(out@.map_values(|t: String| t@) =~= before.push(s@.subrange(a as int, b as int)));
    }
    out
}

pub open spec fn no_resolvers_err() -> ErrorView {
    help_err("no DNS resolvers configured"@, "set DOMAINGREP_RESOLVERS or provide at least one resolver"@)
}

pub open spec fn invalid_resolver_err(token: Seq<char>) -> ErrorView {
    help_err(
        "invalid DNS resolver '"@ + token + "'"@,
        "use an IP address or socket address like '1.1.1.1' or '1.1.1.1:53'"@,
    )
}

/// The error for a resolver list without entries.
pub fn no_resolvers_error() -> (e: AppError)
    ensures
        e@ == no_resolvers_err(),
{
    AppError::new("no DNS resolvers configured").with_help("set DOMAINGREP_RESOLVERS or provide at least one resolver")
}

/// The error for an entry that is neither an IP address nor a socket
/// address.
pub fn invalid_resolver_error(token: &str) -> (e: AppError)
    ensures
        e@ == invalid_resolver_err(token@),
{
    let m = concat3("invalid DNS resolver '", token, "'");
    AppError::new(m.as_str()).with_help("use an IP address or socket address like '1.1.1.1' or '1.1.1.1:53'")
}

} // verus!
