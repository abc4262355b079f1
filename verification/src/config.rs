//! Run-time settings: the values read from the environment, how they are
//! checked, and the resolver configuration they make.
use vstd::prelude::*;
use vstd::string::*;
use crate::error::{AppError, ErrorView, help_err};
use crate::resolve::{ResolveConfig, ResolverAddr, addr_views, at_least, clamp_spec, config_normal};
use crate::text::{chars_eq, chars_of, chars_start_with, concat3, lower_chars, lower_seq};
use crate::tld::dec_value;
use crate::update::{all_digits, parse_digits};

verus! {

broadcast use vstd::string::group_string_axioms;

/// Where the cache asset is downloaded from.
pub const DEFAULT_CACHE_ASSET_URL: &'static str =
    "https://github.com/ysm-dev/domaingrep/releases/download/cache-latest/cache.bin.gz";
/// Where the checksum of the cache asset is downloaded from.
pub const DEFAULT_CACHE_CHECKSUM_URL: &'static str =
    "https://github.com/ysm-dev/domaingrep/releases/download/cache-latest/cache.sha256";
/// Where the latest release is looked up.
pub const DEFAULT_UPDATE_API_URL: &'static str = "https://api.github.com/repos/ysm-dev/domaingrep/releases/latest";

/// The settings of a run.
#[derive(Debug, Clone)]
pub struct RuntimeConfig {
    pub cache_dir: String,
    pub cache_url: String,
    pub cache_checksum_url: String,
    pub update_api_url: String,
    pub resolvers: Vec<ResolverAddr>,
    pub resolve_concurrency: usize,
    pub resolve_timeout_ms: u64,
    pub resolve_attempts: u8,
    pub resolve_socket_count: usize,
    pub disable_update: bool,
}

/// `str::parse` for an unsigned type whose largest value is `max`: an
/// optional `+`, then one or more decimal digits whose value is at most
/// `max`.
pub open spec fn parse_unsigned_spec(s: Seq<char>, max: nat) -> Option<nat> {
    let d = if s.len() > 0 && s[0] == '+' { s.drop_first() } else { s };
    if d.len() > 0 && all_digits(d) && dec_value(d) <= max { Some(dec_value(d)) } else { None }
}

fn parse_unsigned(s: &[char], max: u64) -> (r: Option<u64>)
    ensures
        match r {
            Some(v) => parse_unsigned_spec(s@, max as nat) == Some(v as nat),
            None => parse_unsigned_spec(s@, max as nat) is None,
        },
{
    let start: usize = if s.len() > 0 && s[0] == '+' { 1 } else { 0 };
    assert(s@.skip(1) =~= s@.drop_first());
    assert(s@.skip(0) =~= s@);
    parse_digits(s, start, max)
}

pub open spec fn invalid_env_err(name: Seq<char>, value: Seq<char>, help: Seq<char>) -> ErrorView {
    help_err("invalid value '"@ + value + "' for "@ + name, help)
}

/// A numeric setting from the environment: the default when the variable
/// is not set, its value when it parses, an error otherwise.
pub open spec fn env_number_spec(name: Seq<char>, value: Option<Seq<char>>, default: nat, max: nat, help: Seq<char>) -> Result<nat, ErrorView> {
    match value {
        None => Ok(default),
        Some(v) => match parse_unsigned_spec(v, max) {
            Some(n) => Ok(n),
            None => Err(invalid_env_err(name, v, help)),
        },
    }
}

pub open spec fn opt_view(o: Option<&str>) -> Option<Seq<char>> {
    match o {
        Some(s) => Some(s@),
        None => None,
    }
}

fn env_number(name: &str, value: Option<&str>, default: u64, max: u64, help: &str) -> (r: Result<u64, AppError>)
    requires
        default <= max,
    ensures
        match r {
            Ok(n) => env_number_spec(name@, opt_view(value), default as nat, max as nat, help@) == Ok::<nat, ErrorView>(n as nat),
            Err(e) => env_number_spec(name@, opt_view(value), default as nat, max as nat, help@) == Err::<nat, ErrorView>(e@),
        },
{
    match value {
        None => Ok(default),
        Some(v) => {
            let s = chars_of(v);
            match parse_unsigned(&s, max) {
                Some(n) => Ok(n),
                None => {
                    let mut m = concat3("invalid value '", v, "' for ");
                    m.append(name);
                    Err(AppError::new(m.as_str()).with_help(help))
                },
            }
        },
    }
}

/// A `usize` setting (`help`: use a positive integer).
pub fn env_usize(name: &str, value: Option<&str>, default: usize) -> (r: Result<usize, AppError>)
    ensures
        match r {
            Ok(n) => env_number_spec(name@, opt_view(value), default as nat, usize::MAX as nat, "use a positive integer"@) == Ok::<nat, ErrorView>(n as nat),
            Err(e) => env_number_spec(name@, opt_view(value), default as nat, usize::MAX as nat, "use a positive integer"@) == Err::<nat, ErrorView>(e@),
        },
{
    match env_number(name, value, default as u64, usize::MAX as u64, "use a positive integer") {
        Ok(n) => Ok(n as usize),
        Err(e) => Err(e),
    }
}

/// A `u64` setting (`help`: use a positive integer).
pub fn env_u64(name: &str, value: Option<&str>, default: u64) -> (r: Result<u64, AppError>)
    ensures
        match r {
            Ok(n) => env_number_spec(name@, opt_view(value), default as nat, u64::MAX as nat, "use a positive integer"@) == Ok::<nat, ErrorView>(n as nat),
            Err(e) => env_number_spec(name@, opt_view(value), default as nat, u64::MAX as nat, "use a positive integer"@) == Err::<nat, ErrorView>(e@),
        },
{
    env_number(name, value, default, u64::MAX, "use a positive integer")
}

/// A `u8` setting (`help`: use a positive integer between 1 and 255).
pub fn env_u8(name: &str, value: Option<&str>, default: u8) -> (r: Result<u8, AppError>)
    ensures
        match r {
            Ok(n) => env_number_spec(name@, opt_view(value), default as nat, 255, "use a positive integer between 1 and 255"@) == Ok::<nat, ErrorView>(n as nat),
            Err(e) => env_number_spec(name@, opt_view(value), default as nat, 255, "use a positive integer between 1 and 255"@) == Err::<nat, ErrorView>(e@),
        },
{
    match env_number(name, value, default as u64, 255, "use a positive integer between 1 and 255") {
        Ok(n) => Ok(n as u8),
        Err(e) => Err(e),
    }
}

/// Whether a flag variable is on: `1` or `true` in any case.
pub open spec fn env_flag_spec(value: Option<Seq<char>>) -> bool {
    match value {
        Some(v) => v == "1"@ || lower_seq(v) == "true"@,
        None => false,
    }
}

/// Reads a flag variable.
pub fn env_flag(value: Option<&str>) -> (b: bool)
    ensures
        b == env_flag_spec(opt_view(value)),
{
    match value {
        Some(v) => {
            let s = chars_of(v);
            let one = chars_of("1");
            let t = chars_of("true");
            let lowered = lower_chars(&s);
            chars_eq(&s, &one) || chars_eq(&lowered, &t)
        },
        None => false,
    }
}

pub open spec fn is_https(url: Seq<char>) -> bool {
    "https://"@.len() <= url.len() && url.subrange(0, "https://"@.len() as int) == "https://"@
}

/// Whether every URL of the run is HTTPS, so HTTP/2 can be used from the
/// start.
/// Whether a URL starts with `https://`.
pub fn is_https_url(url: &str) -> (b: bool)
    ensures
        b == is_https(url@),
{
    let p = chars_of("https://");
    let a = chars_of(url);
    chars_start_with(&a, &p)
}

/// HTTP/2 is forced when every URL of the run is `https://`.
pub fn prefers_http2(config: &RuntimeConfig) -> (b: bool)
    ensures
        b == (is_https(config.cache_url@) && is_https(config.cache_checksum_url@) && is_https(config.update_api_url@)),
{
    is_https_url(config.cache_url.as_str()) && is_https_url(config.cache_checksum_url.as_str())
        && is_https_url(config.update_api_url.as_str())
}

/// The resolver configuration of a run: its resolvers and numbers over the
/// defaults, brought into range.
pub fn runtime_resolve_config(config: &RuntimeConfig) -> (c: ResolveConfig)
    ensures
        addr_views(c.resolvers@) == addr_views(config.resolvers@),
        c.concurrency == clamp_spec(config.resolve_concurrency as int, 1, 60_000),
        c.query_timeout_ms == at_least(config.resolve_timeout_ms as int, 1),
        c.max_attempts == at_least(config.resolve_attempts as int, 1),
        c.socket_count == at_least(config.resolve_socket_count as int, 1),
        c.send_batch_size == 64 && c.recv_batch_size == 64,
        c.recv_buf_size == 4194304 && c.send_buf_size == 4194304,
        config_normal(c),
{
    let mut resolvers: Vec<ResolverAddr> = Vec::new();
    let mut i: usize = 0;
    while i < config.resolvers.len()
        invariant
            i <= config.resolvers@.len(),
            addr_views(resolvers@) == addr_views(config.resolvers@).take(i as int),
        decreases config.resolvers@.len() - i,
    {
        let ghost before = addr_views(resolvers@);
        resolvers.push(config.resolvers[i].duplicate());
        assert(addr_views(resolvers@) =~= before.push(config.resolvers@[i as int]@));
        assert(addr_views(config.resolvers@).take(i + 1) =~= addr_views(config.resolvers@).take(i as int).push(config.resolvers@[i as int]@));
        i = i + 1;
    }
    assert(addr_views(config.resolvers@).take(config.resolvers@.len() as int) =~= addr_views(config.resolvers@));
    let base = ResolveConfig::default();
    ResolveConfig {
        resolvers,
        concurrency: config.resolve_concurrency,
        query_timeout_ms: config.resolve_timeout_ms,
        max_attempts: config.resolve_attempts,
        socket_count: config.resolve_socket_count,
        ..base
    }.normalized()
}

/// The cache builder's resolver configuration: the given resolvers and
/// numbers over the builder's defaults, brought into range.
pub fn builder_resolve_config(
    resolvers: Vec<ResolverAddr>,
    concurrency: usize,
    query_timeout_ms: u64,
    max_attempts: u8,
    socket_count: usize,
    on_linux: bool,
) -> (c: ResolveConfig)
    ensures
        c.resolvers == resolvers,
        c.concurrency == clamp_spec(concurrency as int, 1, 60_000),
        c.query_timeout_ms == at_least(query_timeout_ms as int, 1),
        c.max_attempts == at_least(max_attempts as int, 1),
        c.socket_count == at_least(socket_count as int, 1),
        c.send_batch_size == 64 && c.recv_batch_size == 64,
        c.recv_buf_size == 4194304 && c.send_buf_size == 4194304,
        config_normal(c),
{
    let base = ResolveConfig::builder_default(on_linux);
    ResolveConfig { resolvers, concurrency, query_timeout_ms, max_attempts, socket_count, ..base }.normalized()
}

} // verus!
