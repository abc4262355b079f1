use domaingrep::config::{
    builder_resolve_config, env_flag, env_u64, env_u8, env_usize, is_https_url, prefers_http2, runtime_resolve_config,
    RuntimeConfig, DEFAULT_CACHE_ASSET_URL, DEFAULT_CACHE_CHECKSUM_URL, DEFAULT_UPDATE_API_URL,
};
use domaingrep::resolve::{default_resolvers, resolver_tokens, ResolveConfig, ResolverAddr};

fn runtime() -> RuntimeConfig {
    RuntimeConfig {
        cache_dir: "/tmp".to_string(),
        cache_url: DEFAULT_CACHE_ASSET_URL.to_string(),
        cache_checksum_url: DEFAULT_CACHE_CHECKSUM_URL.to_string(),
        update_api_url: DEFAULT_UPDATE_API_URL.to_string(),
        resolvers: vec![ResolverAddr::v4(9, 9, 9, 9, 53)],
        resolve_concurrency: 0,
        resolve_timeout_ms: 0,
        resolve_attempts: 0,
        resolve_socket_count: 3,
        disable_update: false,
    }
}

#[test]
fn environment_numbers_parse_or_explain() {
    assert_eq!(env_usize("N", None, 1000).unwrap(), 1000);
    assert_eq!(env_usize("N", Some("250"), 1000).unwrap(), 250);
    assert_eq!(env_u64("T", Some("+10"), 500).unwrap(), 10);
    assert_eq!(env_u8("A", Some("255"), 4).unwrap(), 255);
    let err = env_u8("DOMAINGREP_RESOLVE_ATTEMPTS", Some("256"), 4).unwrap_err();
    assert_eq!(
        err.render(),
        "error: invalid value '256' for DOMAINGREP_RESOLVE_ATTEMPTS\n  = help: use a positive integer between 1 and 255\n"
    );
    let err = env_usize("DOMAINGREP_RESOLVE_CONCURRENCY", Some("lots"), 1).unwrap_err();
    assert!(err.render().contains("= help: use a positive integer\n"));
}

#[test]
fn flags_accept_one_and_true() {
    assert!(env_flag(Some("1")));
    assert!(env_flag(Some("TRUE")));
    assert!(env_flag(Some("true")));
    assert!(!env_flag(Some("yes")));
    assert!(!env_flag(None));
}

#[test]
fn http2_needs_https_everywhere() {
    let mut config = runtime();
    assert!(prefers_http2(&config));
    config.update_api_url = "http://127.0.0.1:9/latest".to_string();
    assert!(!prefers_http2(&config));
}

#[test]
fn runtime_settings_are_brought_into_range() {
    let resolve = runtime_resolve_config(&runtime());
    assert_eq!(resolve.concurrency, 1);
    assert_eq!(resolve.query_timeout_ms, 1);
    assert_eq!(resolve.max_attempts, 1);
    assert_eq!(resolve.socket_count, 3);
    assert_eq!(resolve.resolvers, vec![ResolverAddr::v4(9, 9, 9, 9, 53)]);
    let built = builder_resolve_config(default_resolvers(), 100_000, 500, 4, 0, true);
    assert_eq!(built.concurrency, 60_000);
    assert_eq!(built.socket_count, 1);
}

#[test]
fn defaults_match_the_documented_values() {
    let d = ResolveConfig::default();
    assert_eq!(d.concurrency, 1000);
    assert_eq!(d.query_timeout_ms, 500);
    assert_eq!(d.max_attempts, 4);
    assert_eq!(d.resolvers.len(), 8);
    assert_eq!(d.resolvers[0], ResolverAddr::v4(1, 1, 1, 1, 53));
    let b = ResolveConfig::builder_default(true);
    assert_eq!(b.concurrency, 10_000);
    assert_eq!(b.socket_count, 4);
    assert_eq!(ResolveConfig::builder_default(false).socket_count, 1);
}

#[test]
fn resolver_lists_split_on_commas_and_whitespace() {
    assert_eq!(resolver_tokens("1.1.1.1 8.8.8.8:54"), vec!["1.1.1.1", "8.8.8.8:54"]);
    assert_eq!(resolver_tokens(" 1.1.1.1,,\n#note\n[::1]:53 "), vec!["1.1.1.1", "[::1]:53"]);
    assert!(resolver_tokens(" , \n").is_empty());
}

#[test]
fn https_urls_are_recognised_by_their_scheme() {
    assert!(is_https_url("https://data.iana.org/TLD/tlds-alpha-by-domain.txt"));
    assert!(is_https_url("https://"));
    assert!(!is_https_url("http://127.0.0.1:8080/cache.bin.gz"));
    assert!(!is_https_url("HTTPS://example.com"));
    assert!(!is_https_url(""));
}
