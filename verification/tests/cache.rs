use domaingrep::cache::{
    all_short_domains, domain_to_index, hex_sha256, parse_checksum, unpack_cache_asset, CacheConfig,
    fits_in_cache, CacheFile, CacheStore, DOMAINS_PER_TLD,
};
use flate2::write::GzEncoder;
use flate2::Compression;
use std::io::Write;

fn cache_fixture_at(tlds: &[&str], available: &[(&str, &str)], timestamp: i64) -> CacheFile {
    let mut file = CacheFile::empty(tlds.iter().map(|tld| (*tld).to_string()).collect(), timestamp);

    for (domain, tld) in available {
        let tld_index = file
            .header
            .tlds
            .iter()
            .position(|candidate| candidate == tld)
            .expect("test TLD should exist in fixture");
        file.set_available_by_index(tld_index, domain, true)
            .expect("fixture domain should be valid");
    }

    file
}

fn cache_fixture(tlds: &[&str], available: &[(&str, &str)]) -> CacheFile {
    cache_fixture_at(tlds, available, 1_700_000_000)
}

fn gzip(bytes: &[u8]) -> Vec<u8> {
    let mut encoder = GzEncoder::new(Vec::new(), Compression::default());
    encoder.write_all(bytes).unwrap();
    encoder.finish().unwrap()
}

#[test]
fn computes_domain_indices_from_spec_examples() {
    assert_eq!(domain_to_index("abc").unwrap(), 1_370);
    assert_eq!(domain_to_index("a-b").unwrap(), 2_629);
}

#[test]
fn cache_round_trips_and_looks_up_domains() {
    let cache = cache_fixture(&["ai", "com", "io"], &[("abc", "com"), ("a-b", "io")]);
    let bytes = cache.to_bytes();
    let parsed = CacheFile::from_bytes(&bytes).unwrap();

    assert!(parsed.lookup_by_index(1, "abc").unwrap());
    assert!(parsed.lookup_by_index(2, "a-b").unwrap());
    assert!(!parsed.lookup_by_index(0, "abc").unwrap());
}

#[test]
fn domain_indices_cover_the_short_space_in_order() {
    let domains = all_short_domains();
    assert_eq!(domains.len(), DOMAINS_PER_TLD);
    assert_eq!(domains[0], "a");
    assert_eq!(domains[35], "9");
    assert_eq!(domains[36], "aa");
    assert_eq!(domains[1332], "aaa");
    assert_eq!(domains[DOMAINS_PER_TLD - 1], "9-9");
    for (index, domain) in domains.iter().enumerate().step_by(997) {
        assert_eq!(domain_to_index(domain).unwrap() as usize, index);
    }
}

#[test]
fn invalid_short_domains_are_refused() {
    assert!(domain_to_index("").unwrap_err().render().contains("must be 1 to 3 characters"));
    assert!(domain_to_index("abcd").unwrap_err().render().contains("must be 1 to 3 characters"));
    assert!(domain_to_index("-ab").unwrap_err().render().contains("invalid cache domain '-ab'"));
    assert!(domain_to_index("a_b").is_err());
}

#[test]
fn header_fields_survive_a_round_trip() {
    let cache = cache_fixture_at(&["com", "io"], &[("x", "io")], 123_456);
    let parsed = CacheFile::from_bytes(&cache.to_bytes()).unwrap();
    assert_eq!(parsed.header.timestamp, 123_456);
    assert_eq!(parsed.header.format_version, 1);
    assert_eq!(parsed.header.tlds, vec!["com", "io"]);
    assert_eq!(parsed.bitmap(), cache.bitmap());
    assert_eq!(&cache.to_bytes()[..4], b"DGRP");
}

#[test]
fn truncated_or_foreign_bytes_are_refused() {
    let cache = cache_fixture(&["com"], &[]);
    let bytes = cache.to_bytes();
    assert!(CacheFile::from_bytes(&bytes[..10]).is_err());
    let mut foreign = bytes.clone();
    foreign[0] = b'X';
    assert!(CacheFile::from_bytes(&foreign).is_err());
    let mut short = bytes.clone();
    short.pop();
    assert!(CacheFile::from_bytes(&short).is_err());
}

#[test]
fn writes_read_back_and_leave_other_domains() {
    let mut cache = cache_fixture(&["com", "io"], &[]);
    cache.set_available_by_index(1, "ab", true).unwrap();
    assert!(cache.lookup_by_index(1, "ab").unwrap());
    assert!(!cache.lookup_by_index(0, "ab").unwrap());
    assert!(!cache.lookup_by_index(1, "aa").unwrap());
    cache.set_available_by_index(1, "ab", false).unwrap();
    assert!(!cache.lookup_by_index(1, "ab").unwrap());
    assert!(cache.set_available_by_index(2, "ab", true).is_err());
}

#[test]
fn mapped_caches_refuse_writes() {
    let cache = cache_fixture(&["com"], &[]);
    let mut mapped = CacheFile::from_mapped_bytes(&cache.to_bytes()).unwrap();
    let err = mapped.set_available_raw(0, 0, true).unwrap_err();
    assert!(err.render().contains("cannot mutate a memory-mapped cache file"));
}

#[test]
fn store_lookups_use_the_tld_names() {
    let file = cache_fixture(&["com", "io"], &[("abc", "io")]);
    let store = CacheStore::from_file(file, "/tmp/cache".to_string());
    assert!(store.lookup("abc", "io").unwrap());
    assert!(!store.lookup("abc", "com").unwrap());
    let err = store.lookup("abc", "dev").unwrap_err();
    assert_eq!(err.render(), "error: unknown TLD '.dev' in cache lookup\n");
    assert_eq!(store.tlds(), &["com".to_string(), "io".to_string()]);
    assert_eq!(store.cache_dir(), "/tmp/cache");
}

#[test]
fn staleness_follows_the_newest_timestamp() {
    let file = cache_fixture_at(&["com"], &[], 1_000);
    let store = CacheStore::from_file(file, String::new());
    assert!(!store.is_stale(None, 1_000 + 86_399));
    assert!(store.is_stale(None, 1_000 + 86_400));
    assert!(!store.is_stale(Some(50_000), 50_000 + 10));
}

#[test]
fn cache_paths_join_the_directory() {
    let config = CacheConfig {
        cache_dir: "/var/cache/domaingrep".to_string(),
        asset_url: String::new(),
        checksum_url: String::new(),
    };
    assert_eq!(config.cache_bin_path(), "/var/cache/domaingrep/cache.bin");
    assert_eq!(config.cache_meta_path(), "/var/cache/domaingrep/cache.meta");
}

#[test]
fn checksums_are_read_and_computed() {
    assert_eq!(parse_checksum("  ABCdef  cache.bin.gz\n").as_deref(), Some("abcdef"));
    assert_eq!(parse_checksum("   \n"), None);
    assert_eq!(
        hex_sha256(b"abc"),
        "ba7816bf8f01cfea414140de5dae2223b00361a396177a9cb410ff61f20015ad"
    );
}

#[test]
fn downloaded_assets_are_checked_and_unpacked() {
    let cache = cache_fixture(&["com", "io"], &[("abc", "com")]);
    let compressed = gzip(&cache.to_bytes());
    let checksum = format!("{}  cache.bin.gz\n", hex_sha256(&compressed));
    let (bytes, file, sha) = unpack_cache_asset(&checksum, &compressed).unwrap();
    assert_eq!(bytes, cache.to_bytes());
    assert_eq!(sha, hex_sha256(&compressed));
    assert!(file.lookup_by_index(0, "abc").unwrap());

    let wrong = format!("{}  cache.bin.gz\n", "0".repeat(64));
    let err = unpack_cache_asset(&wrong, &compressed).unwrap_err();
    assert!(err.render().contains("cache integrity check failed (SHA-256 mismatch)"));
    let err = unpack_cache_asset("", &compressed).unwrap_err();
    assert!(err.render().contains("failed to download domain cache from GitHub Releases"));
    let not_gzip = b"plain bytes";
    let checksum = format!("{}\n", hex_sha256(not_gzip));
    let err = unpack_cache_asset(&checksum, not_gzip).unwrap_err();
    assert!(err.render().contains("failed to decompress cache asset"));
}

#[test]
fn copying_a_tld_slice_keeps_its_neighbours() {
    let tlds = |names: &[&str]| names.iter().map(|t| t.to_string()).collect::<Vec<String>>();
    let mut src = CacheFile::empty(tlds(&["a1", "a2", "a3"]), 0);
    src.set_available_raw(1, 0, true).unwrap();
    src.set_available_raw(1, 49_283, true).unwrap();
    src.set_available_raw(0, 49_283, true).unwrap();
    src.set_available_raw(2, 0, true).unwrap();
    let mut dst = CacheFile::empty(tlds(&["b1", "b2", "b3"]), 0);
    dst.set_available_raw(0, 49_280, true).unwrap();
    dst.set_available_raw(2, 1, true).unwrap();
    dst.copy_tld_bitmap(1, src.bitmap(), 1).unwrap();
    for d in 0..49_284 {
        assert_eq!(dst.is_available_raw(0, d), d == 49_280, "before {d}");
        assert_eq!(dst.is_available_raw(1, d), d == 0 || d == 49_283, "copied {d}");
        assert_eq!(dst.is_available_raw(2, d), d == 1, "after {d}");
    }
    dst.copy_tld_bitmap(0, src.bitmap(), 2).unwrap();
    assert!(dst.is_available_raw(0, 0));
    assert!(!dst.is_available_raw(0, 49_280));
    assert!(dst.is_available_raw(1, 0));
    assert!(dst.copy_tld_bitmap(3, src.bitmap(), 0).is_err());
}

#[test]
fn cache_size_limit_follows_the_address_space() {
    assert!(fits_in_cache(0));
    assert!(fits_in_cache(1_500));
    assert!(fits_in_cache(usize::MAX / DOMAINS_PER_TLD));
    assert!(!fits_in_cache(usize::MAX / DOMAINS_PER_TLD + 1));
    assert!(!fits_in_cache(usize::MAX));
}
