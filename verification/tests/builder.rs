use domaingrep::builder::{merge_partials, parse_tlds, partials_fit, record_scan_batch, scan_batch_end, scan_batch_names};
use domaingrep::cache::{all_short_domains, CacheFile};

fn partial(tlds: &[&str], available: &[(&str, &str)]) -> CacheFile {
    let mut file = CacheFile::empty(tlds.iter().map(|t| t.to_string()).collect(), 7);
    for (domain, tld) in available {
        let index = tlds.iter().position(|t| t == tld).unwrap();
        file.set_available_by_index(index, domain, true).unwrap();
    }
    file.finalize_checksum();
    file
}

#[test]
fn tld_arguments_accept_lists_and_json() {
    assert_eq!(parse_tlds(" com, io ,,com,dev").unwrap(), vec!["com", "io", "dev"]);
    assert_eq!(parse_tlds("  [\"io\",\"com\",\"io\"]").unwrap(), vec!["io", "com", "io"]);
    let err = parse_tlds("[broken").unwrap_err();
    assert!(err.render().contains("failed to parse --tlds JSON array"));
    let err = parse_tlds(" , ").unwrap_err();
    assert!(err.render().contains("no TLDs provided to --tlds"));
}

#[test]
fn scan_batches_cover_the_domains() {
    let domains = all_short_domains();
    assert_eq!(scan_batch_end(0, domains.len()), 25_000);
    assert_eq!(scan_batch_end(25_000, domains.len()), domains.len());
    let names = scan_batch_names(&domains, 0, 3, "io");
    assert_eq!(names, vec!["a.io", "b.io", "c.io"]);
}

#[test]
fn scan_answers_are_recorded() {
    let mut cache = CacheFile::empty(vec!["com".to_string(), "io".to_string()], 0);
    let found = record_scan_batch(&mut cache, 1, 36, &[true, false, true]);
    assert_eq!(found, 2);
    assert!(cache.lookup_by_index(1, "aa").unwrap());
    assert!(!cache.lookup_by_index(1, "ab").unwrap());
    assert!(cache.lookup_by_index(1, "ac").unwrap());
    assert!(!cache.lookup_by_index(0, "aa").unwrap());
}

#[test]
fn partial_caches_merge_in_tld_order() {
    let a = partial(&["io", "com"], &[("abc", "io")]);
    let b = partial(&["dev", "com"], &[("xyz", "dev"), ("a", "com")]);
    let merged = merge_partials(&[a, b], 99);
    assert_eq!(merged.header.tlds, vec!["io", "com", "dev"]);
    assert_eq!(merged.header.timestamp, 99);
    assert!(merged.lookup_by_index(0, "abc").unwrap());
    assert!(merged.lookup_by_index(2, "xyz").unwrap());
    assert!(!merged.lookup_by_index(1, "a").unwrap());
    let reparsed = CacheFile::from_bytes(&merged.to_bytes()).unwrap();
    assert_eq!(reparsed.header.checksum, merged.header.checksum);
}

#[test]
fn merging_copies_whole_tld_slices_at_odd_indices() {
    let last = 49_283;
    let mut a = CacheFile::empty(vec!["com".to_string(), "net".to_string(), "org".to_string()], 1);
    a.set_available_raw(0, last - 1, true).unwrap();
    a.set_available_raw(1, 0, true).unwrap();
    a.set_available_raw(1, last, true).unwrap();
    a.set_available_raw(2, last, true).unwrap();
    let mut b = CacheFile::empty(vec!["xyz".to_string()], 1);
    b.set_available_raw(0, 0, true).unwrap();
    b.set_available_raw(0, 3, true).unwrap();
    let merged = merge_partials(&[a, b], 5);
    assert_eq!(merged.header.tlds, vec!["com", "net", "org", "xyz"]);
    for d in 0..49_284 {
        assert_eq!(merged.is_available_raw(0, d), d == last - 1, "com {d}");
        assert_eq!(merged.is_available_raw(1, d), d == 0 || d == last, "net {d}");
        assert_eq!(merged.is_available_raw(2, d), d == last, "org {d}");
        assert_eq!(merged.is_available_raw(3, d), d == 0 || d == 3, "xyz {d}");
    }
}

#[test]
fn ordinary_partials_fit_in_one_cache() {
    assert!(partials_fit(&[]));
    let a = partial(&["io", "com"], &[]);
    let b = partial(&["dev"], &[]);
    assert!(partials_fit(&[a, b]));
}
