use domaingrep::cache::{CacheFile, CacheStore};
use domaingrep::cli::ColorWhen;
use domaingrep::hack::HackTrie;
use domaingrep::output::{CheckMethod, DomainResult, ResultKind};
use domaingrep::report::{
    compose_report, fill_hack_dns, plan_hacks, promote_pinned, regular_cache_results, regular_dns_results,
    regular_domains, row_limit_for, uses_cache, plan_search,
};

fn strings(items: &[&str]) -> Vec<String> {
    items.iter().map(|item| item.to_string()).collect()
}

fn store(tlds: &[&str], available: &[(&str, &str)]) -> CacheStore {
    let mut file = CacheFile::empty(strings(tlds), 0);
    for (domain, tld) in available {
        let index = tlds.iter().position(|t| t == tld).unwrap();
        file.set_available_by_index(index, domain, true).unwrap();
    }
    CacheStore::from_file(file, String::new())
}

fn regular(domain: &str, available: bool) -> DomainResult {
    DomainResult { domain: domain.to_string(), available, kind: ResultKind::Regular, method: CheckMethod::Cache }
}

#[test]
fn available_pinned_results_move_to_the_front() {
    let tlds = strings(&["io", "me", "com", "dev", "art"]);
    let results = tlds.iter().map(|t| regular(&format!("abc.{t}"), true)).collect::<Vec<_>>();
    let promoted = promote_pinned(results, &tlds);
    let domains = promoted.iter().map(|r| r.domain.as_str()).collect::<Vec<_>>();
    assert_eq!(domains, vec!["abc.com", "abc.io", "abc.me", "abc.dev", "abc.art"]);
}

#[test]
fn unavailable_pinned_results_stay_in_place() {
    let tlds = strings(&["io", "dev"]);
    let results = vec![regular("abc.io", false), regular("abc.dev", true)];
    let promoted = promote_pinned(results, &tlds);
    let domains = promoted.iter().map(|r| r.domain.as_str()).collect::<Vec<_>>();
    assert_eq!(domains, vec!["abc.dev", "abc.io"]);
}

#[test]
fn short_labels_are_read_from_the_cache() {
    let cache = store(&["io", "co", "com", "dev"], &[("abc", "io"), ("abc", "dev")]);
    let tlds = strings(&["io", "co", "com", "dev"]);
    let results = regular_cache_results("abc", &tlds, &cache).unwrap();
    let shown = results.iter().filter(|r| r.available).map(|r| r.domain.as_str()).collect::<Vec<_>>();
    assert_eq!(shown, vec!["abc.io", "abc.dev"]);
    assert!(results.iter().all(|r| r.method == CheckMethod::Cache && r.kind == ResultKind::Regular));
    assert!(regular_cache_results("abc", &strings(&["io", "xyz"]), &cache).is_err());
}

#[test]
fn long_labels_take_dns_answers_in_order() {
    let domains = regular_domains("hello", &strings(&["io", "dev"]));
    assert_eq!(domains, vec!["hello.io", "hello.dev"]);
    let results = regular_dns_results(domains, &[true, false]);
    assert_eq!(results[0].domain, "hello.io");
    assert!(results[0].available);
    assert!(!results[1].available);
    assert_eq!(results[1].method, CheckMethod::Dns);
}

#[test]
fn hacks_mix_cache_reads_and_dns_answers() {
    let cache = store(&["sh", "io", "bsh"], &[("ab", "sh")]);
    let trie = HackTrie::new(&["sh", "io", "bsh"]);
    let matches = trie.find_matches("absh");
    let plan = plan_hacks(&matches, &cache).unwrap();
    assert!(plan.dns_domains.is_empty());
    assert!(plan_hacks(&matches, &store(&["sh"], &[])).is_err());
    let results = fill_hack_dns(plan, &[]);
    let domains = results.iter().map(|r| (r.domain.as_str(), r.available)).collect::<Vec<_>>();
    assert_eq!(domains, vec![("a.bsh", false), ("ab.sh", true)]);
}

#[test]
fn long_hacks_wait_for_dns() {
    let cache = store(&["sh"], &[]);
    let trie = HackTrie::new(&["sh"]);
    let matches = trie.find_matches("abcdsh");
    let plan = plan_hacks(&matches, &cache).unwrap();
    assert_eq!(plan.dns_domains, vec!["abcd.sh"]);
    assert_eq!(plan.dns_positions, vec![0]);
    let results = fill_hack_dns(plan, &[true]);
    assert_eq!(results[0].domain, "abcd.sh");
    assert!(results[0].available);
    assert_eq!(results[0].method, CheckMethod::Dns);
    assert_eq!(results[0].kind, ResultKind::Hack);
}

#[test]
fn reports_list_hacks_first_and_count_availability() {
    let hacks = vec![DomainResult { domain: "ab.sh".into(), available: true, kind: ResultKind::Hack, method: CheckMethod::Cache }];
    let tlds = strings(&["io", "sh"]);
    let regular_results = vec![regular("absh.io", true), regular("absh.sh", false)];
    let report = compose_report("absh", true, hacks, regular_results, &tlds, false, false, None, ColorWhen::Never);
    assert_eq!(report.stdout, "ab.sh\nabsh.io\n");
    assert!(report.stderr.is_empty());
    assert_eq!(report.exit_code, 0);
}

#[test]
fn nothing_available_gives_a_note_and_exit_code_one() {
    let tlds = strings(&["io", "com"]);
    let regular_results = vec![regular("abc.io", false), regular("abc.com", false)];
    let report = compose_report("abc", true, vec![], regular_results, &tlds, false, false, None, ColorWhen::Never);
    assert_eq!(report.stdout, "");
    assert_eq!(report.stderr, vec!["note: no available domains found for 'abc'"]);
    assert_eq!(report.exit_code, 1);
}

#[test]
fn truncated_plain_output_says_how_much_is_hidden() {
    let tlds = strings(&["io", "dev"]);
    let regular_results = vec![regular("abc.io", true), regular("abc.dev", true)];
    let report = compose_report("abc", true, vec![], regular_results, &tlds, false, false, Some(1), ColorWhen::Never);
    assert_eq!(report.stdout, "abc.io\n");
    assert_eq!(
        report.stderr,
        vec!["note: 1 more domains not shown (showing 1 of 2; use --limit 0 to show all)"]
    );
}

#[test]
fn prefix_mode_keeps_tld_order() {
    let tlds = strings(&["co", "com"]);
    let regular_results = vec![regular("abc.co", true), regular("abc.com", true)];
    let report = compose_report("abc.co", false, vec![], regular_results, &tlds, false, false, None, ColorWhen::Never);
    assert_eq!(report.stdout, "abc.co\nabc.com\n");
}

#[test]
fn all_output_marks_unavailable_rows() {
    let tlds = strings(&["io", "dev"]);
    let regular_results = vec![regular("abc.io", false), regular("abc.dev", true)];
    let report = compose_report("abc", true, vec![], regular_results, &tlds, true, false, None, ColorWhen::Never);
    assert_eq!(report.stdout, "  abc.dev\nx abc.io\n");
}

#[test]
fn row_limits_follow_the_output() {
    assert_eq!(row_limit_for(Some(0), false, true), None);
    assert_eq!(row_limit_for(Some(3), true, false), Some(3));
    assert_eq!(row_limit_for(None, false, true), Some(25));
    assert_eq!(row_limit_for(None, true, true), None);
    assert_eq!(row_limit_for(None, false, false), None);
}

#[test]
fn labels_of_at_most_three_bytes_are_read_from_the_cache() {
    assert!(uses_cache("a"));
    assert!(uses_cache("abc"));
    assert!(!uses_cache("abcd"));
    assert!(uses_cache(""));
    // "é" is two bytes, so "aé" is three and "aéb" four.
    assert!(uses_cache("a\u{e9}"));
    assert!(!uses_cache("a\u{e9}b"));
}

#[test]
fn a_tld_prefix_turns_hacks_off_and_short_labels_use_the_cache() {
    let plan = plan_search(&domaingrep::input::parse("bunsh").unwrap());
    assert!(plan.hacks);
    assert!(!plan.regular_from_cache);
    let plan = plan_search(&domaingrep::input::parse("abc.sh").unwrap());
    assert!(!plan.hacks);
    assert!(plan.regular_from_cache);
    let plan = plan_search(&domaingrep::input::parse("ab").unwrap());
    assert!(plan.hacks);
    assert!(plan.regular_from_cache);
}
