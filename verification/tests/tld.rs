use domaingrep::resolve::ResolveResponse;
use domaingrep::tld::{
    filter_tlds, http_fetch_retry_delay, is_pinned, is_retryable_status, next_fetch_action,
    nic_queries, parse_iana_candidates, parse_icann_excluded_tlds, pinned_index, popularity_index,
    probe_queries, probe_query, remove_excluded, select_by_response, sort_tlds, split_groups,
    FetchAction, FetchOutcome, TldLenRange,
};
use std::collections::HashSet;

fn strings(items: &[&str]) -> Vec<String> {
    items.iter().map(|item| item.to_string()).collect()
}

#[test]
fn parses_supported_length_ranges() {
    assert_eq!(
        TldLenRange::parse("2").unwrap(),
        TldLenRange {
            min: 2,
            max: Some(2)
        }
    );
    assert_eq!(
        TldLenRange::parse("2..5").unwrap(),
        TldLenRange {
            min: 2,
            max: Some(5)
        }
    );
    assert_eq!(
        TldLenRange::parse("..3").unwrap(),
        TldLenRange {
            min: 1,
            max: Some(3)
        }
    );
    assert_eq!(
        TldLenRange::parse("4..").unwrap(),
        TldLenRange { min: 4, max: None }
    );
}

#[test]
fn sorts_by_length_then_popularity_then_alphabetically() {
    let tlds = vec![
        "shop".to_string(),
        "xyz".to_string(),
        "ai".to_string(),
        "com".to_string(),
        "co".to_string(),
        "app".to_string(),
    ];

    let filtered = filter_tlds(&tlds, None, None);
    assert_eq!(filtered, vec!["ai", "co", "com", "app", "xyz", "shop"]);
}

#[test]
fn reports_pinned_tlds() {
    assert_eq!(pinned_index("com"), Some(0));
    assert_eq!(pinned_index("dev"), Some(9));
    assert!(is_pinned("shop"));
    assert!(!is_pinned("info"));
}

#[test]
fn parses_iana_candidates_and_filters_infrastructure_idn_and_restricted() {
    let text = "# Version 2026041400\nCOM\nDEV\nARPA\nXN--P1AI\nIO\nEDU\nGOV\nMIL\nINT\nVA\n";

    let candidates = parse_iana_candidates(text).unwrap();
    assert_eq!(candidates, vec!["com", "dev", "io"]);
}

#[test]
fn parses_icann_csv_and_excludes_brand_and_inactive_tlds() {
    let csv = [
        "\u{feff}\"Top Level Domain\",\"Agreement Type\",\"Agreement Status\"\n",
        "\"google\",\"Base, Brand (Spec 13), Non-Sponsored\",\"active\"\n",
        "\"com\",\"Base, Non-Sponsored\",\"active\"\n",
        "\"abarth\",\"Base, Brand (Spec 13), Non-Sponsored\",\"terminated\"\n",
        "\"doosan\",\"Base, Non-Sponsored\",\"terminated\"\n",
        "\"xn--fiqs8s\",\"Base, Brand (Spec 13), Non-Sponsored\",\"active\"\n",
    ].concat();

    let excluded: HashSet<String> = parse_icann_excluded_tlds(&csv).unwrap().into_iter().collect();
    assert_eq!(
        excluded,
        HashSet::from([
            "google".to_string(),
            "abarth".to_string(),
            "doosan".to_string(),
        ])
    );
    assert!(!excluded.contains("com"));
}

#[test]
fn icann_csv_without_a_column_is_refused() {
    let csv = "\"Top Level Domain\",\"Agreement Status\"\n\"com\",\"active\"\n";
    let err = parse_icann_excluded_tlds(&csv).unwrap_err().render();
    assert!(err.contains("failed to parse ICANN registry agreements response"));
    assert!(err.contains("missing expected CSV column 'Agreement Type'"));
}

#[test]
fn icann_csv_lists_each_excluded_tld_once() {
    let csv = [
        "Top Level Domain,Agreement Type,Agreement Status\n",
        "zz,Brand (Spec 13),active\n",
        "zz,Base,terminated\n",
    ].concat();
    let excluded = parse_icann_excluded_tlds(&csv).unwrap();
    assert_eq!(excluded, vec!["zz"]);
}

#[test]
fn malformed_icann_csv_is_refused_with_the_reader_message() {
    let csv = "Top Level Domain,Agreement Type,Agreement Status\ncom,Base\n";
    let err = parse_icann_excluded_tlds(&csv).unwrap_err().render();
    assert!(err.starts_with("error: failed to parse ICANN registry agreements response: "));
    assert!(err.contains("the ICANN registry agreements endpoint did not return the expected CSV format"));
}

#[test]
fn iana_list_without_candidates_is_refused() {
    let err = parse_iana_candidates("# only a comment\n\nARPA\n").unwrap_err();
    assert_eq!(
        err.render(),
        "error: failed to parse TLD list response\n  = help: the TLD source did not return the expected IANA text format\n"
    );
}

#[test]
fn iana_lines_are_trimmed_and_lowercased() {
    let candidates = parse_iana_candidates("  Io \r\n\tCOM\nx1\n").unwrap();
    assert_eq!(candidates, vec!["io", "com"]);
}

#[test]
fn length_ranges_are_checked() {
    let range = TldLenRange::parse("2..3").unwrap();
    assert!(!range.contains(1));
    assert!(range.contains(2));
    assert!(range.contains(3));
    assert!(!range.contains(4));
    assert!(TldLenRange::parse("2..").unwrap().contains(200));
    assert!(TldLenRange::parse("+3").unwrap().contains(3));
    assert_eq!(TldLenRange::parse("..").unwrap(), TldLenRange { min: 1, max: None });
}

#[test]
fn invalid_length_ranges_are_refused() {
    for input in ["0", "x", "5..2", "", "2..x", "0..3"] {
        let err = TldLenRange::parse(input).unwrap_err();
        assert_eq!(err.exit_code(), 2);
        assert!(err.render().contains("= help: use '2', '2..5', '..3', or '4..'"));
    }
    assert!(TldLenRange::parse("5..2").unwrap_err().render().contains("invalid --tld-len range '5..2'"));
    assert!(TldLenRange::parse("2..x").unwrap_err().render().contains("invalid --tld-len range 'x'"));
}

#[test]
fn filtering_keeps_prefix_and_length_matches_in_order() {
    let tlds = strings(&["show", "sh", "io", "shop", "com", "sharp"]);
    let range = TldLenRange::parse("2..4").unwrap();
    let filtered = filter_tlds(&tlds, Some("sh"), Some(range));
    assert_eq!(filtered, vec!["sh", "shop", "show"]);
    assert_eq!(filter_tlds(&tlds, Some("x"), None), Vec::<String>::new());
}

#[test]
fn sorting_orders_in_place() {
    let mut tlds = strings(&["zz", "aa", "com", "io", "net"]);
    sort_tlds(&mut tlds);
    assert_eq!(tlds, vec!["io", "aa", "zz", "com", "net"]);
    assert_eq!(popularity_index("net"), Some(1));
    assert_eq!(popularity_index("zz"), None);
}

#[test]
fn groups_keep_order_and_size() {
    let tlds = strings(&["a", "b", "c", "d", "e"]);
    let groups = split_groups(&tlds, 2);
    assert_eq!(groups, vec![strings(&["a", "b"]), strings(&["c", "d"]), strings(&["e"])]);
    let single = split_groups(&tlds, 0);
    assert_eq!(single.len(), 5);
    assert_eq!(single.concat(), tlds);
    assert!(split_groups(&[], 3).is_empty());
}

#[test]
fn fetch_retries_follow_the_status() {
    assert!(is_retryable_status(500));
    assert!(is_retryable_status(429));
    assert!(!is_retryable_status(404));
    assert_eq!(http_fetch_retry_delay(0), 500);
    assert_eq!(http_fetch_retry_delay(2), 2000);
    assert_eq!(next_fetch_action(0, FetchOutcome::Success), FetchAction::UseBody);
    assert_eq!(next_fetch_action(0, FetchOutcome::Status(503)), FetchAction::RetryAfter(500));
    assert_eq!(next_fetch_action(1, FetchOutcome::Transport), FetchAction::RetryAfter(1000));
    assert_eq!(next_fetch_action(0, FetchOutcome::Status(404)), FetchAction::GiveUp);
    assert_eq!(next_fetch_action(3, FetchOutcome::Status(503)), FetchAction::GiveUp);
    assert_eq!(next_fetch_action(3, FetchOutcome::Transport), FetchAction::GiveUp);
}

#[test]
fn probing_keeps_live_tlds_without_wildcards() {
    let tlds = strings(&["com", "dead", "wild", "lost"]);
    assert_eq!(nic_queries(&tlds), vec!["nic.com", "nic.dead", "nic.wild", "nic.lost"]);
    let nic = vec![
        Some(ResolveResponse { rcode: 0, answer_count: 2 }),
        Some(ResolveResponse { rcode: 0, answer_count: 0 }),
        Some(ResolveResponse { rcode: 0, answer_count: 1 }),
        None,
    ];
    let live = select_by_response(&tlds, &nic, false);
    assert_eq!(live, vec!["com", "wild"]);
    let probes = vec![Some(ResolveResponse { rcode: 3, answer_count: 0 }), Some(ResolveResponse { rcode: 0, answer_count: 1 })];
    assert_eq!(select_by_response(&live, &probes, true), vec!["com"]);
    assert_eq!(remove_excluded(&tlds, &strings(&["dead", "lost"])), vec!["com", "wild"]);
}

#[test]
fn probe_names_carry_eight_hex_digits() {
    assert_eq!(probe_query("com", 0xab), "xyzzy-probe-test-000000ab.com");
    assert_eq!(probe_query("io", 0xdeadbeef), "xyzzy-probe-test-deadbeef.io");
    let names = probe_queries(&strings(&["com", "io"]));
    assert_eq!(names.len(), 2);
    assert!(names[0].starts_with("xyzzy-probe-test-") && names[0].ends_with(".com"));
    assert_eq!(names[1].len(), "xyzzy-probe-test-".len() + 8 + ".io".len());
}
