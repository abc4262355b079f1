use domaingrep::update::{check_due, parse_i64, update_notice_for, UpdateConfig, UpdateNotice};

#[test]
fn notice_lines_name_both_versions() {
    let notice = UpdateNotice { latest_version: "0.3.0".to_string(), current_version: "0.2.0".to_string() };
    let lines = notice.render_lines();
    assert_eq!(lines[0], "note: domaingrep v0.3.0 is available (current: v0.2.0)");
    assert_eq!(lines.len(), 4);
    assert_eq!(lines[3], "  -> curl -fsSL https://domaingrep.dev/install.sh | sh");
}

#[test]
fn newer_tags_give_a_notice() {
    let notice = update_notice_for("0.2.0", " v0.3.0 \n").unwrap().unwrap();
    assert_eq!(notice.latest_version, "0.3.0");
    assert_eq!(notice.current_version, "0.2.0");
    assert_eq!(update_notice_for("0.2.0", "v0.2.0").unwrap(), None);
    assert_eq!(update_notice_for("0.2.0", "v0.1.9").unwrap(), None);
    assert_eq!(update_notice_for("1.0.0-beta", "1.0.0").unwrap().unwrap().latest_version, "1.0.0");
}

#[test]
fn malformed_versions_are_refused() {
    let err = update_notice_for("0.2.0", "latest").unwrap_err();
    assert_eq!(
        err.render(),
        "error: invalid release version 'latest'\n  = help: expected a semantic version like v0.3.0\n"
    );
    assert!(update_notice_for("0.2", "v0.3.0").unwrap_err().render().contains("'0.2'"));
}

#[test]
fn checks_run_once_a_day() {
    assert!(check_due(None, 100));
    assert!(check_due(Some("garbage"), 100));
    assert!(!check_due(Some("99999999999"), 1_700_000_000));
    assert!(!check_due(Some(" 1000\n"), 1000 + 86_399));
    assert!(check_due(Some("1000"), 1000 + 86_400));
    assert!(check_due(Some("-9223372036854775808"), 9_223_372_036_854_775_807));
}

#[test]
fn timestamps_parse_like_i64() {
    let p = |s: &str| parse_i64(&s.chars().collect::<Vec<_>>());
    assert_eq!(p("42"), Some(42));
    assert_eq!(p("+7"), Some(7));
    assert_eq!(p("-9223372036854775808"), Some(i64::MIN));
    assert_eq!(p("9223372036854775807"), Some(i64::MAX));
    assert_eq!(p("9223372036854775808"), None);
    assert_eq!(p("-"), None);
    assert_eq!(p("+"), None);
    assert_eq!(p(""), None);
    assert_eq!(p("1 2"), None);
}

#[test]
fn the_check_stamp_lives_in_the_cache_directory() {
    let config = |dir: &str| UpdateConfig {
        cache_dir: dir.to_string(),
        api_url: "https://api.github.com/repos/ysm-dev/domaingrep/releases/latest".to_string(),
        current_version: "0.2.1".to_string(),
    };
    assert_eq!(config("/home/u/.cache/domaingrep").stamp_path(), "/home/u/.cache/domaingrep/last_update_check");
    assert_eq!(config("/tmp/").stamp_path(), "/tmp/last_update_check");
    assert_eq!(config("").stamp_path(), "last_update_check");
}
