use domaingrep::cli::ColorWhen;
use domaingrep::output::{
    colorize, join_lines, render, render_json, render_plain, visible_results, CheckMethod,
    DomainResult, OutputOptions, ResultKind,
};

fn sample() -> Vec<DomainResult> {
    vec![
        DomainResult {
            domain: "bun.sh".to_string(),
            available: true,
            kind: ResultKind::Hack,
            method: CheckMethod::Cache,
        },
        DomainResult {
            domain: "bunsh.com".to_string(),
            available: false,
            kind: ResultKind::Regular,
            method: CheckMethod::Dns,
        },
    ]
}

#[test]
fn renders_plain_text_available_only() {
    let results = vec![
        DomainResult {
            domain: "bun.sh".to_string(),
            available: true,
            kind: ResultKind::Hack,
            method: CheckMethod::Cache,
        },
        DomainResult {
            domain: "bunsh.com".to_string(),
            available: false,
            kind: ResultKind::Regular,
            method: CheckMethod::Dns,
        },
    ];

    let output = render(
        &results,
        OutputOptions {
            json: false,
            show_all: false,
            color: ColorWhen::Never,
        },
    );

    assert_eq!(output, "bun.sh\n");
}

#[test]
fn renders_plain_text_with_symbols() {
    let results = vec![
        DomainResult {
            domain: "bun.sh".to_string(),
            available: true,
            kind: ResultKind::Hack,
            method: CheckMethod::Cache,
        },
        DomainResult {
            domain: "bunsh.com".to_string(),
            available: false,
            kind: ResultKind::Regular,
            method: CheckMethod::Dns,
        },
    ];

    let output = render(
        &results,
        OutputOptions {
            json: false,
            show_all: true,
            color: ColorWhen::Never,
        },
    );

    assert_eq!(output, "  bun.sh\nx bunsh.com\n");
}

#[test]
fn renders_ndjson() {
    let results = vec![
        DomainResult {
            domain: "bun.sh".to_string(),
            available: true,
            kind: ResultKind::Hack,
            method: CheckMethod::Cache,
        },
        DomainResult {
            domain: "bunsh.com".to_string(),
            available: false,
            kind: ResultKind::Regular,
            method: CheckMethod::Dns,
        },
    ];

    let output = render(
        &results,
        OutputOptions {
            json: true,
            show_all: true,
            color: ColorWhen::Never,
        },
    );

    assert_eq!(
        output,
        [
            "{\"domain\":\"bun.sh\",\"available\":true,\"kind\":\"hack\",\"method\":\"cache\"}\n",
            "{\"domain\":\"bunsh.com\",\"available\":false,\"kind\":\"regular\",\"method\":\"dns\"}\n"
        ].concat()
    );
}

#[test]
fn ndjson_skips_unavailable_without_all_and_escapes_strings() {
    let results = vec![DomainResult {
        domain: "q\"\\\n\u{1}é".to_string(),
        available: true,
        kind: ResultKind::Regular,
        method: CheckMethod::Cache,
    }];
    assert_eq!(
        render_json(&results, false),
        "{\"domain\":\"q\\\"\\\\\\n\\u0001é\",\"available\":true,\"kind\":\"regular\",\"method\":\"cache\"}\n"
    );
    assert_eq!(render_json(&sample()[1..], false), "");
}

#[test]
fn colors_mark_availability() {
    assert_eq!(colorize("a.io", true, true), "\u{1b}[32ma.io\u{1b}[0m");
    assert_eq!(colorize("a.io", false, true), "\u{1b}[2ma.io\u{1b}[0m");
    assert_eq!(colorize("a.io", false, false), "a.io");
    assert_eq!(render_plain(&sample(), true, true), "\u{1b}[32m  bun.sh\u{1b}[0m\n\u{1b}[2mx bunsh.com\u{1b}[0m\n");
    let always = render(&sample(), OutputOptions { json: false, show_all: false, color: ColorWhen::Always });
    assert_eq!(always, "\u{1b}[32mbun.sh\u{1b}[0m\n");
}

#[test]
fn lines_end_with_newlines() {
    assert_eq!(join_lines(vec![]), "");
    assert_eq!(join_lines(vec!["a".to_string(), "b".to_string()]), "a\nb\n");
}

#[test]
fn visible_rows_are_filtered_then_limited() {
    let results = sample();
    assert_eq!(visible_results(&results, false, None), vec![results[0].clone()]);
    assert_eq!(visible_results(&results, true, Some(1)), vec![results[0].clone()]);
    assert_eq!(visible_results(&results, true, Some(5)), results);
    assert_eq!(visible_results(&results, true, Some(0)), Vec::<DomainResult>::new());
}
