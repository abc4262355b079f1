use domaingrep::input::{parse, validate_label, InputMode};

#[test]
fn parses_sld_only_input() {
    let parsed = parse("ABC.").unwrap();

    assert_eq!(parsed.mode, InputMode::SldOnly);
    assert_eq!(parsed.sld, "abc");
    assert_eq!(parsed.tld_prefix, None);
}

#[test]
fn parses_sld_plus_prefix_input() {
    let parsed = parse("abc.Sh").unwrap();

    assert_eq!(parsed.mode, InputMode::SldWithTldPrefix);
    assert_eq!(parsed.sld, "abc");
    assert_eq!(parsed.tld_prefix.as_deref(), Some("sh"));
}

#[test]
fn rejects_invalid_characters() {
    let err = parse("ab@c").unwrap_err().render();
    assert!(err.contains("invalid character '@'"));
    assert!(err.contains("position 3"));
}

#[test]
fn rejects_reserved_hyphen_pattern() {
    let err = validate_label("ab--c").unwrap_err().render();
    assert!(err.contains("positions 3 and 4"));
}

#[test]
fn rejects_multi_label_input() {
    let err = parse("abc.co.uk").unwrap_err().render();
    assert!(err.contains("multi-label input 'abc.co.uk' is not supported"));
}

#[test]
fn trims_trailing_dot_before_counting_labels() {
    let parsed = parse("abc.co.").unwrap();
    assert_eq!(parsed.sld, "abc");
    assert_eq!(parsed.tld_prefix.as_deref(), Some("co"));
}

#[test]
fn trailing_dot_gives_the_same_parse() {
    let with_dot = parse("Bunsh.").unwrap();
    let without = parse("Bunsh").unwrap();
    assert_eq!(with_dot.normalized, without.normalized);
    assert_eq!(with_dot.sld, without.sld);
    assert_eq!(with_dot.mode, without.mode);
    assert_eq!(with_dot.original, "Bunsh.");
}

#[test]
fn empty_input_and_lone_dot_report_no_domain() {
    let a = parse("").unwrap_err();
    let b = parse(".").unwrap_err();
    assert_eq!(a.render(), b.render());
    assert_eq!(
        a.render(),
        "error: no domain provided\n  = help: pass a single domain label like 'abc'\n"
    );
    assert_eq!(a.exit_code(), 2);
}

#[test]
fn label_rules_give_their_errors() {
    let long = "a".repeat(64);
    let err = validate_label(&long).unwrap_err().render();
    assert!(err.contains("domain too long (64 characters, max 63)"));
    assert!(validate_label(&"a".repeat(63)).is_ok());
    assert!(validate_label("-ab").unwrap_err().render().contains("cannot start with a hyphen"));
    assert!(validate_label("ab-").unwrap_err().render().contains("cannot end with a hyphen"));
    assert!(validate_label("a--b").is_ok());
}

#[test]
fn invalid_character_error_is_rendered_in_full() {
    let err = parse("ab@c").unwrap_err();
    assert_eq!(
        err.render(),
        "error: invalid character '@' in domain 'ab@c'\n  --> position 3\n  = help: only letters (a-z), numbers (0-9), and hyphens (-) are allowed\n"
    );
}

#[test]
fn a_dot_with_no_prefix_after_it_is_refused() {
    let err = parse("abc..").unwrap_err();
    let text = err.render();
    assert!(text.contains("invalid character '.' in domain 'abc.'"), "{text}");
    assert!(text.contains("position 4"), "{text}");
    assert_eq!(err.exit_code(), 2);
    let err = parse("A..").unwrap_err();
    assert!(err.render().contains("invalid character '.' in domain 'a.'"));
    let parsed = parse("abc.").unwrap();
    assert_eq!(parsed.sld, "abc");
    assert_eq!(parsed.tld_prefix, None);
    let parsed = parse("abc.co.").unwrap();
    assert_eq!(parsed.sld, "abc");
    assert_eq!(parsed.tld_prefix.as_deref(), Some("co"));
}
