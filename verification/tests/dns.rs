use domaingrep::dns::{
    batch_result, http_status_error, is_available_status, is_definitive_status, race_settles, DnsQueryError,
    DnsStatus,
};

#[test]
fn statuses_decide_answers() {
    assert!(is_definitive_status(0));
    assert!(is_definitive_status(3));
    assert!(!is_definitive_status(2));
    assert!(is_available_status(&DnsStatus { status: 3, answer_count: 0 }));
    assert!(!is_available_status(&DnsStatus { status: 0, answer_count: 1 }));
    assert!(race_settles(&Ok(DnsStatus { status: 0, answer_count: 1 })));
    assert!(!race_settles(&Ok(DnsStatus { status: 2, answer_count: 0 })));
    assert!(!race_settles(&Err(DnsQueryError::Network("down".to_string()))));
}

#[test]
fn http_failures_are_described() {
    assert_eq!(http_status_error(429), DnsQueryError::Network("HTTP 429 rate limited".to_string()));
    assert_eq!(http_status_error(500), DnsQueryError::Network("unexpected HTTP status 500".to_string()));
    assert_eq!(http_status_error(500).message(), "unexpected HTTP status 500");
}

#[test]
fn batches_count_failures() {
    let batch = batch_result(
        vec!["a.example".to_string(), "bad.example".to_string()],
        vec![Ok(true), Err(DnsQueryError::Network("x".to_string()))],
    );
    assert_eq!(batch.total, 2);
    assert_eq!(batch.failures, 1);
    assert_eq!(batch.results[0].available, Ok(true));
    assert!(batch.results[1].available.is_err());
    assert_eq!(batch.results[1].domain, "bad.example");
}
