use domaingrep::resolve::wire::{build_query, encode_name, parse_response_header};

#[test]
fn encodes_names_in_dns_wire_format() {
    let mut buf = [0u8; 32];
    let len = encode_name("abc.com", &mut buf).unwrap();
    assert_eq!(&buf[..len], &[3, b'a', b'b', b'c', 3, b'c', b'o', b'm', 0]);
}

#[test]
fn builds_queries() {
    let mut buf = [0u8; 64];
    let len = build_query(&mut buf, 0x1234, "abc.com", 2).unwrap();
    assert_eq!(u16::from_be_bytes([buf[0], buf[1]]), 0x1234);
    assert_eq!(u16::from_be_bytes([buf[4], buf[5]]), 1);
    assert_eq!(u16::from_be_bytes([buf[len - 4], buf[len - 3]]), 2);
}

#[test]
fn parses_response_headers() {
    let header = parse_response_header(&[
        0x12, 0x34, 0x81, 0x83, 0x00, 0x01, 0x00, 0x02, 0x00, 0x00, 0x00, 0x00,
    ])
    .unwrap();
    assert_eq!(header.id, 0x1234);
    assert_eq!(header.rcode, 3);
    assert_eq!(header.answer_count, 2);
}

#[test]
fn trailing_dot_is_dropped_and_empty_labels_refused() {
    let mut buf = [0u8; 32];
    let len = encode_name("io.", &mut buf).unwrap();
    assert_eq!(&buf[..len], &[2, b'i', b'o', 0]);
    let mut buf = [0u8; 32];
    assert_eq!(encode_name("a..b", &mut buf), None);
    let mut buf = [0u8; 32];
    assert_eq!(encode_name("...", &mut buf), None);
}

#[test]
fn names_that_do_not_fit_are_refused() {
    let mut small = [0u8; 4];
    assert_eq!(encode_name("abc.com", &mut small), None);
    let mut tiny = [0u8; 16];
    assert_eq!(build_query(&mut tiny, 1, "abc.com", 2), None);
}

#[test]
fn query_packets_are_complete() {
    let mut buf = [0u8; 64];
    let len = build_query(&mut buf, 0xbeef, "a.io", 2).unwrap();
    assert_eq!(len, 12 + 6 + 4);
    assert_eq!(&buf[..12], &[0xbe, 0xef, 0x01, 0x00, 0, 1, 0, 0, 0, 0, 0, 0]);
    assert_eq!(&buf[12..18], &[1, b'a', 2, b'i', b'o', 0]);
    assert_eq!(&buf[18..22], &[0, 2, 0, 1]);
}

#[test]
fn requests_and_short_packets_are_not_responses() {
    assert_eq!(parse_response_header(&[0x12, 0x34, 0x01, 0x00, 0, 1, 0, 0, 0, 0, 0, 0]), None);
    assert_eq!(parse_response_header(&[0x12, 0x34, 0x81]), None);
}
