use domaingrep::resolve::engine::{socket_families, AddressFamily, ResolveState, SendStep};
use domaingrep::resolve::slab::{LookupSlab, LookupSlot};
use domaingrep::resolve::wheel::TimingWheel;
use domaingrep::resolve::{availability, is_available, is_definitive, ResolveConfig, ResolveResponse, ResolverAddr};

fn config(max_attempts: u8) -> ResolveConfig {
    ResolveConfig {
        resolvers: vec![ResolverAddr::v4(127, 0, 0, 1, 5353)],
        concurrency: 8,
        query_timeout_ms: 10,
        max_attempts,
        socket_count: 1,
        send_batch_size: 16,
        recv_batch_size: 16,
        recv_buf_size: 1 << 20,
        send_buf_size: 1 << 20,
    }
    .normalized()
}

fn answer(id: u16, rcode: u8, answers: u16) -> Vec<u8> {
    let [hi, lo] = id.to_be_bytes();
    let [ahi, alo] = answers.to_be_bytes();
    vec![hi, lo, 0x81, 0x80 | rcode, 0, 1, ahi, alo, 0, 0, 0, 0]
}

fn next_packet(state: &mut ResolveState, domains: &[String]) -> (u16, Vec<u8>) {
    match state.next_send(domains) {
        SendStep::Packet { id, bytes, socket_index, resolver_index } => {
            assert_eq!(socket_index, 0);
            assert_eq!(resolver_index, 0);
            (id, bytes)
        }
        other => panic!("expected a packet, got {other:?}"),
    }
}

#[test]
fn answers_settle_names() {
    let domains = vec!["available.example".to_string(), "taken.example".to_string()];
    let mut state = ResolveState::new(config(3), vec![AddressFamily::V4], domains.len(), 0).unwrap();
    let (a, packet_a) = next_packet(&mut state, &domains);
    let (b, _) = next_packet(&mut state, &domains);
    assert!(matches!(state.next_send(&domains), SendStep::Idle));
    assert_eq!(&packet_a[0..2], &a.to_be_bytes());
    let from = ResolverAddr::v4(127, 0, 0, 1, 5353);
    state.handle_packet(&answer(a, 3, 0), &from);
    assert!(!state.is_finished());
    state.handle_packet(&answer(b, 0, 2), &from);
    assert!(state.is_finished());
    let results = state.results();
    assert_eq!(results, vec![
        Some(ResolveResponse { rcode: 3, answer_count: 0 }),
        Some(ResolveResponse { rcode: 0, answer_count: 2 }),
    ]);
    assert_eq!(availability(&results), vec![true, false]);
}

#[test]
fn answers_from_other_addresses_are_ignored() {
    let domains = vec!["x.example".to_string()];
    let mut state = ResolveState::new(config(3), vec![AddressFamily::V4], 1, 0).unwrap();
    let (id, _) = next_packet(&mut state, &domains);
    state.handle_packet(&answer(id, 3, 0), &ResolverAddr::v4(127, 0, 0, 1, 53));
    assert!(!state.is_finished());
    state.handle_packet(&answer(id.wrapping_add(1), 3, 0), &ResolverAddr::v4(127, 0, 0, 1, 5353));
    assert!(!state.is_finished());
    state.handle_packet(&answer(id, 3, 0), &ResolverAddr::v4(127, 0, 0, 1, 5353));
    assert!(state.is_finished());
}

#[test]
fn timeouts_retry_then_fail() {
    let domains = vec!["drop.example".to_string()];
    let mut state = ResolveState::new(config(2), vec![AddressFamily::V4], 1, 0).unwrap();
    let (first, _) = next_packet(&mut state, &domains);
    state.handle_timeouts(5);
    assert!(matches!(state.next_send(&domains), SendStep::Idle));
    state.handle_timeouts(20);
    let (second, _) = next_packet(&mut state, &domains);
    let _ = first;
    state.handle_timeouts(40);
    assert!(state.is_finished());
    assert_eq!(state.results(), vec![None]);
    state.handle_packet(&answer(second, 3, 0), &ResolverAddr::v4(127, 0, 0, 1, 5353));
    assert_eq!(state.results(), vec![None]);
}

#[test]
fn server_failures_are_retried() {
    let domains = vec!["retry.example".to_string()];
    let mut state = ResolveState::new(config(3), vec![AddressFamily::V4], 1, 0).unwrap();
    let (id, _) = next_packet(&mut state, &domains);
    state.handle_packet(&answer(id, 2, 0), &ResolverAddr::v4(127, 0, 0, 1, 5353));
    assert!(!state.is_finished());
    let (id, _) = next_packet(&mut state, &domains);
    state.handle_packet(&answer(id, 3, 0), &ResolverAddr::v4(127, 0, 0, 1, 5353));
    assert_eq!(state.results(), vec![Some(ResolveResponse { rcode: 3, answer_count: 0 })]);
}

#[test]
fn unencodable_names_fail_at_once() {
    let domains = vec!["a..b".to_string()];
    let mut state = ResolveState::new(config(3), vec![AddressFamily::V4], 1, 0).unwrap();
    assert!(matches!(state.next_send(&domains), SendStep::Failed));
    assert!(state.is_finished());
}

#[test]
fn missing_socket_family_is_reported() {
    let domains = vec!["a.example".to_string()];
    let mut state = ResolveState::new(config(3), vec![AddressFamily::V6], 1, 0).unwrap();
    assert!(matches!(state.next_send(&domains), SendStep::NoSocket { resolver_index: 0 }));
}

#[test]
fn empty_resolver_lists_are_refused() {
    let mut c = config(3);
    c.resolvers.clear();
    let err = ResolveState::new(c, vec![], 1, 0).err().unwrap();
    assert!(err.render().contains("no DNS resolvers configured"));
}

#[test]
fn sockets_are_opened_per_family() {
    let v4 = ResolverAddr::v4(1, 1, 1, 1, 53);
    let v6 = ResolverAddr { ip: vec![0; 16], port: 53, flowinfo: 0, scope_id: 0 };
    assert_eq!(socket_families(&[v4.clone()], 2).unwrap(), vec![AddressFamily::V4, AddressFamily::V4]);
    assert_eq!(socket_families(&[v6.clone(), v4], 0).unwrap(), vec![AddressFamily::V4, AddressFamily::V6]);
    assert!(socket_families(&[], 1).is_err());
}

#[test]
fn slab_ids_are_free_until_removed() {
    let mut slab = LookupSlab::new();
    let slot = LookupSlot { domain_index: 7, attempts: 1, resolver_index: 0 };
    let id = slab.insert(slot);
    assert_eq!(slab.get(id), Some(slot));
    assert_eq!(slab.active_count(), 1);
    let other = slab.insert(slot);
    assert_ne!(id, other);
    assert_eq!(slab.remove(id), Some(slot));
    assert_eq!(slab.get(id), None);
    assert_eq!(slab.remove(id), None);
    assert_eq!(slab.active_count(), 1);
}

#[test]
fn wheel_hands_out_ids_when_their_time_comes() {
    let mut wheel = TimingWheel::new(8, 10, 0);
    wheel.insert(1, 10);
    wheel.insert(2, 25);
    wheel.insert(3, 1000);
    let mut out = Vec::new();
    wheel.advance_into(9, &mut out);
    assert!(out.is_empty());
    wheel.advance_into(10, &mut out);
    assert_eq!(out, vec![1]);
    wheel.advance_into(40, &mut out);
    assert_eq!(out, vec![1, 2]);
    wheel.advance_into(1000, &mut out);
    assert_eq!(out, vec![1, 2, 3]);
}

#[test]
fn response_codes_decide_availability() {
    assert!(is_available(Some(ResolveResponse { rcode: 3, answer_count: 0 })));
    assert!(!is_available(Some(ResolveResponse { rcode: 0, answer_count: 1 })));
    assert!(!is_available(None));
    assert!(is_definitive(0) && is_definitive(3) && !is_definitive(2));
}
