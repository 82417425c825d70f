use uno::uno_net::{
    is_join_for, join_decision_for, join_request, join_response, make_forwarded_share, parse_stun_xor_mapped_address,
    share_for_status, stun_binding_request, stun_fallback, ConnectivityError, ReliableQueue, StunConfig,
    DEFAULT_TIMEOUT_MS,
};
use uno::uno_protocol::{HostRole, JoinDecision, Message, PeerId, RoomId, SessionId, ShareInfo, StunStatus};

#[test]
fn forwarded_share_marks_manual_endpoint() {
    let share = make_forwarded_share("127.0.0.1:4444".to_owned(), RoomId::new("room"), PeerId::new("host"));
    assert!(share.forwarded);
    assert!(share.encode().contains("forwarded=1"));
}

#[test]
fn reliable_queue_retries_and_deduplicates() {
    let mut queue = ReliableQueue::new(10);
    let session = SessionId::new("s");
    queue.push(session.clone(), 1, Message::Ping { session_id: session.clone(), sequence: 1 });
    assert_eq!(queue.due_messages(1_000).len(), 1);
    assert_eq!(queue.pending_len(), 1);
    queue.acknowledge(&session, 1);
    assert_eq!(queue.pending_len(), 0);
    assert!(queue.record_received(session.clone(), 2));
    assert!(!queue.record_received(session, 2));
}

#[test]
fn due_messages_wait_for_the_retry_interval() {
    let mut queue = ReliableQueue::new(150);
    let session = SessionId::new("s");
    queue.push(session.clone(), 1, Message::Ping { session_id: session.clone(), sequence: 1 });
    queue.push(session.clone(), 2, Message::Ack { session_id: session.clone(), sequence: 9 });
    let first = queue.due_messages(1_000);
    assert_eq!(first.len(), 2);
    assert_eq!(first[1], Message::Ack { session_id: session.clone(), sequence: 9 });
    assert!(queue.due_messages(1_100).is_empty());
    assert_eq!(queue.due_messages(1_150).len(), 2);
    queue.acknowledge(&session, 1);
    assert_eq!(queue.due_messages(1_300), vec![Message::Ack { session_id: session, sequence: 9 }]);
}

#[test]
fn acknowledge_keeps_other_sessions_and_sequences() {
    let mut queue = ReliableQueue::new(10);
    let a = SessionId::new("a");
    let b = SessionId::new("b");
    queue.push(a.clone(), 1, Message::Ping { session_id: a.clone(), sequence: 1 });
    queue.push(b.clone(), 1, Message::Ping { session_id: b.clone(), sequence: 1 });
    queue.push(a.clone(), 2, Message::Ping { session_id: a.clone(), sequence: 2 });
    queue.acknowledge(&a, 1);
    assert_eq!(queue.pending_len(), 2);
    queue.acknowledge(&a, 1);
    assert_eq!(queue.pending_len(), 2);
}

#[test]
fn received_sequences_are_tracked_per_session() {
    let mut queue = ReliableQueue::new(10);
    assert!(!queue.record_received(SessionId::new("x"), 0));
    assert!(queue.record_received(SessionId::new("x"), 5));
    assert!(queue.record_received(SessionId::new("y"), 1));
    assert!(!queue.record_received(SessionId::new("x"), 4));
    assert!(queue.record_received(SessionId::new("x"), 6));
}

#[test]
fn binding_request_has_the_stun_header() {
    let request = stun_binding_request();
    assert_eq!(request.len(), 20);
    assert_eq!(&request[..8], &[0x00, 0x01, 0x00, 0x00, 0x21, 0x12, 0xA4, 0x42]);
    assert_eq!(&request[8..], b"uno-client01");
}

fn response(attributes: &[u8]) -> Vec<u8> {
    let mut bytes = vec![0x01, 0x01, 0x00, attributes.len() as u8, 0x21, 0x12, 0xA4, 0x42];
    bytes.extend_from_slice(b"uno-client01");
    bytes.extend_from_slice(attributes);
    bytes
}

#[test]
fn xor_mapped_address_is_decoded() {
    // 203.0.113.7:40000, XOR-ed with the magic cookie.
    let port = 40000u16 ^ 0x2112;
    let ip = [203 ^ 0x21, 0 ^ 0x12, 113 ^ 0xA4, 7 ^ 0x42];
    let attribute = [0x00, 0x20, 0x00, 0x08, 0x00, 0x01, (port >> 8) as u8, port as u8, ip[0], ip[1], ip[2], ip[3]];
    let bytes = response(&attribute);
    assert_eq!(parse_stun_xor_mapped_address(&bytes), Some(([203, 0, 113, 7], 40000)));
}

#[test]
fn other_attributes_are_skipped_with_padding() {
    let port = 1234u16 ^ 0x2112;
    let mut attributes = vec![0x80, 0x22, 0x00, 0x03, b'a', b'b', b'c', 0x00];
    attributes.extend_from_slice(&[0x00, 0x20, 0x00, 0x08, 0x00, 0x01, (port >> 8) as u8, port as u8]);
    attributes.extend_from_slice(&[10 ^ 0x21, 0 ^ 0x12, 0 ^ 0xA4, 1 ^ 0x42]);
    assert_eq!(parse_stun_xor_mapped_address(&response(&attributes)), Some(([10, 0, 0, 1], 1234)));
}

#[test]
fn malformed_stun_responses_are_refused() {
    assert_eq!(parse_stun_xor_mapped_address(&[0; 19]), None);
    let mut wrong_cookie = response(&[]);
    wrong_cookie[4] = 0;
    assert_eq!(parse_stun_xor_mapped_address(&wrong_cookie), None);
    assert_eq!(parse_stun_xor_mapped_address(&response(&[0x00, 0x20, 0x00, 0x08, 0x00, 0x01])), None);
    assert_eq!(parse_stun_xor_mapped_address(&response(&[0x00, 0x20, 0x00, 0x08, 0x00, 0x02, 0, 0, 0, 0, 0, 0])), None);
}

#[test]
fn join_messages_carry_the_room_and_peer() {
    let share = ShareInfo::new("127.0.0.1:1".to_owned(), RoomId::new("room"), PeerId::new("host"));
    let request = join_request(&share, PeerId::new("joiner"), "Joiner".to_owned());
    assert!(is_join_for(&request, &RoomId::new("room")));
    assert!(!is_join_for(&request, &RoomId::new("other")));

    let accepted = join_response(RoomId::new("room"), PeerId::new("joiner"), true);
    assert_eq!(
        join_decision_for(accepted, &RoomId::new("room"), &PeerId::new("joiner")),
        Some(JoinDecision::Accepted { session_id: SessionId::new("session-joiner"), role: HostRole::Peer })
    );
    let rejected = join_response(RoomId::new("room"), PeerId::new("joiner"), false);
    assert_eq!(
        join_decision_for(rejected.clone(), &RoomId::new("room"), &PeerId::new("joiner")),
        Some(JoinDecision::Rejected { reason: "room rejected join".to_owned() })
    );
    assert_eq!(join_decision_for(rejected, &RoomId::new("room"), &PeerId::new("someone")), None);
}

#[test]
fn share_follows_the_endpoint_status() {
    let room = RoomId::new("r");
    let host = PeerId::new("h");
    let discovered = share_for_status(&StunStatus::Discovered("1.2.3.4:5".to_owned()), "0.0.0.0:7".to_owned(), room.clone(), host.clone());
    assert_eq!(discovered.endpoint, "1.2.3.4:5");
    assert!(!discovered.forwarded);
    let manual = share_for_status(&StunStatus::Manual("5.6.7.8:9".to_owned()), "0.0.0.0:7".to_owned(), room.clone(), host.clone());
    assert!(manual.forwarded);
    let fallback = share_for_status(&StunStatus::Disabled, "192.168.1.2:7".to_owned(), room, host);
    assert_eq!(fallback.endpoint, "192.168.1.2:7");
    assert!(fallback.forwarded);
}

#[test]
fn stun_fallback_needs_a_specific_local_address() {
    assert_eq!(stun_fallback("10.0.0.2:5".to_owned(), false), Ok(StunStatus::Manual("10.0.0.2:5".to_owned())));
    assert_eq!(
        stun_fallback("0.0.0.0:5".to_owned(), true),
        Err(ConnectivityError::StunUnavailable("no configured STUN server returned a public endpoint".to_owned()))
    );
}

#[test]
fn default_stun_config_uses_two_public_servers() {
    let config = StunConfig::default();
    assert!(config.enabled);
    assert_eq!(config.servers, vec!["stun.l.google.com:19302".to_owned(), "stun1.l.google.com:19302".to_owned()]);
    assert_eq!(config.timeout_ms, DEFAULT_TIMEOUT_MS);
}
