use uno::uno_core::{Card, Color, Command, EventKind, GameEvent, PlayerId, Rank};
use uno::uno_protocol::MemberInfo;
use uno::uno_protocol::{
    deserialize_message, escape, parse_command, serialize_command, serialize_message, unescape, JoinDecision, HostRole, Message, PeerId, RoomId, SessionId, ShareInfo,
};

#[test]
fn share_string_round_trips() {
    let share = ShareInfo::new("127.0.0.1:34567".to_owned(), RoomId::new("room-a"), PeerId::new("host-a"))
        .with_forwarded(true);
    let parsed = ShareInfo::decode(&share.encode()).unwrap();
    assert_eq!(parsed, share);
}

#[test]
fn invalid_share_string_is_rejected() {
    assert!(ShareInfo::decode("bad").is_err());
}

#[test]
fn command_message_round_trips() {
    let message = Message::Command {
        room_id: RoomId::new("r1"),
        sequence: 7,
        command: Command::Play {
            player: PlayerId::new("p1"),
            card: Card::new(Color::Red, Rank::Number(5)),
            chosen_color: None,
        },
    };
    assert_eq!(deserialize_message(&serialize_message(&message)).unwrap(), message);
}

#[test]
fn share_string_has_the_documented_shape() {
    let share = ShareInfo::new("10.0.0.1:9".to_owned(), RoomId::new("a/b"), PeerId::new("h"));
    assert_eq!(share.encode(), "uno://v1/udp/10.0.0.1:9/room/a%2Fb/host/h");
}

#[test]
fn join_response_round_trips() {
    let message = Message::JoinResponse {
        room_id: RoomId::new("room"),
        peer_id: PeerId::new("peer"),
        decision: JoinDecision::Accepted { session_id: SessionId::new("session-peer"), role: HostRole::Peer },
    };
    assert_eq!(deserialize_message(&serialize_message(&message)).unwrap(), message);
}

#[test]
fn escaping_hides_separators_and_reads_back() {
    let text = "a|b/c:d,e%f";
    let escaped = escape(text);
    assert_eq!(escaped, "a%7Cb%2Fc%3Ad%2Ce%25f");
    assert!(!escaped.contains('|') && !escaped.contains('/') && !escaped.contains(':') && !escaped.contains(','));
    assert_eq!(unescape(&escaped), text);
    assert_eq!(unescape(&escape("%2C")), "%2C");
}

#[test]
fn every_command_kind_reads_back() {
    let commands = vec![
        Command::Play {
            player: PlayerId::new("p1"),
            card: Card { color: None, rank: Rank::WildDrawFour },
            chosen_color: Some(Color::Green),
        },
        Command::Draw { player: PlayerId::new("p2") },
        Command::Pass { player: PlayerId::new("p3") },
        Command::ChooseColor { player: PlayerId::new("p4"), color: Color::Blue },
    ];
    for command in commands {
        assert_eq!(parse_command(&serialize_command(&command)).unwrap(), command);
    }
}

#[test]
fn share_with_escaped_names_reads_back() {
    let share = ShareInfo::new("[::1]:4000".to_owned(), RoomId::new("r/1|x"), PeerId::new("h:%,"));
    let parsed = ShareInfo::decode(&share.encode()).unwrap();
    assert_eq!(parsed, share);
    assert!(!parsed.forwarded);
}

#[test]
fn join_messages_read_back_with_awkward_names_and_reasons() {
    let request = Message::JoinRequest {
        room_id: RoomId::new("room"),
        peer_id: PeerId::new("peer"),
        name: "Ann|B/C:50%,".to_owned(),
    };
    assert_eq!(deserialize_message(&serialize_message(&request)).unwrap(), request);
    let rejected = Message::JoinResponse {
        room_id: RoomId::new("room"),
        peer_id: PeerId::new("peer"),
        decision: JoinDecision::Rejected { reason: "full|closed".to_owned() },
    };
    assert_eq!(deserialize_message(&serialize_message(&rejected)).unwrap(), rejected);
    let standby = Message::JoinResponse {
        room_id: RoomId::new("room"),
        peer_id: PeerId::new("peer"),
        decision: JoinDecision::Accepted { session_id: SessionId::new("s"), role: HostRole::Standby },
    };
    assert_eq!(deserialize_message(&serialize_message(&standby)).unwrap(), standby);
}

#[test]
fn every_plain_message_kind_reads_back() {
    let members = vec![
        MemberInfo {
            peer_id: PeerId::new("p:1"),
            player_id: PlayerId::new("a,b"),
            name: "Zoë|%".to_owned(),
            ready: true,
            connected: false,
            role: HostRole::Standby,
        },
        MemberInfo {
            peer_id: PeerId::new("p2"),
            player_id: PlayerId::new("p2"),
            name: "Bo".to_owned(),
            ready: false,
            connected: true,
            role: HostRole::Active,
        },
    ];
    let messages = vec![
        Message::Ping { session_id: SessionId::new("s"), sequence: 4 },
        Message::Ack { session_id: SessionId::new("s"), sequence: u64::MAX },
        Message::Ready { room_id: RoomId::new("r"), peer_id: PeerId::new("p"), ready: true },
        Message::Ready { room_id: RoomId::new("r"), peer_id: PeerId::new("p"), ready: false },
        Message::Membership { room_id: RoomId::new("r"), members },
        Message::Membership { room_id: RoomId::new("r"), members: Vec::new() },
        Message::Event { room_id: RoomId::new("r"), event: GameEvent { sequence: 3, kind: EventKind::GameStarted } },
    ];
    for message in messages {
        assert_eq!(deserialize_message(&serialize_message(&message)).unwrap(), message);
    }
}

#[test]
fn share_with_a_bad_endpoint_is_refused() {
    assert_eq!(
        ShareInfo::decode("uno://v1/udp/not-an-address/room/r/host/h"),
        Err(uno::uno_protocol::ProtocolError::InvalidEndpoint("not-an-address".to_owned()))
    );
}
