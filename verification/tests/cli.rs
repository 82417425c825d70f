use uno::cli::{handle_interactive, parse_rank, play_usage, HostOptions, JoinOptions, Reply};
use uno::uno_core::Rank;
use uno::uno_protocol::{PeerId, RoomId};
use uno::uno_room::Room;

fn args(values: &[&str]) -> Vec<String> {
    values.iter().map(|value| value.to_string()).collect()
}

#[test]
fn host_options_parse_share_inputs() {
    let args = vec!["--name".to_owned(), "Alice".to_owned(), "--port".to_owned(), "34567".to_owned(), "--no-stun".to_owned()];
    let options = HostOptions::parse(&args).unwrap();
    assert_eq!(options.name, "Alice");
    assert_eq!(options.port, 34567);
    assert!(options.no_stun);
    assert!(!options.debug);
}

#[test]
fn host_options_parse_debug() {
    let args = vec!["--debug".to_owned()];
    let options = HostOptions::parse(&args).unwrap();
    assert!(options.debug);
}

#[test]
fn join_options_reject_missing_share() {
    assert!(JoinOptions::parse(&[]).is_err());
}

#[test]
fn invalid_interactive_command_is_safe() {
    let mut room = Room::create(RoomId::new("room"), PeerId::new("host"), "Host".to_owned());
    assert!(handle_interactive(&mut room, "bad", true, false).unwrap_err().contains("invalid command"));
}

#[test]
fn debug_start_accepts_single_host() {
    let mut room = Room::create(RoomId::new("room"), PeerId::new("host"), "Host".to_owned());
    handle_interactive(&mut room, "start", true, true).unwrap();
    assert!(room.public_game_state().is_some());
}

#[test]
fn debug_play_requires_player() {
    let mut room = Room::create(RoomId::new("room"), PeerId::new("host"), "Host".to_owned());
    handle_interactive(&mut room, "start", true, true).unwrap();
    assert_eq!(
        handle_interactive(&mut room, "play red 5", true, true).unwrap_err(),
        "usage: play <player> <color> <rank>"
    );
}

#[test]
fn host_options_collect_servers_and_refuse_bad_input() {
    let options = HostOptions::parse(&args(&["--stun", "a:1", "--room", "r", "--peer", "p", "--forwarded", "1.2.3.4:5"])).unwrap();
    assert_eq!(options.stun_servers.len(), 3);
    assert_eq!(options.stun_servers[2], "a:1");
    assert_eq!(options.room.as_deref(), Some("r"));
    assert_eq!(options.peer.as_deref(), Some("p"));
    assert_eq!(options.forwarded.as_deref(), Some("1.2.3.4:5"));
    assert_eq!(options.name, "Host");
    assert_eq!(options.port, 0);
    assert_eq!(HostOptions::parse(&args(&["--port", "70000"])).unwrap_err(), "invalid port");
    assert_eq!(HostOptions::parse(&args(&["--name"])).unwrap_err(), "--name requires a value");
    assert_eq!(HostOptions::parse(&args(&["--what"])).unwrap_err(), "unknown host option '--what'");
}

#[test]
fn join_options_read_name_and_peer() {
    let options = JoinOptions::parse(&args(&["uno://x", "--name", "Bo", "--peer", "b"])).unwrap();
    assert_eq!(options.share, "uno://x");
    assert_eq!(options.name, "Bo");
    assert_eq!(options.peer.as_deref(), Some("b"));
    assert_eq!(JoinOptions::parse(&args(&["s"])).unwrap().name, "Player");
    assert_eq!(JoinOptions::parse(&args(&["s", "--x"])).unwrap_err(), "unknown join option '--x'");
    assert_eq!(JoinOptions::parse(&args(&["s", "--peer"])).unwrap_err(), "--peer requires a value");
    assert_eq!(JoinOptions::parse(&[]).unwrap_err(), "join requires a share string");
}

#[test]
fn ranks_are_read_by_name_or_number() {
    assert_eq!(parse_rank("skip"), Ok(Rank::Skip));
    assert_eq!(parse_rank("draw2"), Ok(Rank::DrawTwo));
    assert_eq!(parse_rank("wild4"), Ok(Rank::WildDrawFour));
    assert_eq!(parse_rank("+7"), Ok(Rank::Number(7)));
    assert_eq!(parse_rank("255"), Ok(Rank::Number(255)));
    assert_eq!(parse_rank("256"), Err("invalid rank '256'".to_owned()));
    assert_eq!(parse_rank(""), Err("invalid rank ''".to_owned()));
    assert_eq!(play_usage(false), "usage: play <color> <rank>");
}

#[test]
fn interactive_commands_drive_the_room() {
    let mut room = Room::create(RoomId::new("room"), PeerId::new("host"), "Host".to_owned());
    assert!(matches!(handle_interactive(&mut room, "  ", true, false), Ok(Reply::Nothing)));
    assert!(matches!(handle_interactive(&mut room, "ready", true, false), Ok(Reply::Ready)));
    assert!(room.members()[0].ready);
    assert!(matches!(handle_interactive(&mut room, "hand", true, false), Ok(Reply::HandHidden)));
    assert!(matches!(handle_interactive(&mut room, "state", true, false), Ok(Reply::State(None))));
    assert_eq!(
        handle_interactive(&mut room, "start", false, false).unwrap_err(),
        "only the active host can start the local debug room"
    );
    assert_eq!(handle_interactive(&mut room, "start", true, false).unwrap_err(), "InvalidPlayerCount(1)");
    room.join(PeerId::new("peer"), "Peer".to_owned()).unwrap();
    assert!(matches!(handle_interactive(&mut room, "start", true, false), Ok(Reply::GameStarted)));
    assert_eq!(handle_interactive(&mut room, "play purple 5", true, false).unwrap_err(), "InvalidColor(\"purple\")");
    assert_eq!(handle_interactive(&mut room, "play red ten", true, false).unwrap_err(), "invalid rank 'ten'");
    assert!(matches!(handle_interactive(&mut room, "draw", true, false), Ok(Reply::Event(_))));
}

#[test]
fn color_command_submits_the_hosts_choice() {
    let mut room = Room::create(RoomId::new("room"), PeerId::new("host"), "Host".to_owned());
    handle_interactive(&mut room, "start", true, true).unwrap();
    let reply = handle_interactive(&mut room, "color blue", true, true).unwrap();
    assert!(matches!(reply, Reply::Event(_)));
    assert_eq!(room.public_game_state().unwrap().active_color, uno::uno_core::Color::Blue);
    assert_eq!(handle_interactive(&mut room, "color", true, true).unwrap_err(), "usage: color <color>");
    assert_eq!(handle_interactive(&mut room, "color pink", true, true).unwrap_err(), "InvalidColor(\"pink\")");
}

#[test]
fn forwarded_endpoint_must_be_a_socket_address() {
    assert_eq!(
        HostOptions::parse(&args(&["--forwarded", "not-an-address"])).unwrap_err(),
        "invalid forwarded endpoint"
    );
    let options = HostOptions::parse(&args(&["--forwarded", "[::1]:5000"])).unwrap();
    assert_eq!(options.forwarded, Some("[::1]:5000".to_owned()));
}
