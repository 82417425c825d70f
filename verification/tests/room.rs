use uno::uno_core::{Command, PlayerId};
use uno::uno_protocol::{HostRole, PeerId, RoomId};
use uno::uno_room::{Room, RoomError, RoomStatus};

fn room() -> Room {
    Room::create(RoomId::new("room"), PeerId::new("host"), "Host".to_owned())
}

#[test]
fn join_leave_and_ready_work() {
    let mut room = room();
    room.join(PeerId::new("peer"), "Peer".to_owned()).unwrap();
    room.set_ready(&PeerId::new("peer"), true).unwrap();
    assert_eq!(room.members().len(), 2);
    assert!(room.members().iter().any(|member| member.ready));
    room.leave(&PeerId::new("peer")).unwrap();
    assert!(!room.members().iter().find(|member| member.peer_id == PeerId::new("peer")).unwrap().connected);
}

#[test]
fn standby_is_assigned() {
    let mut room = room();
    room.join(PeerId::new("peer"), "Peer".to_owned()).unwrap();
    assert_eq!(room.active_host().unwrap().peer_id, PeerId::new("host"));
    assert_eq!(room.standby_host().unwrap().peer_id, PeerId::new("peer"));
}

#[test]
fn active_host_disconnect_promotes_standby() {
    let mut room = room();
    room.join(PeerId::new("peer"), "Peer".to_owned()).unwrap();
    room.leave(&PeerId::new("host")).unwrap();
    assert_eq!(room.active_host().unwrap().peer_id, PeerId::new("peer"));
}

#[test]
fn no_host_continuation_fails() {
    let mut room = room();
    let result = room.leave(&PeerId::new("host"));
    assert_eq!(result.unwrap_err(), RoomError::NoSynchronizedStandby);
    assert!(matches!(room.status(), RoomStatus::Suspended(_)));
}

#[test]
fn start_game_rejects_invalid_player_count() {
    let mut room = room();
    assert_eq!(room.start_game(&PeerId::new("host")).unwrap_err(), RoomError::InvalidPlayerCount(1));
}

#[test]
fn host_and_joiner_complete_minimal_game_flow() {
    let mut room = room();
    room.join(PeerId::new("peer"), "Peer".to_owned()).unwrap();
    room.start_game(&PeerId::new("host")).unwrap();
    assert!(matches!(room.status(), RoomStatus::InGame));
    assert!(room.public_game_state().is_some());
}

#[test]
fn replicated_state_can_seed_standby_room() {
    let mut room = room();
    room.join(PeerId::new("peer"), "Peer".to_owned()).unwrap();
    room.start_game(&PeerId::new("host")).unwrap();
    let replicated = room.replicated_state();

    let mut standby = Room::create(RoomId::new("room"), PeerId::new("peer"), "Peer".to_owned());
    standby.apply_replicated_state(replicated);
    standby.leave(&PeerId::new("host")).unwrap();
    assert_eq!(standby.active_host().unwrap().peer_id, PeerId::new("peer"));
}

#[test]
fn members_stay_in_peer_order_and_duplicates_are_refused() {
    let mut room = room();
    room.join(PeerId::new("zed"), "Z".to_owned()).unwrap();
    room.join(PeerId::new("alice"), "A".to_owned()).unwrap();
    assert_eq!(room.join(PeerId::new("alice"), "A2".to_owned()), Err(RoomError::DuplicatePeer(PeerId::new("alice"))));
    let ids: Vec<String> = room.members().iter().map(|member| member.peer_id.0.clone()).collect();
    assert_eq!(ids, vec!["alice", "host", "zed"]);
    assert_eq!(room.standby_host().unwrap().peer_id, PeerId::new("zed"));
    assert_eq!(room.member_infos().len(), 3);
    assert_eq!(room.member_infos()[0].name, "A");
}

#[test]
fn only_the_active_host_commands_the_game() {
    let mut room = room();
    room.join(PeerId::new("peer"), "Peer".to_owned()).unwrap();
    assert_eq!(
        room.submit_command(&PeerId::new("host"), Command::Draw { player: PlayerId::new("host") }).unwrap_err(),
        RoomError::GameNotStarted
    );
    assert_eq!(room.start_game(&PeerId::new("peer")).unwrap_err(), RoomError::NotActiveHost(PeerId::new("peer")));
    room.start_game(&PeerId::new("host")).unwrap();
    assert_eq!(room.start_game(&PeerId::new("host")).unwrap_err(), RoomError::GameAlreadyStarted);
    let current = room.public_game_state().unwrap().current_player;
    let event = room.submit_command(&PeerId::new("host"), Command::Draw { player: current }).unwrap();
    assert_eq!(event.sequence, 1);
    assert_eq!(room.replicated_state().pending_critical_sequences, vec![1]);
    assert_eq!(room.standby_host().unwrap().synchronized_sequence, 2);
}

#[test]
fn game_errors_come_back_as_their_debug_text() {
    let mut room = room();
    room.join(PeerId::new("peer"), "Peer".to_owned()).unwrap();
    room.start_game(&PeerId::new("host")).unwrap();
    let error = room.submit_command(&PeerId::new("host"), Command::Pass { player: PlayerId::new("nobody") });
    assert_eq!(error.unwrap_err(), RoomError::Gameplay("UnknownPlayer(PlayerId(\"nobody\"))".to_owned()));
}

#[test]
fn debug_game_starts_with_the_host_alone() {
    let mut room = room();
    room.start_debug_game(&PeerId::new("host")).unwrap();
    assert_eq!(room.public_game_state().unwrap().players.len(), 1);
}

#[test]
fn a_room_without_a_host_ends() {
    let mut room = room();
    room.end_if_no_host();
    assert_eq!(room.status(), &RoomStatus::Lobby);
    let _ = room.leave(&PeerId::new("host"));
    room.end_if_no_host();
    assert_eq!(room.status(), &RoomStatus::Ended("no active host can continue".to_owned()));
    assert_eq!(room.members()[0].role, HostRole::Active);
}
