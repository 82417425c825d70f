//! Rooms of the networked game: the members kept in the order of their peer
//! ids, the active and standby hosts, the lobby, and the authoritative game
//! with what the standby host needs to take over.

use vstd::prelude::*;
use crate::text::{lemma_text_less_irreflexive, lemma_text_less_total, lemma_text_less_trans, push_str, str_less, text_less};
use crate::uno_core::{
    Command, Game, GameError, GameEvent, MAX_PLAYERS_V1, MIN_PLAYERS, PlayerId, PublicGameState, classic_dealt,
    command_outcome, copy_id, duplicate_from, public_view, same_game,
};
use crate::uno_protocol::{HostRole, MemberInfo, PeerId, RoomId, SessionId};

verus! {

#[derive(Clone, Debug, PartialEq, Eq)]
pub struct Member {
    pub peer_id: PeerId,
    pub player_id: PlayerId,
    pub name: String,
    pub ready: bool,
    pub connected: bool,
    pub role: HostRole,
    pub synchronized_sequence: u64,
}

fn copy_member(member: &Member) -> (copy: Member)
    ensures
        copy == *member,
{
    Member {
        peer_id: PeerId(member.peer_id.0.clone()),
        player_id: copy_id(&member.player_id),
        name: member.name.clone(),
        ready: member.ready,
        connected: member.connected,
        role: member.role,
        synchronized_sequence: member.synchronized_sequence,
    }
}

impl Member {
    /// What the other members see of this one.
    pub fn info(&self) -> (info: MemberInfo)
        ensures
            info == (MemberInfo {
                peer_id: self.peer_id,
                player_id: self.player_id,
                name: self.name,
                ready: self.ready,
                connected: self.connected,
                role: self.role,
            }),
    {
        MemberInfo {
            peer_id: PeerId(self.peer_id.0.clone()),
            player_id: copy_id(&self.player_id),
            name: self.name.clone(),
            ready: self.ready,
            connected: self.connected,
            role: self.role,
        }
    }
}

#[derive(Clone, Debug, PartialEq, Eq)]
pub enum RoomStatus {
    Lobby,
    InGame,
    Suspended(String),
    Ended(String),
}

#[derive(Debug, Clone, PartialEq, Eq)]
pub enum RoomError {
    DuplicatePeer(PeerId),
    UnknownPeer(PeerId),
    NotActiveHost(PeerId),
    InvalidPlayerCount(usize),
    GameAlreadyStarted,
    GameNotStarted,
    NoSynchronizedStandby,
    Gameplay(String),
}

/// What the active host hands its standby: the members, the game, the next
/// event number and the events not yet confirmed.
#[derive(Debug)]
pub struct ReplicatedState {
    pub members: Vec<Member>,
    pub game: Option<Game>,
    pub event_sequence: u64,
    pub pending_critical_sequences: Vec<u64>,
}

// ===== the member list =====

/// The members in strictly increasing order of peer id, so no peer twice.
pub open spec fn ordered(members: Seq<Member>) -> bool {
    forall|i: int, j: int|
        0 <= i < j < members.len() ==> text_less(
            #[trigger] members[i].peer_id.0@,
            #[trigger] members[j].peer_id.0@,
        )
}

/// The index of the member with this peer id, or -1.
pub open spec fn peer_index(members: Seq<Member>, peer: Seq<char>) -> int {
    if exists|i: int| 0 <= i < members.len() && #[trigger] members[i].peer_id.0@ == peer {
        choose|i: int| 0 <= i < members.len() && #[trigger] members[i].peer_id.0@ == peer
    } else {
        -1
    }
}

/// Where a member with this peer id belongs: after every member whose peer id
/// comes before it.
pub open spec fn slot(members: Seq<Member>, peer: Seq<char>) -> int
    decreases members.len(),
{
    if members.len() == 0 {
        0
    } else if text_less(members[0].peer_id.0@, peer) {
        1 + slot(members.drop_first(), peer)
    } else {
        0
    }
}

/// The list with `member` in its place: replacing the member with the same
/// peer id, or inserted where it belongs.
pub open spec fn placed(members: Seq<Member>, member: Member) -> Seq<Member> {
    let i = slot(members, member.peer_id.0@);
    if i < members.len() && members[i].peer_id.0@ == member.peer_id.0@ {
        members.update(i, member)
    } else {
        members.insert(i, member)
    }
}

/// A list of members gathered by peer id, a later entry replacing an earlier
/// one with the same peer id.
pub open spec fn collected(members: Seq<Member>) -> Seq<Member>
    decreases members.len(),
{
    if members.len() == 0 {
        Seq::empty()
    } else {
        placed(collected(members.drop_last()), members.last())
    }
}

/// Whether a member is connected and holds `role`.
pub open spec fn hosting(role: HostRole) -> spec_fn(Member) -> bool {
    |m: Member| m.connected && m.role == role
}

/// Whether `i` is the first index whose member satisfies `p`.
pub open spec fn is_first(members: Seq<Member>, p: spec_fn(Member) -> bool, i: int) -> bool {
    &&& 0 <= i < members.len()
    &&& p(members[i])
    &&& forall|j: int| 0 <= j < i ==> !p(#[trigger] members[j])
}

/// The first index whose member satisfies `p`, or -1.
pub open spec fn first_where(members: Seq<Member>, p: spec_fn(Member) -> bool) -> int {
    if exists|i: int| is_first(members, p, i) {
        choose|i: int| is_first(members, p, i)
    } else {
        -1
    }
}

/// The first connected member holding `role`, if any.
pub open spec fn host_with(members: Seq<Member>, role: HostRole) -> Option<Member> {
    let i = first_where(members, hosting(role));
    if i == -1 {
        None
    } else {
        Some(members[i])
    }
}

pub proof fn lemma_first_where(members: Seq<Member>, p: spec_fn(Member) -> bool, i: int)
    requires
        is_first(members, p, i),
    ensures
        first_where(members, p) == i,
{
    let k = choose|k: int| is_first(members, p, k);
    assert(is_first(members, p, k));
    if k < i {
        assert(!p(members[k]));
    }
    if i < k {
        assert(!p(members[i]));
    }
}

pub proof fn lemma_first_where_none(members: Seq<Member>, p: spec_fn(Member) -> bool)
    requires
        forall|j: int| 0 <= j < members.len() ==> !p(#[trigger] members[j]),
    ensures
        first_where(members, p) == -1,
{
}

pub proof fn lemma_peer_index(members: Seq<Member>, i: int)
    requires
        ordered(members),
        0 <= i < members.len(),
    ensures
        peer_index(members, members[i].peer_id.0@) == i,
{
    let peer = members[i].peer_id.0@;
    assert(members[i].peer_id.0@ == peer);
    let k = peer_index(members, peer);
    assert(0 <= k < members.len() && members[k].peer_id.0@ == peer);
    if k < i {
        assert(text_less(members[k].peer_id.0@, members[i].peer_id.0@));
        lemma_text_less_irreflexive(peer);
    }
    if i < k {
        assert(text_less(members[i].peer_id.0@, members[k].peer_id.0@));
        lemma_text_less_irreflexive(peer);
    }
}

/// Finds the member with this peer id.
fn find_peer(members: &Vec<Member>, peer: &PeerId) -> (found: Option<usize>)
    requires
        ordered(members@),
    ensures
        match found {
            Some(i) => i < members@.len() && members@[i as int].peer_id.0@ == peer.0@ && peer_index(
                members@,
                peer.0@,
            ) == i,
            None => peer_index(members@, peer.0@) == -1,
        },
{
    let mut i: usize = 0;
    while i < members.len()
        invariant
            i <= members@.len(),
            ordered(members@),
            forall|j: int| 0 <= j < i ==> (#[trigger] members@[j]).peer_id.0@ != peer.0@,
        decreases members@.len() - i,
    {
        if members[i].peer_id == *peer {
            proof {
                lemma_peer_index(members@, i as int);
            }
            return Some(i);
        }
        i += 1;
    }
    None
}

/// Finds the first connected member holding `role`.
fn find_host(members: &Vec<Member>, role: HostRole) -> (found: Option<usize>)
    ensures
        match found {
            Some(i) => first_where(members@, hosting(role)) == i,
            None => first_where(members@, hosting(role)) == -1,
        },
{
    let ghost p = hosting(role);
    let mut i: usize = 0;
    while i < members.len()
        invariant
            i <= members@.len(),
            p == hosting(role),
            forall|j: int| 0 <= j < i ==> !p(#[trigger] members@[j]),
        decreases members@.len() - i,
    {
        if members[i].connected && members[i].role == role {
            proof {
                lemma_first_where(members@, p, i as int);
            }
            return Some(i);
        }
        i += 1;
    }
    proof {
        lemma_first_where_none(members@, p);
    }
    None
}

/// Places `member` in an ordered list; see `placed`.
fn place(members: &mut Vec<Member>, member: Member)
    requires
        ordered(old(members)@),
    ensures
        final(members)@ == placed(old(members)@, member),
        ordered(final(members)@),
{
    let ghost start = members@;
    let mut i: usize = 0;
    proof {
        assert(start.skip(0) =~= start);
    }
    while i < members.len() && str_less(members[i].peer_id.0.as_str(), member.peer_id.0.as_str())
        invariant
            members@ == start,
            i <= start.len(),
            slot(start, member.peer_id.0@) == i + slot(start.skip(i as int), member.peer_id.0@),
            forall|j: int| 0 <= j < i ==> text_less((#[trigger] start[j]).peer_id.0@, member.peer_id.0@),
        decreases start.len() - i,
    {
        proof {
            assert(start.skip(i as int)[0] == start[i as int]);
            assert(start.skip(i as int).drop_first() =~= start.skip(i + 1));
        }
        i += 1;
    }
    proof {
        if i < start.len() {
            assert(start.skip(i as int)[0] == start[i as int]);
        }
        assert(slot(start, member.peer_id.0@) == i);
    }
    let ghost key = member.peer_id.0@;
    if i < members.len() && members[i].peer_id == member.peer_id {
        members.set(i, member);
        proof {
            assert forall|a: int, b: int| 0 <= a < b < members@.len() implies text_less(
                #[trigger] members@[a].peer_id.0@,
                #[trigger] members@[b].peer_id.0@,
            ) by {
                if a == i {
                    assert(members@[a].peer_id.0@ == start[a].peer_id.0@);
                    assert(text_less(start[a].peer_id.0@, start[b].peer_id.0@));
                } else if b == i {
                    assert(members@[b].peer_id.0@ == start[b].peer_id.0@);
                    assert(text_less(start[a].peer_id.0@, start[b].peer_id.0@));
                } else {
                    assert(text_less(start[a].peer_id.0@, start[b].peer_id.0@));
                }
            }
        }
    } else {
        members.insert(i, member);
        proof {
            if i < start.len() {
                assert(!text_less(start[i as int].peer_id.0@, key));
                assert(start[i as int].peer_id.0@ != key);
                lemma_text_less_total(start[i as int].peer_id.0@, key);
                assert(text_less(key, start[i as int].peer_id.0@));
            }
            assert forall|a: int, b: int| 0 <= a < b < members@.len() implies text_less(
                #[trigger] members@[a].peer_id.0@,
                #[trigger] members@[b].peer_id.0@,
            ) by {
                if b < i {
                    assert(members@[a] == start[a] && members@[b] == start[b]);
                    assert(text_less(start[a].peer_id.0@, start[b].peer_id.0@));
                } else if b == i {
                    assert(members@[a] == start[a]);
                } else if a < i {
                    assert(members@[a] == start[a] && members@[b] == start[b - 1]);
                    assert(text_less(start[a].peer_id.0@, key));
                    assert(text_less(key, start[i as int].peer_id.0@));
                    if b - 1 > i {
                        assert(text_less(start[i as int].peer_id.0@, start[b - 1].peer_id.0@));
                        lemma_text_less_trans(key, start[i as int].peer_id.0@, start[b - 1].peer_id.0@);
                    }
                    lemma_text_less_trans(start[a].peer_id.0@, key, start[b - 1].peer_id.0@);
                } else if a == i {
                    assert(members@[b] == start[b - 1]);
                    if b - 1 > i {
                        assert(text_less(start[i as int].peer_id.0@, start[b - 1].peer_id.0@));
                        lemma_text_less_trans(key, start[i as int].peer_id.0@, start[b - 1].peer_id.0@);
                    }
                } else {
                    assert(members@[a] == start[a - 1] && members@[b] == start[b - 1]);
                    assert(text_less(start[a - 1].peer_id.0@, start[b - 1].peer_id.0@));
                }
            }
        }
    }
}


// ===== hosts =====

/// The peer id of the active host, if any.
pub open spec fn active_peer(members: Seq<Member>) -> Option<Seq<char>> {
    match host_with(members, HostRole::Active) {
        Some(m) => Some(m.peer_id.0@),
        None => None,
    }
}

/// Whether a member may become the standby: connected and not the active host.
pub open spec fn standby_candidate(active: Option<Seq<char>>) -> spec_fn(Member) -> bool {
    |m: Member|
        m.connected && match active {
            Some(a) => m.peer_id.0@ != a,
            None => true,
        }
}

/// A member made standby, synchronized up to `sequence`.
pub open spec fn as_standby(m: Member, sequence: u64) -> Member {
    Member { role: HostRole::Standby, synchronized_sequence: sequence, ..m }
}

/// The members after making sure of a standby host: where none is connected,
/// the first connected member other than the active host becomes one.
pub open spec fn with_standby(members: Seq<Member>, sequence: u64) -> Seq<Member> {
    if host_with(members, HostRole::Standby) is Some {
        members
    } else {
        let c = first_where(members, standby_candidate(active_peer(members)));
        if c == -1 {
            members
        } else {
            members.update(c, as_standby(members[c], sequence))
        }
    }
}

/// A connected standby brought up to `sequence`; any other member as it is.
pub open spec fn synced(m: Member, sequence: u64) -> Member {
    if m.role == HostRole::Standby && m.connected {
        Member { synchronized_sequence: sequence, ..m }
    } else {
        m
    }
}

/// Every connected standby brought up to `sequence`.
pub open spec fn all_synced(members: Seq<Member>, sequence: u64) -> Seq<Member> {
    members.map_values(|m: Member| synced(m, sequence))
}

/// Whether a member can take over at `sequence`: a connected standby that has
/// seen every event up to it.
pub open spec fn ready_standby(sequence: u64) -> spec_fn(Member) -> bool {
    |m: Member| m.connected && m.role == HostRole::Standby && m.synchronized_sequence >= sequence
}

/// A member when the host role passes to `new_host`: an active host steps down
/// and is disconnected, and `new_host` becomes active.
pub open spec fn handed_over(m: Member, new_host: Seq<char>) -> Member {
    let stepped = if m.role == HostRole::Active {
        Member { role: HostRole::Peer, connected: false, ..m }
    } else {
        m
    };
    if stepped.peer_id.0@ == new_host {
        Member { role: HostRole::Active, ..stepped }
    } else {
        stepped
    }
}

/// The members after promoting the first standby that can take over at
/// `sequence`, then making sure of a new standby; `None` where none can.
pub open spec fn promoted(members: Seq<Member>, sequence: u64) -> Option<Seq<Member>> {
    let s = first_where(members, ready_standby(sequence));
    if s == -1 {
        None
    } else {
        let new_host = members[s].peer_id.0@;
        Some(with_standby(members.map_values(|m: Member| handed_over(m, new_host)), sequence))
    }
}

/// A member that left: disconnected and no longer ready.
pub open spec fn departed(m: Member) -> Member {
    Member { connected: false, ready: false, ..m }
}

/// A newly joined member, synchronized up to `sequence`.
pub open spec fn newcomer(peer_id: PeerId, name: String, sequence: u64) -> Member {
    Member {
        peer_id,
        player_id: PlayerId(peer_id.0),
        name,
        ready: false,
        connected: true,
        role: HostRole::Peer,
        synchronized_sequence: sequence,
    }
}

/// The seats of a new game: the connected members' player ids and names, in
/// member order.
pub open spec fn seated(members: Seq<Member>) -> Seq<(PlayerId, String)>
    decreases members.len(),
{
    if members.len() == 0 {
        Seq::empty()
    } else {
        let rest = seated(members.drop_last());
        if members.last().connected {
            rest.push((members.last().player_id, members.last().name))
        } else {
            rest
        }
    }
}

/// What a member shows the others.
pub open spec fn info_of(m: Member) -> MemberInfo {
    MemberInfo {
        peer_id: m.peer_id,
        player_id: m.player_id,
        name: m.name,
        ready: m.ready,
        connected: m.connected,
        role: m.role,
    }
}

/// The next event number of a room's game, zero without one.
pub open spec fn sequence_of(game: Option<Game>) -> u64 {
    match game {
        Some(g) => g.events@.len() as u64,
        None => 0,
    }
}

/// Two member lists with the same peer ids at the same places.
pub open spec fn same_peers(a: Seq<Member>, b: Seq<Member>) -> bool {
    a.len() == b.len() && forall|i: int| 0 <= i < a.len() ==> (#[trigger] a[i]).peer_id == b[i].peer_id
}

pub proof fn lemma_same_peers_ordered(a: Seq<Member>, b: Seq<Member>)
    requires
        ordered(a),
        same_peers(a, b),
    ensures
        ordered(b),
{
    assert forall|i: int, j: int| 0 <= i < j < b.len() implies text_less(
        #[trigger] b[i].peer_id.0@,
        #[trigger] b[j].peer_id.0@,
    ) by {
        assert(a[i].peer_id == b[i].peer_id);
        assert(a[j].peer_id == b[j].peer_id);
        assert(text_less(a[i].peer_id.0@, a[j].peer_id.0@));
    }
}

/// The name of the debug text (`{:?}`) of a game error.
pub uninterp spec fn game_error_debug(error: GameError) -> Seq<char>;

/// The debug text of a game error, as `format!("{:?}")` writes it; its
/// contract names the text and claims nothing more of it.
#[verifier::external_body]
pub(crate) fn debug_game_error(error: &GameError) -> (text: String)
    ensures
        text@ == game_error_debug(*error),
{
    format!("{:?}", error)
}

/// The name of the debug text (`{:?}`) of a room error, which is also how a
/// room error displays.
pub uninterp spec fn room_error_debug(error: RoomError) -> Seq<char>;

/// The debug text of a room error, as `format!("{:?}")` writes it; its
/// contract names the text and claims nothing more of it.
#[verifier::external_body]
pub(crate) fn debug_room_error(error: &RoomError) -> (text: String)
    ensures
        text@ == room_error_debug(*error),
{
    format!("{:?}", error)
}

// ===== rooms =====

/// A room: its members in peer-id order, its status, the game once started,
/// and the numbers of events whose delivery matters.
#[derive(Debug)]
pub struct Room {
    pub id: RoomId,
    pub session_id: SessionId,
    members: Vec<Member>,
    status: RoomStatus,
    game: Option<Game>,
    pending_critical_sequences: Vec<u64>,
}

impl Room {
    /// The members, in order of peer id.
    pub closed spec fn roster(&self) -> Seq<Member> {
        self.members@
    }

    pub closed spec fn room_id(&self) -> RoomId {
        self.id
    }

    pub closed spec fn session(&self) -> SessionId {
        self.session_id
    }

    pub closed spec fn status_view(&self) -> RoomStatus {
        self.status
    }

    pub closed spec fn game_view(&self) -> Option<Game> {
        self.game
    }

    /// The numbers of the events applied through this room.
    pub closed spec fn critical(&self) -> Seq<u64> {
        self.pending_critical_sequences@
    }

    /// Members ordered by peer id, and a well-formed game if there is one.
    pub open spec fn wf(&self) -> bool {
        &&& ordered(self.roster())
        &&& self.game_view() matches Some(g) ==> g.wf()
    }

    /// The game and its event numbers as before.
    pub open spec fn keeps_game(&self, before: &Room) -> bool {
        &&& self.game_view() == before.game_view()
        &&& self.critical() == before.critical()
    }

    /// A room in the lobby whose only member is its host, the active host.
    pub fn create(id: RoomId, host_peer: PeerId, host_name: String) -> (room: Room)
        ensures
            room.wf(),
            room.room_id() == id,
            room.session().0@ == "session-"@ + id.0@,
            room.roster() == seq![
                Member {
                    peer_id: host_peer,
                    player_id: PlayerId(host_peer.0),
                    name: host_name,
                    ready: false,
                    connected: true,
                    role: HostRole::Active,
                    synchronized_sequence: 0,
                },
            ],
            room.status_view() == RoomStatus::Lobby,
            room.game_view() is None,
            room.critical() == Seq::<u64>::empty(),
    {
        let mut session = String::new();
        push_str(&mut session, "session-");
        push_str(&mut session, id.0.as_str());
        let host = Member {
            player_id: PlayerId(host_peer.0.clone()),
            peer_id: host_peer,
            name: host_name,
            ready: false,
            connected: true,
            role: HostRole::Active,
            synchronized_sequence: 0,
        };
        let mut members: Vec<Member> = Vec::new();
        members.push(host);
        let room = Room {
            id,
            session_id: SessionId(session),
            members,
            status: RoomStatus::Lobby,
            game: None,
            pending_critical_sequences: Vec::new(),
        };
        proof {
            assert(room.roster() =~= seq![host]);
        }
        room
    }

    fn event_sequence(&self) -> (sequence: u64)
        requires
            self.wf(),
        ensures
            sequence == sequence_of(self.game_view()),
    {
        match &self.game {
            Some(game) => game.next_sequence(),
            None => 0,
        }
    }

    /// Makes sure of a standby host; see `with_standby`.
    fn assign_standby(&mut self)
        requires
            old(self).wf(),
        ensures
            final(self).wf(),
            final(self).roster() == with_standby(old(self).roster(), sequence_of(old(self).game_view())),
            final(self).status_view() == old(self).status_view(),
            final(self).keeps_game(&*old(self)),
            final(self).room_id() == old(self).room_id(),
            final(self).session() == old(self).session(),
    {
        let standby = find_host(&self.members, HostRole::Standby);
        if standby.is_some() {
            return;
        }
        let active = find_host(&self.members, HostRole::Active);
        let sequence = self.event_sequence();
        let ghost members = self.members@;
        let ghost p = standby_candidate(active_peer(members));
        let mut i: usize = 0;
        while i < self.members.len()
            invariant
                self.members@ == members,
                i <= members.len(),
                p == standby_candidate(active_peer(members)),
                match active {
                    Some(a) => a < members.len() && active_peer(members) == Some(members[a as int].peer_id.0@),
                    None => active_peer(members) is None,
                },
                forall|j: int| 0 <= j < i ==> !p(#[trigger] members[j]),
                ordered(members),
                members == old(self).members@,
                old(self).wf(),
                host_with(members, HostRole::Standby) is None,
                sequence == sequence_of(old(self).game_view()),
                self.id == old(self).id,
                self.session_id == old(self).session_id,
                self.status == old(self).status,
                self.game == old(self).game,
                self.pending_critical_sequences == old(self).pending_critical_sequences,
            decreases members.len() - i,
        {
            let candidate = self.members[i].connected && match active {
                Some(a) => self.members[i].peer_id != self.members[a].peer_id,
                None => true,
            };
            if candidate {
                proof {
                    lemma_first_where(members, p, i as int);
                }
                let mut member = copy_member(&self.members[i]);
                member.role = HostRole::Standby;
                member.synchronized_sequence = sequence;
                self.members.set(i, member);
                proof {
                    assert(host_with(members, HostRole::Standby) is None);
                    assert(self.members@ =~= members.update(i as int, as_standby(members[i as int], sequence)));
                    assert(same_peers(members, self.members@));
                    lemma_same_peers_ordered(members, self.members@);
                }
                return;
            }
            i += 1;
        }
        proof {
            lemma_first_where_none(members, p);
        }
    }

    /// Brings every connected standby up to the game's next event.
    fn replicate_to_standby(&mut self)
        requires
            old(self).wf(),
        ensures
            final(self).wf(),
            final(self).roster() == all_synced(old(self).roster(), sequence_of(old(self).game_view())),
            final(self).status_view() == old(self).status_view(),
            final(self).keeps_game(&*old(self)),
            final(self).room_id() == old(self).room_id(),
            final(self).session() == old(self).session(),
    {
        let sequence = self.event_sequence();
        let ghost members = self.members@;
        let mut i: usize = 0;
        while i < self.members.len()
            invariant
                i <= members.len(),
                self.members@.len() == members.len(),
                forall|j: int| 0 <= j < i ==> self.members@[j] == synced(#[trigger] members[j], sequence),
                forall|j: int| i <= j < members.len() ==> self.members@[j] == #[trigger] members[j],
                self.id == old(self).id,
                self.session_id == old(self).session_id,
                self.status == old(self).status,
                self.game == old(self).game,
                self.pending_critical_sequences == old(self).pending_critical_sequences,
            decreases members.len() - i,
        {
            if self.members[i].role == HostRole::Standby && self.members[i].connected {
                let mut member = copy_member(&self.members[i]);
                member.synchronized_sequence = sequence;
                self.members.set(i, member);
            }
            i += 1;
        }
        proof {
            assert(self.members@ =~= all_synced(members, sequence));
            assert(same_peers(members, self.members@));
            lemma_same_peers_ordered(members, self.members@);
        }
    }
}

/// What marking a member ready does: an unknown peer is refused; otherwise
/// only that member's readiness changes.
pub open spec fn ready_outcome(before: Room, after: Room, peer: PeerId, ready: bool, result: Result<(), RoomError>) -> bool {
    let i = peer_index(before.roster(), peer.0@);
    if i == -1 {
        result == Err::<(), RoomError>(RoomError::UnknownPeer(peer)) && after.roster() == before.roster()
    } else {
        result == Ok::<(), RoomError>(()) && after.roster() == before.roster().update(
            i,
            Member { ready, ..before.roster()[i] },
        )
    }
}

/// The status of a room left without a host that can take over.
pub open spec fn suspended(status: RoomStatus) -> bool {
    status matches RoomStatus::Suspended(why) && why@ == "no synchronized standby host"@
}

/// What promoting a standby does to a room: with a standby that can take over
/// at the game's next event, the members as `promoted` gives them; else the room
/// is suspended with its members as they were.
pub open spec fn promote_outcome(before: Room, after: Room, result: Result<(), RoomError>) -> bool {
    match promoted(before.roster(), sequence_of(before.game_view())) {
        Some(members) => result == Ok::<(), RoomError>(()) && after.roster() == members && after.status_view()
            == before.status_view(),
        None => result == Err::<(), RoomError>(RoomError::NoSynchronizedStandby) && after.roster() == before.roster()
            && suspended(after.status_view()),
    }
}

/// What a member leaving does: an unknown peer is refused; otherwise the
/// member is marked departed, and an active host's leaving promotes the
/// standby, a standby's leaving makes it a peer and a new standby is found.
pub open spec fn leave_outcome(before: Room, after: Room, peer: PeerId, result: Result<(), RoomError>) -> bool {
    let i = peer_index(before.roster(), peer.0@);
    if i == -1 {
        result == Err::<(), RoomError>(RoomError::UnknownPeer(peer)) && after.roster() == before.roster()
            && after.status_view() == before.status_view()
    } else {
        let left = before.roster().update(i, departed(before.roster()[i]));
        let sequence = sequence_of(before.game_view());
        let role = before.roster()[i].role;
        if role == HostRole::Active {
            match promoted(left, sequence) {
                Some(members) => result == Ok::<(), RoomError>(()) && after.roster() == members
                    && after.status_view() == before.status_view(),
                None => result == Err::<(), RoomError>(RoomError::NoSynchronizedStandby) && after.roster() == left
                    && suspended(after.status_view()),
            }
        } else if role == HostRole::Standby {
            result == Ok::<(), RoomError>(()) && after.roster() == with_standby(
                left.update(i, Member { role: HostRole::Peer, ..left[i] }),
                sequence,
            ) && after.status_view() == before.status_view()
        } else {
            result == Ok::<(), RoomError>(()) && after.roster() == left && after.status_view() == before.status_view()
        }
    }
}

impl Room {
    /// Admits a new peer, synchronized up to the game's next event, and makes
    /// sure of a standby host; a peer already in the room is refused.
    pub fn join(&mut self, peer_id: PeerId, name: String) -> (result: Result<(), RoomError>)
        requires
            old(self).wf(),
        ensures
            final(self).wf(),
            final(self).room_id() == old(self).room_id(),
            final(self).session() == old(self).session(),
            final(self).keeps_game(&*old(self)),
            final(self).status_view() == old(self).status_view(),
            if peer_index(old(self).roster(), peer_id.0@) != -1 {
                result == Err::<(), RoomError>(RoomError::DuplicatePeer(peer_id)) && final(self).roster() == old(
                    self,
                ).roster()
            } else {
                let sequence = sequence_of(old(self).game_view());
                result == Ok::<(), RoomError>(()) && final(self).roster() == with_standby(
                    placed(old(self).roster(), newcomer(peer_id, name, sequence)),
                    sequence,
                )
            },
    {
        if find_peer(&self.members, &peer_id).is_some() {
            return Err(RoomError::DuplicatePeer(peer_id));
        }
        let sequence = self.event_sequence();
        let member = Member {
            player_id: PlayerId(peer_id.0.clone()),
            peer_id,
            name,
            ready: false,
            connected: true,
            role: HostRole::Peer,
            synchronized_sequence: sequence,
        };
        place(&mut self.members, member);
        self.assign_standby();
        Ok(())
    }

    /// Marks a member ready or not; see `ready_outcome`.
    pub fn set_ready(&mut self, peer_id: &PeerId, ready: bool) -> (result: Result<(), RoomError>)
        requires
            old(self).wf(),
        ensures
            final(self).wf(),
            final(self).room_id() == old(self).room_id(),
            final(self).session() == old(self).session(),
            final(self).keeps_game(&*old(self)),
            final(self).status_view() == old(self).status_view(),
            ready_outcome(*old(self), *final(self), *peer_id, ready, result),
    {
        match find_peer(&self.members, peer_id) {
            None => Err(RoomError::UnknownPeer(PeerId(peer_id.0.clone()))),
            Some(i) => {
                let mut member = copy_member(&self.members[i]);
                member.ready = ready;
                let ghost before = self.members@;
                self.members.set(i, member);
                proof {
                    assert(same_peers(before, self.members@));
                    lemma_same_peers_ordered(before, self.members@);
                }
                Ok(())
            },
        }
    }

    /// Hands the active role to the first standby that has seen every event;
    /// see `promote_outcome`.
    pub fn promote_standby(&mut self) -> (result: Result<(), RoomError>)
        requires
            old(self).wf(),
        ensures
            final(self).wf(),
            final(self).room_id() == old(self).room_id(),
            final(self).session() == old(self).session(),
            final(self).keeps_game(&*old(self)),
            promote_outcome(*old(self), *final(self), result),
    {
        let current = self.event_sequence();
        let ghost members = self.members@;
        let ghost p = ready_standby(current);
        let mut s: usize = 0;
        while s < self.members.len() && !(self.members[s].connected && self.members[s].role == HostRole::Standby
            && self.members[s].synchronized_sequence >= current)
            invariant
                self.members@ == members,
                s <= members.len(),
                p == ready_standby(current),
                forall|j: int| 0 <= j < s ==> !p(#[trigger] members[j]),
            decreases members.len() - s,
        {
            s += 1;
        }
        if s == self.members.len() {
            proof {
                lemma_first_where_none(members, p);
            }
            self.status = RoomStatus::Suspended("no synchronized standby host".to_owned());
            return Err(RoomError::NoSynchronizedStandby);
        }
        proof {
            lemma_first_where(members, p, s as int);
        }
        let new_host = PeerId(self.members[s].peer_id.0.clone());
        let mut i: usize = 0;
        while i < self.members.len()
            invariant
                i <= members.len(),
                self.members@.len() == members.len(),
                new_host.0@ == members[s as int].peer_id.0@,
                forall|j: int| 0 <= j < i ==> self.members@[j] == handed_over(#[trigger] members[j], new_host.0@),
                forall|j: int| i <= j < members.len() ==> self.members@[j] == #[trigger] members[j],
                self.id == old(self).id,
                self.session_id == old(self).session_id,
                self.status == old(self).status,
                self.game == old(self).game,
                self.pending_critical_sequences == old(self).pending_critical_sequences,
            decreases members.len() - i,
        {
            let mut member = copy_member(&self.members[i]);
            if member.role == HostRole::Active {
                member.role = HostRole::Peer;
                member.connected = false;
            }
            if member.peer_id == new_host {
                member.role = HostRole::Active;
            }
            self.members.set(i, member);
            i += 1;
        }
        proof {
            assert(self.members@ =~= members.map_values(|m: Member| handed_over(m, new_host.0@)));
            assert(same_peers(members, self.members@));
            lemma_same_peers_ordered(members, self.members@);
        }
        self.assign_standby();
        Ok(())
    }

    /// Lets a member go; see `leave_outcome`.
    pub fn leave(&mut self, peer_id: &PeerId) -> (result: Result<(), RoomError>)
        requires
            old(self).wf(),
        ensures
            final(self).wf(),
            final(self).room_id() == old(self).room_id(),
            final(self).session() == old(self).session(),
            final(self).keeps_game(&*old(self)),
            leave_outcome(*old(self), *final(self), *peer_id, result),
    {
        match find_peer(&self.members, peer_id) {
            None => Err(RoomError::UnknownPeer(PeerId(peer_id.0.clone()))),
            Some(i) => {
                let ghost before = self.members@;
                let mut member = copy_member(&self.members[i]);
                member.connected = false;
                member.ready = false;
                let role = member.role;
                self.members.set(i, member);
                proof {
                    assert(same_peers(before, self.members@));
                    lemma_same_peers_ordered(before, self.members@);
                }
                if role == HostRole::Active {
                    self.promote_standby()
                } else if role == HostRole::Standby {
                    let ghost left = self.members@;
                    let mut member = copy_member(&self.members[i]);
                    member.role = HostRole::Peer;
                    self.members.set(i, member);
                    proof {
                        assert(same_peers(left, self.members@));
                        lemma_same_peers_ordered(left, self.members@);
                    }
                    self.assign_standby();
                    Ok(())
                } else {
                    Ok(())
                }
            },
        }
    }

    /// Ends the room when no connected active host remains.
    pub fn end_if_no_host(&mut self)
        requires
            old(self).wf(),
        ensures
            final(self).wf(),
            final(self).room_id() == old(self).room_id(),
            final(self).session() == old(self).session(),
            final(self).keeps_game(&*old(self)),
            final(self).roster() == old(self).roster(),
            if host_with(old(self).roster(), HostRole::Active) is None {
                final(self).status_view() matches RoomStatus::Ended(why) && why@ == "no active host can continue"@
            } else {
                final(self).status_view() == old(self).status_view()
            },
    {
        if find_host(&self.members, HostRole::Active).is_none() {
            self.status = RoomStatus::Ended("no active host can continue".to_owned());
        }
    }

    /// Refuses anyone but the active host.
    fn ensure_active_host(&self, requester: &PeerId) -> (result: Result<(), RoomError>)
        ensures
            match host_with(self.roster(), HostRole::Active) {
                Some(host) if host.peer_id.0@ == requester.0@ => result == Ok::<(), RoomError>(()),
                _ => result == Err::<(), RoomError>(RoomError::NotActiveHost(*requester)),
            },
    {
        match find_host(&self.members, HostRole::Active) {
            Some(a) => {
                if self.members[a].peer_id == *requester {
                    Ok(())
                } else {
                    Err(RoomError::NotActiveHost(PeerId(requester.0.clone())))
                }
            },
            None => Err(RoomError::NotActiveHost(PeerId(requester.0.clone()))),
        }
    }
}

/// Whether `requester` is the room's active host.
pub open spec fn is_active_host(members: Seq<Member>, requester: PeerId) -> bool {
    host_with(members, HostRole::Active) matches Some(host) && host.peer_id.0@ == requester.0@
}

/// What starting a game with at least `min` seats does: only the active host
/// may, only once, with the connected members seated in order; a duplicate
/// player is the game's error; a started game puts the room in play and brings
/// the standby up to date.
pub open spec fn start_outcome(before: Room, after: Room, requester: PeerId, min: int, result: Result<(), RoomError>) -> bool {
    let players = seated(before.roster());
    if !is_active_host(before.roster(), requester) {
        result == Err::<(), RoomError>(RoomError::NotActiveHost(requester)) && after == before
    } else if before.game_view() is Some {
        result == Err::<(), RoomError>(RoomError::GameAlreadyStarted) && after == before
    } else if players.len() < min || players.len() > MAX_PLAYERS_V1 {
        result == Err::<(), RoomError>(RoomError::InvalidPlayerCount(players.len() as usize)) && after == before
    } else {
        match duplicate_from(players, 0) {
            Some(id) => result matches Err(RoomError::Gameplay(text)) && text@ == game_error_debug(
                GameError::DuplicatePlayer(id),
            ) && after == before,
            None => {
                &&& result == Ok::<(), RoomError>(())
                &&& after.game_view() matches Some(g) && classic_dealt(g, players)
                &&& after.status_view() == RoomStatus::InGame
                &&& after.roster() == all_synced(before.roster(), sequence_of(after.game_view()))
                &&& after.critical() == before.critical()
            },
        }
    }
}

/// What a command submitted through the room does: only the active host may
/// submit, only during a game; the game applies it (see `command_outcome`),
/// an applied event's number is remembered and the standby brought up to date,
/// and a refusal comes back with the game error's text.
pub open spec fn submit_outcome(
    before: Room,
    after: Room,
    requester: PeerId,
    command: Command,
    result: Result<GameEvent, RoomError>,
) -> bool {
    if !is_active_host(before.roster(), requester) {
        result == Err::<GameEvent, RoomError>(RoomError::NotActiveHost(requester)) && after == before
    } else {
        match before.game_view() {
            None => result == Err::<GameEvent, RoomError>(RoomError::GameNotStarted) && after == before,
            Some(g) => after.game_view() matches Some(g2) && after.status_view() == before.status_view()
                && match result {
                Ok(event) => {
                    &&& command_outcome(g, g2, command, Ok(event))
                    &&& after.critical() == before.critical().push(event.sequence)
                    &&& after.roster() == all_synced(before.roster(), g2.events@.len() as u64)
                },
                Err(RoomError::Gameplay(text)) => {
                    &&& exists|e: GameError| command_outcome(g, g2, command, Err(e)) && text@ == game_error_debug(e)
                    &&& after.critical() == before.critical()
                    &&& after.roster() == before.roster()
                },
                Err(_) => false,
            },
        }
    }
}

impl Room {
    /// The connected members' seats, in member order.
    fn seated_players(&self) -> (players: Vec<(PlayerId, String)>)
        ensures
            players@ == seated(self.roster()),
    {
        let mut players: Vec<(PlayerId, String)> = Vec::new();
        let mut i: usize = 0;
        while i < self.members.len()
            invariant
                i <= self.members@.len(),
                players@ == seated(self.members@.take(i as int)),
            decreases self.members@.len() - i,
        {
            proof {
                assert(self.members@.take(i + 1).drop_last() =~= self.members@.take(i as int));
            }
            if self.members[i].connected {
                players.push((copy_id(&self.members[i].player_id), self.members[i].name.clone()));
            }
            i += 1;
        }
        proof {
            assert(self.members@.take(i as int) =~= self.members@);
        }
        players
    }

    fn start_with(&mut self, requester: &PeerId, min: usize) -> (result: Result<(), RoomError>)
        requires
            old(self).wf(),
            min == 1 || min == MIN_PLAYERS,
        ensures
            final(self).wf(),
            final(self).room_id() == old(self).room_id(),
            final(self).session() == old(self).session(),
            start_outcome(*old(self), *final(self), *requester, min as int, result),
    {
        self.ensure_active_host(requester)?;
        if self.game.is_some() {
            return Err(RoomError::GameAlreadyStarted);
        }
        let players = self.seated_players();
        let count = players.len();
        if count < min || count > MAX_PLAYERS_V1 {
            return Err(RoomError::InvalidPlayerCount(count));
        }
        let started = if min == 1 {
            Game::new_debug(players)
        } else {
            Game::new(players)
        };
        match started {
            Ok(game) => {
                self.game = Some(game);
                self.status = RoomStatus::InGame;
                self.replicate_to_standby();
                Ok(())
            },
            Err(error) => Err(RoomError::Gameplay(debug_game_error(&error))),
        }
    }

    /// Starts a game of two to five players; see `start_outcome`.
    pub fn start_game(&mut self, requester: &PeerId) -> (result: Result<(), RoomError>)
        requires
            old(self).wf(),
        ensures
            final(self).wf(),
            final(self).room_id() == old(self).room_id(),
            final(self).session() == old(self).session(),
            start_outcome(*old(self), *final(self), *requester, MIN_PLAYERS as int, result),
    {
        self.start_with(requester, MIN_PLAYERS)
    }

    /// Starts a game of one to five players, for trying the room out alone;
    /// see `start_outcome`.
    pub fn start_debug_game(&mut self, requester: &PeerId) -> (result: Result<(), RoomError>)
        requires
            old(self).wf(),
        ensures
            final(self).wf(),
            final(self).room_id() == old(self).room_id(),
            final(self).session() == old(self).session(),
            start_outcome(*old(self), *final(self), *requester, 1, result),
    {
        self.start_with(requester, 1)
    }

    /// Applies a command of the game; see `submit_outcome`.
    pub fn submit_command(&mut self, requester: &PeerId, command: Command) -> (result: Result<GameEvent, RoomError>)
        requires
            old(self).wf(),
            old(self).game_view() matches Some(g) ==> g.events@.len() + 3 < u64::MAX,
        ensures
            final(self).wf(),
            final(self).room_id() == old(self).room_id(),
            final(self).session() == old(self).session(),
            submit_outcome(*old(self), *final(self), *requester, command, result),
    {
        self.ensure_active_host(requester)?;
        let mut game = match self.game.take() {
            Some(game) => game,
            None => return Err(RoomError::GameNotStarted),
        };
        let applied = game.apply_command(command);
        self.game = Some(game);
        match applied {
            Ok(event) => {
                self.pending_critical_sequences.push(event.sequence);
                self.replicate_to_standby();
                Ok(event)
            },
            Err(error) => Err(RoomError::Gameplay(debug_game_error(&error))),
        }
    }

    /// What everyone may see of the game, once there is one.
    pub fn public_game_state(&self) -> (state: Option<PublicGameState>)
        requires
            self.wf(),
        ensures
            match self.game_view() {
                Some(g) => state matches Some(s) && public_view(g, s),
                None => state is None,
            },
    {
        match &self.game {
            Some(game) => Some(game.public_state()),
            None => None,
        }
    }

    /// A copy of the members, in peer-id order.
    pub fn members(&self) -> (members: Vec<Member>)
        ensures
            members@ == self.roster(),
    {
        let mut copy: Vec<Member> = Vec::new();
        let mut i: usize = 0;
        while i < self.members.len()
            invariant
                i <= self.members@.len(),
                copy@ == self.members@.take(i as int),
            decreases self.members@.len() - i,
        {
            copy.push(copy_member(&self.members[i]));
            i += 1;
            proof {
                assert(copy@ =~= self.members@.take(i as int));
            }
        }
        proof {
            assert(self.members@.take(i as int) =~= self.members@);
        }
        copy
    }

    /// What the members show each other, in peer-id order.
    pub fn member_infos(&self) -> (infos: Vec<MemberInfo>)
        ensures
            infos@ == self.roster().map_values(|m: Member| info_of(m)),
    {
        let mut infos: Vec<MemberInfo> = Vec::new();
        let mut i: usize = 0;
        while i < self.members.len()
            invariant
                i <= self.members@.len(),
                infos@ == self.members@.take(i as int).map_values(|m: Member| info_of(m)),
            decreases self.members@.len() - i,
        {
            infos.push(self.members[i].info());
            i += 1;
            proof {
                assert(infos@ =~= self.members@.take(i as int).map_values(|m: Member| info_of(m)));
            }
        }
        proof {
            assert(self.members@.take(i as int) =~= self.members@);
        }
        infos
    }

    pub fn status(&self) -> (status: &RoomStatus)
        ensures
            *status == self.status_view(),
    {
        &self.status
    }

    /// The first connected active host.
    pub fn active_host(&self) -> (host: Option<&Member>)
        ensures
            match (host, host_with(self.roster(), HostRole::Active)) {
                (Some(m), Some(h)) => *m == h,
                (None, None) => true,
                _ => false,
            },
    {
        match find_host(&self.members, HostRole::Active) {
            Some(i) => Some(&self.members[i]),
            None => None,
        }
    }

    /// The first connected standby host.
    pub fn standby_host(&self) -> (host: Option<&Member>)
        ensures
            match (host, host_with(self.roster(), HostRole::Standby)) {
                (Some(m), Some(h)) => *m == h,
                (None, None) => true,
                _ => false,
            },
    {
        match find_host(&self.members, HostRole::Standby) {
            Some(i) => Some(&self.members[i]),
            None => None,
        }
    }

    /// What the standby needs to take over: the members, a copy of the game,
    /// its next event number and the remembered event numbers.
    pub fn replicated_state(&self) -> (state: ReplicatedState)
        requires
            self.wf(),
        ensures
            state.members@ == self.roster(),
            match (state.game, self.game_view()) {
                (Some(copy), Some(g)) => same_game(copy, g) && copy.wf(),
                (None, None) => true,
                _ => false,
            },
            state.event_sequence == sequence_of(self.game_view()),
            state.pending_critical_sequences@ == self.critical(),
    {
        let mut pending: Vec<u64> = Vec::new();
        let mut i: usize = 0;
        while i < self.pending_critical_sequences.len()
            invariant
                i <= self.pending_critical_sequences@.len(),
                pending@ == self.pending_critical_sequences@.take(i as int),
            decreases self.pending_critical_sequences@.len() - i,
        {
            pending.push(self.pending_critical_sequences[i]);
            i += 1;
            proof {
                assert(pending@ =~= self.pending_critical_sequences@.take(i as int));
            }
        }
        proof {
            assert(self.pending_critical_sequences@.take(i as int) =~= self.pending_critical_sequences@);
        }
        ReplicatedState {
            members: self.members(),
            game: match &self.game {
                Some(game) => Some(game.duplicate()),
                None => None,
            },
            event_sequence: self.event_sequence(),
            pending_critical_sequences: pending,
        }
    }

    /// Takes over a replicated state: its members gathered by peer id, its
    /// game and its remembered event numbers; the status stays.
    pub fn apply_replicated_state(&mut self, state: ReplicatedState)
        requires
            old(self).wf(),
            state.game matches Some(g) ==> g.wf(),
        ensures
            final(self).wf(),
            final(self).room_id() == old(self).room_id(),
            final(self).session() == old(self).session(),
            final(self).status_view() == old(self).status_view(),
            final(self).roster() == collected(state.members@),
            final(self).game_view() == state.game,
            final(self).critical() == state.pending_critical_sequences@,
    {
        let ReplicatedState { members, game, event_sequence: _, pending_critical_sequences } = state;
        let mut gathered: Vec<Member> = Vec::new();
        let mut i: usize = 0;
        while i < members.len()
            invariant
                i <= members@.len(),
                gathered@ == collected(members@.take(i as int)),
                ordered(gathered@),
            decreases members@.len() - i,
        {
            proof {
                assert(members@.take(i + 1).drop_last() =~= members@.take(i as int));
            }
            place(&mut gathered, copy_member(&members[i]));
            i += 1;
        }
        proof {
            assert(members@.take(i as int) =~= members@);
        }
        self.members = gathered;
        self.game = game;
        self.pending_critical_sequences = pending_critical_sequences;
    }
}

// ===== laws =====

proof fn lemma_slot_after_all(members: Seq<Member>, peer: Seq<char>)
    requires
        forall|j: int| 0 <= j < members.len() ==> text_less((#[trigger] members[j]).peer_id.0@, peer),
    ensures
        slot(members, peer) == members.len(),
    decreases members.len(),
{
    if members.len() > 0 {
        assert(text_less(members[0].peer_id.0@, peer));
        assert forall|j: int| 0 <= j < members.drop_first().len() implies text_less(
            (#[trigger] members.drop_first()[j]).peer_id.0@,
            peer,
        ) by {
            assert(members.drop_first()[j] == members[j + 1]);
        }
        lemma_slot_after_all(members.drop_first(), peer);
    }
}

proof fn lemma_slot_bounds(members: Seq<Member>, peer: Seq<char>)
    ensures
        0 <= slot(members, peer) <= members.len(),
    decreases members.len(),
{
    if members.len() > 0 {
        lemma_slot_bounds(members.drop_first(), peer);
    }
}

/// Gathering an ordered member list by peer id gives the list back: a room
/// that takes over another's replicated members has the same members.
pub proof fn law_replicated_members_round_trip(members: Seq<Member>)
    requires
        ordered(members),
    ensures
        collected(members) == members,
    decreases members.len(),
{
    if members.len() > 0 {
        let rest = members.drop_last();
        let last = members.last();
        assert(ordered(rest));
        law_replicated_members_round_trip(rest);
        assert forall|j: int| 0 <= j < rest.len() implies text_less((#[trigger] rest[j]).peer_id.0@, last.peer_id.0@) by {
            assert(text_less(members[j].peer_id.0@, members[members.len() - 1].peer_id.0@));
        }
        lemma_slot_after_all(rest, last.peer_id.0@);
        assert(rest.insert(rest.len() as int, last) =~= members);
    }
}

/// A peer that joins is a member afterwards.
pub proof fn law_join_admits(members: Seq<Member>, peer_id: PeerId, name: String, sequence: u64)
    requires
        ordered(members),
        peer_index(members, peer_id.0@) == -1,
    ensures
        peer_index(with_standby(placed(members, newcomer(peer_id, name, sequence)), sequence), peer_id.0@) != -1,
{
    let m = newcomer(peer_id, name, sequence);
    let i = slot(members, peer_id.0@);
    lemma_slot_bounds(members, peer_id.0@);
    let p = placed(members, m);
    if i < members.len() && members[i].peer_id.0@ == peer_id.0@ {
        assert(members[i].peer_id.0@ == peer_id.0@);
    }
    assert(p[i] == m);
    let after = with_standby(p, sequence);
    assert(after[i].peer_id == m.peer_id);
    assert(after[i].peer_id.0@ == peer_id.0@);
}

/// When the active host's role passes on, the standby that could take over
/// is the room's active host afterwards.
pub proof fn law_promotion_hands_over(members: Seq<Member>, sequence: u64)
    requires
        ordered(members),
        promoted(members, sequence) is Some,
    ensures
        host_with(promoted(members, sequence).unwrap(), HostRole::Active) matches Some(host) && host.peer_id
            == members[first_where(members, ready_standby(sequence))].peer_id,
{
    let s = first_where(members, ready_standby(sequence));
    assert(s != -1);
    let k = choose|k: int| is_first(members, ready_standby(sequence), k);
    assert(is_first(members, ready_standby(sequence), k));
    lemma_first_where(members, ready_standby(sequence), k);
    let new_host = members[s].peer_id.0@;
    let mid = members.map_values(|m: Member| handed_over(m, new_host));
    assert(mid[s].role == HostRole::Active && mid[s].connected);
    assert forall|j: int| 0 <= j < mid.len() && j != s implies !(#[trigger] hosting(HostRole::Active)(mid[j])) by {
        if members[j].peer_id.0@ == new_host {
            lemma_peer_index(members, j);
            lemma_peer_index(members, s);
        }
    }
    lemma_first_where(mid, hosting(HostRole::Active), s);
    let after = with_standby(mid, sequence);
    if host_with(mid, HostRole::Standby) is None {
        let c = first_where(mid, standby_candidate(active_peer(mid)));
        if c != -1 {
            let c2 = choose|c2: int| is_first(mid, standby_candidate(active_peer(mid)), c2);
            assert(is_first(mid, standby_candidate(active_peer(mid)), c2));
            lemma_first_where(mid, standby_candidate(active_peer(mid)), c2);
            assert(c != s);
        }
    }
    assert(after[s] == mid[s] || after[s].role == HostRole::Active);
    assert forall|j: int| 0 <= j < s implies !(#[trigger] hosting(HostRole::Active)(after[j])) by {
        assert(!hosting(HostRole::Active)(mid[j]));
    }
    assert(hosting(HostRole::Active)(after[s]));
    lemma_first_where(after, hosting(HostRole::Active), s);
}


/// Whether a member is still connected.
pub open spec fn is_connected() -> spec_fn(Member) -> bool {
    |m: Member| m.connected
}

proof fn lemma_seated_connected(members: Seq<Member>)
    ensures
        seated(members).len() == members.filter(is_connected()).len(),
        forall|k: int|
            0 <= k < seated(members).len() ==> (#[trigger] seated(members)[k]).0 == members.filter(is_connected())[k].player_id
                && seated(members)[k].1 == members.filter(is_connected())[k].name,
    decreases members.len(),
{
    reveal_with_fuel(Seq::filter, 1);
    if members.len() > 0 {
        lemma_seated_connected(members.drop_last());
    } else {
        assert(members.filter(is_connected()) =~= Seq::<Member>::empty());
    }
}

/// A game that `start_game` starts seats exactly the connected members, in
/// member order: one seat per connected member, with its player id and name;
/// members who left are not dealt in.
pub proof fn law_start_seats_connected_members(
    before: Room,
    after: Room,
    requester: PeerId,
    min: int,
    result: Result<(), RoomError>,
)
    requires
        start_outcome(before, after, requester, min, result),
        result is Ok,
    ensures
        after.game_view() matches Some(g) && g.players@.len() == before.roster().filter(is_connected()).len()
            && forall|k: int|
            0 <= k < g.players@.len() ==> {
                let m = before.roster().filter(is_connected())[k];
                &&& m.connected
                &&& (#[trigger] g.players@[k]).id == m.player_id
                &&& g.players@[k].name == m.name
            },
{
    lemma_seated_connected(before.roster());
    broadcast use vstd::seq_lib::group_filter_ensures;
    let g = after.game_view()->Some_0;
    let connected = before.roster().filter(is_connected());
    assert forall|k: int| 0 <= k < g.players@.len() implies connected[k].connected by {
        assert((is_connected())(connected[k]));
    }
}

} // verus!
