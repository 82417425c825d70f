//! The command line's logic: its options, and what each line typed in a
//! room's interactive session does to the room. Reading the terminal and
//! printing stay with the caller.

use vstd::prelude::*;
use crate::text::{chars_equal, chars_of, parse_decimal, parsed_u64, push_str, split_words, words_of};
use crate::uno_core::{Card, Color, Command, GameError, GameEvent, PlayerId, PublicGameState, Rank, color_parsed};
use crate::uno_core::public_view;
use crate::uno_protocol::{HostRole, PeerId, parse_socket_address, socket_address};
use crate::uno_room::{
    Room, RoomError, debug_game_error, debug_room_error, game_error_debug, host_with, ready_outcome, room_error_debug,
    start_outcome, submit_outcome,
};

verus! {

/// Whether `text` spells exactly `literal`.
fn is_text(text: &String, literal: &str) -> (same: bool)
    ensures
        same == (text@ == literal@),
{
    let chars = chars_of(text.as_str());
    chars_equal(chars.as_slice(), literal)
}

fn copy_text(text: &String) -> (copy: String)
    ensures
        copy == *text,
{
    text.clone()
}

/// The texts of a list of strings.
pub open spec fn texts(args: Seq<String>) -> Seq<Seq<char>> {
    args.map_values(|s: String| s@)
}

/// An optional text by its characters.
pub open spec fn opt_text(text: Option<String>) -> Option<Seq<char>> {
    match text {
        Some(s) => Some(s@),
        None => None,
    }
}

// ===== ranks =====

/// The rank a word names: `skip`, `reverse`, `draw-two` or `draw2`, `wild`,
/// `wild-draw-four` or `wild4`, or a number from 0 to 255 as `u8` reads it.
pub open spec fn rank_named(text: Seq<char>) -> Option<Rank> {
    if text == "skip"@ {
        Some(Rank::Skip)
    } else if text == "reverse"@ {
        Some(Rank::Reverse)
    } else if text == "draw-two"@ || text == "draw2"@ {
        Some(Rank::DrawTwo)
    } else if text == "wild"@ {
        Some(Rank::Wild)
    } else if text == "wild-draw-four"@ || text == "wild4"@ {
        Some(Rank::WildDrawFour)
    } else {
        match parsed_u64(text) {
            Some(n) => if n <= 255 {
                Some(Rank::Number(n as u8))
            } else {
                None
            },
            None => None,
        }
    }
}

/// Reads a rank; see `rank_named`. Anything else is refused with
/// `invalid rank '…'`.
pub fn parse_rank(value: &str) -> (result: Result<Rank, String>)
    ensures
        match rank_named(value@) {
            Some(rank) => result == Ok::<Rank, String>(rank),
            None => result matches Err(e) && e@ == "invalid rank '"@ + value@ + "'"@,
        },
{
    let chars = chars_of(value);
    let c = chars.as_slice();
    if chars_equal(c, "skip") {
        Ok(Rank::Skip)
    } else if chars_equal(c, "reverse") {
        Ok(Rank::Reverse)
    } else if chars_equal(c, "draw-two") || chars_equal(c, "draw2") {
        Ok(Rank::DrawTwo)
    } else if chars_equal(c, "wild") {
        Ok(Rank::Wild)
    } else if chars_equal(c, "wild-draw-four") || chars_equal(c, "wild4") {
        Ok(Rank::WildDrawFour)
    } else {
        match parse_decimal(c) {
            Some(n) => {
                if n <= 255 {
                    return Ok(Rank::Number(n as u8));
                }
            },
            None => {},
        }
        let mut message = String::new();
        push_str(&mut message, "invalid rank '");
        push_str(&mut message, value);
        push_str(&mut message, "'");
        Err(message)
    }
}

/// How to write a play, with the player's id first in a debug room.
pub open spec fn usage(debug: bool) -> Seq<char> {
    if debug {
        "usage: play <player> <color> <rank>"@
    } else {
        "usage: play <color> <rank>"@
    }
}

pub fn play_usage(debug: bool) -> (text: String)
    ensures
        text@ == usage(debug),
{
    if debug {
        "usage: play <player> <color> <rank>".to_owned()
    } else {
        "usage: play <color> <rank>".to_owned()
    }
}

// ===== options =====

/// Options of `uno join`: the share string first, then `--name NAME` and
/// `--peer PEER`.
#[derive(Debug)]
pub struct JoinOptions {
    pub share: String,
    pub name: String,
    pub peer: Option<String>,
}

/// The name and peer that the options from `index` on choose, starting from
/// `name` and `peer`; or the message of the first bad option.
pub open spec fn join_scan(args: Seq<Seq<char>>, index: int, name: Seq<char>, peer: Option<Seq<char>>) -> Result<
    (Seq<char>, Option<Seq<char>>),
    Seq<char>,
>
    decreases args.len() - index,
{
    if index < 0 || index >= args.len() {
        Ok((name, peer))
    } else if args[index] == "--name"@ {
        if index + 1 >= args.len() {
            Err("--name requires a value"@)
        } else {
            join_scan(args, index + 2, args[index + 1], peer)
        }
    } else if args[index] == "--peer"@ {
        if index + 1 >= args.len() {
            Err("--peer requires a value"@)
        } else {
            join_scan(args, index + 2, name, Some(args[index + 1]))
        }
    } else {
        Err("unknown join option '"@ + args[index] + "'"@)
    }
}

impl JoinOptions {
    /// Reads the options of `uno join`; see `join_scan`. The name is
    /// `Player` unless given.
    pub fn parse(args: &[String]) -> (result: Result<JoinOptions, String>)
        ensures
            if args@.len() == 0 {
                result matches Err(e) && e@ == "join requires a share string"@
            } else {
                match join_scan(texts(args@), 1, "Player"@, None) {
                    Ok((name, peer)) => result matches Ok(options) && options.share == args@[0] && options.name@ == name
                        && opt_text(options.peer) == peer,
                    Err(message) => result matches Err(e) && e@ == message,
                }
            },
    {
        if args.len() == 0 {
            return Err("join requires a share string".to_owned());
        }
        let ghost all = texts(args@);
        let mut options = JoinOptions { share: copy_text(&args[0]), name: "Player".to_owned(), peer: None };
        let mut index: usize = 1;
        while index < args.len()
            invariant
                1 <= index,
                all == texts(args@),
                options.share == args@[0],
                join_scan(all, 1, "Player"@, None) == join_scan(all, index as int, options.name@, opt_text(options.peer)),
            decreases args@.len() - index,
        {
            if is_text(&args[index], "--name") {
                if index + 1 >= args.len() {
                    return Err("--name requires a value".to_owned());
                }
                options.name = copy_text(&args[index + 1]);
                index += 2;
            } else if is_text(&args[index], "--peer") {
                if index + 1 >= args.len() {
                    return Err("--peer requires a value".to_owned());
                }
                options.peer = Some(copy_text(&args[index + 1]));
                index += 2;
            } else {
                let mut message = String::new();
                push_str(&mut message, "unknown join option '");
                push_str(&mut message, args[index].as_str());
                push_str(&mut message, "'");
                return Err(message);
            }
        }
        Ok(options)
    }
}

/// Options of `uno host`.
#[derive(Debug)]
pub struct HostOptions {
    pub name: String,
    pub port: u16,
    pub room: Option<String>,
    pub peer: Option<String>,
    pub stun_servers: Vec<String>,
    pub no_stun: bool,
    pub forwarded: Option<String>,
    pub debug: bool,
}

/// The host options as plain values.
pub struct HostChoices {
    pub name: Seq<char>,
    pub port: u16,
    pub room: Option<Seq<char>>,
    pub peer: Option<Seq<char>>,
    pub stun_servers: Seq<Seq<char>>,
    pub no_stun: bool,
    pub forwarded: Option<Seq<char>>,
    pub debug: bool,
}

impl View for HostOptions {
    type V = HostChoices;

    open spec fn view(&self) -> HostChoices {
        HostChoices {
            name: self.name@,
            port: self.port,
            room: opt_text(self.room),
            peer: opt_text(self.peer),
            stun_servers: texts(self.stun_servers@),
            no_stun: self.no_stun,
            forwarded: opt_text(self.forwarded),
            debug: self.debug,
        }
    }
}

/// The host options before any is read: the name `Host`, any port, the two
/// default STUN servers, STUN on, nothing forwarded, no debug.
pub open spec fn host_defaults() -> HostChoices {
    HostChoices {
        name: "Host"@,
        port: 0,
        room: None,
        peer: None,
        stun_servers: seq!["stun.l.google.com:19302"@, "stun1.l.google.com:19302"@],
        no_stun: false,
        forwarded: None,
        debug: false,
    }
}

/// The host options that the arguments from `index` on choose, starting from
/// `acc`; or the message of the first bad option. `--stun` adds a server,
/// the port is a `u16` as it reads, and a forwarded endpoint must be a socket
/// address (kept in its printed form).
pub open spec fn host_scan(args: Seq<Seq<char>>, index: int, acc: HostChoices) -> Result<HostChoices, Seq<char>>
    decreases args.len() - index,
{
    if index < 0 || index >= args.len() {
        Ok(acc)
    } else {
        let flag = args[index];
        let has_value = index + 1 < args.len();
        let value = args[index + 1];
        if flag == "--name"@ {
            if !has_value {
                Err("--name requires a value"@)
            } else {
                host_scan(args, index + 2, HostChoices { name: value, ..acc })
            }
        } else if flag == "--port"@ {
            if !has_value {
                Err("--port requires a value"@)
            } else if parsed_u64(value) is Some && parsed_u64(value).unwrap() <= 65535 {
                host_scan(args, index + 2, HostChoices { port: parsed_u64(value).unwrap() as u16, ..acc })
            } else {
                Err("invalid port"@)
            }
        } else if flag == "--room"@ {
            if !has_value {
                Err("--room requires a value"@)
            } else {
                host_scan(args, index + 2, HostChoices { room: Some(value), ..acc })
            }
        } else if flag == "--peer"@ {
            if !has_value {
                Err("--peer requires a value"@)
            } else {
                host_scan(args, index + 2, HostChoices { peer: Some(value), ..acc })
            }
        } else if flag == "--stun"@ {
            if !has_value {
                Err("--stun requires a value"@)
            } else {
                host_scan(args, index + 2, HostChoices { stun_servers: acc.stun_servers.push(value), ..acc })
            }
        } else if flag == "--no-stun"@ {
            host_scan(args, index + 1, HostChoices { no_stun: true, ..acc })
        } else if flag == "--debug"@ {
            host_scan(args, index + 1, HostChoices { debug: true, ..acc })
        } else if flag == "--forwarded"@ {
            if !has_value {
                Err("--forwarded requires a value"@)
            } else {
                match socket_address(value) {
                    Some(address) => host_scan(args, index + 2, HostChoices { forwarded: Some(address), ..acc }),
                    None => Err("invalid forwarded endpoint"@),
                }
            }
        } else {
            Err("unknown host option '"@ + flag + "'"@)
        }
    }
}

impl HostOptions {
    /// Reads the options of `uno host`; see `host_scan` and `host_defaults`.
    pub fn parse(args: &[String]) -> (result: Result<HostOptions, String>)
        ensures
            match host_scan(texts(args@), 0, host_defaults()) {
                Ok(choices) => result matches Ok(options) && options@ == choices,
                Err(message) => result matches Err(e) && e@ == message,
            },
    {
        let ghost all = texts(args@);
        let mut servers: Vec<String> = Vec::new();
        servers.push("stun.l.google.com:19302".to_owned());
        servers.push("stun1.l.google.com:19302".to_owned());
        let mut options = HostOptions {
            name: "Host".to_owned(),
            port: 0,
            room: None,
            peer: None,
            stun_servers: servers,
            no_stun: false,
            forwarded: None,
            debug: false,
        };
        proof {
            assert(texts(options.stun_servers@) =~= host_defaults().stun_servers);
            assert(options@ == host_defaults());
        }
        let mut index: usize = 0;
        while index < args.len()
            invariant
                all == texts(args@),
                host_scan(all, 0, host_defaults()) == host_scan(all, index as int, options@),
            decreases args@.len() - index,
        {
            let ghost before = options@;
            let has_value = index + 1 < args.len();
            if is_text(&args[index], "--name") {
                if !has_value {
                    return Err("--name requires a value".to_owned());
                }
                options.name = copy_text(&args[index + 1]);
                index += 2;
            } else if is_text(&args[index], "--port") {
                if !has_value {
                    return Err("--port requires a value".to_owned());
                }
                let value = chars_of(args[index + 1].as_str());
                match parse_decimal(value.as_slice()) {
                    Some(port) => {
                        if port > 65535 {
                            return Err("invalid port".to_owned());
                        }
                        options.port = port as u16;
                    },
                    None => {
                        return Err("invalid port".to_owned());
                    },
                }
                index += 2;
            } else if is_text(&args[index], "--room") {
                if !has_value {
                    return Err("--room requires a value".to_owned());
                }
                options.room = Some(copy_text(&args[index + 1]));
                index += 2;
            } else if is_text(&args[index], "--peer") {
                if !has_value {
                    return Err("--peer requires a value".to_owned());
                }
                options.peer = Some(copy_text(&args[index + 1]));
                index += 2;
            } else if is_text(&args[index], "--stun") {
                if !has_value {
                    return Err("--stun requires a value".to_owned());
                }
                options.stun_servers.push(copy_text(&args[index + 1]));
                proof {
                    assert(texts(options.stun_servers@) =~= before.stun_servers.push(all[index + 1]));
                }
                index += 2;
            } else if is_text(&args[index], "--no-stun") {
                options.no_stun = true;
                index += 1;
            } else if is_text(&args[index], "--debug") {
                options.debug = true;
                index += 1;
            } else if is_text(&args[index], "--forwarded") {
                if !has_value {
                    return Err("--forwarded requires a value".to_owned());
                }
                match parse_socket_address(args[index + 1].as_str()) {
                    Some(address) => {
                        options.forwarded = Some(address);
                    },
                    None => {
                        return Err("invalid forwarded endpoint".to_owned());
                    },
                }
                index += 2;
            } else {
                let mut message = String::new();
                push_str(&mut message, "unknown host option '");
                push_str(&mut message, args[index].as_str());
                push_str(&mut message, "'");
                return Err(message);
            }
        }
        Ok(options)
    }
}

// ===== the interactive session =====

/// What a line typed in a room asks the caller to show.
#[derive(Debug)]
pub enum Reply {
    Nothing,
    Ready,
    GameStarted,
    State(Option<PublicGameState>),
    HandHidden,
    Event(GameEvent),
}

/// A refusal with this text.
pub open spec fn refused<T>(result: Result<T, String>, text: Seq<char>) -> bool {
    result matches Err(e) && e@ == text
}

/// The answer to a room operation that gives no value: `reply` on success,
/// else the room error's text.
pub open spec fn answered(r: Result<(), RoomError>, reply: Reply, result: Result<Reply, String>) -> bool {
    match r {
        Ok(_) => result == Ok::<Reply, String>(reply),
        Err(e) => refused(result, room_error_debug(e)),
    }
}

/// The answer to a submitted command: the event, else the room error's text.
pub open spec fn answered_event(r: Result<GameEvent, RoomError>, result: Result<Reply, String>) -> bool {
    match r {
        Ok(event) => result == Ok::<Reply, String>(Reply::Event(event)),
        Err(e) => refused(result, room_error_debug(e)),
    }
}

/// The card a play names: a wild rank without color, any other rank in the
/// named color.
pub open spec fn named_card(color: Color, rank: Rank) -> Card {
    if rank == Rank::Wild || rank == Rank::WildDrawFour {
        Card { color: None, rank }
    } else {
        Card { color: Some(color), rank }
    }
}

/// What `play` does once the player is known: the color word is read (its
/// refusal is the game error's text), then the rank word, and the active host
/// submits the play, a wild one with the named color chosen.
pub open spec fn play_outcome(
    before: Room,
    after: Room,
    host: PeerId,
    player: PlayerId,
    color_word: Seq<char>,
    rank_word: Seq<char>,
    result: Result<Reply, String>,
) -> bool {
    match color_parsed(color_word) {
        None => after == before && exists|w: String|
            w@ == color_word && refused(result, game_error_debug(GameError::InvalidColor(w))),
        Some(color) => match rank_named(rank_word) {
            None => after == before && refused(result, "invalid rank '"@ + rank_word + "'"@),
            Some(rank) => {
                let card = named_card(color, rank);
                let chosen = if card.color is None {
                    Some(color)
                } else {
                    None
                };
                exists|r: Result<GameEvent, RoomError>|
                    submit_outcome(before, after, host, Command::Play { player, card, chosen_color: chosen }, r)
                        && answered_event(r, result)
            },
        },
    }
}

/// The public game state of a room, shown.
pub open spec fn shows_state(room: Room, result: Result<Reply, String>) -> bool {
    result matches Ok(Reply::State(state)) && match room.game_view() {
        Some(g) => state matches Some(s) && public_view(g, s),
        None => state is None,
    }
}

/// What a line typed in a room does. Its words are read; the room's active
/// host acts: `ready` marks it ready, `start` starts a game (a debug game in
/// a debug session) where the local member is the active host, `state` shows
/// the public game state, `hand` shows nothing yet, `draw` and `pass` submit
/// those commands, `color` submits the named color as the host's choice, and
/// `play` a card (naming the player first in a debug
/// session). A room error comes back as its text; anything else is an invalid
/// command.
pub open spec fn interactive_outcome(
    before: Room,
    after: Room,
    input: Seq<char>,
    local_active_host: bool,
    debug: bool,
    result: Result<Reply, String>,
) -> bool {
    let words = words_of(input);
    match host_with(before.roster(), HostRole::Active) {
        None => after == before && refused(result, "room has no active host"@),
        Some(h) => {
            let host = h.peer_id;
            let host_player = PlayerId(host.0);
            if words.len() == 0 {
                after == before && result == Ok::<Reply, String>(Reply::Nothing)
            } else if words[0] == "ready"@ {
                exists|r: Result<(), RoomError>|
                    ready_outcome(before, after, host, true, r) && after.keeps_game(&before) && after.status_view()
                        == before.status_view() && answered(r, Reply::Ready, result)
            } else if words[0] == "start"@ {
                if !local_active_host {
                    after == before && refused(result, "only the active host can start the local debug room"@)
                } else {
                    exists|r: Result<(), RoomError>|
                        start_outcome(before, after, host, if debug { 1 } else { 2 }, r) && answered(
                            r,
                            Reply::GameStarted,
                            result,
                        )
                }
            } else if words[0] == "state"@ {
                after == before && shows_state(before, result)
            } else if words[0] == "hand"@ {
                after == before && result == Ok::<Reply, String>(Reply::HandHidden)
            } else if words[0] == "draw"@ {
                exists|r: Result<GameEvent, RoomError>|
                    submit_outcome(before, after, host, Command::Draw { player: host_player }, r) && answered_event(
                        r,
                        result,
                    )
            } else if words[0] == "pass"@ {
                exists|r: Result<GameEvent, RoomError>|
                    submit_outcome(before, after, host, Command::Pass { player: host_player }, r) && answered_event(
                        r,
                        result,
                    )
            } else if words[0] == "color"@ {
                if words.len() < 2 {
                    after == before && refused(result, "usage: color <color>"@)
                } else {
                    match color_parsed(words[1]) {
                        None => after == before && exists|w: String|
                            w@ == words[1] && refused(result, game_error_debug(GameError::InvalidColor(w))),
                        Some(color) => exists|r: Result<GameEvent, RoomError>|
                            submit_outcome(before, after, host, Command::ChooseColor { player: host_player, color }, r)
                                && answered_event(r, result),
                    }
                }
            } else if words[0] == "play"@ {
                if (debug && words.len() < 4) || (!debug && words.len() < 3) {
                    after == before && refused(result, usage(debug))
                } else if debug {
                    exists|player: PlayerId|
                        player.0@ == words[1] && play_outcome(before, after, host, player, words[2], words[3], result)
                } else {
                    play_outcome(before, after, host, host_player, words[1], words[2], result)
                }
            } else {
                after == before && refused(result, "invalid command '"@ + words[0] + "'"@)
            }
        },
    }
}

fn refusal_text(e: &RoomError) -> (text: String)
    ensures
        text@ == room_error_debug(*e),
{
    debug_room_error(e)
}

/// Plays a card named by words, for `player`; see `play_outcome`.
fn play_words(room: &mut Room, host: &PeerId, player: PlayerId, color_word: &Vec<char>, rank_word: &Vec<char>) -> (result:
    Result<Reply, String>)
    requires
        old(room).wf(),
        old(room).game_view() matches Some(g) ==> g.events@.len() + 3 < u64::MAX,
    ensures
        final(room).wf(),
        final(room).room_id() == old(room).room_id(),
        final(room).session() == old(room).session(),
        play_outcome(*old(room), *final(room), *host, player, color_word@, rank_word@, result),
{
    let color_text = crate::text::string_of(color_word.as_slice());
    let color = match Color::parse(color_text.as_str()) {
        Ok(color) => color,
        Err(error) => {
            let text = debug_game_error(&error);
            proof {
                let w = error->InvalidColor_0;
                assert(w@ == color_word@ && refused(Err::<Reply, String>(text), game_error_debug(GameError::InvalidColor(w))));
            }
            return Err(text);
        },
    };
    let rank_text = crate::text::string_of(rank_word.as_slice());
    let rank = parse_rank(rank_text.as_str())?;
    let card = if rank == Rank::Wild || rank == Rank::WildDrawFour {
        Card::wild(rank)
    } else {
        Card::new(color, rank)
    };
    let chosen = if card.is_wild() {
        Some(color)
    } else {
        None
    };
    let ghost before = *room;
    let ghost command = Command::Play { player, card, chosen_color: chosen };
    let submitted = room.submit_command(host, Command::Play { player, card, chosen_color: chosen });
    let result = match submitted {
        Ok(event) => Ok(Reply::Event(event)),
        Err(error) => Err(refusal_text(&error)),
    };
    proof {
        assert(card == named_card(color, rank));
        assert(submit_outcome(before, *room, *host, command, submitted) && answered_event(submitted, result));
    }
    result
}

/// Does what a line typed in the room asks; see `interactive_outcome`.
pub fn handle_interactive(room: &mut Room, input: &str, local_active_host: bool, debug: bool) -> (result: Result<
    Reply,
    String,
>)
    requires
        old(room).wf(),
        old(room).game_view() matches Some(g) ==> g.events@.len() + 3 < u64::MAX,
    ensures
        final(room).wf(),
        final(room).room_id() == old(room).room_id(),
        final(room).session() == old(room).session(),
        interactive_outcome(*old(room), *final(room), input@, local_active_host, debug, result),
{
    let host = match room.active_host() {
        Some(member) => PeerId(member.peer_id.0.clone()),
        None => return Err("room has no active host".to_owned()),
    };
    let host_player = PlayerId(host.0.clone());
    let chars = chars_of(input);
    let words = split_words(chars.as_slice());
    if words.len() == 0 {
        return Ok(Reply::Nothing);
    }
    let first = words[0].as_slice();
    let ghost before = *room;
    if chars_equal(first, "ready") {
        let r = room.set_ready(&host, true);
        let result = match r {
            Ok(()) => Ok(Reply::Ready),
            Err(error) => Err(refusal_text(&error)),
        };
        proof {
            assert(ready_outcome(before, *room, host, true, r) && answered(r, Reply::Ready, result));
        }
        result
    } else if chars_equal(first, "start") {
        if !local_active_host {
            return Err("only the active host can start the local debug room".to_owned());
        }
        let r = if debug {
            room.start_debug_game(&host)
        } else {
            room.start_game(&host)
        };
        let result = match r {
            Ok(()) => Ok(Reply::GameStarted),
            Err(error) => Err(refusal_text(&error)),
        };
        proof {
            assert(start_outcome(before, *room, host, if debug { 1 } else { 2 }, r) && answered(
                r,
                Reply::GameStarted,
                result,
            ));
        }
        result
    } else if chars_equal(first, "state") {
        Ok(Reply::State(room.public_game_state()))
    } else if chars_equal(first, "hand") {
        Ok(Reply::HandHidden)
    } else if chars_equal(first, "draw") {
        let ghost command = Command::Draw { player: host_player };
        let r = room.submit_command(&host, Command::Draw { player: host_player });
        let result = match r {
            Ok(event) => Ok(Reply::Event(event)),
            Err(error) => Err(refusal_text(&error)),
        };
        proof {
            assert(submit_outcome(before, *room, host, command, r) && answered_event(r, result));
        }
        result
    } else if chars_equal(first, "pass") {
        let ghost command = Command::Pass { player: host_player };
        let r = room.submit_command(&host, Command::Pass { player: host_player });
        let result = match r {
            Ok(event) => Ok(Reply::Event(event)),
            Err(error) => Err(refusal_text(&error)),
        };
        proof {
            assert(submit_outcome(before, *room, host, command, r) && answered_event(r, result));
        }
        result
    } else if chars_equal(first, "color") {
        if words.len() < 2 {
            return Err("usage: color <color>".to_owned());
        }
        let color_text = crate::text::string_of(words[1].as_slice());
        let color = match Color::parse(color_text.as_str()) {
            Ok(color) => color,
            Err(error) => {
                let text = debug_game_error(&error);
                proof {
                    let w = error->InvalidColor_0;
                    assert(w@ == words_of(input@)[1] && refused(
                        Err::<Reply, String>(text),
                        game_error_debug(GameError::InvalidColor(w)),
                    ));
                }
                return Err(text);
            },
        };
        let ghost command = Command::ChooseColor { player: host_player, color };
        let r = room.submit_command(&host, Command::ChooseColor { player: host_player, color });
        let result = match r {
            Ok(event) => Ok(Reply::Event(event)),
            Err(error) => Err(refusal_text(&error)),
        };
        proof {
            assert(submit_outcome(before, *room, host, command, r) && answered_event(r, result));
        }
        result
    } else if chars_equal(first, "play") {
        if (debug && words.len() < 4) || (!debug && words.len() < 3) {
            return Err(play_usage(debug));
        }
        if debug {
            let player = PlayerId(crate::text::string_of(words[1].as_slice()));
            let ghost named = player;
            let result = play_words(room, &host, player, &words[2], &words[3]);
            proof {
                assert(named.0@ == words_of(input@)[1] && play_outcome(
                    before,
                    *room,
                    host,
                    named,
                    words_of(input@)[2],
                    words_of(input@)[3],
                    result,
                ));
            }
            result
        } else {
            play_words(room, &host, host_player, &words[1], &words[2])
        }
    } else {
        let mut message = String::new();
        push_str(&mut message, "invalid command '");
        let word = crate::text::string_of(first);
        push_str(&mut message, word.as_str());
        push_str(&mut message, "'");
        Err(message)
    }
}

} // verus!
