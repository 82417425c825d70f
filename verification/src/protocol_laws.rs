//! Read-back laws of the wire format: splitting undoes joining; numbers,
//! colors, ranks, cards and commands read back as written; so do command,
//! ping, acknowledgement, join request, join response, readiness and
//! membership messages (with ids free of `|`) and share strings. An event
//! message reads back its room and sequence (its kind comes back as
//! `GameStarted`) on the condition that the kind's debug text holds no `|`;
//! that text is the standard library's and is not stated, so events are not
//! shown to read back unconditionally. Disconnect messages are not covered.

use vstd::prelude::*;
use crate::text::{joined, decimal, decimal_value, digit_char, digit_value, digits_u64, is_digit, parsed_u64, split_on, without_plus, ascii_lower, lower_char};
use crate::uno_core::{Card, Color, Command, EventKind, GameEvent, Rank, color_parsed, color_text};
use crate::uno_protocol::{
    event_kind_debug, socket_address, HostRole, JoinDecision, MemberInfo, Message, member_parsed, member_text, members_parsed, members_text, flag_text, PeerId, RoomId, SessionId, ShareInfo, role_parsed, role_text, share_parsed, share_text, path_and_query, PROTOCOL_VERSION, DEFAULT_TRANSPORT, message_parsed, message_text, sequence_checked, ProtocolError, card_parsed, card_text, command_parsed, command_text, escaped, first_index_of,
    escape_char, law_escaped_has_no_separators, law_unescape_undoes_escape, rank_parsed, rank_text, unescaped,
};

verus! {

proof fn lemma_split_plain(text: Seq<char>, sep: char)
    requires
        forall|i: int| 0 <= i < text.len() ==> text[i] != sep,
    ensures
        split_on(text, sep) == seq![text],
    decreases text.len(),
{
    if text.len() > 0 {
        lemma_split_plain(text.drop_last(), sep);
        assert(text[text.len() - 1] != sep);
        assert(text.drop_last().push(text.last()) =~= text);
        assert(seq![text.drop_last()].update(0, text.drop_last().push(text.last())) =~= seq![text]);
    } else {
        assert(text =~= Seq::<char>::empty());
    }
}

/// Splitting at `sep` the texts `a` and `b` joined by `sep` gives the pieces of
/// `a` followed by the pieces of `b`.
pub proof fn law_split_joined(a: Seq<char>, b: Seq<char>, sep: char)
    ensures
        split_on(a + seq![sep] + b, sep) == split_on(a, sep) + split_on(b, sep),
    decreases b.len(),
{
    let whole = a + seq![sep] + b;
    crate::text::lemma_split_nonempty(a, sep);
    if b.len() == 0 {
        assert(whole.drop_last() =~= a);
        assert(split_on(b, sep) == seq![Seq::<char>::empty()]);
        assert(split_on(whole, sep) =~= split_on(a, sep) + split_on(b, sep));
    } else {
        law_split_joined(a, b.drop_last(), sep);
        assert(whole.drop_last() =~= a + seq![sep] + b.drop_last());
        assert(whole.last() == b.last());
        crate::text::lemma_split_nonempty(b.drop_last(), sep);
        let left = split_on(a, sep);
        let init = split_on(b.drop_last(), sep);
        if b.last() == sep {
            assert(split_on(whole, sep) =~= left + init.push(Seq::<char>::empty()));
        } else {
            assert((left + init).update((left + init).len() - 1, (left + init).last().push(b.last())) =~= left
                + init.update(init.len() - 1, init.last().push(b.last())));
        }
    }
}

proof fn lemma_digit_value(d: nat)
    requires
        d < 10,
    ensures
        digit_value(digit_char(d)) == d,
        is_digit(digit_char(d)),
{
    assert(('0' as u32) == 48);
    assert(('9' as u32) == 57);
    if d == 0 {
        assert(('0' as u32) == 48);
    } else if d == 1 {
        assert(('1' as u32) == 49);
    } else if d == 2 {
        assert(('2' as u32) == 50);
    } else if d == 3 {
        assert(('3' as u32) == 51);
    } else if d == 4 {
        assert(('4' as u32) == 52);
    } else if d == 5 {
        assert(('5' as u32) == 53);
    } else if d == 6 {
        assert(('6' as u32) == 54);
    } else if d == 7 {
        assert(('7' as u32) == 55);
    } else if d == 8 {
        assert(('8' as u32) == 56);
    } else {
        assert(('9' as u32) == 57);
    }
}

proof fn lemma_decimal_reads_back(n: nat)
    ensures
        decimal(n).len() > 0,
        forall|i: int| 0 <= i < decimal(n).len() ==> is_digit(#[trigger] decimal(n)[i]),
        decimal_value(decimal(n)) == n,
    decreases n,
{
    if n >= 10 {
        lemma_decimal_reads_back(n / 10);
        let d = (n % 10) as nat;
        let head = decimal(n / 10);
        assert(decimal(n) == head.push(digit_char(d)));
        lemma_digit_value(d);
        assert(decimal(n).drop_last() =~= head);
        assert(decimal(n).last() == digit_char(d));
        assert(decimal_value(decimal(n)) == decimal_value(head) * 10 + digit_value(digit_char(d)));
        assert((n / 10) * 10 + d == n);
        assert forall|i: int| 0 <= i < decimal(n).len() implies is_digit(#[trigger] decimal(n)[i]) by {
            if i < head.len() {
                assert(decimal(n)[i] == head[i]);
            }
        }
    } else {
        lemma_digit_value(n);
        assert(decimal(n).drop_last() =~= Seq::<char>::empty());
        assert(decimal(n).last() == digit_char(n));
        assert(decimal_value(Seq::<char>::empty()) == 0);
        assert(decimal_value(decimal(n)) == decimal_value(decimal(n).drop_last()) * 10 + digit_value(digit_char(n)));
    }
}

/// A number written in decimal reads back as itself.
pub proof fn law_decimal_round_trip(n: u64)
    ensures
        parsed_u64(decimal(n as nat)) == Some(n),
{
    lemma_decimal_reads_back(n as nat);
    assert(decimal(n as nat)[0] != '+') by {
        assert(is_digit(decimal(n as nat)[0]));
    }
    assert(without_plus(decimal(n as nat)) == decimal(n as nat));
}

/// A color's name reads back as the color.
pub proof fn law_color_round_trip(color: Color)
    ensures
        color_parsed(color_text(color)) == Some(color),
        color_text(color) != "wild"@,
        color_text(color) != "-"@,
        forall|i: int| 0 <= i < color_text(color).len() ==> #[trigger] color_text(color)[i] != '-' && color_text(
            color,
        )[i] != ':',
{
    reveal_strlit("red");
    reveal_strlit("r");
    reveal_strlit("yellow");
    reveal_strlit("y");
    reveal_strlit("green");
    reveal_strlit("g");
    reveal_strlit("blue");
    reveal_strlit("b");
    reveal_strlit("wild");
    reveal_strlit("wild-");
    reveal_strlit("-");
    reveal_strlit("skip");
    reveal_strlit("reverse");
    reveal_strlit("draw-two");
    reveal_strlit("wild-draw-four");
    let t = color_text(color);
    assert(ascii_lower(t) =~= t);
    assert(t[0] != 'w');
    assert("wild"@[0] == 'w');
}

/// A rank's text reads back as the rank.
pub proof fn law_rank_round_trip(rank: Rank)
    ensures
        rank_parsed(rank_text(rank)) == Some(rank),
        forall|i: int| 0 <= i < rank_text(rank).len() ==> #[trigger] rank_text(rank)[i] != ':',
{
    reveal_strlit("red");
    reveal_strlit("r");
    reveal_strlit("yellow");
    reveal_strlit("y");
    reveal_strlit("green");
    reveal_strlit("g");
    reveal_strlit("blue");
    reveal_strlit("b");
    reveal_strlit("wild");
    reveal_strlit("wild-");
    reveal_strlit("-");
    reveal_strlit("skip");
    reveal_strlit("reverse");
    reveal_strlit("draw-two");
    reveal_strlit("wild-draw-four");
    match rank {
        Rank::Number(n) => {
            law_decimal_round_trip(n as u64);
            lemma_decimal_reads_back(n as nat);
            let t = decimal(n as nat);
            assert(is_digit(t[0]));
            assert(t != "skip"@ && t != "reverse"@ && t != "draw-two"@ && t != "wild"@ && t != "wild-draw-four"@) by {
                assert("skip"@[0] == 's');
                assert("reverse"@[0] == 'r');
                assert("draw-two"@[0] == 'd');
                assert("wild"@[0] == 'w');
                assert("wild-draw-four"@[0] == 'w');
            }
            assert forall|i: int| 0 <= i < t.len() implies #[trigger] t[i] != ':' by {
                assert(is_digit(t[i]));
            }
        },
        _ => {},
    }
}

/// A card's text reads back as the card.
pub proof fn law_card_round_trip(card: Card, result: Result<Card, ProtocolError>)
    requires
        card_parsed(card_text(card), result),
    ensures
        result == Ok::<Card, ProtocolError>(card),
{
    reveal_strlit("red");
    reveal_strlit("r");
    reveal_strlit("yellow");
    reveal_strlit("y");
    reveal_strlit("green");
    reveal_strlit("g");
    reveal_strlit("blue");
    reveal_strlit("b");
    reveal_strlit("wild");
    reveal_strlit("wild-");
    reveal_strlit("-");
    reveal_strlit("skip");
    reveal_strlit("reverse");
    reveal_strlit("draw-two");
    reveal_strlit("wild-draw-four");
    law_rank_round_trip(card.rank);
    let word = match card.color {
        Some(c) => color_text(c),
        None => "wild"@,
    };
    match card.color {
        Some(c) => law_color_round_trip(c),
        None => {},
    }
    let text = card_text(card);
    assert(text == word + "-"@ + rank_text(card.rank));
    let at = word.len() as int;
    assert(text[at] == '-');
    assert forall|k: int| 0 <= k < at implies text[k] != '-' by {
        assert(text[k] == word[k]);
    }
    assert(first_index_of(text, '-', at));
    let i = choose|i: int| #[trigger] first_index_of(text, '-', i) && {
        let color = text.take(i);
        let rank = text.skip(i + 1);
        match rank_parsed(rank) {
            None => result matches Err(e) && crate::uno_protocol::invalid_message(e, "invalid rank "@ + rank),
            Some(r) => if color == "wild"@ {
                result == Ok::<Card, ProtocolError>(Card { color: None, rank: r })
            } else {
                match color_parsed(color) {
                    Some(c) => result == Ok::<Card, ProtocolError>(Card { color: Some(c), rank: r }),
                    None => result matches Err(e) && crate::uno_protocol::invalid_message(e, "invalid color "@ + color),
                }
            },
        }
    };
    if i < at {
        assert(text[i] != '-');
    }
    if at < i {
        assert(text[at] != '-');
    }
    assert(i == at);
    assert(text.take(at) =~= word);
    assert(text.skip(at + 1) =~= rank_text(card.rank));
}

/// Two commands that agree but for how their player ids are stored.
pub open spec fn same_command(a: Command, b: Command) -> bool {
    match (a, b) {
        (
            Command::Play { player: p1, card: c1, chosen_color: k1 },
            Command::Play { player: p2, card: c2, chosen_color: k2 },
        ) => p1.0@ == p2.0@ && c1 == c2 && k1 == k2,
        (Command::Draw { player: p1 }, Command::Draw { player: p2 }) => p1.0@ == p2.0@,
        (Command::Pass { player: p1 }, Command::Pass { player: p2 }) => p1.0@ == p2.0@,
        (Command::ChooseColor { player: p1, color: c1 }, Command::ChooseColor { player: p2, color: c2 }) => p1.0@
            == p2.0@ && c1 == c2,
        _ => false,
    }
}

proof fn lemma_play_round_trip(player: crate::uno_core::PlayerId, card: Card, chosen_color: Option<Color>, result: Result<Command, ProtocolError>)
    requires
        command_parsed(command_text(Command::Play { player, card, chosen_color }), result),
    ensures
        result matches Ok(parsed) && same_command(parsed, Command::Play { player, card, chosen_color }),
{
    reveal_strlit("play");
    reveal_strlit("play:");
    reveal_strlit("-");
    reveal_strlit("wild");
    reveal_strlit("wild-");
    reveal_strlit(":");
    let text = command_text(Command::Play { player, card, chosen_color });
    let who = escaped(player.0@);
    let chosen = match chosen_color {
        Some(c) => color_text(c),
        None => "-"@,
    };
    law_escaped_has_no_separators(player.0@);
    law_unescape_undoes_escape(player.0@);
    law_rank_round_trip(card.rank);
    match card.color {
        Some(c) => law_color_round_trip(c),
        None => {},
    }
    match chosen_color {
        Some(c) => law_color_round_trip(c),
        None => {},
    }
    assert(text =~= "play"@ + seq![':'] + (who + seq![':'] + (card_text(card) + seq![':'] + chosen)));
    assert forall|i: int| 0 <= i < card_text(card).len() implies card_text(card)[i] != ':' by {
        match card.color {
            Some(c) => {
                let w = color_text(c);
                if i < w.len() {
                    assert(card_text(card)[i] == w[i]);
                } else if i > w.len() {
                    assert(card_text(card)[i] == rank_text(card.rank)[i - w.len() - 1]);
                }
            },
            None => {
                if i > 4 {
                    assert(card_text(card)[i] == rank_text(card.rank)[i - 5]);
                }
            },
        }
    }
    lemma_split_plain("play"@, ':');
    lemma_split_plain(who, ':');
    lemma_split_plain(card_text(card), ':');
    lemma_split_plain(chosen, ':');
    law_split_joined(card_text(card), chosen, ':');
    law_split_joined(who, card_text(card) + seq![':'] + chosen, ':');
    law_split_joined("play"@, who + seq![':'] + (card_text(card) + seq![':'] + chosen), ':');
    let parts = split_on(text, ':');
    assert(parts =~= seq!["play"@, who, card_text(card), chosen]);
    let card_result = choose|card_result: Result<Card, ProtocolError>|
        #[trigger] card_parsed(parts[2], card_result) && match card_result {
            Err(e) => result == Err::<Command, ProtocolError>(e),
            Ok(cr) => if chosen == "-"@ {
                result matches Ok(Command::Play { player: pl, card: c, chosen_color: None }) && pl.0@
                    == unescaped(parts[1]) && c == cr
            } else {
                match color_parsed(chosen) {
                    None => result matches Err(e) && crate::uno_protocol::invalid_message(
                        e,
                        "invalid color "@ + chosen,
                    ),
                    Some(color) => result matches Ok(
                        Command::Play { player: pl, card: c, chosen_color: Some(cc) },
                    ) && pl.0@ == unescaped(parts[1]) && c == cr && cc == color,
                }
            },
        };
    law_card_round_trip(card, card_result);
    
}

/// A serialized command parses back to the same command.
pub proof fn law_command_round_trip(command: Command, result: Result<Command, ProtocolError>)
    requires
        command_parsed(command_text(command), result),
    ensures
        result matches Ok(parsed) && same_command(parsed, command),
{
    reveal_strlit("red");
    reveal_strlit("r");
    reveal_strlit("yellow");
    reveal_strlit("y");
    reveal_strlit("green");
    reveal_strlit("g");
    reveal_strlit("blue");
    reveal_strlit("b");
    reveal_strlit("wild");
    reveal_strlit("wild-");
    reveal_strlit("-");
    reveal_strlit("skip");
    reveal_strlit("reverse");
    reveal_strlit("draw-two");
    reveal_strlit("wild-draw-four");
    reveal_strlit("play");
    reveal_strlit("draw");
    reveal_strlit("pass");
    reveal_strlit("color");
    reveal_strlit(":");
    reveal_strlit("play:");
    reveal_strlit("draw:");
    reveal_strlit("pass:");
    reveal_strlit("color:");
    let text = command_text(command);
    match command {
        Command::Play { player, card, chosen_color } => {
            lemma_play_round_trip(player, card, chosen_color, result);
        },
        Command::Draw { player } => {
            let who = escaped(player.0@);
            law_escaped_has_no_separators(player.0@);
            law_unescape_undoes_escape(player.0@);
            assert(text =~= "draw"@ + seq![':'] + who);
            lemma_split_plain("draw"@, ':');
            lemma_split_plain(who, ':');
            law_split_joined("draw"@, who, ':');
            assert(split_on(text, ':') =~= seq!["draw"@, who]);
        },
        Command::Pass { player } => {
            let who = escaped(player.0@);
            law_escaped_has_no_separators(player.0@);
            law_unescape_undoes_escape(player.0@);
            assert(text =~= "pass"@ + seq![':'] + who);
            lemma_split_plain("pass"@, ':');
            lemma_split_plain(who, ':');
            law_split_joined("pass"@, who, ':');
            assert(split_on(text, ':') =~= seq!["pass"@, who]);
        },
        Command::ChooseColor { player, color } => {
            let who = escaped(player.0@);
            law_escaped_has_no_separators(player.0@);
            law_unescape_undoes_escape(player.0@);
            law_color_round_trip(color);
            assert(text =~= "color"@ + seq![':'] + (who + seq![':'] + color_text(color)));
            lemma_split_plain("color"@, ':');
            lemma_split_plain(who, ':');
            lemma_split_plain(color_text(color), ':');
            law_split_joined(who, color_text(color), ':');
            law_split_joined("color"@, who + seq![':'] + color_text(color), ':');
            assert(split_on(text, ':') =~= seq!["color"@, who, color_text(color)]);
        },
    }
}


/// Whether `text` holds no `c`.
pub open spec fn free_of(text: Seq<char>, c: char) -> bool {
    forall|i: int| 0 <= i < text.len() ==> text[i] != c
}

proof fn lemma_free_of_joined(a: Seq<char>, b: Seq<char>, c: char)
    requires
        free_of(a, c),
        free_of(b, c),
    ensures
        free_of(a + b, c),
{
    assert forall|i: int| 0 <= i < (a + b).len() implies (a + b)[i] != c by {
        if i < a.len() {
            assert((a + b)[i] == a[i]);
        } else {
            assert((a + b)[i] == b[i - a.len()]);
        }
    }
}

proof fn lemma_card_text_free_of_bar(card: Card)
    ensures
        free_of(card_text(card), '|'),
{
    reveal_strlit("red");
    reveal_strlit("yellow");
    reveal_strlit("green");
    reveal_strlit("blue");
    reveal_strlit("wild-");
    reveal_strlit("-");
    reveal_strlit("skip");
    reveal_strlit("reverse");
    reveal_strlit("draw-two");
    reveal_strlit("wild");
    reveal_strlit("wild-draw-four");
    let rank = rank_text(card.rank);
    match card.rank {
        Rank::Number(n) => {
            lemma_decimal_reads_back(n as nat);
            assert forall|i: int| 0 <= i < rank.len() implies rank[i] != '|' by {
                assert(is_digit(rank[i]));
            }
        },
        _ => {},
    }
    assert(free_of(rank, '|'));
    match card.color {
        Some(c) => {
            assert(free_of(color_text(c), '|'));
            lemma_free_of_joined(color_text(c), "-"@, '|');
            lemma_free_of_joined(color_text(c) + "-"@, rank, '|');
        },
        None => {
            lemma_free_of_joined("wild-"@, rank, '|');
        },
    }
}

proof fn lemma_command_text_free_of_bar(command: Command)
    ensures
        free_of(command_text(command), '|'),
{
    reveal_strlit("play:");
    reveal_strlit("draw:");
    reveal_strlit("pass:");
    reveal_strlit("color:");
    reveal_strlit(":");
    reveal_strlit("-");
    reveal_strlit("red");
    reveal_strlit("yellow");
    reveal_strlit("green");
    reveal_strlit("blue");
    match command {
        Command::Play { player, card, chosen_color } => {
            let who = escaped(player.0@);
            law_escaped_has_no_separators(player.0@);
            assert(free_of(who, '|'));
            lemma_card_text_free_of_bar(card);
            let chosen = match chosen_color {
                Some(c) => color_text(c),
                None => "-"@,
            };
            assert(free_of(chosen, '|'));
            lemma_free_of_joined("play:"@, who, '|');
            lemma_free_of_joined("play:"@ + who, ":"@, '|');
            lemma_free_of_joined("play:"@ + who + ":"@, card_text(card), '|');
            lemma_free_of_joined("play:"@ + who + ":"@ + card_text(card), ":"@, '|');
            lemma_free_of_joined("play:"@ + who + ":"@ + card_text(card) + ":"@, chosen, '|');
        },
        Command::Draw { player } => {
            law_escaped_has_no_separators(player.0@);
            lemma_free_of_joined("draw:"@, escaped(player.0@), '|');
        },
        Command::Pass { player } => {
            law_escaped_has_no_separators(player.0@);
            lemma_free_of_joined("pass:"@, escaped(player.0@), '|');
        },
        Command::ChooseColor { player, color } => {
            let who = escaped(player.0@);
            law_escaped_has_no_separators(player.0@);
            assert(free_of(color_text(color), '|'));
            lemma_free_of_joined("color:"@, who, '|');
            lemma_free_of_joined("color:"@ + who, ":"@, '|');
            lemma_free_of_joined("color:"@ + who + ":"@, color_text(color), '|');
        },
    }
}

proof fn lemma_command_message_text(room_id: RoomId, sequence: u64, command: Command)
    ensures
        message_text(Message::Command { room_id, sequence, command }) == "COMMAND"@ + seq!['|'] + (room_id.0@ + seq![
            '|',
        ] + (decimal(sequence as nat) + seq!['|'] + command_text(command))),
{
    reveal_strlit("COMMAND|");
    reveal_strlit("COMMAND");
    reveal_strlit("|");
    let number = decimal(sequence as nat);
    let ctext = command_text(command);
    let text = message_text(Message::Command { room_id, sequence, command });
    assert(text == "COMMAND|"@ + room_id.0@ + "|"@ + number + "|"@ + ctext);
    assert(text =~= "COMMAND"@ + seq!['|'] + (room_id.0@ + seq!['|'] + (number + seq!['|'] + ctext)));
}

proof fn lemma_command_message_parts(room_id: RoomId, sequence: u64, command: Command)
    requires
        free_of(room_id.0@, '|'),
    ensures
        split_on(message_text(Message::Command { room_id, sequence, command }), '|') == seq![
            "COMMAND"@,
            room_id.0@,
            decimal(sequence as nat),
            command_text(command),
        ],
        parsed_u64(decimal(sequence as nat)) == Some(sequence),
{
    reveal_strlit("COMMAND");
    let number = decimal(sequence as nat);
    lemma_decimal_reads_back(sequence as nat);
    law_decimal_round_trip(sequence);
    assert forall|i: int| 0 <= i < number.len() implies number[i] != '|' by {
        assert(is_digit(number[i]));
    }
    lemma_command_text_free_of_bar(command);
    lemma_command_message_text(room_id, sequence, command);
    lemma_split_four("COMMAND"@, room_id.0@, number, command_text(command), '|');
}

proof fn lemma_split_four(a: Seq<char>, b: Seq<char>, c: Seq<char>, d: Seq<char>, sep: char)
    requires
        free_of(a, sep),
        free_of(b, sep),
        free_of(c, sep),
        free_of(d, sep),
    ensures
        split_on(a + seq![sep] + (b + seq![sep] + (c + seq![sep] + d)), sep) == seq![a, b, c, d],
{
    lemma_split_plain(a, sep);
    lemma_split_plain(b, sep);
    lemma_split_plain(c, sep);
    lemma_split_plain(d, sep);
    law_split_joined(c, d, sep);
    law_split_joined(b, c + seq![sep] + d, sep);
    law_split_joined(a, b + seq![sep] + (c + seq![sep] + d), sep);
    assert(seq![a] + (seq![b] + (seq![c] + seq![d])) =~= seq![a, b, c, d]);
}

/// A command message reads back as the same message, for a room id without
/// the `|` separator (room ids travel unescaped).
#[verifier::rlimit(60)]
pub proof fn law_command_message_round_trip(
    room_id: RoomId,
    sequence: u64,
    command: Command,
    result: Result<Message, ProtocolError>,
)
    requires
        free_of(room_id.0@, '|'),
        message_parsed(message_text(Message::Command { room_id, sequence, command }), result),
    ensures
        result matches Ok(Message::Command { room_id: r, sequence: n, command: c }) && r.0@ == room_id.0@ && n
            == sequence && same_command(c, command),
{
    reveal_strlit("COMMAND");
    reveal_strlit("PING");
    reveal_strlit("ACK");
    reveal_strlit("JOIN");
    reveal_strlit("JOIN_OK");
    reveal_strlit("JOIN_NO");
    reveal_strlit("MEMBERS");
    reveal_strlit("READY");
    lemma_command_message_parts(room_id, sequence, command);
    let text = message_text(Message::Command { room_id, sequence, command });
    let parts = split_on(text, '|');
    let kind = parts[0];
    assert(kind == "COMMAND"@);
    assert(kind[0] == 'C');
    assert("PING"@[0] == 'P' && "ACK"@[0] == 'A' && "JOIN"@[0] == 'J' && "JOIN_OK"@[0] == 'J' && "JOIN_NO"@[0] == 'J'
        && "MEMBERS"@[0] == 'M' && "READY"@[0] == 'R');
    assert(kind != "PING"@ && kind != "ACK"@ && kind != "JOIN"@ && kind != "JOIN_OK"@ && kind != "JOIN_NO"@ && kind
        != "MEMBERS"@ && kind != "READY"@);
    assert(sequence_checked(parts, Ok::<u64, ProtocolError>(sequence)));
    let seq_result = choose|seq_result: Result<u64, ProtocolError>|
        #[trigger] sequence_checked(parts, seq_result) && match seq_result {
            Err(e) => result == Err::<Message, ProtocolError>(e),
            Ok(n) => if parts.len() < 4 {
                result == Err::<Message, ProtocolError>(ProtocolError::MissingField("command"))
            } else {
                exists|cr: Result<Command, ProtocolError>|
                    #[trigger] command_parsed(parts[3], cr) && match cr {
                        Err(e) => result == Err::<Message, ProtocolError>(e),
                        Ok(c) => result matches Ok(Message::Command { room_id: r, sequence: s, command: cc })
                            && r.0@ == parts[1] && s == n && cc == c,
                    }
            },
        };
    assert(seq_result == Ok::<u64, ProtocolError>(sequence));
    let cr = choose|cr: Result<Command, ProtocolError>|
        #[trigger] command_parsed(parts[3], cr) && match cr {
            Err(e) => result == Err::<Message, ProtocolError>(e),
            Ok(c) => result matches Ok(Message::Command { room_id: r, sequence: s, command: cc }) && r.0@ == parts[1]
                && s == sequence && cc == c,
        };
    law_command_round_trip(command, cr);
}


proof fn lemma_escaped_free_of(text: Seq<char>, c: char)
    requires
        free_of(text, c),
        c != '%' && c != '2' && c != '5' && c != '7' && c != 'C' && c != 'F' && c != '3' && c != 'A',
    ensures
        free_of(escaped(text), c),
    decreases text.len(),
{
    if text.len() > 0 {
        lemma_escaped_free_of(text.drop_last(), c);
        assert(text.last() == text[text.len() - 1]);
        lemma_free_of_joined(escaped(text.drop_last()), escape_char(text.last()), c);
    }
}

proof fn lemma_split_seven(parts: Seq<Seq<char>>, sep: char)
    requires
        parts.len() == 7,
        forall|k: int| 0 <= k < 7 ==> free_of(#[trigger] parts[k], sep),
    ensures
        split_on(
            parts[0] + seq![sep] + (parts[1] + seq![sep] + (parts[2] + seq![sep] + (parts[3] + seq![sep] + (
            parts[4] + seq![sep] + (parts[5] + seq![sep] + parts[6]))))),
            sep,
        ) == parts,
{
    let p = parts;
    assert(free_of(p[0], sep) && free_of(p[1], sep) && free_of(p[2], sep) && free_of(p[3], sep));
    assert(free_of(p[4], sep) && free_of(p[5], sep) && free_of(p[6], sep));
    lemma_split_plain(p[0], sep);
    lemma_split_plain(p[1], sep);
    lemma_split_plain(p[2], sep);
    lemma_split_plain(p[3], sep);
    lemma_split_plain(p[4], sep);
    lemma_split_plain(p[5], sep);
    lemma_split_plain(p[6], sep);
    let t5 = p[5] + seq![sep] + p[6];
    let t4 = p[4] + seq![sep] + t5;
    let t3 = p[3] + seq![sep] + t4;
    let t2 = p[2] + seq![sep] + t3;
    let t1 = p[1] + seq![sep] + t2;
    law_split_joined(p[5], p[6], sep);
    law_split_joined(p[4], t5, sep);
    law_split_joined(p[3], t4, sep);
    law_split_joined(p[2], t3, sep);
    law_split_joined(p[1], t2, sep);
    law_split_joined(p[0], t1, sep);
    assert(seq![p[0]] + (seq![p[1]] + (seq![p[2]] + (seq![p[3]] + (seq![p[4]] + (seq![p[5]] + seq![p[6]])))))
        =~= p);
}

/// A share string reads back as the invitation it was written from, for this
/// protocol's version and transport, an endpoint that is a socket address in
/// its printed form (which holds no `/` or `?`) and a room and host without `?`.
#[verifier::rlimit(60)]
pub proof fn law_share_round_trip(share: ShareInfo, result: Result<ShareInfo, ProtocolError>)
    requires
        share.version@ == PROTOCOL_VERSION@,
        share.transport@ == DEFAULT_TRANSPORT@,
        socket_address(share.endpoint@) == Some(share.endpoint@),
        free_of(share.endpoint@, '/'),
        free_of(share.endpoint@, '?'),
        free_of(share.room_id.0@, '?'),
        free_of(share.host_id.0@, '?'),
        share_parsed(share_text(share), result),
    ensures
        result matches Ok(back) && back.version@ == share.version@ && back.transport@ == share.transport@
            && back.endpoint@ == share.endpoint@ && back.room_id.0@ == share.room_id.0@ && back.host_id.0@
            == share.host_id.0@ && back.forwarded == share.forwarded,
{
    reveal_strlit("uno://");
    reveal_strlit("/");
    reveal_strlit("/room/");
    reveal_strlit("/host/");
    reveal_strlit("?forwarded=1");
    reveal_strlit("forwarded=1");
    reveal_strlit("room");
    reveal_strlit("host");
    reveal_strlit("v1");
    reveal_strlit("udp");
    let v = share.version@;
    let t = share.transport@;
    let e = share.endpoint@;
    let r = escaped(share.room_id.0@);
    let h = escaped(share.host_id.0@);
    let q: Seq<char> = if share.forwarded { "?forwarded=1"@ } else { Seq::empty() };
    let parts = seq![v, t, e, "room"@, r, "host"@, h];
    let path = v + seq!['/'] + (t + seq!['/'] + (e + seq!['/'] + ("room"@ + seq!['/'] + (r + seq!['/'] + (
    "host"@ + seq!['/'] + h)))));
    let text = share_text(share);
    assert(text =~= "uno://"@ + (path + q));
    let rest = path + q;
    assert(text.take(6) =~= "uno://"@);
    assert(text.skip(6) =~= rest);
    // the path holds no `?` and no stray `/`
    law_escaped_has_no_separators(share.room_id.0@);
    law_escaped_has_no_separators(share.host_id.0@);
    lemma_escaped_free_of(share.room_id.0@, '?');
    lemma_escaped_free_of(share.host_id.0@, '?');
    assert(free_of(r, '/')) by {
        assert forall|i: int| 0 <= i < r.len() implies r[i] != '/' by {
            assert(escaped(share.room_id.0@)[i] != '/');
        }
    }
    assert(free_of(h, '/')) by {
        assert forall|i: int| 0 <= i < h.len() implies h[i] != '/' by {
            assert(escaped(share.host_id.0@)[i] != '/');
        }
    }
    assert(free_of(v, '/') && free_of(v, '?'));
    assert(free_of(t, '/') && free_of(t, '?'));
    assert(free_of("room"@, '/') && free_of("room"@, '?'));
    assert(free_of("host"@, '/') && free_of("host"@, '?'));
    assert forall|k: int| 0 <= k < 7 implies free_of(#[trigger] parts[k], '/') && free_of(parts[k], '?') by {
        if k == 0 {
            assert(parts[k] == v);
        } else if k == 1 {
            assert(parts[k] == t);
        } else if k == 2 {
            assert(parts[k] == e);
        } else if k == 3 {
            assert(parts[k] == "room"@);
        } else if k == 4 {
            assert(parts[k] == r);
        } else if k == 5 {
            assert(parts[k] == "host"@);
        } else {
            assert(parts[k] == h);
        }
    }
    lemma_split_seven(parts, '/');
    assert(split_on(path, '/') == parts);
    let slash = seq!['/'];
    lemma_free_of_joined("host"@, slash, '?');
    lemma_free_of_joined("host"@ + slash, h, '?');
    lemma_free_of_joined(r, slash, '?');
    lemma_free_of_joined(r + slash, "host"@ + slash + h, '?');
    lemma_free_of_joined("room"@, slash, '?');
    lemma_free_of_joined("room"@ + slash, r + slash + ("host"@ + slash + h), '?');
    lemma_free_of_joined(e, slash, '?');
    lemma_free_of_joined(e + slash, "room"@ + slash + (r + slash + ("host"@ + slash + h)), '?');
    lemma_free_of_joined(t, slash, '?');
    lemma_free_of_joined(t + slash, e + slash + ("room"@ + slash + (r + slash + ("host"@ + slash + h))), '?');
    lemma_free_of_joined(v, slash, '?');
    lemma_free_of_joined(
        v + slash,
        t + slash + (e + slash + ("room"@ + slash + (r + slash + ("host"@ + slash + h)))),
        '?',
    );
    assert(free_of(path, '?'));
    // the query is cut off at the first `?`
    let query: Seq<char> = if share.forwarded { "forwarded=1"@ } else { Seq::empty() };
    if share.forwarded {
        let n = path.len() as int;
        assert(rest[n] == '?');
        assert(first_index_of(rest, '?', n));
        let c = choose|i: int| first_index_of(rest, '?', i);
        if c < n {
            assert(rest[c] == path[c]);
        }
        if n < c {
            assert(rest[n] != '?');
        }
        assert(c == n);
        assert(rest.take(n) =~= path);
        assert(rest.skip(n + 1) =~= query);
        assert(!(forall|i: int| 0 <= i < rest.len() ==> rest[i] != '?'));
    } else {
        assert(rest =~= path);
        assert(query =~= Seq::<char>::empty());
    }
    assert(path_and_query(rest) == (path, query));
    assert(free_of(query, '&'));
    lemma_split_plain(query, '&');
    let qs = split_on(query, '&');
    assert(qs == seq![query]);
    if share.forwarded {
        assert(qs[0] == "forwarded=1"@);
    } else {
        assert forall|k: int| 0 <= k < qs.len() implies #[trigger] qs[k] != "forwarded=1"@ by {
            assert(qs[k].len() == 0);
        }
    }
    law_unescape_undoes_escape(share.room_id.0@);
    law_unescape_undoes_escape(share.host_id.0@);
    let prefix = "uno://"@;
    assert(text.len() >= prefix.len() && text.take(prefix.len() as int) == prefix);
    assert(text.skip(prefix.len() as int) == rest);
    let ps = split_on(path_and_query(text.skip(prefix.len() as int)).0, '/');
    assert(ps == parts);
    assert(ps.len() == 7 && ps[3] == "room"@ && ps[5] == "host"@ && ps[0] == PROTOCOL_VERSION@ && ps[1]
        == DEFAULT_TRANSPORT@);
    assert(split_on(path_and_query(text.skip(prefix.len() as int)).1, '&') == qs);
    assert(share.forwarded == (exists|k: int| 0 <= k < qs.len() && #[trigger] qs[k] == "forwarded=1"@));
}


proof fn lemma_split_five(a: Seq<char>, b: Seq<char>, c: Seq<char>, d: Seq<char>, e: Seq<char>, sep: char)
    requires
        free_of(a, sep),
        free_of(b, sep),
        free_of(c, sep),
        free_of(d, sep),
        free_of(e, sep),
    ensures
        split_on(a + seq![sep] + (b + seq![sep] + (c + seq![sep] + (d + seq![sep] + e))), sep) == seq![a, b, c, d, e],
{
    lemma_split_plain(a, sep);
    lemma_split_four(b, c, d, e, sep);
    law_split_joined(a, b + seq![sep] + (c + seq![sep] + (d + seq![sep] + e)), sep);
    assert(seq![a] + seq![b, c, d, e] =~= seq![a, b, c, d, e]);
}

proof fn lemma_join_accepted(
    room_id: RoomId,
    peer_id: PeerId,
    session_id: SessionId,
    role: HostRole,
    result: Result<Message, ProtocolError>,
)
    requires
        free_of(room_id.0@, '|'),
        free_of(peer_id.0@, '|'),
        free_of(session_id.0@, '|'),
        message_parsed(
            message_text(Message::JoinResponse { room_id, peer_id, decision: JoinDecision::Accepted { session_id, role } }),
            result,
        ),
    ensures
        result matches Ok(Message::JoinResponse { room_id: r, peer_id: p, decision: JoinDecision::Accepted { session_id: s, role: x } })
            && r.0@ == room_id.0@ && p.0@ == peer_id.0@ && s.0@ == session_id.0@ && x == role,
{
    reveal_strlit("PING");
    reveal_strlit("ACK");
    reveal_strlit("JOIN");
    reveal_strlit("JOIN_OK");
    reveal_strlit("JOIN_OK|");
    reveal_strlit("|");
    reveal_strlit("active");
    reveal_strlit("standby");
    reveal_strlit("peer");
    let text = message_text(Message::JoinResponse { room_id, peer_id, decision: JoinDecision::Accepted { session_id, role } });
    let bar = seq!['|'];
    let room = room_id.0@;
    let peer = peer_id.0@;
    let session = session_id.0@;
    let rtext = role_text(role);
    assert(free_of("JOIN_OK"@, '|'));
    assert(free_of(rtext, '|'));
    assert(text =~= "JOIN_OK"@ + bar + (room + bar + (peer + bar + (session + bar + rtext))));
    lemma_split_five("JOIN_OK"@, room, peer, session, rtext, '|');
    let parts = split_on(text, '|');
    let kind = parts[0];
    assert(kind == "JOIN_OK"@);
    assert(kind.len() == 7 && kind[0] == 'J');
    assert(kind != "PING"@ && kind != "ACK"@ && kind != "JOIN"@);
    assert(role_parsed(parts[4], Ok::<HostRole, ProtocolError>(role)));
    let r = choose|r: Result<HostRole, ProtocolError>|
        #[trigger] role_parsed(parts[4], r) && match r {
            Err(e) => result == Err::<Message, ProtocolError>(e),
            Ok(x) => result matches Ok(
                Message::JoinResponse { room_id, peer_id, decision: JoinDecision::Accepted { session_id, role } },
            ) && room_id.0@ == parts[1] && peer_id.0@ == parts[2] && session_id.0@ == parts[3] && role == x,
        };
    assert(r == Ok::<HostRole, ProtocolError>(role));
}

proof fn lemma_join_rejected(room_id: RoomId, peer_id: PeerId, reason: String, result: Result<Message, ProtocolError>)
    requires
        free_of(room_id.0@, '|'),
        free_of(peer_id.0@, '|'),
        message_parsed(message_text(Message::JoinResponse { room_id, peer_id, decision: JoinDecision::Rejected { reason } }), result),
    ensures
        result matches Ok(Message::JoinResponse { room_id: r, peer_id: p, decision: JoinDecision::Rejected { reason: x } })
            && r.0@ == room_id.0@ && p.0@ == peer_id.0@ && x@ == reason@,
{
    reveal_strlit("PING");
    reveal_strlit("ACK");
    reveal_strlit("JOIN");
    reveal_strlit("JOIN_OK");
    reveal_strlit("JOIN_NO");
    reveal_strlit("JOIN_NO|");
    reveal_strlit("|");
    let text = message_text(Message::JoinResponse { room_id, peer_id, decision: JoinDecision::Rejected { reason } });
    let bar = seq!['|'];
    let room = room_id.0@;
    let peer = peer_id.0@;
    let why = escaped(reason@);
    law_escaped_has_no_separators(reason@);
    assert(free_of(why, '|')) by {
        assert forall|i: int| 0 <= i < why.len() implies why[i] != '|' by {
            assert(escaped(reason@)[i] != '|');
        }
    }
    assert(free_of("JOIN_NO"@, '|'));
    assert(text =~= "JOIN_NO"@ + bar + (room + bar + (peer + bar + why)));
    lemma_split_four("JOIN_NO"@, room, peer, why, '|');
    let parts = split_on(text, '|');
    let kind = parts[0];
    assert(kind == "JOIN_NO"@);
    assert(kind.len() == 7 && kind[0] == 'J' && kind[5] == 'N' && "JOIN_OK"@[5] == 'O');
    assert(kind != "PING"@ && kind != "ACK"@ && kind != "JOIN"@ && kind != "JOIN_OK"@);
    law_unescape_undoes_escape(reason@);
}

/// A join response reads back as the same response, for room, peer and
/// session ids without the `|` separator (ids travel unescaped).
pub proof fn law_join_response_round_trip(
    room_id: RoomId,
    peer_id: PeerId,
    decision: JoinDecision,
    result: Result<Message, ProtocolError>,
)
    requires
        free_of(room_id.0@, '|'),
        free_of(peer_id.0@, '|'),
        decision matches JoinDecision::Accepted { session_id, .. } ==> free_of(session_id.0@, '|'),
        message_parsed(message_text(Message::JoinResponse { room_id, peer_id, decision }), result),
    ensures
        result matches Ok(Message::JoinResponse { room_id: r, peer_id: p, decision: d }) && r.0@ == room_id.0@
            && p.0@ == peer_id.0@ && match (d, decision) {
            (
                JoinDecision::Accepted { session_id: s, role: x },
                JoinDecision::Accepted { session_id, role },
            ) => s.0@ == session_id.0@ && x == role,
            (JoinDecision::Rejected { reason: x }, JoinDecision::Rejected { reason }) => x@ == reason@,
            _ => false,
        },
{
    match decision {
        JoinDecision::Accepted { session_id, role } => lemma_join_accepted(room_id, peer_id, session_id, role, result),
        JoinDecision::Rejected { reason } => lemma_join_rejected(room_id, peer_id, reason, result),
    }
}

/// A join request reads back as the same request, for room and peer ids
/// without the `|` separator; the player's name is escaped on the wire.
pub proof fn law_join_request_round_trip(
    room_id: RoomId,
    peer_id: PeerId,
    name: String,
    result: Result<Message, ProtocolError>,
)
    requires
        free_of(room_id.0@, '|'),
        free_of(peer_id.0@, '|'),
        message_parsed(message_text(Message::JoinRequest { room_id, peer_id, name }), result),
    ensures
        result matches Ok(Message::JoinRequest { room_id: r, peer_id: p, name: n }) && r.0@ == room_id.0@ && p.0@
            == peer_id.0@ && n@ == name@,
{
    reveal_strlit("PING");
    reveal_strlit("ACK");
    reveal_strlit("JOIN");
    reveal_strlit("JOIN|");
    reveal_strlit("|");
    let text = message_text(Message::JoinRequest { room_id, peer_id, name });
    let bar = seq!['|'];
    let who = escaped(name@);
    law_escaped_has_no_separators(name@);
    assert(free_of(who, '|')) by {
        assert forall|i: int| 0 <= i < who.len() implies who[i] != '|' by {
            assert(escaped(name@)[i] != '|');
        }
    }
    assert(free_of("JOIN"@, '|'));
    assert(text =~= "JOIN"@ + bar + (room_id.0@ + bar + (peer_id.0@ + bar + who)));
    lemma_split_four("JOIN"@, room_id.0@, peer_id.0@, who, '|');
    let kind = split_on(text, '|')[0];
    assert(kind == "JOIN"@);
    assert(kind.len() == 4 && kind[0] == 'J');
    assert(kind != "PING"@ && kind != "ACK"@);
    law_unescape_undoes_escape(name@);
}

/// A ping or an acknowledgement reads back as the same message, for a session
/// id without the `|` separator.
pub proof fn law_ping_ack_round_trip(message: Message, result: Result<Message, ProtocolError>)
    requires
        message is Ping || message is Ack,
        free_of(
            match message {
                Message::Ping { session_id, .. } => session_id.0@,
                Message::Ack { session_id, .. } => session_id.0@,
                _ => Seq::empty(),
            },
            '|',
        ),
        message_parsed(message_text(message), result),
    ensures
        match (message, result) {
            (Message::Ping { session_id, sequence }, Ok(Message::Ping { session_id: s, sequence: n })) => s.0@
                == session_id.0@ && n == sequence,
            (Message::Ack { session_id, sequence }, Ok(Message::Ack { session_id: s, sequence: n })) => s.0@
                == session_id.0@ && n == sequence,
            _ => false,
        },
{
    reveal_strlit("PING");
    reveal_strlit("ACK");
    reveal_strlit("PING|");
    reveal_strlit("ACK|");
    reveal_strlit("|");
    let bar = seq!['|'];
    let (tag, session, sequence) = match message {
        Message::Ping { session_id, sequence } => ("PING"@, session_id.0@, sequence),
        Message::Ack { session_id, sequence } => ("ACK"@, session_id.0@, sequence),
        _ => (Seq::empty(), Seq::empty(), 0u64),
    };
    let number = decimal(sequence as nat);
    lemma_decimal_reads_back(sequence as nat);
    law_decimal_round_trip(sequence);
    assert(free_of(number, '|')) by {
        assert forall|i: int| 0 <= i < number.len() implies number[i] != '|' by {
            assert(is_digit(number[i]));
        }
    }
    assert(free_of(tag, '|'));
    let text = message_text(message);
    assert(text =~= tag + bar + (session + bar + number));
    lemma_split_plain(tag, '|');
    lemma_split_plain(session, '|');
    lemma_split_plain(number, '|');
    law_split_joined(session, number, '|');
    law_split_joined(tag, session + bar + number, '|');
    let parts = split_on(text, '|');
    assert(parts =~= seq![tag, session, number]);
    assert(sequence_checked(parts, Ok::<u64, ProtocolError>(sequence)));
    let kind = parts[0];
    if message is Ping {
        assert(kind == "PING"@);
    } else {
        assert(kind == "ACK"@ && kind != "PING"@);
    }
    let r = choose|r: Result<u64, ProtocolError>|
        #[trigger] sequence_checked(parts, r) && match r {
            Err(e) => result == Err::<Message, ProtocolError>(e),
            Ok(n) => if kind == "PING"@ {
                result matches Ok(Message::Ping { session_id, sequence }) && session_id.0@ == parts[1] && sequence == n
            } else {
                result matches Ok(Message::Ack { session_id, sequence }) && session_id.0@ == parts[1] && sequence == n
            },
        };
    assert(r == Ok::<u64, ProtocolError>(sequence));
}

/// A readiness message reads back as the same message, for room and peer ids
/// without the `|` separator.
pub proof fn law_ready_round_trip(
    room_id: RoomId,
    peer_id: PeerId,
    ready: bool,
    result: Result<Message, ProtocolError>,
)
    requires
        free_of(room_id.0@, '|'),
        free_of(peer_id.0@, '|'),
        message_parsed(message_text(Message::Ready { room_id, peer_id, ready }), result),
    ensures
        result matches Ok(Message::Ready { room_id: r, peer_id: p, ready: x }) && r.0@ == room_id.0@ && p.0@
            == peer_id.0@ && x == ready,
{
    reveal_strlit("PING");
    reveal_strlit("ACK");
    reveal_strlit("JOIN");
    reveal_strlit("JOIN_OK");
    reveal_strlit("JOIN_NO");
    reveal_strlit("MEMBERS");
    reveal_strlit("READY");
    reveal_strlit("READY|");
    reveal_strlit("|");
    reveal_strlit("1");
    reveal_strlit("0");
    let bar = seq!['|'];
    let flag = crate::uno_protocol::flag_text(ready);
    assert(free_of(flag, '|'));
    assert(free_of("READY"@, '|'));
    let text = message_text(Message::Ready { room_id, peer_id, ready });
    assert(text =~= "READY"@ + bar + (room_id.0@ + bar + (peer_id.0@ + bar + flag)));
    lemma_split_four("READY"@, room_id.0@, peer_id.0@, flag, '|');
    let kind = split_on(text, '|')[0];
    assert(kind == "READY"@);
    assert(kind.len() == 5 && kind[0] == 'R');
    assert(kind != "PING"@ && kind != "ACK"@ && kind != "JOIN"@ && kind != "JOIN_OK"@ && kind != "JOIN_NO"@
        && kind != "MEMBERS"@);
    assert((flag == "1"@) == ready);
}


/// Two members with the same fields, read by their texts.
pub open spec fn same_member(a: MemberInfo, b: MemberInfo) -> bool {
    &&& a.peer_id.0@ == b.peer_id.0@
    &&& a.player_id.0@ == b.player_id.0@
    &&& a.name@ == b.name@
    &&& a.ready == b.ready
    &&& a.connected == b.connected
    &&& a.role == b.role
}

/// Escaped text holds none of the separators `:`, `,` and `|`.
proof fn lemma_escaped_free(text: Seq<char>)
    ensures
        free_of(escaped(text), ':'),
        free_of(escaped(text), ','),
        free_of(escaped(text), '|'),
{
    law_escaped_has_no_separators(text);
    let e = escaped(text);
    assert forall|i: int| 0 <= i < e.len() implies e[i] != ':' && e[i] != ',' && e[i] != '|' by {
        assert(escaped(text)[i] != ':');
    }
}

proof fn lemma_small_texts_free(member: MemberInfo, c: char)
    requires
        c == ':' || c == ',' || c == '|',
    ensures
        free_of(flag_text(member.ready), c),
        free_of(flag_text(member.connected), c),
        free_of(role_text(member.role), c),
{
    reveal_strlit("1");
    reveal_strlit("0");
    reveal_strlit("active");
    reveal_strlit("standby");
    reveal_strlit("peer");
}

proof fn lemma_member_parts(member: MemberInfo)
    ensures
        split_on(member_text(member), ':') == seq![
            escaped(member.peer_id.0@),
            escaped(member.player_id.0@),
            escaped(member.name@),
            flag_text(member.ready),
            flag_text(member.connected),
            role_text(member.role),
        ],
{
    reveal_strlit(":");
    let a = escaped(member.peer_id.0@);
    let b = escaped(member.player_id.0@);
    let c = escaped(member.name@);
    let d = flag_text(member.ready);
    let e = flag_text(member.connected);
    let f = role_text(member.role);
    lemma_escaped_free(member.peer_id.0@);
    lemma_escaped_free(member.player_id.0@);
    lemma_escaped_free(member.name@);
    lemma_small_texts_free(member, ':');
    let colon = seq![':'];
    assert(member_text(member) =~= a + colon + (b + colon + (c + colon + (d + colon + (e + colon + f)))));
    lemma_split_plain(a, ':');
    lemma_split_five(b, c, d, e, f, ':');
    law_split_joined(a, b + colon + (c + colon + (d + colon + (e + colon + f))), ':');
    assert(seq![a] + seq![b, c, d, e, f] =~= seq![a, b, c, d, e, f]);
}

/// A member's text parses, and only to a member with the same fields.
proof fn lemma_member_round_trip(member: MemberInfo, result: Result<MemberInfo, ProtocolError>)
    requires
        member_parsed(member_text(member), result),
    ensures
        result matches Ok(back) && same_member(back, member),
{
    reveal_strlit("1");
    reveal_strlit("0");
    reveal_strlit("active");
    reveal_strlit("standby");
    reveal_strlit("peer");
    lemma_member_parts(member);
    let parts = split_on(member_text(member), ':');
    assert(role_parsed(parts[5], Ok::<HostRole, ProtocolError>(member.role)));
    let r = choose|r: Result<HostRole, ProtocolError>|
        #[trigger] role_parsed(parts[5], r) && match r {
            Err(e) => result == Err::<MemberInfo, ProtocolError>(e),
            Ok(x) => result matches Ok(m) && m.peer_id.0@ == unescaped(parts[0]) && m.player_id.0@ == unescaped(
                parts[1],
            ) && m.name@ == unescaped(parts[2]) && m.ready == (parts[3] == "1"@) && m.connected == (parts[4] == "1"@)
                && m.role == x,
        };
    assert(r == Ok::<HostRole, ProtocolError>(member.role));
    law_unescape_undoes_escape(member.peer_id.0@);
    law_unescape_undoes_escape(member.player_id.0@);
    law_unescape_undoes_escape(member.name@);
    assert("1"@[0] == '1' && "0"@[0] == '0');
    assert("1"@ != "0"@);
    assert((flag_text(member.ready) == "1"@) == member.ready);
    assert((flag_text(member.connected) == "1"@) == member.connected);
}

proof fn lemma_joined_parts(pieces: Seq<Seq<char>>, sep: char)
    requires
        pieces.len() >= 1,
        forall|i: int| 0 <= i < pieces.len() ==> free_of(#[trigger] pieces[i], sep),
    ensures
        split_on(joined(pieces, seq![sep]), sep) == pieces,
    decreases pieces.len(),
{
    if pieces.len() == 1 {
        lemma_split_plain(pieces[0], sep);
        assert(seq![pieces[0]] =~= pieces);
    } else {
        let init = pieces.drop_last();
        assert forall|i: int| 0 <= i < init.len() implies free_of(#[trigger] init[i], sep) by {
            assert(init[i] == pieces[i]);
        }
        lemma_joined_parts(init, sep);
        assert(free_of(pieces[pieces.len() - 1], sep));
        lemma_split_plain(pieces.last(), sep);
        law_split_joined(joined(init, seq![sep]), pieces.last(), sep);
        assert(init + seq![pieces.last()] =~= pieces);
    }
}

proof fn lemma_joined_free(pieces: Seq<Seq<char>>, sep: Seq<char>, c: char)
    requires
        free_of(sep, c),
        forall|i: int| 0 <= i < pieces.len() ==> free_of(#[trigger] pieces[i], c),
    ensures
        free_of(joined(pieces, sep), c),
    decreases pieces.len(),
{
    if pieces.len() == 1 {
        assert(free_of(pieces[0], c));
    } else if pieces.len() > 1 {
        let init = pieces.drop_last();
        assert forall|i: int| 0 <= i < init.len() implies free_of(#[trigger] init[i], c) by {
            assert(init[i] == pieces[i]);
        }
        lemma_joined_free(init, sep, c);
        assert(free_of(pieces[pieces.len() - 1], c));
        lemma_free_of_joined(joined(init, sep), sep, c);
        lemma_free_of_joined(joined(init, sep) + sep, pieces.last(), c);
    }
}

proof fn lemma_member_text_free(member: MemberInfo, c: char)
    requires
        c == ',' || c == '|',
    ensures
        free_of(member_text(member), c),
{
    reveal_strlit(":");
    lemma_escaped_free(member.peer_id.0@);
    lemma_escaped_free(member.player_id.0@);
    lemma_escaped_free(member.name@);
    lemma_small_texts_free(member, c);
    let colon = ":"@;
    assert(free_of(colon, c));
    let a = escaped(member.peer_id.0@);
    let b = escaped(member.player_id.0@);
    let n = escaped(member.name@);
    let d = flag_text(member.ready);
    let e = flag_text(member.connected);
    let f = role_text(member.role);
    lemma_free_of_joined(a, colon, c);
    lemma_free_of_joined(a + colon, b, c);
    lemma_free_of_joined(a + colon + b, colon, c);
    lemma_free_of_joined(a + colon + b + colon, n, c);
    lemma_free_of_joined(a + colon + b + colon + n, colon, c);
    lemma_free_of_joined(a + colon + b + colon + n + colon, d, c);
    lemma_free_of_joined(a + colon + b + colon + n + colon + d, colon, c);
    lemma_free_of_joined(a + colon + b + colon + n + colon + d + colon, e, c);
    lemma_free_of_joined(a + colon + b + colon + n + colon + d + colon + e, colon, c);
    lemma_free_of_joined(a + colon + b + colon + n + colon + d + colon + e + colon, f, c);
}

/// A member list reads back as members with the same fields, in order.
proof fn lemma_members_round_trip(members: Seq<MemberInfo>, result: Result<Vec<MemberInfo>, ProtocolError>)
    requires
        members_parsed(members_text(members), result),
    ensures
        result matches Ok(back) && back@.len() == members.len() && forall|i: int|
            0 <= i < members.len() ==> same_member(#[trigger] back@[i], members[i]),
{
    reveal_strlit(",");
    let pieces = members.map_values(|m: MemberInfo| member_text(m));
    let text = members_text(members);
    if members.len() == 0 {
        assert(pieces.len() == 0);
        assert(text.len() == 0);
    } else {
        assert forall|i: int| 0 <= i < pieces.len() implies free_of(#[trigger] pieces[i], ',') by {
            lemma_member_text_free(members[i], ',');
        }
        assert(",".view() == seq![',']);
        lemma_joined_parts(pieces, ',');
        assert(split_on(text, ',') == pieces);
        lemma_member_parts(members[0]);
        assert(text.len() > 0) by {
            if text.len() == 0 {
                assert(split_on(text, ',') == seq![Seq::<char>::empty()]);
                assert(pieces[0] == member_text(members[0]));
                assert(split_on(member_text(members[0]), ':').len() == 6);
                assert(member_text(members[0]) =~= Seq::<char>::empty());
                assert(split_on(Seq::<char>::empty(), ':').len() == 1);
            }
        }
        match result {
            Ok(v) => {
                assert forall|i: int| 0 <= i < members.len() implies same_member(#[trigger] v@[i], members[i]) by {
                    assert(member_parsed(pieces[i], Ok(v@[i])));
                    lemma_member_round_trip(members[i], Ok(v@[i]));
                }
            },
            Err(e) => {
                let i = choose|i: int|
                    0 <= i < pieces.len() && #[trigger] member_parsed(pieces[i], Err(e)) && forall|j: int|
                        0 <= j < i ==> crate::uno_protocol::member_ok(#[trigger] pieces[j]);
                lemma_member_round_trip(members[i], Err(e));
            },
        }
    }
}

proof fn lemma_membership_parts(room_id: RoomId, members: Vec<MemberInfo>)
    requires
        free_of(room_id.0@, '|'),
    ensures
        split_on(message_text(Message::Membership { room_id, members }), '|') == seq![
            "MEMBERS"@,
            room_id.0@,
            members_text(members@),
        ],
{
    reveal_strlit("MEMBERS");
    reveal_strlit("MEMBERS|");
    reveal_strlit("|");
    reveal_strlit(",");
    let body = members_text(members@);
    let pieces = members@.map_values(|m: MemberInfo| member_text(m));
    assert forall|i: int| 0 <= i < pieces.len() implies free_of(#[trigger] pieces[i], '|') by {
        lemma_member_text_free(members@[i], '|');
    }
    assert(free_of(",".view(), '|'));
    lemma_joined_free(pieces, ",".view(), '|');
    assert(free_of("MEMBERS"@, '|'));
    let bar = seq!['|'];
    let text = message_text(Message::Membership { room_id, members });
    assert(text =~= "MEMBERS"@ + bar + (room_id.0@ + bar + body));
    lemma_split_plain("MEMBERS"@, '|');
    lemma_split_plain(room_id.0@, '|');
    lemma_split_plain(body, '|');
    law_split_joined(room_id.0@, body, '|');
    law_split_joined("MEMBERS"@, room_id.0@ + bar + body, '|');
    assert(split_on(text, '|') =~= seq!["MEMBERS"@, room_id.0@, body]);
}

/// A membership message reads back with the same members in order, for a room
/// id without the `|` separator (member fields are escaped).
pub proof fn law_membership_round_trip(
    room_id: RoomId,
    members: Vec<MemberInfo>,
    result: Result<Message, ProtocolError>,
)
    requires
        free_of(room_id.0@, '|'),
        message_parsed(message_text(Message::Membership { room_id, members }), result),
    ensures
        result matches Ok(Message::Membership { room_id: r, members: m }) && r.0@ == room_id.0@ && m@.len()
            == members@.len() && forall|i: int| 0 <= i < members@.len() ==> same_member(#[trigger] m@[i], members@[i]),
{
    reveal_strlit("PING");
    reveal_strlit("ACK");
    reveal_strlit("JOIN");
    reveal_strlit("JOIN_OK");
    reveal_strlit("JOIN_NO");
    reveal_strlit("MEMBERS");
    lemma_membership_parts(room_id, members);
    let text = message_text(Message::Membership { room_id, members });
    let parts = split_on(text, '|');
    let kind = parts[0];
    assert(kind == "MEMBERS"@);
    assert(kind.len() == 7 && kind[0] == 'M');
    assert(kind != "PING"@ && kind != "ACK"@ && kind != "JOIN"@ && kind != "JOIN_OK"@ && kind != "JOIN_NO"@);
    let r = choose|r: Result<Vec<MemberInfo>, ProtocolError>|
        #[trigger] members_parsed(parts[2], r) && match r {
            Err(e) => result == Err::<Message, ProtocolError>(e),
            Ok(v) => result matches Ok(Message::Membership { room_id: rr, members: m }) && rr.0@ == parts[1] && m@
                == v@,
        };
    lemma_members_round_trip(members@, r);
}


/// An event message reads back with its room and sequence number; the event's
/// kind is not read back and comes out as `GameStarted`, so a `GameStarted`
/// event reads back whole. Room ids and the kind's text must hold no `|`.
pub proof fn law_event_round_trip(room_id: RoomId, event: GameEvent, result: Result<Message, ProtocolError>)
    requires
        free_of(room_id.0@, '|'),
        free_of(event_kind_debug(event.kind), '|'),
        message_parsed(message_text(Message::Event { room_id, event }), result),
    ensures
        result matches Ok(Message::Event { room_id: r, event: e }) && r.0@ == room_id.0@ && e.sequence
            == event.sequence && e.kind == EventKind::GameStarted,
        event.kind == EventKind::GameStarted ==> (result matches Ok(Message::Event { event: e, .. }) && e == event),
{
    reveal_strlit("PING");
    reveal_strlit("ACK");
    reveal_strlit("JOIN");
    reveal_strlit("JOIN_OK");
    reveal_strlit("JOIN_NO");
    reveal_strlit("MEMBERS");
    reveal_strlit("READY");
    reveal_strlit("COMMAND");
    reveal_strlit("EVENT");
    reveal_strlit("EVENT|");
    reveal_strlit("|");
    let bar = seq!['|'];
    let number = decimal(event.sequence as nat);
    let kind_text = event_kind_debug(event.kind);
    lemma_decimal_reads_back(event.sequence as nat);
    law_decimal_round_trip(event.sequence);
    assert(free_of(number, '|')) by {
        assert forall|i: int| 0 <= i < number.len() implies number[i] != '|' by {
            assert(is_digit(number[i]));
        }
    }
    assert(free_of("EVENT"@, '|'));
    let text = message_text(Message::Event { room_id, event });
    assert(text =~= "EVENT"@ + bar + (room_id.0@ + bar + (number + bar + kind_text)));
    lemma_split_four("EVENT"@, room_id.0@, number, kind_text, '|');
    let parts = split_on(text, '|');
    let kind = parts[0];
    assert(kind == "EVENT"@);
    assert(kind.len() == 5 && kind[0] == 'E');
    assert(kind != "PING"@ && kind != "ACK"@ && kind != "JOIN"@ && kind != "JOIN_OK"@ && kind != "JOIN_NO"@
        && kind != "MEMBERS"@ && kind != "READY"@ && kind != "COMMAND"@);
    assert(sequence_checked(parts, Ok::<u64, ProtocolError>(event.sequence)));
    let r = choose|r: Result<u64, ProtocolError>|
        #[trigger] sequence_checked(parts, r) && match r {
            Err(e) => result == Err::<Message, ProtocolError>(e),
            Ok(n) => result matches Ok(Message::Event { room_id: rr, event: ee }) && rr.0@ == parts[1] && ee == (
            GameEvent { sequence: n, kind: EventKind::GameStarted }),
        };
    assert(r == Ok::<u64, ProtocolError>(event.sequence));
}

} // verus!
