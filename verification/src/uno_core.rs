//! The classic networked engine: a 108-card deck in a fixed shuffled order,
//! commands from players, and an event log replicated exactly once per
//! sequence number.

use std::collections::BTreeSet;
use vstd::prelude::*;
use crate::text::{
    ascii_lower, chars_equal, chars_of, decimal, lemma_text_less_total, lemma_text_less_trans, push_decimal, push_str, str_less,
    text_less, to_ascii_lower,
};

verus! {

pub const MIN_PLAYERS: usize = 2;
pub const MAX_PLAYERS_V1: usize = 5;
pub const FUTURE_MAX_PLAYERS: usize = 10;
pub const STARTING_HAND_SIZE: usize = 7;

#[derive(Clone, Copy, Debug, PartialEq, Eq, Structural, PartialOrd, Ord, Hash)]
pub enum Color {
    Red,
    Yellow,
    Green,
    Blue,
}

/// The name of a color.
pub open spec fn color_text(color: Color) -> Seq<char> {
    match color {
        Color::Red => "red"@,
        Color::Yellow => "yellow"@,
        Color::Green => "green"@,
        Color::Blue => "blue"@,
    }
}

/// The color a text names, ignoring ASCII case: its name or its initial.
pub open spec fn color_parsed(text: Seq<char>) -> Option<Color> {
    let lower = ascii_lower(text);
    if lower == "red"@ || lower == "r"@ {
        Some(Color::Red)
    } else if lower == "yellow"@ || lower == "y"@ {
        Some(Color::Yellow)
    } else if lower == "green"@ || lower == "g"@ {
        Some(Color::Green)
    } else if lower == "blue"@ || lower == "b"@ {
        Some(Color::Blue)
    } else {
        None
    }
}

impl Color {
    /// The color's name.
    pub fn label(&self) -> (text: &'static str)
        ensures
            text@ == color_text(*self),
    {
        match self {
            Color::Red => "red",
            Color::Yellow => "yellow",
            Color::Green => "green",
            Color::Blue => "blue",
        }
    }

    /// Reads a color from its name or initial in any ASCII case.
    pub fn parse_chars(text: &[char]) -> (color: Option<Color>)
        ensures
            color == color_parsed(text@),
    {
        let lower = to_ascii_lower(text);
        if chars_equal(lower.as_slice(), "red") || chars_equal(lower.as_slice(), "r") {
            Some(Color::Red)
        } else if chars_equal(lower.as_slice(), "yellow") || chars_equal(lower.as_slice(), "y") {
            Some(Color::Yellow)
        } else if chars_equal(lower.as_slice(), "green") || chars_equal(lower.as_slice(), "g") {
            Some(Color::Green)
        } else if chars_equal(lower.as_slice(), "blue") || chars_equal(lower.as_slice(), "b") {
            Some(Color::Blue)
        } else {
            None
        }
    }

    /// Reads a color from its name or initial in any ASCII case, or
    /// `InvalidColor` with the text.
    pub fn parse(value: &str) -> (result: Result<Color, GameError>)
        ensures
            match color_parsed(value@) {
                Some(c) => result == Ok::<Color, GameError>(c),
                None => result matches Err(GameError::InvalidColor(text)) && text@ == value@,
            },
    {
        let chars = chars_of(value);
        match Color::parse_chars(chars.as_slice()) {
            Some(c) => Ok(c),
            None => Err(GameError::InvalidColor(value.to_owned())),
        }
    }
}

#[derive(Clone, Copy, Debug, PartialEq, Eq, Structural, PartialOrd, Ord, Hash)]
pub enum Rank {
    Number(u8),
    Skip,
    Reverse,
    DrawTwo,
    Wild,
    WildDrawFour,
}

#[derive(Clone, Copy, Debug, PartialEq, Eq, Structural, PartialOrd, Ord, Hash)]
pub struct Card {
    pub color: Option<Color>,
    pub rank: Rank,
}

impl Card {
    pub fn new(color: Color, rank: Rank) -> (card: Card)
        ensures
            card == (Card { color: Some(color), rank }),
    {
        Card { color: Some(color), rank }
    }

    pub fn wild(rank: Rank) -> (card: Card)
        ensures
            card == (Card { color: None, rank }),
    {
        Card { color: None, rank }
    }

    pub open spec fn spec_is_wild(&self) -> bool {
        self.rank == Rank::Wild || self.rank == Rank::WildDrawFour
    }

    #[verifier::when_used_as_spec(spec_is_wild)]
    pub fn is_wild(&self) -> (wild: bool)
        ensures
            wild == (self.rank == Rank::Wild || self.rank == Rank::WildDrawFour),
    {
        match self.rank {
            Rank::Wild | Rank::WildDrawFour => true,
            _ => false,
        }
    }
}

#[derive(Clone, Copy, Debug, PartialEq, Eq, Structural)]
pub enum Direction {
    Clockwise,
    CounterClockwise,
}

impl Direction {
    pub fn reverse(&mut self)
        ensures
            *final(self) == match *old(self) {
                Direction::Clockwise => Direction::CounterClockwise,
                Direction::CounterClockwise => Direction::Clockwise,
            },
    {
        *self = match self {
            Direction::Clockwise => Direction::CounterClockwise,
            Direction::CounterClockwise => Direction::Clockwise,
        };
    }
}

#[derive(Clone, Debug, Hash, PartialOrd, Ord)]
pub struct PlayerId(pub String);

impl PartialEq for PlayerId {
    fn eq(&self, other: &Self) -> (same: bool) {
        self.0 == other.0
    }
}

impl vstd::std_specs::cmp::PartialEqSpecImpl for PlayerId {
    open spec fn obeys_eq_spec() -> bool {
        true
    }

    open spec fn eq_spec(&self, other: &Self) -> bool {
        self.0@ == other.0@
    }
}

impl Eq for PlayerId {}

impl PlayerId {
    pub fn new(value: &str) -> (id: PlayerId)
        ensures
            id.0@ == value@,
    {
        PlayerId(value.to_owned())
    }
}

pub(crate) fn copy_id(id: &PlayerId) -> (copy: PlayerId)
    ensures
        copy == *id,
{
    PlayerId(id.0.clone())
}

#[derive(Debug)]
pub struct Player {
    pub id: PlayerId,
    pub name: String,
    pub hand: Vec<Card>,
}

#[derive(Clone, Debug, PartialEq, Eq)]
pub enum Command {
    Play { player: PlayerId, card: Card, chosen_color: Option<Color> },
    Draw { player: PlayerId },
    Pass { player: PlayerId },
    ChooseColor { player: PlayerId, color: Color },
}

#[derive(Clone, Debug, PartialEq, Eq)]
pub enum EventKind {
    GameStarted,
    CardPlayed { player: PlayerId, card: Card, chosen_color: Option<Color> },
    CardDrawn { player: PlayerId, count: usize },
    TurnPassed { player: PlayerId },
    ColorChosen { player: PlayerId, color: Color },
    GameWon { player: PlayerId },
}

#[derive(Clone, Debug, PartialEq, Eq)]
pub struct GameEvent {
    pub sequence: u64,
    pub kind: EventKind,
}

#[derive(Clone, Debug, PartialEq, Eq)]
pub struct PublicPlayerState {
    pub id: PlayerId,
    pub name: String,
    pub hand_len: usize,
}

#[derive(Clone, Debug, PartialEq, Eq)]
pub struct PublicGameState {
    pub players: Vec<PublicPlayerState>,
    pub discard_top: Card,
    pub active_color: Color,
    pub current_player: PlayerId,
    pub direction: Direction,
    pub winner: Option<PlayerId>,
    pub next_sequence: u64,
}

/// What everyone may see of a game: seats with hand sizes, the discard top,
/// the active color, whose turn it is, the direction, the winner and the next
/// sequence number.
pub open spec fn public_view(game: Game, state: PublicGameState) -> bool {
    &&& state.players@.len() == game.players@.len()
    &&& forall|i: int|
        0 <= i < game.players@.len() ==> {
            let p = #[trigger] state.players@[i];
            &&& p.id == game.players@[i].id
            &&& p.name == game.players@[i].name
            &&& p.hand_len == game.players@[i].hand@.len()
        }
    &&& state.discard_top == game.discard_pile@.last()
    &&& state.active_color == game.active_color
    &&& state.current_player == game.players@[game.current_index as int].id
    &&& state.direction == game.direction
    &&& state.winner == game.winner
    &&& state.next_sequence == game.events@.len()
}

/// A classic round. `applied_sequences` remembers every sequence number in the
/// log, so an event is never applied twice.
#[derive(Debug)]
pub struct Game {
    pub players: Vec<Player>,
    pub draw_pile: Vec<Card>,
    pub discard_pile: Vec<Card>,
    pub active_color: Color,
    pub current_index: usize,
    pub direction: Direction,
    pub events: Vec<GameEvent>,
    pub applied_sequences: BTreeSet<u64>,
    pub winner: Option<PlayerId>,
}

#[derive(Debug, Clone, PartialEq, Eq)]
pub enum GameError {
    InvalidPlayerCount(usize),
    DuplicatePlayer(PlayerId),
    UnknownPlayer(PlayerId),
    NotPlayerTurn(PlayerId),
    CardNotOwned(Card),
    CardNotPlayable(Card),
    MissingColorChoice,
    InvalidColor(String),
    GameAlreadyWon,
    EmptyDrawPile,
    EventAlreadyApplied(u64),
    EventGap { expected: u64, received: u64 },
    CannotPassBeforeDrawing,
}

/// The seat reached from `index` after `steps` single moves in `direction`.
pub open spec fn advanced(index: int, len: int, direction: Direction, steps: int) -> int {
    match direction {
        Direction::Clockwise => (index + steps) % len,
        Direction::CounterClockwise => (index - steps) % len,
    }
}

/// The sequence numbers `0..count`, in order.
/// Sequence numbers are ordered as integers, so a set of them behaves as a set.
proof fn lemma_sequence_numbers_ordered()
    ensures
        vstd::laws_cmp::obeys_cmp::<u64>(),
{
    broadcast use vstd::laws_cmp::group_laws_cmp;
}

pub open spec fn numbered_to(count: nat) -> Set<u64> {
    Set::new(|n: u64| n < count)
}

impl Game {
    /// The structural invariant: one to five seats with distinct identifiers,
    /// a current seat, a discard pile, events numbered by position, and the
    /// applied sequence numbers exactly those of the log.
    pub open spec fn wf(self) -> bool {
        &&& 1 <= self.players@.len() <= MAX_PLAYERS_V1
        &&& self.current_index < self.players@.len()
        &&& self.discard_pile@.len() >= 1
        &&& forall|i: int, j: int|
            0 <= i < j < self.players@.len() ==> self.players@[i].id.0@ != self.players@[j].id.0@
        &&& forall|i: int| 0 <= i < self.events@.len() ==> (#[trigger] self.events@[i]).sequence == i
        &&& self.events@.len() < u64::MAX
        &&& self.applied_sequences@ == numbered_to(self.events@.len())
    }

    /// The seat of the player whose identifier has this text, or -1.
    pub open spec fn seat_of(self, id: Seq<char>) -> int {
        if exists|i: int| 0 <= i < self.players@.len() && #[trigger] self.players@[i].id.0@ == id {
            choose|i: int| 0 <= i < self.players@.len() && #[trigger] self.players@[i].id.0@ == id
        } else {
            -1
        }
    }

    pub open spec fn top(self) -> Card {
        self.discard_pile@.last()
    }

    pub open spec fn spec_is_playable(self, card: Card) -> bool {
        card.is_wild() || card.color == Some(self.active_color) || (!self.top().is_wild() && card.rank
            == self.top().rank)
    }

    pub proof fn lemma_seat_unique(self, id: Seq<char>, i: int)
        requires
            self.wf(),
            0 <= i < self.players@.len(),
            self.players@[i].id.0@ == id,
        ensures
            self.seat_of(id) == i,
    {
        let j = self.seat_of(id);
        assert(0 <= j < self.players@.len() && self.players@[j].id.0@ == id);
        if j != i {
            if j < i {
                assert(self.players@[j].id.0@ != self.players@[i].id.0@);
            } else {
                assert(self.players@[i].id.0@ != self.players@[j].id.0@);
            }
        }
    }

    pub fn players(&self) -> (players: &[Player])
        ensures
            players@ == self.players@,
    {
        self.players.as_slice()
    }

    pub fn events(&self) -> (events: &[GameEvent])
        ensures
            events@ == self.events@,
    {
        self.events.as_slice()
    }

    pub fn next_sequence(&self) -> (next: u64)
        requires
            self.wf(),
        ensures
            next == self.events@.len(),
    {
        self.events.len() as u64
    }

    pub fn current_player(&self) -> (id: &PlayerId)
        requires
            self.wf(),
        ensures
            *id == self.players@[self.current_index as int].id,
    {
        &self.players[self.current_index].id
    }

    /// The seat of `player`, or `UnknownPlayer`.
    pub fn player_index(&self, player: &PlayerId) -> (result: Result<usize, GameError>)
        requires
            self.wf(),
        ensures
            match result {
                Ok(i) => i as int == self.seat_of(player.0@) && i < self.players@.len(),
                Err(e) => self.seat_of(player.0@) == -1 && e == GameError::UnknownPlayer(*player),
            },
    {
        let mut i: usize = 0;
        while i < self.players.len()
            invariant
                self.wf(),
                i <= self.players@.len(),
                forall|k: int| 0 <= k < i ==> (#[trigger] self.players@[k]).id.0@ != player.0@,
            decreases self.players@.len() - i,
        {
            if self.players[i].id == *player {
                proof {
                    self.lemma_seat_unique(player.0@, i as int);
                }
                return Ok(i);
            }
            i += 1;
        }
        Err(GameError::UnknownPlayer(copy_id(player)))
    }

    /// The hand of `player`.
    pub fn hand_for(&self, player: &PlayerId) -> (result: Result<&[Card], GameError>)
        requires
            self.wf(),
        ensures
            match result {
                Ok(hand) => self.seat_of(player.0@) != -1 && hand@ == self.players@[self.seat_of(player.0@)].hand@,
                Err(e) => self.seat_of(player.0@) == -1 && e == GameError::UnknownPlayer(*player),
            },
    {
        let index = self.player_index(player)?;
        Ok(self.players[index].hand.as_slice())
    }

    /// Succeeds when `player` is seated and it is their turn.
    pub fn ensure_turn(&self, player: &PlayerId) -> (result: Result<(), GameError>)
        requires
            self.wf(),
        ensures
            self.seat_of(player.0@) == -1 ==> result == Err::<(), GameError>(GameError::UnknownPlayer(*player)),
            self.seat_of(player.0@) != -1 && self.seat_of(player.0@) != self.current_index ==> result == Err::<
                (),
                GameError,
            >(GameError::NotPlayerTurn(*player)),
            self.seat_of(player.0@) == self.current_index ==> result is Ok,
    {
        match self.player_index(player) {
            Err(e) => Err(e),
            Ok(i) => {
                if *self.current_player() != *player {
                    proof {
                        if i == self.current_index {
                            assert(self.players@[i as int].id.0@ == player.0@) by {
                                assert(0 <= i < self.players@.len() && self.players@[self.seat_of(player.0@)].id.0@
                                    == player.0@);
                            }
                        }
                    }
                    Err(GameError::NotPlayerTurn(copy_id(player)))
                } else {
                    proof {
                        self.lemma_seat_unique(player.0@, self.current_index as int);
                    }
                    Ok(())
                }
            },
        }
    }

    /// What everyone may see; see `public_view`.
    pub fn public_state(&self) -> (state: PublicGameState)
        requires
            self.wf(),
        ensures
            public_view(*self, state),
    {
        let mut players: Vec<PublicPlayerState> = Vec::new();
        let mut i: usize = 0;
        while i < self.players.len()
            invariant
                i <= self.players@.len(),
                players@.len() == i,
                forall|k: int|
                    0 <= k < i ==> {
                        let p = #[trigger] players@[k];
                        &&& p.id == self.players@[k].id
                        &&& p.name == self.players@[k].name
                        &&& p.hand_len == self.players@[k].hand@.len()
                    },
            decreases self.players@.len() - i,
        {
            let player = &self.players[i];
            players.push(
                PublicPlayerState { id: copy_id(&player.id), name: player.name.clone(), hand_len: player.hand.len() },
            );
            i += 1;
        }
        PublicGameState {
            players,
            discard_top: self.discard_pile[self.discard_pile.len() - 1],
            active_color: self.active_color,
            current_player: copy_id(self.current_player()),
            direction: self.direction,
            winner: match &self.winner {
                Some(id) => Some(copy_id(id)),
                None => None,
            },
            next_sequence: self.next_sequence(),
        }
    }

    /// Whether `card` may be played on the current discard top.
    pub fn is_playable(&self, card: Card) -> (playable: bool)
        requires
            self.wf(),
        ensures
            playable == self.spec_is_playable(card),
    {
        let top = self.discard_pile[self.discard_pile.len() - 1];
        card.is_wild() || card.color == Some(self.active_color) || (!top.is_wild() && card.rank == top.rank)
    }

    /// Moves the turn `steps` seats in the current direction.
    pub fn advance_turn(&mut self, steps: usize)
        requires
            old(self).wf(),
        ensures
            final(self).wf(),
            final(self).current_index == advanced(
                old(self).current_index as int,
                old(self).players@.len() as int,
                old(self).direction,
                steps as int,
            ),
            final(self).players == old(self).players,
            final(self).draw_pile == old(self).draw_pile,
            final(self).discard_pile == old(self).discard_pile,
            final(self).events == old(self).events,
            final(self).applied_sequences == old(self).applied_sequences,
            final(self).winner == old(self).winner,
            final(self).active_color == old(self).active_color,
            final(self).direction == old(self).direction,
    {
        let len = self.players.len();
        let start = self.current_index;
        proof {
            vstd::arithmetic::div_mod::lemma_small_mod(start as nat, len as nat);
        }
        let mut taken: usize = 0;
        while taken < steps
            invariant
                self.wf(),
                len == self.players@.len(),
                taken <= steps,
                self.current_index as int == advanced(start as int, len as int, self.direction, taken as int),
                self.players == old(self).players,
                self.draw_pile == old(self).draw_pile,
                self.discard_pile == old(self).discard_pile,
                self.events == old(self).events,
                self.applied_sequences == old(self).applied_sequences,
                self.winner == old(self).winner,
                self.active_color == old(self).active_color,
                self.direction == old(self).direction,
                start == old(self).current_index,
            decreases steps - taken,
        {
            let cur = self.current_index;
            self.current_index = match self.direction {
                Direction::Clockwise => (cur + 1) % len,
                Direction::CounterClockwise => (cur + len - 1) % len,
            };
            proof {
                lemma_advance_step(cur as int, start as int, taken as int, len as int, self.direction);
            }
            taken += 1;
        }
    }

    /// Appends an event numbered after the last one, records its number, and
    /// returns it.
    pub fn push_event(&mut self, kind: EventKind) -> (event: GameEvent)
        requires
            old(self).wf(),
            old(self).events@.len() + 1 < u64::MAX,
        ensures
            final(self).wf(),
            event == (GameEvent { sequence: old(self).events@.len() as u64, kind }),
            final(self).events@ == old(self).events@.push(event),
            final(self).players == old(self).players,
            final(self).draw_pile == old(self).draw_pile,
            final(self).discard_pile == old(self).discard_pile,
            final(self).winner == old(self).winner,
            final(self).active_color == old(self).active_color,
            final(self).direction == old(self).direction,
            final(self).current_index == old(self).current_index,
    {
        let sequence = self.events.len() as u64;
        let event = GameEvent { sequence, kind };
        proof {
            lemma_sequence_numbers_ordered();
        }
        self.applied_sequences.insert(sequence);
        self.events.push(copy_event(&event));
        proof {
            assert(self.applied_sequences@ =~= numbered_to(self.events@.len()));
        }
        event
    }
}


proof fn lemma_advance_step(cur: int, start: int, taken: int, len: int, direction: Direction)
    requires
        len >= 1,
        0 <= cur < len,
        cur == advanced(start, len, direction, taken),
    ensures
        advanced(start, len, direction, taken + 1) == match direction {
            Direction::Clockwise => (cur + 1) % len,
            Direction::CounterClockwise => (cur + len - 1) % len,
        },
{
    match direction {
        Direction::Clockwise => {
            vstd::arithmetic::div_mod::lemma_add_mod_noop_right(1, start + taken, len);
        },
        Direction::CounterClockwise => {
            vstd::arithmetic::div_mod::lemma_add_mod_noop_right(-1, start - taken, len);
            vstd::arithmetic::div_mod::lemma_mod_add_multiples_vanish(cur - 1, len);
        },
    }
}

fn copy_kind(kind: &EventKind) -> (copy: EventKind)
    ensures
        copy == *kind,
{
    match kind {
        EventKind::GameStarted => EventKind::GameStarted,
        EventKind::CardPlayed { player, card, chosen_color } => EventKind::CardPlayed {
            player: copy_id(player),
            card: *card,
            chosen_color: *chosen_color,
        },
        EventKind::CardDrawn { player, count } => EventKind::CardDrawn { player: copy_id(player), count: *count },
        EventKind::TurnPassed { player } => EventKind::TurnPassed { player: copy_id(player) },
        EventKind::ColorChosen { player, color } => EventKind::ColorChosen { player: copy_id(player), color: *color },
        EventKind::GameWon { player } => EventKind::GameWon { player: copy_id(player) },
    }
}

pub(crate) fn copy_event(event: &GameEvent) -> (copy: GameEvent)
    ensures
        copy == *event,
{
    GameEvent { sequence: event.sequence, kind: copy_kind(&event.kind) }
}


/// One color's 25 cards in construction order: a zero, two of each number 1..=9,
/// then two Skip, two Reverse and two Draw Two.
pub open spec fn block_rank(j: int) -> Rank {
    if j == 0 {
        Rank::Number(0)
    } else if j < 19 {
        Rank::Number(((j - 1) / 2 + 1) as u8)
    } else if j < 21 {
        Rank::Skip
    } else if j < 23 {
        Rank::Reverse
    } else {
        Rank::DrawTwo
    }
}

pub open spec fn color_block(color: Color) -> Seq<Card> {
    Seq::new(25, |j: int| Card { color: Some(color), rank: block_rank(j) })
}

/// The four pairs of Wild and Wild Draw Four.
pub open spec fn wild_tail() -> Seq<Card> {
    Seq::new(8, |k: int| Card { color: None, rank: if k % 2 == 0 { Rank::Wild } else { Rank::WildDrawFour } })
}

/// The 108 cards before shuffling.
pub open spec fn unshuffled_deck() -> Seq<Card> {
    color_block(Color::Red) + color_block(Color::Yellow) + color_block(Color::Green) + color_block(Color::Blue)
        + wild_tail()
}

/// One step of the shuffle's xorshift generator.
pub open spec fn xorshift(state: u64) -> u64 {
    let s = state ^ (state << 7u64);
    s ^ (s >> 9u64)
}

pub const SHUFFLE_SEED: u64 = 0x9e37_79b9_7f4a_7c15;

/// `deck` with the cards at `i` and `j` exchanged.
pub open spec fn swapped(deck: Seq<Card>, i: int, j: int) -> Seq<Card> {
    deck.update(i, deck[j]).update(j, deck[i])
}

/// The fixed shuffle from position `i` down to 1: each step draws the next
/// generator state and swaps position `i` with `state % (i + 1)`.
pub open spec fn shuffled_from(deck: Seq<Card>, i: int, state: u64) -> Seq<Card>
    decreases i,
{
    if i < 1 {
        deck
    } else {
        let next = xorshift(state);
        let j = ((next as usize) as int) % (i + 1);
        shuffled_from(swapped(deck, i, j), i - 1, next)
    }
}

/// The classic deck: the 108 cards in the fixed shuffled order.
pub open spec fn classic_deck() -> Seq<Card> {
    shuffled_from(unshuffled_deck(), 107, SHUFFLE_SEED)
}

proof fn lemma_swapped_multiset(deck: Seq<Card>, i: int, j: int)
    requires
        0 <= i < deck.len(),
        0 <= j < deck.len(),
    ensures
        swapped(deck, i, j).to_multiset() == deck.to_multiset(),
        swapped(deck, i, j).len() == deck.len(),
{
    broadcast use vstd::seq_lib::group_to_multiset_ensures;
    let once = deck.update(i, deck[j]);
    assert(once.to_multiset() == deck.to_multiset().remove(deck[i]).insert(deck[j]));
    assert(once[j] == if i == j { deck[j] } else { deck[j] });
    assert(swapped(deck, i, j).to_multiset() == once.to_multiset().remove(once[j]).insert(deck[i]));
    if i != j {
        assert(swapped(deck, i, j).to_multiset() =~= deck.to_multiset());
    } else {
        assert(swapped(deck, i, j) =~= deck);
    }
}

/// Shuffling keeps the cards: the result is a permutation of the input.
pub proof fn lemma_shuffled_permutes(deck: Seq<Card>, i: int, state: u64)
    requires
        i < deck.len(),
    ensures
        shuffled_from(deck, i, state).to_multiset() == deck.to_multiset(),
        shuffled_from(deck, i, state).len() == deck.len(),
    decreases i,
{
    if i >= 1 {
        let next = xorshift(state);
        let j = ((next as usize) as int) % (i + 1);
        lemma_swapped_multiset(deck, i, j);
        lemma_shuffled_permutes(swapped(deck, i, j), i - 1, next);
    }
}

fn push_block(deck: &mut Vec<Card>, color: Color)
    ensures
        final(deck)@ == old(deck)@ + color_block(color),
{
    let ghost start = deck@;
    deck.push(Card::new(color, Rank::Number(0)));
    let mut number: u8 = 1;
    while number <= 9
        invariant
            1 <= number <= 10,
            deck@ == start + color_block(color).take(2 * number - 1),
        decreases 10 - number,
    {
        deck.push(Card::new(color, Rank::Number(number)));
        deck.push(Card::new(color, Rank::Number(number)));
        proof {
            assert(block_rank(2 * number - 1) == Rank::Number(number));
            assert(block_rank(2 * number as int) == Rank::Number(number));
            assert(deck@ =~= start + color_block(color).take(2 * number + 1));
        }
        number += 1;
    }
    deck.push(Card::new(color, Rank::Skip));
    deck.push(Card::new(color, Rank::Skip));
    deck.push(Card::new(color, Rank::Reverse));
    deck.push(Card::new(color, Rank::Reverse));
    deck.push(Card::new(color, Rank::DrawTwo));
    deck.push(Card::new(color, Rank::DrawTwo));
    proof {
        assert(deck@ =~= start + color_block(color));
    }
}

/// The fixed shuffle of the whole deck; see `shuffled_from`.
pub fn deterministic_shuffle(deck: &mut Vec<Card>)
    requires
        old(deck)@.len() >= 1,
    ensures
        final(deck)@ == shuffled_from(old(deck)@, old(deck)@.len() - 1, SHUFFLE_SEED),
{
    let n = deck.len();
    let mut state: u64 = SHUFFLE_SEED;
    let mut i: usize = n - 1;
    while i >= 1
        invariant
            n == deck@.len(),
            i < n,
            deck@.len() == old(deck)@.len(),
            shuffled_from(old(deck)@, old(deck)@.len() - 1, SHUFFLE_SEED) == shuffled_from(deck@, i as int, state),
        decreases i,
    {
        let ghost before = deck@;
        let ghost prev = state;
        state = state ^ (state << 7u64);
        state = state ^ (state >> 9u64);
        let j = (state as usize) % (i + 1);
        let a = deck[i];
        let b = deck[j];
        deck.set(i, b);
        deck.set(j, a);
        proof {
            assert(state == xorshift(prev));
            assert(j as int == ((state as usize) as int) % (i + 1));
            assert(deck@ =~= swapped(before, i as int, j as int));
        }
        i -= 1;
    }
    proof {
        assert(shuffled_from(deck@, i as int, state) == deck@);
    }
}

/// The classic deck; see `classic_deck`.
pub fn standard_deck() -> (deck: Vec<Card>)
    ensures
        deck@ == classic_deck(),
        deck@.to_multiset() == unshuffled_deck().to_multiset(),
        deck@.len() == 108,
{
    let mut deck: Vec<Card> = Vec::new();
    push_block(&mut deck, Color::Red);
    push_block(&mut deck, Color::Yellow);
    push_block(&mut deck, Color::Green);
    push_block(&mut deck, Color::Blue);
    let ghost blocks = deck@;
    let mut k: usize = 0;
    while k < 4
        invariant
            k <= 4,
            deck@ == blocks + wild_tail().take(2 * k as int),
        decreases 4 - k,
    {
        deck.push(Card::wild(Rank::Wild));
        deck.push(Card::wild(Rank::WildDrawFour));
        proof {
            assert(deck@ =~= blocks + wild_tail().take(2 * k + 2));
        }
        k += 1;
    }
    proof {
        assert(deck@ =~= unshuffled_deck());
    }
    deterministic_shuffle(&mut deck);
    proof {
        lemma_shuffled_permutes(unshuffled_deck(), 107, SHUFFLE_SEED);
    }
    deck
}


/// The top `count` cards of `pile`, in the order they are taken (topmost first).
pub open spec fn popped(pile: Seq<Card>, count: int) -> Seq<Card> {
    Seq::new(count as nat, |m: int| pile[pile.len() - 1 - m])
}

/// `new` is `old` after seat `seat` drew `count` cards from the top of the pile:
/// as many as the pile holds, failing with `EmptyDrawPile` when it ran out.
pub open spec fn drew_cards(old: Game, new: Game, seat: int, count: int, result: Result<(), GameError>) -> bool {
    let avail = old.draw_pile@.len() as int;
    let taken = if count <= avail { count } else { avail };
    &&& new.players@.len() == old.players@.len()
    &&& forall|k: int| 0 <= k < old.players@.len() && k != seat ==> new.players@[k] == old.players@[k]
    &&& new.players@[seat].id == old.players@[seat].id
    &&& new.players@[seat].name == old.players@[seat].name
    &&& new.players@[seat].hand@ == old.players@[seat].hand@ + popped(old.draw_pile@, taken)
    &&& new.draw_pile@ == old.draw_pile@.take(avail - taken)
    &&& result == if count <= avail { Ok::<(), GameError>(()) } else { Err(GameError::EmptyDrawPile) }
    &&& new.discard_pile == old.discard_pile
    &&& new.events == old.events
    &&& new.applied_sequences == old.applied_sequences
    &&& new.winner == old.winner
    &&& new.active_color == old.active_color
    &&& new.direction == old.direction
}

/// The next seat draws `count` cards and, when the pile had them, is skipped.
pub open spec fn penalty_effect(old: Game, new: Game, count: int, result: Result<(), GameError>) -> bool {
    let n = old.players@.len() as int;
    let a = old.current_index as int;
    let d = old.direction;
    let t = advanced(a, n, d, 1);
    exists|mid: Game|
        #[trigger] drew_cards(mid, new, t, count, result) && mid.players == old.players && mid.draw_pile
            == old.draw_pile && mid.discard_pile == old.discard_pile && mid.events == old.events
            && mid.applied_sequences == old.applied_sequences && mid.winner == old.winner && mid.active_color
            == old.active_color && mid.direction == d && new.direction == d && mid.current_index == t
            && new.current_index == if result is Ok {
            advanced(a, n, d, 2)
        } else {
            t
        }
}

/// What a played card does once it is on the pile (`old` is the table then):
/// Reverse turns the direction and moves on, Skip skips the next seat, Draw Two
/// and Wild Draw Four make the next seat draw (2 or 4) and skip it, anything
/// else moves on. A draw that runs out of cards stops there with the error.
pub open spec fn classic_effect(old: Game, new: Game, card: Card, result: Result<(), GameError>) -> bool {
    let n = old.players@.len() as int;
    let a = old.current_index as int;
    let d = old.direction;
    let moved = new.players == old.players && new.draw_pile == old.draw_pile && new.discard_pile
        == old.discard_pile && new.events == old.events && new.applied_sequences == old.applied_sequences
        && new.winner == old.winner && new.active_color == old.active_color && result is Ok;
    if card.rank == Rank::Reverse {
        let r = match d {
            Direction::Clockwise => Direction::CounterClockwise,
            Direction::CounterClockwise => Direction::Clockwise,
        };
        moved && new.direction == r && new.current_index == advanced(a, n, r, 1)
    } else if card.rank == Rank::Skip {
        moved && new.direction == d && new.current_index == advanced(a, n, d, 2)
    } else if card.rank == Rank::DrawTwo || card.rank == Rank::WildDrawFour {
        penalty_effect(old, new, if card.rank == Rank::DrawTwo { 2 } else { 4 }, result)
    } else {
        moved && new.direction == d && new.current_index == advanced(a, n, d, 1)
    }
}

impl Game {
    /// Draws `count` cards for `player`; see `drew_cards`.
    pub fn draw_cards_to_player(&mut self, player: &PlayerId, count: usize) -> (result: Result<(), GameError>)
        requires
            old(self).wf(),
            old(self).seat_of(player.0@) != -1,
        ensures
            final(self).wf(),
            final(self).current_index == old(self).current_index,
            drew_cards(*old(self), *final(self), old(self).seat_of(player.0@), count as int, result),
    {
        let index = self.player_index(player)?;
        let ghost pile = self.draw_pile@;
        let ghost hand = self.players@[index as int].hand@;
        let mut k: usize = 0;
        while k < count
            invariant
                self.wf(),
                index < self.players@.len(),
                index == old(self).seat_of(player.0@),
                k <= count,
                k <= pile.len(),
                pile == old(self).draw_pile@,
                hand == old(self).players@[index as int].hand@,
                self.draw_pile@ == pile.take(pile.len() - k),
                self.players@.len() == old(self).players@.len(),
                forall|m: int| 0 <= m < old(self).players@.len() && m != index ==> self.players@[m] == old(self).players@[m],
                self.players@[index as int].id == old(self).players@[index as int].id,
                self.players@[index as int].name == old(self).players@[index as int].name,
                self.players@[index as int].hand@ == hand + popped(pile, k as int),
                self.discard_pile == old(self).discard_pile,
                self.events == old(self).events,
                self.applied_sequences == old(self).applied_sequences,
                self.winner == old(self).winner,
                self.active_color == old(self).active_color,
                self.direction == old(self).direction,
                self.current_index == old(self).current_index,
            decreases count - k,
        {
            let card = match self.draw_pile.pop() {
                Some(card) => card,
                None => {
                    proof {
                        assert(k == pile.len());
                    }
                    return Err(GameError::EmptyDrawPile);
                },
            };
            self.players[index].hand.push(card);
            proof {
                assert(self.draw_pile@ =~= pile.take(pile.len() - (k + 1)));
                assert(self.players@[index as int].hand@ =~= hand + popped(pile, k + 1));
                assert forall|i: int, j: int| 0 <= i < j < self.players@.len() implies self.players@[i].id.0@
                    != self.players@[j].id.0@ by {
                    assert(self.players@[i].id == old(self).players@[i].id);
                    assert(self.players@[j].id == old(self).players@[j].id);
                }
            }
            k += 1;
        }
        Ok(())
    }

    /// Carries out `card`'s effect; see `classic_effect`.
    pub fn apply_card_effect(&mut self, card: Card) -> (result: Result<(), GameError>)
        requires
            old(self).wf(),
        ensures
            final(self).wf(),
            classic_effect(*old(self), *final(self), card, result),
    {
        match card.rank {
            Rank::Reverse => {
                self.direction.reverse();
                self.advance_turn(1);
            },
            Rank::Skip => self.advance_turn(2),
            Rank::DrawTwo | Rank::WildDrawFour => {
                let count: usize = if card.rank == Rank::DrawTwo { 2 } else { 4 };
                let ghost n = self.players@.len() as int;
                let ghost a = self.current_index as int;
                self.advance_turn(1);
                let ghost mid = *self;
                let target = copy_id(self.current_player());
                proof {
                    self.lemma_seat_unique(target.0@, self.current_index as int);
                }
                let drawn = self.draw_cards_to_player(&target, count);
                proof {
                    assert(drew_cards(mid, *self, mid.current_index as int, count as int, drawn));
                }
                if drawn.is_err() {
                    proof {
                        assert(drew_cards(mid, *self, advanced(a, n, old(self).direction, 1), count as int, drawn));
                        assert(penalty_effect(*old(self), *self, count as int, drawn));
                    }
                    return drawn;
                }
                self.advance_turn(1);
                proof {
                    lemma_advanced_add(a, n, self.direction, 1, 1);
                    assert(drew_cards(mid, *self, mid.current_index as int, count as int, drawn));
                    assert(drew_cards(mid, *self, advanced(a, n, old(self).direction, 1), if card.rank == Rank::DrawTwo { 2int } else { 4int }, drawn));
                }
            },
            _ => self.advance_turn(1),
        }
        Ok(())
    }
}

proof fn lemma_advanced_add(index: int, len: int, direction: Direction, a: int, b: int)
    requires
        len > 0,
    ensures
        advanced(advanced(index, len, direction, a), len, direction, b) == advanced(index, len, direction, a + b),
{
    match direction {
        Direction::Clockwise => {
            vstd::arithmetic::div_mod::lemma_add_mod_noop_right(b, index + a, len);
        },
        Direction::CounterClockwise => {
            vstd::arithmetic::div_mod::lemma_add_mod_noop_right(-b, index - a, len);
        },
    }
}


/// Every card of the deck is wild or colored.
proof fn lemma_deck_colored(i: int)
    requires
        0 <= i < 108,
    ensures
        classic_deck()[i].is_wild() || classic_deck()[i].color is Some,
{
    broadcast use vstd::seq_lib::group_to_multiset_ensures;
    lemma_shuffled_permutes(unshuffled_deck(), 107, SHUFFLE_SEED);
    let c = classic_deck()[i];
    assert(classic_deck().to_multiset().count(c) > 0);
    assert(unshuffled_deck().contains(c));
    let k = choose|k: int| 0 <= k < unshuffled_deck().len() && unshuffled_deck()[k] == c;
    assert(unshuffled_deck().len() == 108);
    if k < 25 {
        assert(unshuffled_deck()[k] == color_block(Color::Red)[k]);
    } else if k < 50 {
        assert(unshuffled_deck()[k] == color_block(Color::Yellow)[k - 25]);
    } else if k < 75 {
        assert(unshuffled_deck()[k] == color_block(Color::Green)[k - 50]);
    } else if k < 100 {
        assert(unshuffled_deck()[k] == color_block(Color::Blue)[k - 75]);
    } else {
        assert(unshuffled_deck()[k] == wild_tail()[k - 100]);
    }
}

/// The cards left after dealing seven to each of the first `seats` seats.
pub open spec fn deck_after(seats: int) -> Seq<Card> {
    classic_deck().take(108 - 7 * seats)
}

/// The first discard: the next card, or a red zero in place of a wild.
pub open spec fn first_discard(seats: int) -> Card {
    let card = deck_after(seats).last();
    if card.is_wild() {
        Card { color: Some(Color::Red), rank: Rank::Number(0) }
    } else {
        card
    }
}

/// The first seat (from `i` on) repeating an earlier identifier.
pub open spec fn duplicate_from(players: Seq<(PlayerId, String)>, i: int) -> Option<PlayerId>
    decreases players.len() - i,
{
    if i < 0 || i >= players.len() {
        None
    } else if exists|j: int| 0 <= j < i && players[j].0.0@ == #[trigger] players[i].0.0@ {
        Some(players[i].0)
    } else {
        duplicate_from(players, i + 1)
    }
}

/// A freshly dealt classic table: the seats in order, each with the next seven
/// cards of the deck (taken from the top), the next card face up (a red zero in
/// place of a wild) with its color active, the first seat to play clockwise,
/// and the `GameStarted` event logged.
pub open spec fn classic_dealt(g: Game, players: Seq<(PlayerId, String)>) -> bool {
    let n = players.len() as int;
    &&& g.wf()
    &&& g.players@.len() == n
    &&& forall|k: int|
        0 <= k < n ==> {
            let p = #[trigger] g.players@[k];
            &&& p.id == players[k].0
            &&& p.name == players[k].1
            &&& p.hand@ == popped(deck_after(k), 7)
        }
    &&& g.draw_pile@ == deck_after(n).drop_last()
    &&& g.discard_pile@ == seq![first_discard(n)]
    &&& g.active_color == first_discard(n).color.unwrap()
    &&& g.current_index == 0
    &&& g.direction == Direction::Clockwise
    &&& g.events@ == seq![GameEvent { sequence: 0, kind: EventKind::GameStarted }]
    &&& g.winner is None
}

/// Setting up with at least `min` seats: the count and duplicate checks, then a
/// freshly dealt table.
pub open spec fn classic_setup(result: Result<Game, GameError>, players: Seq<(PlayerId, String)>, min: int) -> bool {
    if players.len() < min || players.len() > MAX_PLAYERS_V1 {
        result == Err::<Game, GameError>(GameError::InvalidPlayerCount(players.len() as usize))
    } else {
        match duplicate_from(players, 0) {
            Some(id) => result == Err::<Game, GameError>(GameError::DuplicatePlayer(id)),
            None => result matches Ok(g) && classic_dealt(g, players),
        }
    }
}

proof fn lemma_no_duplicate(players: Seq<(PlayerId, String)>, i: int, j: int, k: int)
    requires
        0 <= i <= j < players.len(),
        0 <= k < j,
        duplicate_from(players, i) is None,
    ensures
        players[k].0.0@ != players[j].0.0@,
    decreases j - i,
{
    if i < j {
        lemma_no_duplicate(players, i + 1, j, k);
    }
}

/// Takes the top seven cards of `pile`.
fn deal_seven(pile: &mut Vec<Card>) -> (hand: Vec<Card>)
    requires
        old(pile)@.len() >= 7,
    ensures
        hand@ == popped(old(pile)@, 7),
        final(pile)@ == old(pile)@.take(old(pile)@.len() - 7),
{
    let mut hand: Vec<Card> = Vec::new();
    let mut k: usize = 0;
    while k < 7
        invariant
            k <= 7,
            old(pile)@.len() >= 7,
            pile@ == old(pile)@.take(old(pile)@.len() - k),
            hand@ == popped(old(pile)@, k as int),
        decreases 7 - k,
    {
        let card = pile.pop().unwrap();
        hand.push(card);
        proof {
            assert(pile@ =~= old(pile)@.take(old(pile)@.len() - (k + 1)));
            assert(hand@ =~= popped(old(pile)@, k + 1));
        }
        k += 1;
    }
    hand
}

impl Game {
    /// A round for two to five players; see `classic_setup`.
    pub fn new(players: Vec<(PlayerId, String)>) -> (result: Result<Game, GameError>)
        ensures
            classic_setup(result, players@, MIN_PLAYERS as int),
    {
        if players.len() < MIN_PLAYERS || players.len() > MAX_PLAYERS_V1 {
            return Err(GameError::InvalidPlayerCount(players.len()));
        }
        Game::new_unchecked(players)
    }

    /// A round for one to five players, for trying things out alone.
    pub fn new_debug(players: Vec<(PlayerId, String)>) -> (result: Result<Game, GameError>)
        ensures
            classic_setup(result, players@, 1),
    {
        if players.len() < 1 || players.len() > MAX_PLAYERS_V1 {
            return Err(GameError::InvalidPlayerCount(players.len()));
        }
        Game::new_unchecked(players)
    }

    fn new_unchecked(players: Vec<(PlayerId, String)>) -> (result: Result<Game, GameError>)
        requires
            1 <= players@.len() <= MAX_PLAYERS_V1,
        ensures
            match duplicate_from(players@, 0) {
                Some(id) => result == Err::<Game, GameError>(GameError::DuplicatePlayer(id)),
                None => result matches Ok(g) && classic_dealt(g, players@),
            },
    {
        let mut i: usize = 0;
        while i < players.len()
            invariant
                i <= players@.len(),
                duplicate_from(players@, 0) == duplicate_from(players@, i as int),
            decreases players@.len() - i,
        {
            let mut j: usize = 0;
            let mut seen = false;
            while j < i
                invariant
                    j <= i < players@.len(),
                    seen == exists|k: int| 0 <= k < j && players@[k].0.0@ == #[trigger] players@[i as int].0.0@,
                decreases i - j,
            {
                if players[j].0 == players[i].0 {
                    seen = true;
                }
                j += 1;
            }
            if seen {
                return Err(GameError::DuplicatePlayer(copy_id(&players[i].0)));
            }
            i += 1;
        }
        let mut deck = standard_deck();
        let mut seats: Vec<Player> = Vec::new();
        let mut k: usize = 0;
        while k < players.len()
            invariant
                k <= players@.len() <= MAX_PLAYERS_V1,
                deck@ == deck_after(k as int),
                classic_deck().len() == 108,
                seats@.len() == k,
                forall|m: int|
                    0 <= m < k ==> {
                        let p = #[trigger] seats@[m];
                        &&& p.id == players@[m].0
                        &&& p.name == players@[m].1
                        &&& p.hand@ == popped(deck_after(m), 7)
                    },
            decreases players@.len() - k,
        {
            let hand = deal_seven(&mut deck);
            proof {
                assert(deck@ =~= deck_after(k + 1));
            }
            seats.push(Player { id: copy_id(&players[k].0), name: players[k].1.clone(), hand });
            k += 1;
        }
        let top = deck.pop().unwrap();
        proof {
            lemma_deck_colored(108 - 7 * players@.len() - 1);
            assert(deck_after(players@.len() as int).last() == classic_deck()[108 - 7 * players@.len() - 1]);
        }
        let first = if top.is_wild() {
            Card::new(Color::Red, Rank::Number(0))
        } else {
            top
        };
        let active_color = first.color.unwrap();
        let mut discard_pile: Vec<Card> = Vec::new();
        discard_pile.push(first);
        proof {
            assert forall|a: int, b: int| 0 <= a < b < seats@.len() implies seats@[a].id.0@ != seats@[b].id.0@ by {
                lemma_no_duplicate(players@, 0, b, a);
            }
        }
        let mut game = Game {
            players: seats,
            draw_pile: deck,
            discard_pile,
            active_color,
            current_index: 0,
            direction: Direction::Clockwise,
            events: Vec::new(),
            applied_sequences: BTreeSet::new(),
            winner: None,
        };
        proof {
            assert(game.applied_sequences@ =~= numbered_to(0));
        }
        game.push_event(EventKind::GameStarted);
        proof {
            assert(game.events@ =~= seq![GameEvent { sequence: 0, kind: EventKind::GameStarted }]);
            assert(game.discard_pile@ =~= seq![first_discard(players@.len() as int)]);
        }
        Ok(game)
    }
}


/// The first position of `card` in `cards`.
pub open spec fn first_position(cards: Seq<Card>, card: Card) -> int {
    choose|i: int| 0 <= i < cards.len() && cards[i] == card && forall|k: int| 0 <= k < i ==> cards[k] != card
}

/// The turn checks: an unknown player, or not this player's turn.
pub open spec fn turn_error(g: Game, player: PlayerId) -> Option<GameError> {
    if g.seat_of(player.0@) == -1 {
        Some(GameError::UnknownPlayer(player))
    } else if g.seat_of(player.0@) != g.current_index {
        Some(GameError::NotPlayerTurn(player))
    } else {
        None
    }
}

/// `new` is `old` with `events` appended to the log (and their numbers
/// recorded) and nothing else changed.
pub open spec fn logged(old: Game, new: Game, events: Seq<GameEvent>) -> bool {
    &&& new.events@ == old.events@ + events
    &&& new.players == old.players
    &&& new.draw_pile == old.draw_pile
    &&& new.discard_pile == old.discard_pile
    &&& new.winner == old.winner
    &&& new.active_color == old.active_color
    &&& new.direction == old.direction
    &&& new.current_index == old.current_index
}

/// The table once the current seat `seat` has put the first copy of `card` from
/// its hand on the pile.
pub open spec fn card_removed(old: Game, mid: Game, seat: int, card: Card) -> bool {
    let hand = old.players@[seat].hand@;
    &&& mid.players@.len() == old.players@.len()
    &&& forall|k: int| 0 <= k < old.players@.len() && k != seat ==> mid.players@[k] == old.players@[k]
    &&& mid.players@[seat].id == old.players@[seat].id
    &&& mid.players@[seat].name == old.players@[seat].name
    &&& mid.players@[seat].hand@ == hand.remove(first_position(hand, card))
    &&& mid.draw_pile == old.draw_pile
    &&& mid.discard_pile@ == old.discard_pile@.push(card)
    &&& mid.current_index == old.current_index
    &&& mid.direction == old.direction
    &&& mid.events == old.events
    &&& mid.applied_sequences == old.applied_sequences
}

/// As `card_removed`, with `color` active and `player` the winner if the hand
/// is now empty.
pub open spec fn card_laid(old: Game, mid: Game, seat: int, card: Card, color: Color, player: PlayerId) -> bool {
    &&& card_removed(old, mid, seat, card)
    &&& mid.active_color == color
    &&& mid.winner == if mid.players@[seat].hand@.len() == 0 { Some(player) } else { old.winner }
}

/// What a play of `card` by `player` does: refused (nothing changed) by the
/// turn checks, an unplayable card, a wild without a color, or a card not held;
/// otherwise the card leaves the hand for the pile, the chosen color (or the
/// card's) becomes active, an emptied hand wins, the effect follows, and the
/// `CardPlayed` event (and `GameWon`) is logged.
pub open spec fn play_outcome(
    old: Game,
    new: Game,
    player: PlayerId,
    card: Card,
    chosen: Option<Color>,
    result: Result<GameEvent, GameError>,
) -> bool {
    let seat = old.seat_of(player.0@);
    let hand = old.players@[seat].hand@;
    let n = old.events@.len();
    if turn_error(old, player) is Some {
        result == Err::<GameEvent, GameError>(turn_error(old, player)->0) && new == old
    } else if !old.spec_is_playable(card) {
        result == Err::<GameEvent, GameError>(GameError::CardNotPlayable(card)) && new == old
    } else if card.is_wild() && chosen is None {
        result == Err::<GameEvent, GameError>(GameError::MissingColorChoice) && new == old
    } else if !hand.contains(card) {
        result == Err::<GameEvent, GameError>(GameError::CardNotOwned(card)) && new == old
    } else {
        match (if chosen is Some { chosen } else { card.color }) {
            None => result == Err::<GameEvent, GameError>(GameError::MissingColorChoice) && card_removed(
                old,
                new,
                seat,
                card,
            ) && new.active_color == old.active_color && new.winner == old.winner,
            Some(color) => played_through(old, new, seat, player, card, chosen, color, result),
        }
    }
}

/// The card was laid with `color` active, its effect followed, and unless the
/// effect failed the `CardPlayed` event (and `GameWon`) was logged.
pub open spec fn played_through(
    old: Game,
    new: Game,
    seat: int,
    player: PlayerId,
    card: Card,
    chosen: Option<Color>,
    color: Color,
    result: Result<GameEvent, GameError>,
) -> bool {
    let n = old.events@.len();
    exists|mid: Game, after: Game, effect: Result<(), GameError>|
        #![trigger card_laid(old, mid, seat, card, color, player), classic_effect(mid, after, card, effect)]
        card_laid(old, mid, seat, card, color, player) && classic_effect(mid, after, card, effect) && match effect {
            Err(e) => result == Err::<GameEvent, GameError>(e) && new == after,
            Ok(_) => {
                let event = GameEvent {
                    sequence: n as u64,
                    kind: EventKind::CardPlayed { player, card, chosen_color: chosen },
                };
                &&& result == Ok::<GameEvent, GameError>(event)
                &&& logged(after, new, if mid.players@[seat].hand@.len() == 0 {
                    seq![event, GameEvent { sequence: (n + 1) as u64, kind: EventKind::GameWon { player } }]
                } else {
                    seq![event]
                })
            },
        }
}

impl Game {
    /// Plays `card` for `player`; see `play_outcome`.
    pub fn play(&mut self, player: PlayerId, card: Card, chosen_color: Option<Color>) -> (result: Result<
        GameEvent,
        GameError,
    >)
        requires
            old(self).wf(),
            old(self).events@.len() + 3 < u64::MAX,
        ensures
            final(self).wf(),
            play_outcome(*old(self), *final(self), player, card, chosen_color, result),
    {
        self.ensure_turn(&player)?;
        if !self.is_playable(card) {
            return Err(GameError::CardNotPlayable(card));
        }
        if card.is_wild() && chosen_color.is_none() {
            return Err(GameError::MissingColorChoice);
        }
        let index = self.player_index(&player)?;
        let ghost hand = self.players@[index as int].hand@;
        let mut position: usize = 0;
        while position < self.players[index].hand.len() && self.players[index].hand[position] != card
            invariant
                index < self.players@.len(),
                hand == self.players@[index as int].hand@,
                position <= hand.len(),
                forall|k: int| 0 <= k < position ==> hand[k] != card,
            decreases hand.len() - position,
        {
            position += 1;
        }
        if position == self.players[index].hand.len() {
            proof {
                assert(!hand.contains(card));
            }
            return Err(GameError::CardNotOwned(card));
        }
        proof {
            let f = first_position(hand, card);
            assert(0 <= position < hand.len() && hand[position as int] == card && forall|k: int| 0 <= k < position ==> hand[k] != card);
            if f != position {
                if f < position {
                    assert(hand[f] != card);
                } else {
                    assert(hand[position as int] != card);
                }
            }
            assert(hand.contains(card));
        }
        self.players[index].hand.remove(position);
        self.discard_pile.push(card);
        let color = match chosen_color {
            Some(c) => Some(c),
            None => card.color,
        };
        let color = match color {
            Some(c) => c,
            None => {
                proof {
                    assert(card_removed(*old(self), *self, index as int, card));
                }
                return Err(GameError::MissingColorChoice);
            },
        };
        self.active_color = color;
        let won = self.players[index].hand.len() == 0;
        if won {
            self.winner = Some(copy_id(&player));
        }
        proof {
            assert forall|i: int, j: int| 0 <= i < j < self.players@.len() implies self.players@[i].id.0@
                != self.players@[j].id.0@ by {
                assert(self.players@[i].id == old(self).players@[i].id);
                assert(self.players@[j].id == old(self).players@[j].id);
            }
        }
        let ghost mid = *self;
        proof {
            assert(card_laid(*old(self), mid, old(self).seat_of(player.0@), card, color, player));
        }
        let effect = self.apply_card_effect(card);
        let ghost after = *self;
        if let Err(e) = effect {
            proof {
                assert(classic_effect(mid, after, card, effect));
                assert(card_laid(*old(self), mid, old(self).seat_of(player.0@), card, color, player));
                assert((if chosen_color is Some { chosen_color } else { card.color }) == Some(color));
                assert(played_through(*old(self), *self, old(self).seat_of(player.0@), player, card, chosen_color, color, Err(e)));
            }
            return Err(e);
        }
        let event = self.push_event(EventKind::CardPlayed { player: copy_id(&player), card, chosen_color });
        if won {
            self.push_event(EventKind::GameWon { player });
        }
        proof {
            assert(classic_effect(mid, after, card, effect));
            if won {
                assert(self.events@ =~= after.events@ + seq![event, GameEvent { sequence: (old(self).events@.len() + 1) as u64, kind: EventKind::GameWon { player } }]);
            } else {
                assert(self.events@ =~= after.events@ + seq![event]);
            }
            assert(card_laid(*old(self), mid, old(self).seat_of(player.0@), card, color, player));
            assert(played_through(*old(self), *self, old(self).seat_of(player.0@), player, card, chosen_color, color, Ok(event)));
        }
        Ok(event)
    }
}


/// What drawing does for `player`: the turn checks, then one card from the
/// top of the pile (`EmptyDrawPile` when there is none) and a `CardDrawn`
/// event.
pub open spec fn draw_outcome(old: Game, new: Game, player: PlayerId, result: Result<GameEvent, GameError>) -> bool {
    let seat = old.seat_of(player.0@);
    if turn_error(old, player) is Some {
        result == Err::<GameEvent, GameError>(turn_error(old, player)->0) && new == old
    } else {
        exists|mid: Game, drawn: Result<(), GameError>|
            #[trigger] drew_cards(old, mid, seat, 1, drawn) && mid.current_index == old.current_index && match drawn {
                Err(e) => result == Err::<GameEvent, GameError>(e) && new == mid,
                Ok(_) => {
                    let event = GameEvent {
                        sequence: old.events@.len() as u64,
                        kind: EventKind::CardDrawn { player, count: 1 },
                    };
                    result == Ok::<GameEvent, GameError>(event) && logged(mid, new, seq![event])
                },
            }
    }
}

/// What passing does for `player`: the turn checks, then the turn moves on and
/// a `TurnPassed` event is logged.
pub open spec fn pass_outcome(old: Game, new: Game, player: PlayerId, result: Result<GameEvent, GameError>) -> bool {
    if turn_error(old, player) is Some {
        result == Err::<GameEvent, GameError>(turn_error(old, player)->0) && new == old
    } else {
        let event = GameEvent { sequence: old.events@.len() as u64, kind: EventKind::TurnPassed { player } };
        &&& result == Ok::<GameEvent, GameError>(event)
        &&& new.events@ == old.events@.push(event)
        &&& new.players == old.players
        &&& new.draw_pile == old.draw_pile
        &&& new.discard_pile == old.discard_pile
        &&& new.winner == old.winner
        &&& new.active_color == old.active_color
        &&& new.direction == old.direction
        &&& new.current_index == advanced(old.current_index as int, old.players@.len() as int, old.direction, 1)
    }
}

/// What choosing a color does for `player`: the turn checks, then the color
/// becomes active and a `ColorChosen` event is logged.
pub open spec fn choose_outcome(old: Game, new: Game, player: PlayerId, color: Color, result: Result<GameEvent, GameError>) -> bool {
    if turn_error(old, player) is Some {
        result == Err::<GameEvent, GameError>(turn_error(old, player)->0) && new == old
    } else {
        let event = GameEvent { sequence: old.events@.len() as u64, kind: EventKind::ColorChosen { player, color } };
        &&& result == Ok::<GameEvent, GameError>(event)
        &&& new.events@ == old.events@.push(event)
        &&& new.players == old.players
        &&& new.draw_pile == old.draw_pile
        &&& new.discard_pile == old.discard_pile
        &&& new.winner == old.winner
        &&& new.active_color == color
        &&& new.direction == old.direction
        &&& new.current_index == old.current_index
    }
}

/// What applying `command` does: a won game refuses every command and stays as
/// it is; otherwise the command's own outcome.
pub open spec fn command_outcome(before: Game, after: Game, command: Command, result: Result<GameEvent, GameError>) -> bool {
    if before.winner is Some {
        result == Err::<GameEvent, GameError>(GameError::GameAlreadyWon) && after == before
    } else {
        match command {
            Command::Play { player, card, chosen_color } => play_outcome(before, after, player, card, chosen_color, result),
            Command::Draw { player } => draw_outcome(before, after, player, result),
            Command::Pass { player } => pass_outcome(before, after, player, result),
            Command::ChooseColor { player, color } => choose_outcome(before, after, player, color, result),
        }
    }
}

impl Game {
    /// Draws a card for `player`; see `draw_outcome`.
    pub fn draw(&mut self, player: PlayerId) -> (result: Result<GameEvent, GameError>)
        requires
            old(self).wf(),
            old(self).events@.len() + 3 < u64::MAX,
        ensures
            final(self).wf(),
            draw_outcome(*old(self), *final(self), player, result),
    {
        self.ensure_turn(&player)?;
        let drawn = self.draw_cards_to_player(&player, 1);
        let ghost mid = *self;
        if let Err(e) = drawn {
            proof {
                assert(drew_cards(*old(self), mid, old(self).seat_of(player.0@), 1, drawn));
            }
            return Err(e);
        }
        let event = self.push_event(EventKind::CardDrawn { player, count: 1 });
        proof {
            assert(drew_cards(*old(self), mid, old(self).seat_of(player.0@), 1, drawn));
            assert(self.events@ =~= mid.events@ + seq![event]);
        }
        Ok(event)
    }

    /// Passes the turn for `player`; see `pass_outcome`.
    pub fn pass(&mut self, player: PlayerId) -> (result: Result<GameEvent, GameError>)
        requires
            old(self).wf(),
            old(self).events@.len() + 3 < u64::MAX,
        ensures
            final(self).wf(),
            pass_outcome(*old(self), *final(self), player, result),
    {
        self.ensure_turn(&player)?;
        self.advance_turn(1);
        Ok(self.push_event(EventKind::TurnPassed { player }))
    }

    /// Applies a player's command to a game nobody has won yet; see
    /// `command_outcome`.
    pub fn apply_command(&mut self, command: Command) -> (result: Result<GameEvent, GameError>)
        requires
            old(self).wf(),
            old(self).events@.len() + 3 < u64::MAX,
        ensures
            final(self).wf(),
            command_outcome(*old(self), *final(self), command, result),
    {
        if self.winner.is_some() {
            return Err(GameError::GameAlreadyWon);
        }
        match command {
            Command::Play { player, card, chosen_color } => self.play(player, card, chosen_color),
            Command::Draw { player } => self.draw(player),
            Command::Pass { player } => self.pass(player),
            Command::ChooseColor { player, color } => {
                self.ensure_turn(&player)?;
                self.active_color = color;
                Ok(self.push_event(EventKind::ColorChosen { player, color }))
            },
        }
    }

    /// Appends a replicated event exactly once: an event whose number was
    /// already applied is refused, and so is one that skips ahead.
    pub fn apply_event_once(&mut self, event: GameEvent) -> (result: Result<(), GameError>)
        requires
            old(self).wf(),
            old(self).events@.len() + 1 < u64::MAX,
        ensures
            final(self).wf(),
            event.sequence < old(self).events@.len() ==> result == Err::<(), GameError>(
                GameError::EventAlreadyApplied(event.sequence),
            ) && *final(self) == *old(self),
            event.sequence > old(self).events@.len() ==> result == Err::<(), GameError>(
                GameError::EventGap { expected: old(self).events@.len() as u64, received: event.sequence },
            ) && *final(self) == *old(self),
            event.sequence == old(self).events@.len() ==> result is Ok && logged(*old(self), *final(self), seq![event]),
    {
        proof {
            lemma_sequence_numbers_ordered();
            broadcast use vstd::std_specs::btree::group_btree_axioms;
        }
        let applied = self.applied_sequences.contains(&event.sequence);
        if applied {
            return Err(GameError::EventAlreadyApplied(event.sequence));
        }
        let expected = self.next_sequence();
        if event.sequence != expected {
            return Err(GameError::EventGap { expected, received: event.sequence });
        }
        self.applied_sequences.insert(event.sequence);
        self.events.push(event);
        proof {
            assert(self.applied_sequences@ =~= numbered_to(self.events@.len()));
            assert(self.events@ =~= old(self).events@ + seq![event]);
        }
        Ok(())
    }
}


/// Some entry holds `p`'s identifier and hand.
pub open spec fn has_entry(entries: Seq<(PlayerId, Vec<Card>)>, p: Player) -> bool {
    exists|i: int| 0 <= i < entries.len() && #[trigger] entries[i].0 == p.id && entries[i].1@ == p.hand@
}

/// `entry` names one of the first `count` seats.
pub open spec fn from_seat(players: Seq<Player>, entry: (PlayerId, Vec<Card>), count: int) -> bool {
    exists|m: int| 0 <= m < count && entry.0 == players[m].id
}

/// Entries strictly ordered by identifier text.
pub open spec fn ids_ascending(entries: Seq<(PlayerId, Vec<Card>)>) -> bool {
    forall|i: int, j: int| 0 <= i < j < entries.len() ==> text_less(entries[i].0.0@, entries[j].0.0@)
}

impl Game {
    /// Every seat's identifier with its hand, ordered by identifier.
    #[verifier::rlimit(30)]
    pub fn snapshot_hands(&self) -> (snapshot: Vec<(PlayerId, Vec<Card>)>)
        requires
            self.wf(),
        ensures
            snapshot@.len() == self.players@.len(),
            ids_ascending(snapshot@),
            forall|k: int| 0 <= k < self.players@.len() ==> has_entry(snapshot@, #[trigger] self.players@[k]),
            forall|i: int| 0 <= i < snapshot@.len() ==> from_seat(self.players@, #[trigger] snapshot@[i], self.players@.len() as int),
    {
        let mut snapshot: Vec<(PlayerId, Vec<Card>)> = Vec::new();
        let mut k: usize = 0;
        while k < self.players.len()
            invariant
                self.wf(),
                k <= self.players@.len(),
                snapshot@.len() == k,
                ids_ascending(snapshot@),
                forall|m: int| 0 <= m < k ==> has_entry(snapshot@, #[trigger] self.players@[m]),
                forall|i: int| 0 <= i < snapshot@.len() ==> from_seat(self.players@, #[trigger] snapshot@[i], k as int),
            decreases self.players@.len() - k,
        {
            let id = copy_id(&self.players[k].id);
            let hand = self.players[k].hand.clone();
            proof {
                assert(hand@ =~= self.players@[k as int].hand@);
            }
            let mut pos: usize = 0;
            while pos < snapshot.len() && str_less(snapshot[pos].0.0.as_str(), id.0.as_str())
                invariant
                    pos <= snapshot@.len(),
                    forall|i: int| 0 <= i < pos ==> text_less((#[trigger] snapshot@[i]).0.0@, id.0@),
                decreases snapshot@.len() - pos,
            {
                pos += 1;
            }
            let ghost before = snapshot@;
            proof {
                assert forall|i: int| pos <= i < before.len() implies text_less(id.0@, (#[trigger] before[i]).0.0@) by {
                    assert(from_seat(self.players@, before[i], k as int));
                    let m = choose|m: int| 0 <= m < k && before[i].0 == self.players@[m].id;
                    assert(self.players@[m].id.0@ != self.players@[k as int].id.0@);
                    lemma_text_less_total(before[pos as int].0.0@, id.0@);
                    if i > pos {
                        lemma_text_less_trans(id.0@, before[pos as int].0.0@, before[i].0.0@);
                    }
                }
            }
            snapshot.insert(pos, (id, hand));
            proof {
                assert forall|i: int, j: int| 0 <= i < j < snapshot@.len() implies text_less(
                    snapshot@[i].0.0@,
                    snapshot@[j].0.0@,
                ) by {
                    if i < pos && j == pos {
                    } else if i < pos && j > pos {
                        lemma_text_less_trans(snapshot@[i].0.0@, snapshot@[pos as int].0.0@, snapshot@[j].0.0@);
                    }
                }
                assert forall|m: int| 0 <= m < k + 1 implies has_entry(snapshot@, #[trigger] self.players@[m]) by {
                    if m < k {
                        assert(has_entry(before, self.players@[m]));
                        let i = choose|i: int|
                            0 <= i < before.len() && #[trigger] before[i].0 == self.players@[m].id && before[i].1@
                                == self.players@[m].hand@;
                        if i < pos {
                            assert(snapshot@[i] == before[i]);
                        } else {
                            assert(snapshot@[i + 1] == before[i]);
                        }
                    } else {
                        assert(snapshot@[pos as int].0 == self.players@[m].id);
                    }
                }
                assert forall|i: int| 0 <= i < snapshot@.len() implies from_seat(self.players@, #[trigger] snapshot@[i], k + 1) by {
                    if i < pos {
                        assert(snapshot@[i] == before[i]);
                        assert(from_seat(self.players@, before[i], k as int));
                    } else if i > pos {
                        assert(snapshot@[i] == before[i - 1]);
                        assert(from_seat(self.players@, before[i - 1], k as int));
                    } else {
                        assert(snapshot@[i].0 == self.players@[k as int].id);
                    }
                }
            }
            k += 1;
        }
        snapshot
    }
}


// ===== copies =====

/// A rank's name: its number, or its name in lower case with hyphens.
pub open spec fn rank_name(rank: Rank) -> Seq<char> {
    match rank {
        Rank::Number(n) => decimal(n as nat),
        Rank::Skip => "skip"@,
        Rank::Reverse => "reverse"@,
        Rank::DrawTwo => "draw-two"@,
        Rank::Wild => "wild"@,
        Rank::WildDrawFour => "wild-draw-four"@,
    }
}

/// A card's name: `color:rank`, or `wild:rank` without a color.
pub open spec fn card_name(card: Card) -> Seq<char> {
    match card.color {
        Some(c) => color_text(c) + ":"@ + rank_name(card.rank),
        None => "wild:"@ + rank_name(card.rank),
    }
}

impl Rank {
    /// The rank's name; see `rank_name`.
    pub fn label(&self) -> (text: String)
        ensures
            text@ == rank_name(*self),
    {
        let mut text = String::new();
        match self {
            Rank::Number(n) => push_decimal(&mut text, *n as u64),
            Rank::Skip => push_str(&mut text, "skip"),
            Rank::Reverse => push_str(&mut text, "reverse"),
            Rank::DrawTwo => push_str(&mut text, "draw-two"),
            Rank::Wild => push_str(&mut text, "wild"),
            Rank::WildDrawFour => push_str(&mut text, "wild-draw-four"),
        }
        proof {
            assert(text@ =~= rank_name(*self));
        }
        text
    }
}

impl Card {
    /// The card's name; see `card_name`.
    pub fn label(&self) -> (text: String)
        ensures
            text@ == card_name(*self),
    {
        let mut text = String::new();
        match self.color {
            Some(color) => {
                push_str(&mut text, color.label());
                push_str(&mut text, ":");
            },
            None => push_str(&mut text, "wild:"),
        }
        let rank = self.rank.label();
        push_str(&mut text, rank.as_str());
        proof {
            assert(text@ =~= card_name(*self));
        }
        text
    }
}

/// Two seats with the same identifier, name and hand.
pub open spec fn same_player(a: Player, b: Player) -> bool {
    a.id == b.id && a.name == b.name && a.hand@ == b.hand@
}

/// Two games with the same seats, piles, color, turn, direction, log and
/// winner.
pub open spec fn same_game(a: Game, b: Game) -> bool {
    &&& a.players@.len() == b.players@.len()
    &&& forall|i: int| 0 <= i < a.players@.len() ==> same_player(#[trigger] a.players@[i], b.players@[i])
    &&& a.draw_pile@ == b.draw_pile@
    &&& a.discard_pile@ == b.discard_pile@
    &&& a.active_color == b.active_color
    &&& a.current_index == b.current_index
    &&& a.direction == b.direction
    &&& a.events@ == b.events@
    &&& a.applied_sequences@ == b.applied_sequences@
    &&& a.winner == b.winner
}

fn copy_cards(cards: &Vec<Card>) -> (copy: Vec<Card>)
    ensures
        copy@ == cards@,
{
    let mut copy: Vec<Card> = Vec::new();
    let mut i: usize = 0;
    while i < cards.len()
        invariant
            i <= cards@.len(),
            copy@ == cards@.take(i as int),
        decreases cards@.len() - i,
    {
        copy.push(cards[i]);
        i += 1;
        proof {
            assert(copy@ =~= cards@.take(i as int));
        }
    }
    proof {
        assert(cards@.take(i as int) =~= cards@);
    }
    copy
}


fn copy_events(events: &Vec<GameEvent>) -> (copy: Vec<GameEvent>)
    ensures
        copy@ == events@,
{
    let mut copy: Vec<GameEvent> = Vec::new();
    let mut i: usize = 0;
    while i < events.len()
        invariant
            i <= events@.len(),
            copy@ == events@.take(i as int),
        decreases events@.len() - i,
    {
        copy.push(copy_event(&events[i]));
        i += 1;
        proof {
            assert(copy@ =~= events@.take(i as int));
        }
    }
    proof {
        assert(events@.take(i as int) =~= events@);
    }
    copy
}

impl Game {
    /// An independent copy of the game, the same in every part.
    pub fn duplicate(&self) -> (copy: Game)
        ensures
            same_game(copy, *self),
            self.wf() ==> copy.wf(),
    {
        let mut players: Vec<Player> = Vec::new();
        let mut i: usize = 0;
        while i < self.players.len()
            invariant
                i <= self.players@.len(),
                players@.len() == i,
                forall|k: int| 0 <= k < i ==> same_player(#[trigger] players@[k], self.players@[k]),
            decreases self.players@.len() - i,
        {
            let player = &self.players[i];
            players.push(Player { id: copy_id(&player.id), name: player.name.clone(), hand: copy_cards(&player.hand) });
            i += 1;
        }
        let copy = Game {
            players,
            draw_pile: copy_cards(&self.draw_pile),
            discard_pile: copy_cards(&self.discard_pile),
            active_color: self.active_color,
            current_index: self.current_index,
            direction: self.direction,
            events: copy_events(&self.events),
            applied_sequences: self.applied_sequences.clone(),
            winner: match &self.winner {
                Some(id) => Some(copy_id(id)),
                None => None,
            },
        };
        proof {
            if self.wf() {
                assert forall|a: int, b: int| 0 <= a < b < copy.players@.len() implies copy.players@[a].id.0@
                    != copy.players@[b].id.0@ by {
                    assert(same_player(copy.players@[a], self.players@[a]));
                    assert(same_player(copy.players@[b], self.players@[b]));
                }
            }
        }
        copy
    }
}


// ===== laws =====

/// An event is applied at most once: after it is logged, its number lies
/// inside the log, so offering the same event again is refused.
pub proof fn law_event_applied_once(old: Game, new: Game, event: GameEvent)
    requires
        old.wf(),
        event.sequence == old.events@.len(),
        logged(old, new, seq![event]),
    ensures
        event.sequence < new.events@.len(),
        new.events@.last() == event,
{
}

/// The log only grows: what a logged step adds comes after everything that
/// was there, which stays as it was.
pub proof fn law_log_grows(old: Game, new: Game, events: Seq<GameEvent>)
    requires
        logged(old, new, events),
    ensures
        new.events@.len() == old.events@.len() + events.len(),
        new.events@.subrange(0, old.events@.len() as int) == old.events@,
{
    assert(new.events@.subrange(0, old.events@.len() as int) =~= old.events@);
}


/// A colored card that matches the rank of a colored top card may be played
/// whatever its color: a play of it by the player to move, who holds it, is
/// never refused as unplayable, and an accepted play reports that card.
pub proof fn law_same_rank_is_playable(
    before: Game,
    after: Game,
    player: PlayerId,
    card: Card,
    result: Result<GameEvent, GameError>,
)
    requires
        before.wf(),
        command_outcome(before, after, Command::Play { player, card, chosen_color: None }, result),
        before.winner is None,
        turn_error(before, player) is None,
        !card.is_wild(),
        card.color is Some,
        !before.top().is_wild(),
        card.rank == before.top().rank,
        before.players@[before.seat_of(player.0@)].hand@.contains(card),
    ensures
        result != Err::<GameEvent, GameError>(GameError::CardNotPlayable(card)),
        result matches Ok(event) ==> event.kind == (EventKind::CardPlayed { player, card, chosen_color: None }),
{
}

/// The seat `k` seats on (`k` at most two) from `a` among `n` seats in
/// direction `dir`.
pub open spec fn seats_ahead(a: int, n: int, dir: Direction, k: int) -> int {
    match dir {
        Direction::Clockwise => (a + k) % n,
        Direction::CounterClockwise => (a + 2 * n - k) % n,
    }
}

/// The other direction of play.
pub open spec fn flipped(dir: Direction) -> Direction {
    match dir {
        Direction::Clockwise => Direction::CounterClockwise,
        Direction::CounterClockwise => Direction::Clockwise,
    }
}

proof fn lemma_seats_ahead(a: int, n: int, dir: Direction, k: int)
    requires
        n > 0,
        0 <= a < n,
        0 <= k <= 2,
    ensures
        advanced(a, n, dir, k) == seats_ahead(a, n, dir, k),
{
    if dir == Direction::CounterClockwise {
        vstd::arithmetic::div_mod::lemma_mod_add_multiples_vanish(a - k, n);
        vstd::arithmetic::div_mod::lemma_mod_add_multiples_vanish(a - k + n, n);
        assert(a + 2 * n - k == n + (n + (a - k)));
    }
}

proof fn lemma_next_seat_is_another(a: int, n: int, dir: Direction)
    requires
        n >= 2,
        0 <= a < n,
    ensures
        0 <= seats_ahead(a, n, dir, 1) < n,
        seats_ahead(a, n, dir, 1) != a,
{
    if dir == Direction::Clockwise {
        if a + 1 < n {
            vstd::arithmetic::div_mod::lemma_small_mod((a + 1) as nat, n as nat);
        } else {
            vstd::arithmetic::div_mod::lemma_mod_add_multiples_vanish(0, n);
            assert(a + 1 == n + 0);
        }
    } else {
        vstd::arithmetic::div_mod::lemma_mod_add_multiples_vanish(a - 1 + n, n);
        assert(a + 2 * n - 1 == n + (a - 1 + n));
        if a >= 1 {
            vstd::arithmetic::div_mod::lemma_mod_add_multiples_vanish(a - 1, n);
            vstd::arithmetic::div_mod::lemma_small_mod((a - 1) as nat, n as nat);
        } else {
            vstd::arithmetic::div_mod::lemma_small_mod((n - 1) as nat, n as nat);
        }
    }
}

/// An accepted pass hands the turn to the very next seat in the direction of
/// play, which stays.
pub proof fn law_classic_pass_moves_one_seat(
    before: Game,
    after: Game,
    player: PlayerId,
    result: Result<GameEvent, GameError>,
)
    requires
        before.wf(),
        command_outcome(before, after, Command::Pass { player }, result),
        result is Ok,
    ensures
        after.direction == before.direction,
        before.direction == Direction::Clockwise ==> after.current_index == (before.current_index + 1) % (
        before.players@.len() as int),
        before.direction == Direction::CounterClockwise ==> after.current_index == (before.current_index
            + before.players@.len() - 1) % (before.players@.len() as int),
{
    let a = before.current_index as int;
    let n = before.players@.len() as int;
    if before.direction == Direction::CounterClockwise {
        vstd::arithmetic::div_mod::lemma_mod_add_multiples_vanish(a - 1, n);
    }
}

/// An accepted play leaves the turn where the card's effect sends it: a
/// number card or a Wild to the next seat; a Skip, a Draw Two or a Wild Draw
/// Four two seats on; a Reverse turns the direction and hands the turn to the
/// next seat that way. The next seat draws two cards from the pile for a Draw
/// Two and four for a Wild Draw Four.
pub proof fn law_classic_turn_after_play(
    before: Game,
    after: Game,
    player: PlayerId,
    card: Card,
    chosen: Option<Color>,
    result: Result<GameEvent, GameError>,
)
    requires
        before.wf(),
        command_outcome(before, after, Command::Play { player, card, chosen_color: chosen }, result),
        result is Ok,
    ensures
        ({
            let a = before.current_index as int;
            let n = before.players@.len() as int;
            let d = before.direction;
            let next = seats_ahead(a, n, d, 1);
            &&& (card.rank is Number || card.rank == Rank::Wild) ==> after.current_index == next && after.direction
                == d
            &&& (card.rank == Rank::Skip || card.rank == Rank::DrawTwo || card.rank == Rank::WildDrawFour)
                ==> after.current_index == seats_ahead(a, n, d, 2) && after.direction == d
            &&& card.rank == Rank::Reverse ==> after.direction == flipped(d) && after.current_index == seats_ahead(
                a,
                n,
                flipped(d),
                1,
            )
            &&& (card.rank == Rank::DrawTwo && n >= 2) ==> after.players@[next].hand@.len()
                == before.players@[next].hand@.len() + 2 && after.draw_pile@.len() == before.draw_pile@.len() - 2
            &&& (card.rank == Rank::WildDrawFour && n >= 2) ==> after.players@[next].hand@.len()
                == before.players@[next].hand@.len() + 4 && after.draw_pile@.len() == before.draw_pile@.len() - 4
        }),
{
    let a = before.current_index as int;
    let n = before.players@.len() as int;
    let d = before.direction;
    let seat = before.seat_of(player.0@);
    let color = if chosen is Some { chosen->0 } else { card.color->0 };
    assert(played_through(before, after, seat, player, card, chosen, color, result));
    let (mid, fin, effect) = choose|mid: Game, fin: Game, effect: Result<(), GameError>|
        #![trigger card_laid(before, mid, seat, card, color, player), classic_effect(mid, fin, card, effect)]
        card_laid(before, mid, seat, card, color, player) && classic_effect(mid, fin, card, effect) && match effect {
            Err(e) => result == Err::<GameEvent, GameError>(e) && after == fin,
            Ok(_) => {
                let event = GameEvent {
                    sequence: before.events@.len() as u64,
                    kind: EventKind::CardPlayed { player, card, chosen_color: chosen },
                };
                &&& result == Ok::<GameEvent, GameError>(event)
                &&& logged(fin, after, if mid.players@[seat].hand@.len() == 0 {
                    seq![event, GameEvent { sequence: (before.events@.len() + 1) as u64, kind: EventKind::GameWon { player } }]
                } else {
                    seq![event]
                })
            },
        };
    assert(effect is Ok);
    assert(seat == a);
    assert(mid.current_index == a);
    assert(mid.direction == d);
    assert(mid.players@.len() == n);
    lemma_seats_ahead(a, n, d, 1);
    lemma_seats_ahead(a, n, d, 2);
    lemma_seats_ahead(a, n, flipped(d), 1);
    if n >= 2 {
        let next = seats_ahead(a, n, d, 1);
        lemma_next_seat_is_another(a, n, d);
        assert(mid.players@[next] == before.players@[next]);
    }
}

/// An accepted draw gives the player to move the top card of the draw pile
/// and leaves the turn with that player.
pub proof fn law_classic_draw_takes_top_card(
    before: Game,
    after: Game,
    player: PlayerId,
    result: Result<GameEvent, GameError>,
)
    requires
        before.wf(),
        command_outcome(before, after, Command::Draw { player }, result),
        result is Ok,
    ensures
        before.draw_pile@.len() >= 1,
        after.players@[before.current_index as int].hand@ == before.players@[before.current_index as int].hand@.push(
            before.draw_pile@.last(),
        ),
        after.draw_pile@ == before.draw_pile@.drop_last(),
        after.current_index == before.current_index,
        after.direction == before.direction,
{
    let seat = before.seat_of(player.0@);
    let (mid, drawn) = choose|mid: Game, drawn: Result<(), GameError>|
        #[trigger] drew_cards(before, mid, seat, 1, drawn) && mid.current_index == before.current_index && match drawn {
            Err(e) => result == Err::<GameEvent, GameError>(e) && after == mid,
            Ok(_) => {
                let event = GameEvent {
                    sequence: before.events@.len() as u64,
                    kind: EventKind::CardDrawn { player, count: 1 },
                };
                result == Ok::<GameEvent, GameError>(event) && logged(mid, after, seq![event])
            },
        };
    assert(drawn is Ok);
    assert(popped(before.draw_pile@, 1) =~= seq![before.draw_pile@.last()]);
    assert(before.draw_pile@.take(before.draw_pile@.len() - 1) =~= before.draw_pile@.drop_last());
}

} // verus!
