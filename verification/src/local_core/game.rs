//! The authoritative local game: players and their bounded hands, the piles,
//! turn order, phases, and the event log.

use rand::rngs::StdRng;
use vstd::prelude::*;
use vstd::multiset::Multiset;
use vstd::arithmetic::div_mod::{lemma_add_mod_noop, lemma_sub_mod_noop, lemma_small_mod};
use super::cards::{
    Card, Color, DeckVariant, Direction, EventKind, GameError, GameEvent, HandEffect,
    HouseRules, PlayerDrawRule, PlayerDrawState, PlayerId, PublicGameState, PublicPlayerState, RefillSeedSource,
    Rank, TurnPhase, HAND_BATCH_SIZE, MAX_PLAYERS, MIN_PLAYERS, deck, deck_spec,
};
use super::random::{os_seed_bytes, rng_from_seed, rng_seed_bytes, shuffle};
use super::rules::{
    card_allowed_for_rule, card_allowed_spec, draw_card_with_rule, draw_with_rule_post, has_match,
    allowed_by, required_rank_for_rule, required_rank_spec, sat_add, sat_sub, rank_is,
    takes_last_match, conjured, is_last_match, swap_removed,
};

verus! {

/// A seat at the table. Only up to `HAND_BATCH_SIZE` card identities are held
/// (`hand`); `virtual_len` further cards are counted without identities.
#[derive(Debug, PartialEq, Eq)]
pub struct Player {
    pub id: PlayerId,
    pub name: String,
    pub hand: Vec<Card>,
    pub virtual_len: usize,
    pub hand_page: usize,
    pub materialized_received: usize,
    pub draw_state: Option<PlayerDrawState>,
}

impl Player {
    /// The exact number of cards the player holds.
    pub open spec fn total(self) -> int {
        sat_add(self.hand@.len() as int, self.virtual_len as int)
    }

    pub open spec fn pages(self) -> int {
        if self.total() == 0 {
            1
        } else {
            (self.total() + HAND_BATCH_SIZE - 1) / (HAND_BATCH_SIZE as int)
        }
    }

    pub fn hand_len(&self) -> (len: usize)
        ensures
            len as int == self.total(),
    {
        self.hand.len().saturating_add(self.virtual_len)
    }

    /// The number of `HAND_BATCH_SIZE` pages the hand spans, at least one.
    pub fn page_count(&self) -> (pages: usize)
        ensures
            pages as int == self.pages(),
            pages >= 1,
    {
        let total = self.hand_len();
        if total == 0 {
            1
        } else {
            let pages = total / HAND_BATCH_SIZE + if total % HAND_BATCH_SIZE == 0 { 0 } else { 1 };
            proof {
                assert(pages as int == (total + HAND_BATCH_SIZE - 1) / (HAND_BATCH_SIZE as int)) by (nonlinear_arith)
                    requires
                        pages == total / HAND_BATCH_SIZE + if total % HAND_BATCH_SIZE == 0 { 0int } else { 1int },
                        total > 0,
                ;
            }
            pages
        }
    }
}

/// The authoritative state of one local round.
#[derive(Debug)]
pub struct Game {
    pub deck_variant: DeckVariant,
    pub house_rules: HouseRules,
    pub players: Vec<Player>,
    pub draw_pile: Vec<Card>,
    pub discard_pile: Vec<Card>,
    pub active_color: Color,
    pub current_index: usize,
    pub direction: Direction,
    pub phase: TurnPhase,
    pub events: Vec<GameEvent>,
    pub winner: Option<PlayerId>,
    pub rng: StdRng,
    pub refill_seed_source: RefillSeedSource,
}

pub open spec fn ids_distinct(players: Seq<Player>) -> bool {
    forall|i: int, j: int|
        0 <= i < j < players.len() ==> players[i].id.0@ != players[j].id.0@
}

/// The seat reached from `index` after `steps` single moves in `direction`.
pub open spec fn advanced(index: int, len: int, direction: Direction, steps: int) -> int {
    match direction {
        Direction::Clockwise => (index + steps) % len,
        Direction::CounterClockwise => (index - steps) % len,
    }
}

pub open spec fn kind_matches(a: EventKind, b: EventKind) -> bool {
    match (a, b) {
        (
            EventKind::PlusBatchPlayed { player: p1, cards: c1, target: t1, penalty: n1, drawn: d1, final_color: f1 },
            EventKind::PlusBatchPlayed { player: p2, cards: c2, target: t2, penalty: n2, drawn: d2, final_color: f2 },
        ) => p1 == p2 && c1@ == c2@ && t1 == t2 && n1 == n2 && d1 == d2 && f1 == f2,
        _ => a == b,
    }
}

/// Two events agree: same sequence number and same content.
pub open spec fn event_matches(a: GameEvent, b: GameEvent) -> bool {
    a.sequence == b.sequence && kind_matches(a.kind, b.kind)
}

pub fn copy_id(id: &PlayerId) -> (copy: PlayerId)
    ensures
        copy == *id,
{
    PlayerId(id.0.clone())
}

pub fn copy_optional_id(id: &Option<PlayerId>) -> (copy: Option<PlayerId>)
    ensures
        copy == *id,
{
    match id {
        Some(id) => Some(copy_id(id)),
        None => None,
    }
}

fn copy_effect(effect: &HandEffect) -> (copy: HandEffect)
    ensures
        copy == *effect,
{
    match effect {
        HandEffect::Swap { target } => HandEffect::Swap { target: copy_id(target) },
        HandEffect::Rotate { direction } => HandEffect::Rotate { direction: *direction },
        HandEffect::Redistribute { discarded, distributed } => HandEffect::Redistribute {
            discarded: *discarded,
            distributed: *distributed,
        },
        HandEffect::Factorial { target, before, after } => HandEffect::Factorial {
            target: copy_id(target),
            before: *before,
            after: *after,
        },
        HandEffect::SquareRoot { target, before, after } => HandEffect::SquareRoot {
            target: copy_id(target),
            before: *before,
            after: *after,
        },
    }
}

fn copy_kind(kind: &EventKind) -> (copy: EventKind)
    ensures
        kind_matches(copy, *kind),
{
    match kind {
        EventKind::GameStarted => EventKind::GameStarted,
        EventKind::CardPlayed { player, card, chosen_color, hand_effect } => EventKind::CardPlayed {
            player: copy_id(player),
            card: *card,
            chosen_color: *chosen_color,
            hand_effect: match hand_effect {
                Some(effect) => Some(copy_effect(effect)),
                None => None,
            },
        },
        EventKind::PlusBatchPlayed { player, cards, target, penalty, drawn, final_color } => {
            let copied = cards.clone();
            proof {
                assert(copied@ =~= cards@);
            }
            EventKind::PlusBatchPlayed {
                player: copy_id(player),
                cards: copied,
                target: copy_id(target),
                penalty: *penalty,
                drawn: *drawn,
                final_color: *final_color,
            }
        },
        EventKind::CardDrawn { player, count } => EventKind::CardDrawn {
            player: copy_id(player),
            count: *count,
        },
        EventKind::TurnPassed { player } => EventKind::TurnPassed { player: copy_id(player) },
        EventKind::GameWon { player } => EventKind::GameWon { player: copy_id(player) },
    }
}

pub proof fn lemma_advance_step(cur: int, start: int, taken: int, len: int, direction: Direction)
    requires
        len >= 2,
        0 <= cur < len,
        cur == advanced(start, len, direction, taken),
    ensures
        advanced(start, len, direction, taken + 1) == match direction {
            Direction::Clockwise => (cur + 1) % len,
            Direction::CounterClockwise => (cur + len - 1) % len,
        },
{
    lemma_small_mod(1, len as nat);
    match direction {
        Direction::Clockwise => {
            lemma_add_mod_noop(start + taken, 1, len);
            lemma_small_mod(cur as nat, len as nat);
        },
        Direction::CounterClockwise => {
            lemma_sub_mod_noop(start - taken, 1, len);
            let a = cur + len - 1;
            lemma_sub_mod_noop(a, len, len);
            vstd::arithmetic::div_mod::lemma_mod_self_0(len);
            lemma_small_mod((a % len) as nat, len as nat);
            lemma_small_mod(cur as nat, len as nat);
        },
    }
}

/// Moving `a` seats and then `b` seats in one direction is moving `a + b` seats.
pub proof fn lemma_advanced_add(index: int, len: int, direction: Direction, a: int, b: int)
    requires
        len > 0,
    ensures
        advanced(advanced(index, len, direction, a), len, direction, b) == advanced(index, len, direction, a + b),
{
    match direction {
        Direction::Clockwise => {
            vstd::arithmetic::div_mod::lemma_add_mod_noop_right(b, index + a, len);
        },
        Direction::CounterClockwise => {
            vstd::arithmetic::div_mod::lemma_add_mod_noop_right(-b, index - a, len);
        },
    }
}

/// A seat reached by moving is a seat of the table.
pub proof fn lemma_advanced_range(index: int, len: int, direction: Direction, steps: int)
    requires
        len > 0,
    ensures
        0 <= advanced(index, len, direction, steps) < len,
{
    vstd::arithmetic::div_mod::lemma_mod_bound(index + steps, len);
    vstd::arithmetic::div_mod::lemma_mod_bound(index - steps, len);
}

impl Game {
    /// The structural invariant every operation keeps.
    pub open spec fn wf(self) -> bool {
        &&& MIN_PLAYERS <= self.players@.len() <= MAX_PLAYERS
        &&& self.current_index < self.players@.len()
        &&& self.discard_pile@.len() >= 1
        &&& forall|i: int| 0 <= i < self.players@.len() ==> (#[trigger] self.players@[i]).hand@.len() <= HAND_BATCH_SIZE
        &&& ids_distinct(self.players@)
    }

    /// The seat of the player whose identifier has this text, or -1.
    pub open spec fn seat_of(self, id: Seq<char>) -> int {
        if exists|i: int| 0 <= i < self.players@.len() && #[trigger] self.players@[i].id.0@ == id {
            choose|i: int| 0 <= i < self.players@.len() && #[trigger] self.players@[i].id.0@ == id
        } else {
            -1
        }
    }

    pub open spec fn top(self) -> Card {
        self.discard_pile@.last()
    }

    pub open spec fn is_turn_of(self, id: Seq<char>) -> bool {
        self.players@[self.current_index as int].id.0@ == id
    }

    pub proof fn lemma_seat_unique(self, id: Seq<char>, i: int)
        requires
            self.wf(),
            0 <= i < self.players@.len(),
            self.players@[i].id.0@ == id,
        ensures
            self.seat_of(id) == i,
    {
        let j = self.seat_of(id);
        assert(0 <= j < self.players@.len() && self.players@[j].id.0@ == id);
        if j != i {
            if j < i {
                assert(self.players@[j].id.0@ != self.players@[i].id.0@);
            } else {
                assert(self.players@[i].id.0@ != self.players@[j].id.0@);
            }
        }
    }

    pub fn current_player(&self) -> (id: &PlayerId)
        requires
            self.wf(),
        ensures
            *id == self.players@[self.current_index as int].id,
    {
        &self.players[self.current_index].id
    }

    pub fn deck_variant(&self) -> (variant: DeckVariant)
        ensures
            variant == self.deck_variant,
    {
        self.deck_variant
    }

    pub fn house_rules(&self) -> (rules: HouseRules)
        ensures
            rules == self.house_rules,
    {
        self.house_rules
    }

    /// The seat of `player`, or `UnknownPlayer`.
    pub fn player_index(&self, player: &PlayerId) -> (result: Result<usize, GameError>)
        requires
            self.wf(),
        ensures
            match result {
                Ok(i) => i as int == self.seat_of(player.0@) && i < self.players@.len()
                    && self.players@[i as int].id.0@ == player.0@,
                Err(e) => self.seat_of(player.0@) == -1 && e == GameError::UnknownPlayer(*player),
            },
    {
        let mut i: usize = 0;
        while i < self.players.len()
            invariant
                self.wf(),
                i <= self.players@.len(),
                forall|k: int| 0 <= k < i ==> (#[trigger] self.players@[k]).id.0@ != player.0@,
            decreases self.players@.len() - i,
        {
            if self.players[i].id == *player {
                proof {
                    self.lemma_seat_unique(player.0@, i as int);
                }
                return Ok(i);
            }
            i += 1;
        }
        Err(GameError::UnknownPlayer(copy_id(player)))
    }

    /// Succeeds when `player` is seated and it is their turn.
    pub fn ensure_turn(&self, player: &PlayerId) -> (result: Result<(), GameError>)
        requires
            self.wf(),
        ensures
            self.seat_of(player.0@) == -1 ==> result == Err::<(), GameError>(GameError::UnknownPlayer(*player)),
            self.seat_of(player.0@) != -1 && !self.is_turn_of(player.0@) ==> result == Err::<(), GameError>(GameError::NotPlayerTurn(*player)),
            self.seat_of(player.0@) != -1 && self.is_turn_of(player.0@) ==> result is Ok,
            self.is_turn_of(player.0@) ==> self.seat_of(player.0@) == self.current_index,
    {
        proof {
            if self.is_turn_of(player.0@) {
                self.lemma_seat_unique(player.0@, self.current_index as int);
            }
        }
        match self.player_index(player) {
            Err(e) => Err(e),
            Ok(_) => {
                if *self.current_player() != *player {
                    Err(GameError::NotPlayerTurn(copy_id(player)))
                } else {
                    Ok(())
                }
            },
        }
    }

    /// Moves the turn `steps` seats in the current direction.
    pub fn advance_turn(&mut self, steps: usize)
        requires
            old(self).wf(),
        ensures
            final(self).wf(),
            final(self).current_index == advanced(
                old(self).current_index as int,
                old(self).players@.len() as int,
                old(self).direction,
                steps as int,
            ),
            final(self).players == old(self).players,
            final(self).draw_pile == old(self).draw_pile,
            final(self).discard_pile == old(self).discard_pile,
            final(self).events == old(self).events,
            final(self).winner == old(self).winner,
            final(self).rng == old(self).rng,
            final(self).phase == old(self).phase,
            final(self).active_color == old(self).active_color,
            final(self).direction == old(self).direction,
            final(self).deck_variant == old(self).deck_variant,
            final(self).house_rules == old(self).house_rules,
            final(self).refill_seed_source == old(self).refill_seed_source,
    {
        let len = self.players.len();
        let start = self.current_index;
        proof {
            lemma_small_mod(start as nat, len as nat);
        }
        let mut taken: usize = 0;
        while taken < steps
            invariant
                self.wf(),
                len == self.players@.len(),
                taken <= steps,
                self.current_index as int == advanced(start as int, len as int, self.direction, taken as int),
                self.players == old(self).players,
                self.draw_pile == old(self).draw_pile,
                self.discard_pile == old(self).discard_pile,
                self.events == old(self).events,
                self.winner == old(self).winner,
                self.rng == old(self).rng,
                self.phase == old(self).phase,
                self.active_color == old(self).active_color,
                self.direction == old(self).direction,
                self.deck_variant == old(self).deck_variant,
                self.house_rules == old(self).house_rules,
                self.refill_seed_source == old(self).refill_seed_source,
                start == old(self).current_index,
            decreases steps - taken,
        {
            let cur = self.current_index;
            self.current_index = match self.direction {
                Direction::Clockwise => (cur + 1) % len,
                Direction::CounterClockwise => (cur + len - 1) % len,
            };
            proof {
                lemma_advance_step(cur as int, start as int, taken as int, len as int, self.direction);
            }
            taken += 1;
        }
    }

    /// Appends an event numbered after the last one and returns it.
    pub fn push_event(&mut self, kind: EventKind) -> (event: GameEvent)
        ensures
            event.sequence == old(self).events@.len(),
            kind_matches(event.kind, kind),
            final(self).events@.len() == old(self).events@.len() + 1,
            final(self).events@.subrange(0, old(self).events@.len() as int) == old(self).events@,
            event_matches(final(self).events@.last(), event),
            final(self).players == old(self).players,
            final(self).draw_pile == old(self).draw_pile,
            final(self).discard_pile == old(self).discard_pile,
            final(self).winner == old(self).winner,
            final(self).rng == old(self).rng,
            final(self).phase == old(self).phase,
            final(self).active_color == old(self).active_color,
            final(self).direction == old(self).direction,
            final(self).current_index == old(self).current_index,
            final(self).deck_variant == old(self).deck_variant,
            final(self).house_rules == old(self).house_rules,
            final(self).refill_seed_source == old(self).refill_seed_source,
    {
        let sequence = self.events.len() as u64;
        let copy = GameEvent { sequence, kind: copy_kind(&kind) };
        let event = GameEvent { sequence, kind };
        self.events.push(copy);
        proof {
            assert(self.events@.subrange(0, old(self).events@.len() as int) =~= old(self).events@);
        }
        event
    }

    pub fn hand_for(&self, player: &PlayerId) -> (result: Result<&[Card], GameError>)
        requires
            self.wf(),
        ensures
            match result {
                Ok(hand) => self.seat_of(player.0@) != -1
                    && hand@ == self.players@[self.seat_of(player.0@)].hand@,
                Err(e) => self.seat_of(player.0@) == -1 && e == GameError::UnknownPlayer(*player),
            },
    {
        let index = self.player_index(player)?;
        Ok(self.players[index].hand.as_slice())
    }

    pub fn hand_len_for(&self, player: &PlayerId) -> (result: Result<usize, GameError>)
        requires
            self.wf(),
        ensures
            match result {
                Ok(len) => self.seat_of(player.0@) != -1
                    && len as int == self.players@[self.seat_of(player.0@)].total(),
                Err(e) => self.seat_of(player.0@) == -1 && e == GameError::UnknownPlayer(*player),
            },
    {
        let index = self.player_index(player)?;
        Ok(self.players[index].hand_len())
    }

    /// The active page (clamped to the last page), the page count, and the number
    /// of card identities currently held.
    pub fn hand_page_for(&self, player: &PlayerId) -> (result: Result<(usize, usize, usize), GameError>)
        requires
            self.wf(),
        ensures
            match result {
                Ok((page, pages, held)) => {
                    let p = self.players@[self.seat_of(player.0@)];
                    &&& self.seat_of(player.0@) != -1
                    &&& pages as int == p.pages()
                    &&& page as int == if p.hand_page < p.pages() { p.hand_page as int } else { p.pages() - 1 }
                    &&& held == p.hand@.len()
                },
                Err(e) => self.seat_of(player.0@) == -1 && e == GameError::UnknownPlayer(*player),
            },
    {
        let index = self.player_index(player)?;
        let owner = &self.players[index];
        let pages = owner.page_count();
        let page = if owner.hand_page < pages { owner.hand_page } else { pages - 1 };
        Ok((page, pages, owner.hand.len()))
    }

    /// What everyone may see: seat identities, names and hand sizes, the discard
    /// top, the active color, whose turn it is, the direction, whether the
    /// current player has drawn, the winner, and the next event number.
    pub fn public_state(&self) -> (state: PublicGameState)
        requires
            self.wf(),
        ensures
            state.players@.len() == self.players@.len(),
            forall|i: int|
                0 <= i < self.players@.len() ==> {
                    let p = #[trigger] state.players@[i];
                    &&& p.id == self.players@[i].id
                    &&& p.name == self.players@[i].name
                    &&& p.hand_len as int == self.players@[i].total()
                },
            state.discard_top == self.top(),
            state.active_color == self.active_color,
            state.current_player == self.players@[self.current_index as int].id,
            state.direction == self.direction,
            state.has_drawn == (self.phase is Drew),
            state.winner == self.winner,
            state.next_sequence == self.events@.len(),
    {
        let mut players: Vec<PublicPlayerState> = Vec::new();
        let mut i: usize = 0;
        while i < self.players.len()
            invariant
                i <= self.players@.len(),
                players@.len() == i,
                forall|k: int|
                    0 <= k < i ==> {
                        let p = #[trigger] players@[k];
                        &&& p.id == self.players@[k].id
                        &&& p.name == self.players@[k].name
                        &&& p.hand_len as int == self.players@[k].total()
                    },
            decreases self.players@.len() - i,
        {
            let player = &self.players[i];
            players.push(PublicPlayerState {
                id: copy_id(&player.id),
                name: player.name.clone(),
                hand_len: player.hand_len(),
            });
            i += 1;
        }
        PublicGameState {
            players,
            discard_top: self.discard_pile[self.discard_pile.len() - 1],
            active_color: self.active_color,
            current_player: copy_id(self.current_player()),
            direction: self.direction,
            has_drawn: match self.phase {
                TurnPhase::Drew(_) => true,
                TurnPhase::AwaitingAction => false,
            },
            winner: copy_optional_id(&self.winner),
            next_sequence: self.events.len() as u64,
        }
    }

    /// Everything but the players, the draw pile and the generator is as in `other`.
    pub open spec fn same_table(self, other: Game) -> bool {
        &&& self.discard_pile == other.discard_pile
        &&& self.events == other.events
        &&& self.winner == other.winner
        &&& self.phase == other.phase
        &&& self.active_color == other.active_color
        &&& self.direction == other.direction
        &&& self.current_index == other.current_index
        &&& self.deck_variant == other.deck_variant
        &&& self.house_rules == other.house_rules
        &&& self.refill_seed_source == other.refill_seed_source
    }

    /// When the draw pile is empty, it becomes a freshly shuffled full deck of the
    /// game's variant; the discard pile is left alone.
    pub fn refill_draw_pile_if_empty(&mut self)
        requires
            old(self).wf(),
        ensures
            final(self).wf(),
            refill_post(old(self).deck_variant, old(self).draw_pile@, final(self).draw_pile@),
            final(self).draw_pile@.len() > 0,
            final(self).same_table(*old(self)),
            final(self).players == old(self).players,
            old(self).draw_pile@.len() > 0 ==> final(self).rng == old(self).rng,
    {
        if !self.draw_pile.is_empty() {
            return;
        }
        let seed = match self.refill_seed_source {
            RefillSeedSource::Runtime => os_seed_bytes(),
            RefillSeedSource::Deterministic => rng_seed_bytes(&mut self.rng),
        };
        let mut refill_rng = rng_from_seed(seed);
        let mut pile = deck(self.deck_variant);
        shuffle(&mut pile, &mut refill_rng);
        self.draw_pile = pile;
    }

    /// Takes the top card of the draw pile, refilling the pile first if needed.
    pub fn draw_card(&mut self) -> (result: Result<Card, GameError>)
        requires
            old(self).wf(),
        ensures
            final(self).wf(),
            exists|pile: Seq<Card>|
                #![trigger refill_post(old(self).deck_variant, old(self).draw_pile@, pile)]
                refill_post(old(self).deck_variant, old(self).draw_pile@, pile) && pile.len() > 0
                    && result == Ok::<Card, GameError>(pile.last()) && final(self).draw_pile@ == pile.drop_last(),
            final(self).same_table(*old(self)),
            final(self).players == old(self).players,
    {
        self.refill_draw_pile_if_empty();
        let ghost pile = self.draw_pile@;
        match self.draw_pile.pop() {
            Some(card) => Ok(card),
            None => Err(GameError::EmptyDrawPile),
        }
    }
}


impl Game {
    /// The draw rule that governs the seat's draws: set, and in a Holiday game.
    pub open spec fn rule_state(self, seat: int) -> Option<PlayerDrawState> {
        if 0 <= seat < self.players@.len() && self.deck_variant == DeckVariant::Holiday {
            self.players@[seat].draw_state
        } else {
            None
        }
    }

    /// Draws one card for `player`, applying that player's draw rule in a
    /// Holiday game (and advancing the rule's counter), otherwise taking the top
    /// card. The pile is refilled first when it is empty.
    pub fn draw_card_for(&mut self, player: &PlayerId) -> (result: Result<Card, GameError>)
        requires
            old(self).wf(),
        ensures
            final(self).wf(),
            drew_for(*old(self), *final(self), old(self).seat_of(player.0@), result),
    {
        let index = match self.player_index(player) {
            Ok(i) => i,
            Err(_) => return self.draw_card(),
        };
        let state = match self.players[index].draw_state {
            Some(state) => state,
            None => return self.draw_card(),
        };
        if self.deck_variant != DeckVariant::Holiday {
            return self.draw_card();
        }
        self.refill_draw_pile_if_empty();
        let ghost pile = self.draw_pile@;
        let result = draw_card_with_rule(&mut self.draw_pile, state.rule, state.received, &mut self.rng);
        proof {
            lemma_rule_draw_fits(pile, self.draw_pile@, state.rule, state.received as int, result);
        }
        if result.is_ok() {
            self.players[index].draw_state = Some(PlayerDrawState {
                rule: state.rule,
                received: state.received.saturating_add(1),
            });
        }
        result
    }

    /// Whether `player` can still draw: always, unless a Holiday draw rule that
    /// names no guaranteed rank for the next card excludes every card left in a
    /// non-empty pile.
    pub fn can_draw_card_for(&self, player: &PlayerId) -> (can: bool)
        requires
            self.wf(),
        ensures
            can == self.can_draw_spec(player.0@),
    {
        let index = match self.player_index(player) {
            Ok(i) => i,
            Err(_) => return true,
        };
        proof {
            self.lemma_seat_unique(player.0@, index as int);
        }
        let state = match self.players[index].draw_state {
            Some(state) => state,
            None => return true,
        };
        if self.deck_variant != DeckVariant::Holiday {
            return true;
        }
        if required_rank_for_rule(state.rule, state.received).is_some() {
            return true;
        }
        if self.draw_pile.is_empty() {
            return true;
        }
        let mut i: usize = 0;
        while i < self.draw_pile.len()
            invariant
                i <= self.draw_pile@.len(),
                self.rule_state(self.seat_of(player.0@)) == Some(state),
                required_rank_spec(state.rule, state.received as int) is None,
                self.draw_pile@.len() > 0,
                forall|k: int| 0 <= k < i ==> !(allowed_by(state.rule))(#[trigger] self.draw_pile@[k]),
            decreases self.draw_pile@.len() - i,
        {
            if card_allowed_for_rule(state.rule, &self.draw_pile[i]) {
                proof {
                    assert((allowed_by(state.rule))(self.draw_pile@[i as int]));
                }
                return true;
            }
            i += 1;
        }
        false
    }

    pub open spec fn can_draw_spec(self, id: Seq<char>) -> bool {
        match self.rule_state(self.seat_of(id)) {
            None => true,
            Some(state) => required_rank_spec(state.rule, state.received as int) is Some
                || self.draw_pile@.len() == 0 || has_match(self.draw_pile@, allowed_by(state.rule)),
        }
    }

    /// Adds a drawn card to the held identities; when the batch is full its last
    /// identity becomes a counted card to make room.
    pub fn push_concrete_card(&mut self, player_index: usize, card: Card)
        requires
            old(self).wf(),
            player_index < old(self).players@.len(),
        ensures
            final(self).wf(),
            final(self).same_table(*old(self)),
            final(self).rng == old(self).rng,
            pushed_card(*old(self), *final(self), player_index as int, card),
    {
        if self.players[player_index].hand.len() == HAND_BATCH_SIZE {
            self.players[player_index].hand.pop();
            self.players[player_index].virtual_len = self.players[player_index].virtual_len.saturating_add(1);
        }
        self.players[player_index].hand.push(card);
        proof {
            assert(self.players@[player_index as int].hand@.len() <= HAND_BATCH_SIZE);
            assert forall|i: int| 0 <= i < self.players@.len() implies (#[trigger] self.players@[i]).hand@.len() <= HAND_BATCH_SIZE by {
                if i != player_index {
                    assert(self.players@[i] == old(self).players@[i]);
                }
            }
            assert forall|i: int, j: int| 0 <= i < j < self.players@.len() implies self.players@[i].id.0@ != self.players@[j].id.0@ by {
                assert(self.players@[i].id == old(self).players@[i].id);
                assert(self.players@[j].id == old(self).players@[j].id);
            }
        }
    }
}

impl Game {
    /// Gives `player` exactly `count` more cards: card identities drawn from the
    /// pile (under the player's rule) while the held batch has room and draws
    /// succeed, the rest as counted cards. Returns `count`.
    pub fn draw_available_cards_to_player(&mut self, player: &PlayerId, count: usize) -> (drawn: usize)
        requires
            old(self).wf(),
            old(self).seat_of(player.0@) != -1,
        ensures
            drawn == count,
            final(self).wf(),
            final(self).same_table(*old(self)),
            final(self).players@.len() == old(self).players@.len(),
            gave_cards(*old(self), *final(self), old(self).seat_of(player.0@), count as int),
    {
        let index = match self.player_index(player) {
            Ok(i) => i,
            Err(_) => return count,
        };
        let ghost seat = index as int;
        let ghost before = self.players@[seat];
        let room = HAND_BATCH_SIZE - self.players[index].hand.len();
        let concrete_count = if count < room { count } else { room };
        let mut drawn: usize = 0;
        let mut failed = false;
        let ghost start = self.draw_pile@;
        let ghost mut extra: Multiset<Card> = Multiset::empty();
        let ghost plain = old(self).rule_state(seat) is None;
        proof {
            broadcast use vstd::multiset::group_multiset_axioms;
            assert(self.players@[seat].hand@.skip(before.hand@.len() as int) + self.draw_pile@ =~= start);
            assert(start.to_multiset().add(extra) =~= start.to_multiset());
            assert(start.take(start.len() - 0) =~= start);
        }
        while drawn < concrete_count && !failed
            invariant
                start == old(self).draw_pile@,
                plain == (old(self).rule_state(seat) is None),
                start.len() >= concrete_count ==> {
                    let added = self.players@[seat].hand@.skip(before.hand@.len() as int);
                    &&& self.draw_pile@.len() + drawn >= start.len()
                    &&& (added + self.draw_pile@).to_multiset() == start.to_multiset().add(extra)
                    &&& only_guaranteed(extra)
                    &&& plain ==> extra.len() == 0 && self.draw_pile@ == start.take(start.len() - drawn) && forall|k: int|
                        0 <= k < drawn ==> #[trigger] added[k] == start[start.len() - 1 - k]
                },
                self.wf(),
                self.same_table(*old(self)),
                self.deck_variant == old(self).deck_variant,
                self.players@.len() == old(self).players@.len(),
                seat == index,
                index < self.players@.len(),
                seat == old(self).seat_of(player.0@),
                self.seat_of(player.0@) == seat,
                before == old(self).players@[seat],
                before.id.0@ == player.0@,
                drawn <= concrete_count,
                concrete_count <= count,
                concrete_count + before.hand@.len() <= HAND_BATCH_SIZE,
                old(self).rule_state(seat) is None ==> !failed,
                forall|k: int| 0 <= k < old(self).players@.len() && k != seat ==> self.players@[k] == old(self).players@[k],
                same_seat_but_cards(self.players@[seat], before),
                self.players@[seat].virtual_len == before.virtual_len,
                self.players@[seat].hand@.len() == before.hand@.len() + drawn,
                self.players@[seat].hand@.subrange(0, before.hand@.len() as int) == before.hand@,
                match old(self).rule_state(seat) {
                    Some(state) => {
                        &&& self.players@[seat].draw_state == Some(PlayerDrawState { rule: state.rule, received: sat_add(state.received as int, drawn as int) as usize })
                        &&& forall|k: int| before.hand@.len() <= k < self.players@[seat].hand@.len() ==> card_fits_rule(
                            state.rule,
                            sat_add(state.received as int, k - before.hand@.len()),
                            #[trigger] self.players@[seat].hand@[k],
                        )
                    },
                    None => self.players@[seat].draw_state == before.draw_state,
                },
            decreases concrete_count - drawn, if failed { 0int } else { 1int },
        {
            let ghost prev = self.players@[seat];
            let ghost pile_before = self.draw_pile@;
            let ghost game_before = *self;
            match self.draw_card_for(player) {
                Ok(card) => {
                    proof {
                        if start.len() >= concrete_count {
                            lemma_draw_takes(game_before, *self, seat, Ok(card));
                            let added = prev.hand@.skip(before.hand@.len() as int);
                            if plain {
                                let last = pile_before.len() - 1;
                                assert(swap_removed(pile_before, last) =~= pile_before.drop_last());
                                lemma_swap_removed_cards(added, pile_before, last);
                                assert(self.draw_pile@ =~= start.take(start.len() - (drawn + 1)));
                            } else if self.draw_pile@ == pile_before && guaranteed_rank(card.rank) {
                                lemma_conjured_card(added, pile_before, card);
                                lemma_only_guaranteed_add(extra, Multiset::singleton(card));
                                assert(extra.insert(card) =~= extra.add(Multiset::singleton(card)));
                                assert(start.to_multiset().add(extra).insert(card) =~= start.to_multiset().add(extra.insert(card)));
                                extra = extra.insert(card);
                            } else {
                                let i = choose|i: int|
                                    0 <= i < pile_before.len() && card == pile_before[i] && self.draw_pile@ == swap_removed(pile_before, i);
                                lemma_swap_removed_cards(added, pile_before, i);
                            }
                        }
                    }
                    self.players[index].hand.push(card);
                    proof {
                        if start.len() >= concrete_count {
                            let added = self.players@[seat].hand@.skip(before.hand@.len() as int);
                            assert(added =~= prev.hand@.skip(before.hand@.len() as int).push(card));
                        }
                        assert(self.players@[seat].hand@.subrange(0, before.hand@.len() as int) =~= before.hand@) by {
                            assert(prev.hand@.subrange(0, before.hand@.len() as int) == before.hand@);
                        }
                        assert forall|i: int| 0 <= i < self.players@.len() implies (#[trigger] self.players@[i]).hand@.len() <= HAND_BATCH_SIZE by {
                            if i != seat {
                                assert(self.players@[i] == old(self).players@[i]);
                            }
                        }
                        assert forall|i: int, j: int| 0 <= i < j < self.players@.len() implies self.players@[i].id.0@ != self.players@[j].id.0@ by {
                            assert(self.players@[i].id == old(self).players@[i].id);
                            assert(self.players@[j].id == old(self).players@[j].id);
                        }
                        self.lemma_seat_unique(player.0@, seat);
                        if let Some(state) = old(self).rule_state(seat) {
                            assert forall|k: int| before.hand@.len() <= k < self.players@[seat].hand@.len() implies card_fits_rule(
                                state.rule,
                                sat_add(state.received as int, k - before.hand@.len()),
                                #[trigger] self.players@[seat].hand@[k],
                            ) by {
                                if k < prev.hand@.len() {
                                    assert(self.players@[seat].hand@[k] == prev.hand@[k]);
                                }
                            }
                        }
                    }
                    drawn += 1;
                },
                Err(e) => {
                    proof {
                        if start.len() >= concrete_count {
                            lemma_draw_takes(game_before, *self, seat, Err(e));
                        }
                    }
                    failed = true;
                },
            }
            proof {
                self.lemma_seat_unique(player.0@, seat);
            }
        }
        proof {
            reveal(pile_fed);
        }
        let virtual_count = count - drawn;
        self.players[index].virtual_len = self.players[index].virtual_len.saturating_add(virtual_count);
        if let Some(state) = self.players[index].draw_state {
            self.players[index].draw_state = Some(PlayerDrawState {
                rule: state.rule,
                received: state.received.saturating_add(virtual_count),
            });
        }
        proof {
            assert forall|i: int| 0 <= i < self.players@.len() implies (#[trigger] self.players@[i]).hand@.len() <= HAND_BATCH_SIZE by {
                if i != seat {
                    assert(self.players@[i] == old(self).players@[i]);
                }
            }
            assert forall|i: int, j: int| 0 <= i < j < self.players@.len() implies self.players@[i].id.0@ != self.players@[j].id.0@ by {
                assert(self.players@[i].id == old(self).players@[i].id);
                assert(self.players@[j].id == old(self).players@[j].id);
            }
        }
        drawn + virtual_count
    }
}

pub open spec fn min_int(a: int, b: int) -> int {
    if a <= b {
        a
    } else {
        b
    }
}

/// The cards `added` to a hand came off the draw pile `before`, leaving `after`,
/// apart from guaranteed cards a draw rule created (none in a `plain` draw); a
/// `plain` draw takes them from the top of the pile, one by one.
/// Where the pile held at least as many cards as the seat could hold, the
/// cards the seat's hand gained came off the pile; see `pile_gave`.
#[verifier::opaque]
pub open spec fn pile_fed(
    old_pile: Seq<Card>,
    new_pile: Seq<Card>,
    old_hand: Seq<Card>,
    new_hand: Seq<Card>,
    plain: bool,
    count: int,
) -> bool {
    old_pile.len() >= min_int(count, HAND_BATCH_SIZE - old_hand.len()) ==> pile_gave(
        old_pile,
        new_pile,
        new_hand.skip(old_hand.len() as int),
        plain,
    )
}

pub open spec fn pile_gave(before: Seq<Card>, after: Seq<Card>, added: Seq<Card>, plain: bool) -> bool {
    &&& exists|extra: Multiset<Card>|
        #![trigger only_guaranteed(extra)]
        only_guaranteed(extra) && (added + after).to_multiset() == before.to_multiset().add(extra) && (plain
            ==> extra.len() == 0)
    &&& plain ==> after == before.take(before.len() - added.len()) && forall|k: int|
        0 <= k < added.len() ==> #[trigger] added[k] == before[before.len() - 1 - k]
}

/// `new` is `old` after the seat `seat` received exactly `count` more cards:
/// identities appended while the held batch had room (each one fitting the seat's
/// Holiday draw rule at its draw position), the rest counted; the rule counter
/// advances by the cards the rule handed out. Every other seat is unchanged.
pub open spec fn gave_cards(old: Game, new: Game, seat: int, count: int) -> bool {
    let before = old.players@[seat];
    let after = new.players@[seat];
    &&& 0 <= seat < old.players@.len()
    &&& new.players@.len() == old.players@.len()
    &&& forall|k: int| 0 <= k < old.players@.len() && k != seat ==> new.players@[k] == old.players@[k]
    &&& same_seat_but_cards(after, before)
    &&& after.total() == sat_add(before.total(), count)
    &&& after.hand@.len() <= before.hand@.len() + count
    &&& after.hand@.subrange(0, before.hand@.len() as int) == before.hand@
    &&& (old.rule_state(seat) is None ==> after.hand@.len() == before.hand@.len() + min_int(count, HAND_BATCH_SIZE - before.hand@.len()))
    &&& pile_fed(old.draw_pile@, new.draw_pile@, before.hand@, after.hand@, old.rule_state(seat) is None, count)
    &&& match old.rule_state(seat) {
        Some(state) => {
            &&& after.draw_state == Some(PlayerDrawState { rule: state.rule, received: sat_add(state.received as int, count) as usize })
            &&& forall|k: int| before.hand@.len() <= k < after.hand@.len() ==> card_fits_rule(
                state.rule,
                sat_add(state.received as int, k - before.hand@.len()),
                #[trigger] after.hand@[k],
            )
        },
        None => match before.draw_state {
            Some(state) => after.draw_state == Some(PlayerDrawState {
                rule: state.rule,
                received: sat_add(state.received as int, count - (after.hand@.len() - before.hand@.len())) as usize,
            }),
            None => after.draw_state is None,
        },
    }
}

/// `new` is `old` after one card was drawn for the seat `seat` (by
/// `draw_card_for`): under the seat's Holiday draw rule when it has one, with
/// the rule's counter advanced on success; otherwise the top card of the
/// (refilled if empty) draw pile.
pub open spec fn drew_for(old: Game, new: Game, seat: int, result: Result<Card, GameError>) -> bool {
    &&& new.same_table(old)
    &&& match old.rule_state(seat) {
        None => {
            &&& new.players == old.players
            &&& exists|pile: Seq<Card>|
                #![trigger refill_post(old.deck_variant, old.draw_pile@, pile)]
                refill_post(old.deck_variant, old.draw_pile@, pile) && pile.len() > 0
                    && result == Ok::<Card, GameError>(pile.last()) && new.draw_pile@ == pile.drop_last()
        },
        Some(state) => {
            &&& exists|pile: Seq<Card>|
                #![trigger refill_post(old.deck_variant, old.draw_pile@, pile)]
                refill_post(old.deck_variant, old.draw_pile@, pile)
                    && draw_with_rule_post(pile, new.draw_pile@, state.rule, state.received as int, result)
            &&& new.players@.len() == old.players@.len()
            &&& forall|k: int| 0 <= k < old.players@.len() && k != seat ==> new.players@[k] == old.players@[k]
            &&& same_seat_but_cards(new.players@[seat], old.players@[seat])
            &&& new.players@[seat].hand == old.players@[seat].hand
            &&& new.players@[seat].virtual_len == old.players@[seat].virtual_len
            &&& new.players@[seat].draw_state == Some(PlayerDrawState {
                rule: state.rule,
                received: if result is Ok { sat_add(state.received as int, 1) as usize } else { state.received },
            })
            &&& result matches Ok(card) ==> card_fits_rule(state.rule, state.received as int, card)
        },
    }
}

/// `new` is `old` after `card` joined the held identities of seat `seat`; when
/// the batch was full its last identity became a counted card to make room.
pub open spec fn pushed_card(old: Game, new: Game, seat: int, card: Card) -> bool {
    let p = old.players@[seat];
    let q = new.players@[seat];
    &&& new.draw_pile == old.draw_pile
    &&& new.players@.len() == old.players@.len()
    &&& forall|k: int| 0 <= k < old.players@.len() && k != seat ==> new.players@[k] == old.players@[k]
    &&& same_seat_but_cards(q, p)
    &&& q.draw_state == p.draw_state
    &&& q.total() == sat_add(p.total(), 1)
    &&& p.hand@.len() < HAND_BATCH_SIZE ==> q.hand@ == p.hand@.push(card) && q.virtual_len == p.virtual_len
    &&& p.hand@.len() == HAND_BATCH_SIZE ==> q.hand@ == p.hand@.drop_last().push(card)
        && q.virtual_len as int == sat_add(p.virtual_len as int, 1)
}

/// Two seats agree on everything but the held identities and the counted cards.
pub open spec fn same_seat_but_cards(a: Player, b: Player) -> bool {
    &&& a.id == b.id
    &&& a.name == b.name
    &&& a.hand_page == b.hand_page
    &&& a.materialized_received == b.materialized_received
}

/// A card a player rule may hand out at draw position `position`.
pub open spec fn card_fits_rule(rule: super::cards::PlayerDrawRule, position: int, card: Card) -> bool {
    match required_rank_spec(rule, position) {
        Some(rank) => card.rank == rank,
        None => card_allowed_spec(rule, card),
    }
}

pub proof fn lemma_rule_draw_fits(
    old_pile: Seq<Card>,
    new_pile: Seq<Card>,
    rule: super::cards::PlayerDrawRule,
    received: int,
    result: Result<Card, GameError>,
)
    requires
        draw_with_rule_post(old_pile, new_pile, rule, received, result),
    ensures
        result matches Ok(card) ==> card_fits_rule(rule, received, card),
{
    match required_rank_spec(rule, received) {
        Some(rank) => {
            if let Ok(card) = result {
                if has_match(old_pile, rank_is(rank)) {
                    let i = choose|i: int| is_last_match(old_pile, rank_is(rank), i) && card == old_pile[i]
                        && new_pile == super::rules::swap_removed(old_pile, i);
                    assert((rank_is(rank))(old_pile[i]));
                }
            }
        },
        None => {
            if let Ok(card) = result {
                let i = choose|i: int| is_last_match(old_pile, allowed_by(rule), i) && card == old_pile[i]
                    && new_pile == super::rules::swap_removed(old_pile, i);
                assert((allowed_by(rule))(old_pile[i]));
            }
        },
    }
}

/// The draw pile after an automatic refill check: unchanged when it had cards,
/// otherwise a permutation of a full deck of the variant.
pub open spec fn refill_post(variant: DeckVariant, old_pile: Seq<Card>, pile: Seq<Card>) -> bool {
    if old_pile.len() > 0 {
        pile == old_pile
    } else {
        pile.len() == deck_spec(variant).len() && pile.to_multiset() == deck_spec(variant).to_multiset()
    }
}


// ===== cards moving between pile and hand =====

/// A rank that a player's draw rule guarantees; a rule draw creates such a card
/// when the pile holds none.
pub open spec fn guaranteed_rank(rank: Rank) -> bool {
    rank == Rank::DrawEight || rank == Rank::WildSquareRoot || rank == Rank::WildDrawSixteen || rank
        == Rank::WildFactorial
}

/// Every card of `extra` has a guaranteed rank.
pub open spec fn only_guaranteed(extra: Multiset<Card>) -> bool {
    forall|c: Card| #[trigger] extra.count(c) > 0 ==> guaranteed_rank(c.rank)
}

pub(crate) proof fn lemma_swap_removed_cards(hand: Seq<Card>, pile: Seq<Card>, i: int)
    requires
        0 <= i < pile.len(),
    ensures
        (hand.push(pile[i]) + swap_removed(pile, i)).to_multiset() == (hand + pile).to_multiset(),
{
    broadcast use vstd::seq_lib::group_to_multiset_ensures;
    broadcast use vstd::seq_lib::lemma_multiset_commutative;
    broadcast use vstd::multiset::group_multiset_axioms;
    let u = pile.update(i, pile.last());
    vstd::seq_lib::to_multiset_update(pile, i, pile.last());
    assert(u =~= u.drop_last().push(u.last()));
    assert(u.last() == pile.last());
    assert(u.to_multiset() == u.drop_last().to_multiset().insert(pile.last()));
    assert(pile.contains(pile[i]));
    assert(pile.to_multiset().count(pile[i]) > 0);
    let d = swap_removed(pile, i);
    assert forall|c: Card| #[trigger] d.to_multiset().insert(pile[i]).count(c) == pile.to_multiset().count(c) by {
        assert(u.to_multiset().count(c) == d.to_multiset().count(c) + if c == pile.last() { 1int } else { 0int });
        assert(u.to_multiset().count(c) == pile.to_multiset().insert(pile.last()).remove(pile[i]).count(c));
    }
    assert(d.to_multiset().insert(pile[i]) =~= pile.to_multiset());
    assert(hand.push(pile[i]).to_multiset() == hand.to_multiset().insert(pile[i]));
    assert((hand.push(pile[i]) + swap_removed(pile, i)).to_multiset() =~= (hand + pile).to_multiset());
}

pub(crate) proof fn lemma_conjured_card(hand: Seq<Card>, pile: Seq<Card>, card: Card)
    ensures
        (hand.push(card) + pile).to_multiset() == (hand + pile).to_multiset().insert(card),
{
    broadcast use vstd::seq_lib::group_to_multiset_ensures;
    broadcast use vstd::seq_lib::lemma_multiset_commutative;
    broadcast use vstd::multiset::group_multiset_axioms;
    assert((hand.push(card) + pile).to_multiset() =~= (hand + pile).to_multiset().insert(card));
}

pub(crate) proof fn lemma_only_guaranteed_add(a: Multiset<Card>, b: Multiset<Card>)
    requires
        only_guaranteed(a),
        only_guaranteed(b),
    ensures
        only_guaranteed(a.add(b)),
{
    broadcast use vstd::multiset::group_multiset_axioms;
    assert forall|c: Card| #[trigger] a.add(b).count(c) > 0 implies guaranteed_rank(c.rank) by {
        if a.count(c) > 0 {
        } else {
            assert(b.count(c) > 0);
        }
    }
}

/// What one rule draw does to the cards: it moves a card from the pile
/// to the hand, or creates a card of a guaranteed rank.
pub(crate) proof fn lemma_draw_moves(
    old_pile: Seq<Card>,
    new_pile: Seq<Card>,
    rule: PlayerDrawRule,
    received: int,
    card: Card,
)
    requires
        draw_with_rule_post(old_pile, new_pile, rule, received, Ok::<Card, GameError>(card)),
    ensures
        (exists|i: int| 0 <= i < old_pile.len() && card == old_pile[i] && new_pile == swap_removed(old_pile, i))
            || (new_pile == old_pile && guaranteed_rank(card.rank)),
{
    match required_rank_spec(rule, received) {
        Some(rank) => {
            assert(guaranteed_rank(rank)) by {
                reveal_with_fuel(required_rank_spec, 1);
            }
            if has_match(old_pile, rank_is(rank)) {
                let i = choose|i: int| is_last_match(old_pile, rank_is(rank), i) && card == old_pile[i] && new_pile
                    == swap_removed(old_pile, i);
            }
        },
        None => {
            let i = choose|i: int| is_last_match(old_pile, allowed_by(rule), i) && card == old_pile[i] && new_pile
                == swap_removed(old_pile, i);
        },
    }
}



/// One draw for a seat from a pile that is not empty (so no refill): the card
/// leaves the pile, or a rule creates a guaranteed card; a plain draw takes the
/// top card; a refused draw leaves the pile alone.
pub(crate) proof fn lemma_draw_takes(old: Game, new: Game, seat: int, result: Result<Card, GameError>)
    requires
        drew_for(old, new, seat, result),
        old.draw_pile@.len() > 0,
    ensures
        result is Err ==> new.draw_pile@ == old.draw_pile@,
        result matches Ok(card) ==> ((exists|i: int|
            0 <= i < old.draw_pile@.len() && card == old.draw_pile@[i] && new.draw_pile@ == swap_removed(
                old.draw_pile@,
                i,
            )) || (new.draw_pile@ == old.draw_pile@ && guaranteed_rank(card.rank) && old.rule_state(seat) is Some)),
        old.rule_state(seat) is None ==> result == Ok::<Card, GameError>(old.draw_pile@.last())
            && new.draw_pile@ == old.draw_pile@.drop_last(),
{
    let pile = old.draw_pile@;
    match old.rule_state(seat) {
        None => {
            let p = choose|p: Seq<Card>|
                #![trigger refill_post(old.deck_variant, old.draw_pile@, p)]
                refill_post(old.deck_variant, old.draw_pile@, p) && p.len() > 0 && result == Ok::<Card, GameError>(
                    p.last(),
                ) && new.draw_pile@ == p.drop_last();
            assert(p == pile);
            assert(swap_removed(pile, pile.len() - 1) =~= pile.drop_last());
        },
        Some(state) => {
            let p = choose|p: Seq<Card>|
                #![trigger refill_post(old.deck_variant, old.draw_pile@, p)]
                refill_post(old.deck_variant, old.draw_pile@, p) && draw_with_rule_post(
                    p,
                    new.draw_pile@,
                    state.rule,
                    state.received as int,
                    result,
                );
            assert(p == pile);
            if let Ok(card) = result {
                lemma_draw_moves(pile, new.draw_pile@, state.rule, state.received as int, card);
            }
        },
    }
}

} // verus!
