//! A player's turn: playing a card (or a number batch), drawing, passing, and
//! the checks that decide which of them is allowed.

use vstd::prelude::*;
use super::cards::{
    Action, Card, Color, EventKind, GameError, GameEvent, HandEffect, PlayerId, Rank, TurnPhase,
    HAND_BATCH_SIZE,
};
use super::effects::{effect_applied, effect_frame, effect_ready};
use super::game::{Game, advanced, copy_id, drew_for, event_matches, pushed_card, same_seat_but_cards};
use super::hands::{has_number_color, number_batch_colors};
use super::rules::is_last_match;

verus! {

/// The cards numbered `number`.
pub open spec fn numbered(number: u8) -> spec_fn(Card) -> bool {
    |c: Card| c.rank == Rank::Number(number)
}

/// The cards not numbered `number`.
pub open spec fn not_numbered(number: u8) -> spec_fn(Card) -> bool {
    |c: Card| c.rank != Rank::Number(number)
}

/// The cards of color `color`.
pub open spec fn colored(color: Color) -> spec_fn(Card) -> bool {
    |c: Card| c.color == Some(color)
}

/// `i` is the first position of `card` in `cards`.
pub open spec fn is_first_occurrence(cards: Seq<Card>, card: Card, i: int) -> bool {
    &&& 0 <= i < cards.len()
    &&& cards[i] == card
    &&& forall|k: int| 0 <= k < i ==> cards[k] != card
}

/// At least two colors are present among the cards numbered `number`.
pub open spec fn multi_color_batch(hand: Seq<Card>, number: u8) -> bool {
    exists|c1: Color, c2: Color|
        c1 != c2 && #[trigger] has_number_color(hand, number, c1) && #[trigger] has_number_color(hand, number, c2)
}

/// Whether the play must name the color that becomes active: wilds always, and
/// numbers whose batch in hand has several colors.
pub open spec fn needs_color(hand: Seq<Card>, card: Card) -> bool {
    card.is_wild() || (card.rank matches Rank::Number(number) && multi_color_batch(hand, number))
}

/// A play that passes the turn, ownership and playability checks with a card
/// that names no color, needs no chosen color and gets none: there is no color
/// to make active (such a card never comes from a deck).
pub open spec fn colorless_play(g: Game, card: Card, chosen: Option<Color>) -> bool {
    let hand = g.players@[g.current_index as int].hand@;
    &&& !(g.phase matches TurnPhase::Drew(drawn) && card != drawn)
    &&& hand.contains(card)
    &&& g.playable(hand, g.players@[g.current_index as int].total(), card)
    &&& !needs_color(hand, card)
    &&& chosen is None
    &&& card.color is None
}

/// The color a valid play makes active.
pub open spec fn final_color(hand: Seq<Card>, card: Card, chosen: Option<Color>) -> Color {
    if needs_color(hand, card) {
        chosen.unwrap()
    } else {
        card.color.unwrap()
    }
}

/// The first reason a play of `card` by the current seat is refused, in the
/// order the engine checks them, or `None` when it is allowed.
pub open spec fn play_error(
    g: Game,
    player: PlayerId,
    card: Card,
    chosen: Option<Color>,
    swap_target: Option<PlayerId>,
) -> Option<GameError> {
    let p = g.players@[g.current_index as int];
    let hand = p.hand@;
    let seven = g.house_rules.seven_zero && card.rank == Rank::Number(7);
    if g.phase matches TurnPhase::Drew(drawn) && card != drawn {
        Some(GameError::DrawnCardOnly(card))
    } else if !hand.contains(card) {
        Some(GameError::CardNotOwned(card))
    } else if !g.playable(hand, p.total(), card) {
        Some(
            if card.rank == Rank::WildDrawFour {
                GameError::WildDrawFourNotAllowed
            } else {
                GameError::CardNotPlayable(card)
            },
        )
    } else if needs_color(hand, card) && chosen is None {
        Some(GameError::MissingColorChoice)
    } else if !card.is_wild() && needs_color(hand, card) && !has_number_color(
        hand,
        card.rank->0,
        chosen.unwrap(),
    ) {
        Some(GameError::InvalidNumberBatchColor(chosen.unwrap()))
    } else if !needs_color(hand, card) && chosen is Some {
        Some(GameError::UnexpectedColorChoice)
    } else if seven && swap_target is None {
        Some(GameError::MissingSwapTarget)
    } else if seven && (swap_target.unwrap().0@ == player.0@ || g.seat_of(swap_target.unwrap().0@) == -1) {
        Some(GameError::InvalidSwapTarget(swap_target.unwrap()))
    } else if !seven && swap_target is Some {
        Some(GameError::UnexpectedSwapTarget)
    } else {
        None
    }
}

/// `new` is `old` after the current seat put `card` on the discard pile and
/// made `color` active. A number card takes its whole batch along: every card
/// of that number leaves the hand, in hand order, with the last one of `color`
/// (`top`) laid last. Any other card leaves the hand at its first position.
pub open spec fn discarded(old: Game, new: Game, card: Card, color: Color, top: Card) -> bool {
    let a = old.current_index as int;
    let p = old.players@[a];
    let q = new.players@[a];
    &&& new.players@.len() == old.players@.len()
    &&& forall|k: int| 0 <= k < old.players@.len() && k != a ==> new.players@[k] == old.players@[k]
    &&& same_seat_but_cards(q, p)
    &&& q.draw_state == p.draw_state
    &&& q.virtual_len == p.virtual_len
    &&& new.draw_pile == old.draw_pile
    &&& new.direction == old.direction
    &&& new.current_index == old.current_index
    &&& new.active_color == color
    &&& new.phase == TurnPhase::AwaitingAction
    &&& new.deck_variant == old.deck_variant
    &&& new.house_rules == old.house_rules
    &&& new.refill_seed_source == old.refill_seed_source
    &&& new.events == old.events
    &&& new.winner == old.winner
    &&& match card.rank {
        Rank::Number(number) => {
            let stacked = p.hand@.filter(numbered(number));
            exists|t: int|
                #![trigger stacked[t]]
                is_last_match(stacked, colored(color), t) && top == stacked[t]
                    && q.hand@ == p.hand@.filter(not_numbered(number))
                    && new.discard_pile@ == old.discard_pile@ + stacked.remove(t) + seq![top]
        },
        _ => {
            &&& top == card
            &&& exists|i: int|
                #![trigger p.hand@.remove(i)]
                is_first_occurrence(p.hand@, card, i) && q.hand@ == p.hand@.remove(i)
            &&& new.discard_pile@ == old.discard_pile@.push(card)
        },
    }
}

/// `new` is `old` after `player` (the current seat) played `card` with the
/// given choices and `event` was reported: the card (batch) went to the discard
/// pile, then either the hand was empty and `player` won, or the rank's effect
/// took place.
pub open spec fn played(
    old: Game,
    new: Game,
    player: PlayerId,
    card: Card,
    chosen: Option<Color>,
    swap_target: Option<PlayerId>,
    event: GameEvent,
) -> bool {
    let a = old.current_index as int;
    let color = final_color(old.players@[a].hand@, card, chosen);
    let n = old.events@.len();
    let top = event.kind->card;
    let effect = event.kind->hand_effect;
    &&& event == GameEvent {
        sequence: n as u64,
        kind: EventKind::CardPlayed { player, card: top, chosen_color: chosen, hand_effect: effect },
    }
    &&& new.events@.subrange(0, n as int) == old.events@
    &&& event_matches(new.events@[n as int], event)
    &&& new.phase == TurnPhase::AwaitingAction
    &&& new.active_color == color
    &&& new.deck_variant == old.deck_variant
    &&& new.house_rules == old.house_rules
    &&& new.refill_seed_source == old.refill_seed_source
    &&& exists|mid: Game|
        #[trigger] discarded(old, mid, card, color, top) && if mid.players@[a].total() == 0 {
            &&& effect is None
            &&& new.players == mid.players
            &&& new.draw_pile == mid.draw_pile
            &&& new.discard_pile == mid.discard_pile
            &&& new.direction == mid.direction
            &&& new.current_index == mid.current_index
            &&& new.winner == Some(player)
            &&& new.events@.len() == n + 2
            &&& new.events@[n as int + 1] == (GameEvent { sequence: (n + 1) as u64, kind: EventKind::GameWon { player } })
        } else {
            &&& effect_applied(mid, new, top, swap_target, effect)
            &&& new.winner == old.winner
            &&& new.events@.len() == n + 1
        }
}

/// The first position of `card` in `cards`, if any.
pub fn position_of(cards: &Vec<Card>, card: Card) -> (index: Option<usize>)
    ensures
        match index {
            Some(i) => is_first_occurrence(cards@, card, i as int),
            None => !cards@.contains(card),
        },
{
    let mut i: usize = 0;
    while i < cards.len()
        invariant
            i <= cards@.len(),
            forall|k: int| 0 <= k < i ==> cards@[k] != card,
        decreases cards@.len() - i,
    {
        if cards[i] == card {
            return Some(i);
        }
        i += 1;
    }
    None
}

/// Whether `colors` holds `color`.
fn holds_color(colors: &Vec<Color>, color: Color) -> (held: bool)
    ensures
        held == colors@.contains(color),
{
    let mut i: usize = 0;
    while i < colors.len()
        invariant
            i <= colors@.len(),
            forall|k: int| 0 <= k < i ==> colors@[k] != color,
        decreases colors@.len() - i,
    {
        if colors[i] == color {
            proof {
                assert(colors@[i as int] == color);
            }
            return true;
        }
        i += 1;
    }
    false
}

/// Splits `hand` into the cards numbered `number` and the others, each in hand
/// order.
fn split_number_batch(hand: &Vec<Card>, number: u8) -> (parts: (Vec<Card>, Vec<Card>))
    ensures
        parts.0@ == hand@.filter(numbered(number)),
        parts.1@ == hand@.filter(not_numbered(number)),
{
    let mut stacked: Vec<Card> = Vec::new();
    let mut kept: Vec<Card> = Vec::new();
    let mut i: usize = 0;
    while i < hand.len()
        invariant
            i <= hand@.len(),
            stacked@ == hand@.subrange(0, i as int).filter(numbered(number)),
            kept@ == hand@.subrange(0, i as int).filter(not_numbered(number)),
        decreases hand@.len() - i,
    {
        let card = hand[i];
        proof {
            let prefix = hand@.subrange(0, i + 1);
            assert(prefix.drop_last() =~= hand@.subrange(0, i as int));
            assert(prefix.last() == card);
            reveal_with_fuel(Seq::filter, 1);
        }
        if card.rank == Rank::Number(number) {
            stacked.push(card);
        } else {
            kept.push(card);
        }
        i += 1;
    }
    proof {
        assert(hand@.subrange(0, hand@.len() as int) =~= hand@);
    }
    (stacked, kept)
}

/// The last position in `cards` of a card of color `color`, if any.
fn last_of_color(cards: &Vec<Card>, color: Color) -> (index: Option<usize>)
    ensures
        match index {
            Some(t) => is_last_match(cards@, colored(color), t as int),
            None => forall|k: int| 0 <= k < cards@.len() ==> !(colored(color))(#[trigger] cards@[k]),
        },
{
    let mut i: usize = cards.len();
    while i > 0
        invariant
            i <= cards@.len(),
            forall|k: int| i <= k < cards@.len() ==> !(colored(color))(#[trigger] cards@[k]),
        decreases i,
    {
        if cards[i - 1].color == Some(color) {
            return Some(i - 1);
        }
        i -= 1;
    }
    None
}

impl Game {
    /// Runs the checks of a play in order and returns the color it will make
    /// active; see `play_error` and `final_color`.
    fn check_play(
        &self,
        player: &PlayerId,
        card: Card,
        chosen_color: Option<Color>,
        swap_target: &Option<PlayerId>,
    ) -> (result: Result<Color, GameError>)
        requires
            self.wf(),
            self.is_turn_of(player.0@),
            !colorless_play(*self, card, chosen_color),
        ensures
            match play_error(*self, *player, card, chosen_color, *swap_target) {
                Some(e) => result == Err::<Color, GameError>(e),
                None => result == Ok::<Color, GameError>(
                    final_color(self.players@[self.current_index as int].hand@, card, chosen_color),
                ),
            },
    {
        if let TurnPhase::Drew(drawn) = self.phase {
            if card != drawn {
                return Err(GameError::DrawnCardOnly(card));
            }
        }
        let actor = self.current_index;
        let ghost p = self.players@[actor as int];
        let first = position_of(&self.players[actor].hand, card);
        if first.is_none() {
            return Err(GameError::CardNotOwned(card));
        }
        proof {
            assert(p.hand@.contains(card)) by {
                assert(p.hand@[first.unwrap() as int] == card);
            }
        }
        let total_len = self.players[actor].hand_len();
        if !self.is_playable_for(self.players[actor].hand.as_slice(), total_len, card) {
            return Err(
                if card.rank == Rank::WildDrawFour {
                    GameError::WildDrawFourNotAllowed
                } else {
                    GameError::CardNotPlayable(card)
                },
            );
        }
        let number_colors = match card.rank {
            Rank::Number(number) => number_batch_colors(self.players[actor].hand.as_slice(), number),
            _ => Vec::new(),
        };
        proof {
            if let Rank::Number(number) = card.rank {
                if number_colors@.len() > 1 {
                    assert(number_colors@.contains(number_colors@[0]));
                    assert(number_colors@.contains(number_colors@[1]));
                    assert(has_number_color(p.hand@, number, number_colors@[0]));
                    assert(has_number_color(p.hand@, number, number_colors@[1]));
                    assert(multi_color_batch(p.hand@, number));
                }
                if multi_color_batch(p.hand@, number) {
                    let (c1, c2) = choose|c1: Color, c2: Color|
                        c1 != c2 && #[trigger] has_number_color(p.hand@, number, c1) && #[trigger] has_number_color(
                            p.hand@,
                            number,
                            c2,
                        );
                    assert(number_colors@.contains(c1));
                    assert(number_colors@.contains(c2));
                    assert(number_colors@.len() > 1);
                }
            }
        }
        let final_color = if card.is_wild() {
            match chosen_color {
                Some(color) => color,
                None => return Err(GameError::MissingColorChoice),
            }
        } else if number_colors.len() > 1 {
            let chosen = match chosen_color {
                Some(color) => color,
                None => return Err(GameError::MissingColorChoice),
            };
            if !holds_color(&number_colors, chosen) {
                return Err(GameError::InvalidNumberBatchColor(chosen));
            }
            chosen
        } else {
            if chosen_color.is_some() {
                return Err(GameError::UnexpectedColorChoice);
            }
            card.color.unwrap()
        };
        let requires_swap_target = self.house_rules.seven_zero && card.rank == Rank::Number(7);
        if requires_swap_target {
            match swap_target {
                None => return Err(GameError::MissingSwapTarget),
                Some(target) => {
                    if *target == *player || self.player_index(target).is_err() {
                        return Err(GameError::InvalidSwapTarget(copy_id(target)));
                    }
                },
            }
        } else if swap_target.is_some() {
            return Err(GameError::UnexpectedSwapTarget);
        }
        Ok(final_color)
    }

    /// Removes every card numbered `number` from the current seat's hand and lays
    /// them on the discard pile in hand order, the last one of `color` last.
    fn discard_batch(&mut self, number: u8, color: Color) -> (top: Card)
        requires
            old(self).wf(),
            has_number_color(old(self).players@[old(self).current_index as int].hand@, number, color),
        ensures
            final(self).wf(),
            only_hand_and_discard(*old(self), *final(self)),
            top.rank == Rank::Number(number),
            ({
                let a = old(self).current_index as int;
                let p = old(self).players@[a];
                let stacked = p.hand@.filter(numbered(number));
                exists|t: int|
                    #![trigger stacked[t]]
                    is_last_match(stacked, colored(color), t) && top == stacked[t]
                        && final(self).players@[a].hand@ == p.hand@.filter(not_numbered(number))
                        && final(self).discard_pile@ == old(self).discard_pile@ + stacked.remove(t) + seq![top]
            }),
    {
        let actor = self.current_index;
        let ghost p = self.players@[actor as int];
        let (mut stacked, kept) = split_number_batch(&self.players[actor].hand, number);
        let ghost batch = stacked@;
        proof {
            broadcast use vstd::seq_lib::group_filter_ensures;
            let j = choose|j: int| 0 <= j < p.hand@.len() && #[trigger] p.hand@[j].rank == Rank::Number(number)
                && p.hand@[j].color == Some(color);
            assert((numbered(number))(p.hand@[j]));
            assert(batch.contains(p.hand@[j]));
            let k = choose|k: int| 0 <= k < batch.len() && batch[k] == p.hand@[j];
            assert((colored(color))(batch[k]));
            assert(kept@.len() <= p.hand@.len());
        }
        let top_index = last_of_color(&stacked, color).unwrap();
        proof {
            broadcast use vstd::seq_lib::group_filter_ensures;
            assert((numbered(number))(batch[top_index as int]));
        }
        let top = stacked.remove(top_index);
        self.players[actor].hand = kept;
        self.discard_pile.append(&mut stacked);
        self.discard_pile.push(top);
        proof {
            assert(is_last_match(batch, colored(color), top_index as int));
            assert forall|i: int| 0 <= i < self.players@.len() implies (#[trigger] self.players@[i]).hand@.len() <= HAND_BATCH_SIZE by {
                if i != actor {
                    assert(self.players@[i] == old(self).players@[i]);
                }
            }
            assert forall|i: int, j: int| 0 <= i < j < self.players@.len() implies self.players@[i].id.0@ != self.players@[j].id.0@ by {
                assert(self.players@[i].id == old(self).players@[i].id);
                assert(self.players@[j].id == old(self).players@[j].id);
            }
        }
        top
    }

    /// Moves the first copy of `card` from the current seat's hand onto the
    /// discard pile.
    fn discard_single(&mut self, card: Card)
        requires
            old(self).wf(),
            old(self).players@[old(self).current_index as int].hand@.contains(card),
        ensures
            final(self).wf(),
            only_hand_and_discard(*old(self), *final(self)),
            ({
                let a = old(self).current_index as int;
                let p = old(self).players@[a];
                &&& exists|i: int|
                    #![trigger p.hand@.remove(i)]
                    is_first_occurrence(p.hand@, card, i) && final(self).players@[a].hand@ == p.hand@.remove(i)
                &&& final(self).players@[a].hand@.len() == p.hand@.len() - 1
                &&& final(self).discard_pile@ == old(self).discard_pile@.push(card)
            }),
    {
        let actor = self.current_index;
        let ghost p = self.players@[actor as int];
        let index = position_of(&self.players[actor].hand, card).unwrap();
        self.players[actor].hand.remove(index);
        self.discard_pile.push(card);
        proof {
            assert(is_first_occurrence(p.hand@, card, index as int));
            assert forall|i: int| 0 <= i < self.players@.len() implies (#[trigger] self.players@[i]).hand@.len() <= HAND_BATCH_SIZE by {
                if i != actor {
                    assert(self.players@[i] == old(self).players@[i]);
                }
            }
            assert forall|i: int, j: int| 0 <= i < j < self.players@.len() implies self.players@[i].id.0@ != self.players@[j].id.0@ by {
                assert(self.players@[i].id == old(self).players@[i].id);
                assert(self.players@[j].id == old(self).players@[j].id);
            }
        }
    }
}

impl Game {
    /// Plays `card` for `player`, whose turn it is in a game nobody has won: the
    /// checks of `play_error` in order, then the discard (`discarded`), the win
    /// or the card's effect, and the `CardPlayed` event (and `GameWon`).
    #[verifier::rlimit(60)]
    #[verifier::spinoff_prover]
    pub fn play(
        &mut self,
        player: &PlayerId,
        card: Card,
        chosen_color: Option<Color>,
        swap_target: Option<PlayerId>,
    ) -> (result: Result<GameEvent, GameError>)
        requires
            old(self).wf(),
            old(self).is_turn_of(player.0@),
            old(self).winner is None,
            !colorless_play(*old(self), card, chosen_color),
        ensures
            final(self).wf(),
            play_outcome(*old(self), *final(self), *player, card, chosen_color, swap_target, result),
    {
        let color = self.check_play(player, card, chosen_color, &swap_target)?;
        let actor = self.current_index;
        let ghost p = self.players@[actor as int];
        let ghost n = self.events@.len();
        proof {
            self.lemma_seat_unique(player.0@, actor as int);
            if let Rank::Number(number) = card.rank {
                if !needs_color(p.hand@, card) {
                    let i = choose|i: int| 0 <= i < p.hand@.len() && p.hand@[i] == card;
                    assert(p.hand@[i].rank == Rank::Number(number) && p.hand@[i].color == Some(color));
                }
            }
        }
        let top = match card.rank {
            Rank::Number(number) => self.discard_batch(number, color),
            _ => {
                self.discard_single(card);
                card
            },
        };
        self.active_color = color;
        self.phase = TurnPhase::AwaitingAction;
        let ghost mid = *self;
        proof {
            assert(discarded(*old(self), mid, card, color, top));
            let q = self.players@[actor as int];
            if swap_target is Some && self.house_rules.seven_zero && card.rank == Rank::Number(7) {
                let target = swap_target.unwrap();
                let i = old(self).seat_of(target.0@);
                assert(0 <= i < old(self).players@.len() && old(self).players@[i].id.0@ == target.0@);
                assert(self.players@[i].id == old(self).players@[i].id);
                self.lemma_seat_unique(target.0@, i);
            }
            if card.rank == Rank::WildDiscardThirtyTwo || card.rank == Rank::WildDiscardSixtyFour {
                assert(p.total() >= 66);
            }
        }
        let won = self.players[actor].hand_len() == 0;
        let effect = if won {
            None
        } else {
            self.apply_card_effect(top, swap_target)
        };
        let ghost applied = effect;
        let ghost after_effect = *self;
        let event = self.push_event(
            EventKind::CardPlayed { player: copy_id(player), card: top, chosen_color, hand_effect: effect },
        );
        if won {
            self.winner = Some(copy_id(player));
            self.push_event(EventKind::GameWon { player: copy_id(player) });
        }
        proof {
            assert(after_effect.events@.len() == n);
            assert(self.events@.subrange(0, n as int) =~= old(self).events@) by {
                if won {
                    assert(self.events@.subrange(0, n as int) =~= self.events@.subrange(0, n as int + 1).subrange(0, n as int));
                }
            }
            assert(self.events@.subrange(0, n as int + 1)[n as int] == self.events@[n as int]);
            assert(event_matches(self.events@[n as int], event));
            assert(discarded(*old(self), mid, card, color, top));
        }
        Ok(event)
    }
}

impl Game {
    /// Draws one card for `player`, whose turn it is in a game nobody has won;
    /// see `draw_outcome`.
    pub fn draw(&mut self, player: &PlayerId) -> (result: Result<GameEvent, GameError>)
        requires
            old(self).wf(),
            old(self).is_turn_of(player.0@),
        ensures
            final(self).wf(),
            draw_outcome(*old(self), *final(self), *player, result),
    {
        if let TurnPhase::Drew(_) = self.phase {
            return Err(GameError::AlreadyDrew);
        }
        let actor = self.current_index;
        proof {
            self.lemma_seat_unique(player.0@, actor as int);
        }
        let card = self.draw_card_for(player)?;
        let ghost mid = *self;
        self.push_concrete_card(actor, card);
        self.phase = TurnPhase::Drew(card);
        let event = self.push_event(EventKind::CardDrawn { player: copy_id(player), count: 1 });
        proof {
            assert(drew_for(*old(self), mid, actor as int, Ok(card)));
            assert(self.events@ =~= old(self).events@.push(self.events@.last()));
        }
        Ok(event)
    }

    /// Ends `player`'s turn (whose turn it is in a game nobody has won); see
    /// `pass_outcome`.
    pub fn pass(&mut self, player: &PlayerId) -> (result: Result<GameEvent, GameError>)
        requires
            old(self).wf(),
            old(self).is_turn_of(player.0@),
        ensures
            final(self).wf(),
            pass_outcome(*old(self), *final(self), *player, result),
    {
        let drew = match self.phase {
            TurnPhase::Drew(_) => true,
            TurnPhase::AwaitingAction => false,
        };
        if !drew && self.can_draw_card_for(player) {
            return Err(GameError::CannotPassBeforeDrawing);
        }
        self.phase = TurnPhase::AwaitingAction;
        self.advance_turn(1);
        let event = self.push_event(EventKind::TurnPassed { player: copy_id(player) });
        proof {
            assert(self.events@ =~= old(self).events@.push(self.events@.last()));
        }
        Ok(event)
    }

    /// Applies `action` for `player`: refused for an unknown player, out of
    /// turn, or once the game is won; otherwise the play, draw or pass.
    pub fn apply_action(&mut self, player: &PlayerId, action: Action) -> (result: Result<GameEvent, GameError>)
        requires
            old(self).wf(),
            action matches Action::Play { card, chosen_color, .. } ==> (old(self).is_turn_of(player.0@)
                && old(self).winner is None ==> !colorless_play(*old(self), card, chosen_color)),
        ensures
            final(self).wf(),
            old(self).seat_of(player.0@) == -1 ==> result == Err::<GameEvent, GameError>(GameError::UnknownPlayer(*player))
                && *final(self) == *old(self),
            old(self).seat_of(player.0@) != -1 && !old(self).is_turn_of(player.0@) ==> result == Err::<GameEvent, GameError>(
                GameError::NotPlayerTurn(*player),
            ) && *final(self) == *old(self),
            old(self).is_turn_of(player.0@) && old(self).winner is Some ==> result == Err::<GameEvent, GameError>(
                GameError::GameAlreadyWon,
            ) && *final(self) == *old(self),
            old(self).is_turn_of(player.0@) && old(self).winner is None ==> match action {
                Action::Play { card, chosen_color, swap_target } => play_outcome(
                    *old(self),
                    *final(self),
                    *player,
                    card,
                    chosen_color,
                    swap_target,
                    result,
                ),
                Action::Draw => draw_outcome(*old(self), *final(self), *player, result),
                Action::Pass => pass_outcome(*old(self), *final(self), *player, result),
            },
    {
        self.ensure_turn(player)?;
        if self.winner.is_some() {
            return Err(GameError::GameAlreadyWon);
        }
        match action {
            Action::Play { card, chosen_color, swap_target } => self.play(player, card, chosen_color, swap_target),
            Action::Draw => self.draw(player),
            Action::Pass => self.pass(player),
        }
    }
}

/// What playing `card` does: refused with the first error of `play_error` and
/// nothing changed, or `played`.
pub open spec fn play_outcome(
    old: Game,
    new: Game,
    player: PlayerId,
    card: Card,
    chosen: Option<Color>,
    swap_target: Option<PlayerId>,
    result: Result<GameEvent, GameError>,
) -> bool {
    match play_error(old, player, card, chosen, swap_target) {
        Some(e) => result == Err::<GameEvent, GameError>(e) && new == old,
        None => result matches Ok(event) && played(old, new, player, card, chosen, swap_target, event),
    }
}

/// What drawing does: refused with `AlreadyDrew` after a draw this turn;
/// otherwise one card is drawn for the current seat (`drew_for`). A failed draw
/// reports its error; a card joins the hand, the phase remembers it, and a
/// `CardDrawn` event of one card is logged.
pub open spec fn draw_outcome(old: Game, new: Game, player: PlayerId, result: Result<GameEvent, GameError>) -> bool {
    let a = old.current_index as int;
    if old.phase is Drew {
        result == Err::<GameEvent, GameError>(GameError::AlreadyDrew) && new == old
    } else {
        exists|mid: Game, drawn: Result<Card, GameError>|
            #[trigger] drew_for(old, mid, a, drawn) && match drawn {
                Err(e) => result == Err::<GameEvent, GameError>(e) && new == mid,
                Ok(card) => {
                    let event = GameEvent {
                        sequence: old.events@.len() as u64,
                        kind: EventKind::CardDrawn { player, count: 1 },
                    };
                    &&& result == Ok::<GameEvent, GameError>(event)
                    &&& pushed_card(mid, new, a, card)
                    &&& new.phase == TurnPhase::Drew(card)
                    &&& new.events@ == old.events@.push(event)
                    &&& new.discard_pile == mid.discard_pile
                    &&& new.winner == mid.winner
                    &&& new.active_color == mid.active_color
                    &&& new.direction == mid.direction
                    &&& new.current_index == mid.current_index
                    &&& new.deck_variant == mid.deck_variant
                    &&& new.house_rules == mid.house_rules
                    &&& new.refill_seed_source == mid.refill_seed_source
                },
            }
    }
}

/// What passing does: refused with `CannotPassBeforeDrawing` while the player
/// has not drawn this turn and still could; otherwise the turn moves on and a
/// `TurnPassed` event is logged.
pub open spec fn pass_outcome(old: Game, new: Game, player: PlayerId, result: Result<GameEvent, GameError>) -> bool {
    let n = old.players@.len() as int;
    if !(old.phase is Drew) && old.can_draw_spec(player.0@) {
        result == Err::<GameEvent, GameError>(GameError::CannotPassBeforeDrawing) && new == old
    } else {
        let event = GameEvent { sequence: old.events@.len() as u64, kind: EventKind::TurnPassed { player } };
        &&& result == Ok::<GameEvent, GameError>(event)
        &&& new.events@ == old.events@.push(event)
        &&& new.phase == TurnPhase::AwaitingAction
        &&& new.current_index == advanced(old.current_index as int, n, old.direction, 1)
        &&& new.players == old.players
        &&& new.draw_pile == old.draw_pile
        &&& new.discard_pile == old.discard_pile
        &&& new.winner == old.winner
        &&& new.active_color == old.active_color
        &&& new.direction == old.direction
        &&& new.deck_variant == old.deck_variant
        &&& new.house_rules == old.house_rules
        &&& new.refill_seed_source == old.refill_seed_source
    }
}

/// Only the current seat's held identities and the discard pile differ.
pub open spec fn only_hand_and_discard(old: Game, new: Game) -> bool {
    let a = old.current_index as int;
    let p = old.players@[a];
    let q = new.players@[a];
    &&& new.players@.len() == old.players@.len()
    &&& forall|k: int| 0 <= k < old.players@.len() && k != a ==> new.players@[k] == old.players@[k]
    &&& same_seat_but_cards(q, p)
    &&& q.draw_state == p.draw_state
    &&& q.virtual_len == p.virtual_len
    &&& new.draw_pile == old.draw_pile
    &&& new.direction == old.direction
    &&& new.current_index == old.current_index
    &&& new.active_color == old.active_color
    &&& new.phase == old.phase
    &&& new.deck_variant == old.deck_variant
    &&& new.house_rules == old.house_rules
    &&& new.refill_seed_source == old.refill_seed_source
    &&& new.events == old.events
    &&& new.winner == old.winner
}

} // verus!
