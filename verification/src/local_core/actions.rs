//! The list of actions a player may take now.

use vstd::prelude::*;
use super::cards::{
    Action, Card, Color, GameError, PlayerId, Rank, TurnPhase, distinct_sorted, sorted_distinct,
};
use super::game::{Game, Player, copy_id};
use super::hands::{color_order, number_batch_colors, present_in_batch};
use super::turns::multi_color_batch;

verus! {

/// The colors a play of `card` may name: every color for a wild, each present
/// color of a multi-colored number batch, otherwise none.
pub open spec fn color_choices(hand: Seq<Card>, card: Card) -> Seq<Option<Color>> {
    if card.is_wild() {
        color_order().map_values(|c: Color| Some(c))
    } else if card.rank matches Rank::Number(number) && multi_color_batch(hand, number) {
        color_order().filter(present_in_batch(hand, card.rank->0)).map_values(|c: Color| Some(c))
    } else {
        seq![None]
    }
}

/// The seats other than `player`'s, in seat order.
pub open spec fn other_seat(player: PlayerId) -> spec_fn(Player) -> bool {
    |p: Player| p.id.0@ != player.0@
}

/// The swap targets a play of `card` may name: every other player for a seven
/// under the seven-zero rule, otherwise none.
pub open spec fn swap_choices(g: Game, player: PlayerId, card: Card) -> Seq<Option<PlayerId>> {
    if g.house_rules.seven_zero && card.rank == Rank::Number(7) {
        g.players@.filter(other_seat(player)).map_values(|p: Player| Some(p.id))
    } else {
        seq![None]
    }
}

/// The plays of `card` naming color choice `c`, one per swap target.
pub open spec fn plays_with_color(g: Game, player: PlayerId, card: Card) -> spec_fn(Option<Color>) -> Seq<Action> {
    |c: Option<Color>|
        swap_choices(g, player, card).map_values(
            |t: Option<PlayerId>| Action::Play { card, chosen_color: c, swap_target: t },
        )
}

/// Every play of `card`: each color choice with each swap target.
pub open spec fn card_plays(g: Game, player: PlayerId, hand: Seq<Card>, card: Card) -> Seq<Action> {
    color_choices(hand, card).flat_map(plays_with_color(g, player, card))
}

/// The plays of each card.
pub open spec fn plays_of_card(g: Game, player: PlayerId, hand: Seq<Card>) -> spec_fn(Card) -> Seq<Action> {
    |card: Card| card_plays(g, player, hand, card)
}

/// The cards that may be played now, in ascending card order: the playable
/// distinct cards of the hand, or only the drawn card after a draw.
pub open spec fn legal_cards(g: Game, hand: Seq<Card>, total: int, cards: Seq<Card>) -> bool {
    match g.phase {
        TurnPhase::AwaitingAction => sorted_distinct(cards) && forall|c: Card|
            cards.contains(c) <==> (hand.contains(c) && g.playable(hand, total, c)),
        TurnPhase::Drew(drawn) => cards == if g.playable(hand, total, drawn) {
            seq![drawn]
        } else {
            Seq::<Card>::empty()
        },
    }
}

/// The last action offered: drawing while the player has not drawn and still
/// can, passing otherwise.
pub open spec fn closing_action(g: Game, player: PlayerId) -> Action {
    if g.phase is AwaitingAction && g.can_draw_spec(player.0@) {
        Action::Draw
    } else {
        Action::Pass
    }
}

impl Game {
    /// The plays of `card` for the current seat.
    fn plays_of(&self, player: &PlayerId, card: Card, others: &Vec<Option<PlayerId>>) -> (plays: Vec<Action>)
        requires
            self.wf(),
            others@ == self.players@.filter(other_seat(*player)).map_values(|p: Player| Some(p.id)),
        ensures
            plays@ == card_plays(*self, *player, self.players@[self.current_index as int].hand@, card),
    {
        let ghost hand = self.players@[self.current_index as int].hand@;
        let hand_ref = &self.players[self.current_index].hand;
        let mut colors: Vec<Option<Color>> = Vec::new();
        if card.is_wild() {
            colors.push(Some(Color::Red));
            colors.push(Some(Color::Yellow));
            colors.push(Some(Color::Green));
            colors.push(Some(Color::Blue));
            proof {
                assert(colors@ =~= color_order().map_values(|c: Color| Some(c)));
            }
        } else {
            let mut multi = false;
            if let Rank::Number(number) = card.rank {
                let present = number_batch_colors(hand_ref.as_slice(), number);
                proof {
                    broadcast use vstd::seq_lib::group_filter_ensures;
                    if present@.len() > 1 {
                        assert(present@.contains(present@[0]));
                        assert(present@.contains(present@[1]));
                        assert(has_two(hand, number, present@[0], present@[1]));
                    }
                    if multi_color_batch(hand, number) {
                        let (c1, c2) = choose|c1: Color, c2: Color|
                            c1 != c2 && #[trigger] super::hands::has_number_color(hand, number, c1)
                                && #[trigger] super::hands::has_number_color(hand, number, c2);
                        assert((present_in_batch(hand, number))(c1));
                        assert((present_in_batch(hand, number))(c2));
                        assert(present@.contains(c1));
                        assert(present@.contains(c2));
                    }
                }
                if present.len() > 1 {
                    multi = true;
                    let mut k: usize = 0;
                    while k < present.len()
                        invariant
                            k <= present@.len(),
                            colors@ == present@.take(k as int).map_values(|c: Color| Some(c)),
                        decreases present@.len() - k,
                    {
                        colors.push(Some(present[k]));
                        proof {
                            assert(present@.take(k + 1) =~= present@.take(k as int).push(present@[k as int]));
                            assert(colors@ =~= present@.take(k + 1).map_values(|c: Color| Some(c)));
                        }
                        k += 1;
                    }
                    proof {
                        assert(present@.take(present@.len() as int) =~= present@);
                    }
                }
            }
            if !multi {
                colors.push(None);
                proof {
                    assert(colors@ =~= seq![None]);
                }
            }
        }
        assert(colors@ == color_choices(hand, card));
        let seven = self.house_rules.seven_zero && card.rank == Rank::Number(7);
        let mut targets: Vec<Option<PlayerId>> = Vec::new();
        if seven {
            let mut k: usize = 0;
            while k < others.len()
                invariant
                    k <= others@.len(),
                    targets@ == others@.take(k as int),
                decreases others@.len() - k,
            {
                targets.push(super::game::copy_optional_id(&others[k]));
                proof {
                    assert(targets@ =~= others@.take(k + 1));
                }
                k += 1;
            }
            proof {
                assert(others@.take(others@.len() as int) =~= others@);
            }
        } else {
            targets.push(None);
        }
        proof {
            assert(targets@ =~= swap_choices(*self, *player, card));
        }
        let ghost outer = plays_with_color(*self, *player, card);
        let mut plays: Vec<Action> = Vec::new();
        let mut i: usize = 0;
        while i < colors.len()
            invariant
                i <= colors@.len(),
                colors@ == color_choices(hand, card),
                targets@ == swap_choices(*self, *player, card),
                outer == plays_with_color(*self, *player, card),
                plays@ == colors@.take(i as int).map_values(outer).flatten(),
            decreases colors@.len() - i,
        {
            let ghost before = plays@;
            let ghost row = swap_choices(*self, *player, card).map_values(
                |t: Option<PlayerId>| Action::Play { card, chosen_color: colors@[i as int], swap_target: t },
            );
            assert((outer)(colors@[i as int]) == row);
            let mut j: usize = 0;
            while j < targets.len()
                invariant
                    i < colors@.len(),
                    j <= targets@.len(),
                    targets@ == swap_choices(*self, *player, card),
                    plays@ == before + row.take(j as int),
                    row.len() == targets@.len(),
                    row == swap_choices(*self, *player, card).map_values(
                        |t: Option<PlayerId>| Action::Play { card, chosen_color: colors@[i as int], swap_target: t },
                    ),
                decreases targets@.len() - j,
            {
                plays.push(Action::Play {
                    card,
                    chosen_color: colors[i],
                    swap_target: super::game::copy_optional_id(&targets[j]),
                });
                proof {
                    assert(row[j as int] == Action::Play { card, chosen_color: colors@[i as int], swap_target: targets@[j as int] });
                    assert(row.take(j + 1) =~= row.take(j as int).push(row[j as int]));
                    assert(plays@ =~= before + row.take(j + 1));
                }
                j += 1;
            }
            proof {
                assert(row.take(targets@.len() as int) =~= row);
                assert(colors@.take(i + 1).map_values(outer) =~= colors@.take(i as int).map_values(outer).push(
                    (outer)(colors@[i as int]),
                ));
                colors@.take(i as int).map_values(outer).lemma_flatten_push((outer)(colors@[i as int]));
            }
            i += 1;
        }
        proof {
            assert(colors@.take(colors@.len() as int) =~= colors@);
        }
        plays
    }

    /// The seats other than `player`'s, as swap targets.
    fn other_seats(&self, player: &PlayerId) -> (others: Vec<Option<PlayerId>>)
        ensures
            others@ == self.players@.filter(other_seat(*player)).map_values(|p: Player| Some(p.id)),
    {
        let mut others: Vec<Option<PlayerId>> = Vec::new();
        let mut k: usize = 0;
        while k < self.players.len()
            invariant
                k <= self.players@.len(),
                others@ == self.players@.take(k as int).filter(other_seat(*player)).map_values(|p: Player| Some(p.id)),
            decreases self.players@.len() - k,
        {
            let ghost before = others@;
            if self.players[k].id != *player {
                others.push(Some(copy_id(&self.players[k].id)));
            }
            proof {
                let prefix = self.players@.take(k + 1);
                assert(prefix.drop_last() =~= self.players@.take(k as int));
                assert(prefix.last() == self.players@[k as int]);
                reveal_with_fuel(Seq::filter, 1);
                assert(others@ =~= prefix.filter(other_seat(*player)).map_values(|p: Player| Some(p.id)));
            }
            k += 1;
        }
        proof {
            assert(self.players@.take(self.players@.len() as int) =~= self.players@);
        }
        others
    }

    /// Every action `player` may take now, in a fixed order: for each legal card
    /// in ascending order, each color choice with each swap target; then drawing
    /// or passing.
    pub fn legal_actions(&self, player: &PlayerId) -> (result: Result<Vec<Action>, GameError>)
        requires
            self.wf(),
        ensures
            self.seat_of(player.0@) == -1 ==> result == Err::<Vec<Action>, GameError>(GameError::UnknownPlayer(*player)),
            self.seat_of(player.0@) != -1 && !self.is_turn_of(player.0@) ==> result == Err::<Vec<Action>, GameError>(
                GameError::NotPlayerTurn(*player),
            ),
            self.is_turn_of(player.0@) && self.winner is Some ==> result == Err::<Vec<Action>, GameError>(
                GameError::GameAlreadyWon,
            ),
            self.is_turn_of(player.0@) && self.winner is None ==> (result matches Ok(actions) && offered(
                *self,
                *player,
                actions@,
            )),
    {
        self.ensure_turn(player)?;
        if self.winner.is_some() {
            return Err(GameError::GameAlreadyWon);
        }
        let actor = self.current_index;
        let ghost p = self.players@[actor as int];
        let hand = &self.players[actor].hand;
        let total = self.players[actor].hand_len();
        let mut cards: Vec<Card> = Vec::new();
        match self.phase {
            TurnPhase::AwaitingAction => {
                let kinds = distinct_sorted(hand.as_slice());
                let mut k: usize = 0;
                while k < kinds.len()
                    invariant
                        self.wf(),
                        p == self.players@[self.current_index as int],
                        actor == self.current_index,
                        total as int == p.total(),
                        hand@ == p.hand@,
                        k <= kinds@.len(),
                        sorted_distinct(kinds@),
                        forall|i: int, j: int| 0 <= i < j < cards@.len() ==> super::cards::card_key(cards@[i])
                            < super::cards::card_key(cards@[j]),
                        forall|i: int| 0 <= i < cards@.len() ==> exists|j: int| 0 <= j < k && kinds@[j] == #[trigger] cards@[i],
                        forall|c: Card| cards@.contains(c) <==> (kinds@.take(k as int).contains(c) && self.playable(p.hand@, total as int, c)),
                    decreases kinds@.len() - k,
                {
                    let card = kinds[k];
                    let ghost before = cards@;
                    if self.is_playable_for(hand.as_slice(), total, card) {
                        cards.push(card);
                    }
                    proof {
                        assert(kinds@.take(k + 1) =~= kinds@.take(k as int).push(card));
                        assert forall|i: int| 0 <= i < cards@.len() implies exists|j: int| 0 <= j < k + 1 && kinds@[j] == #[trigger] cards@[i] by {
                            if i < before.len() {
                                let j = choose|j: int| 0 <= j < k && #[trigger] kinds@[j] == before[i];
                                assert(kinds@[j] == cards@[i]);
                            } else {
                                assert(kinds@[k as int] == cards@[i]);
                            }
                        }
                        assert forall|i: int, j: int| 0 <= i < j < cards@.len() implies super::cards::card_key(cards@[i])
                            < super::cards::card_key(cards@[j]) by {
                            if j == cards@.len() - 1 && cards@.len() > before.len() {
                                let m = choose|m: int| 0 <= m < k && #[trigger] kinds@[m] == before[i];
                                assert(kinds@[m] == cards@[i]);
                            }
                        }
                        assert forall|c: Card| cards@.contains(c) <==> (kinds@.take(k + 1).contains(c) && self.playable(p.hand@, total as int, c)) by {
                            if cards@.contains(c) && !before.contains(c) {
                                assert(c == card);
                                assert(kinds@.take(k + 1)[k as int] == c);
                            }
                            if before.contains(c) {
                                let m = choose|m: int| 0 <= m < before.len() && #[trigger] before[m] == c;
                                assert(cards@[m] == c);
                            }
                            if kinds@.take(k + 1).contains(c) && self.playable(p.hand@, total as int, c) {
                                let m = choose|m: int| 0 <= m < k + 1 && #[trigger] kinds@.take(k + 1)[m] == c;
                                if m < k {
                                    assert(kinds@.take(k as int)[m] == c);
                                } else {
                                    assert(cards@[cards@.len() - 1] == c);
                                }
                            }
                        }
                    }
                    k += 1;
                }
                proof {
                    assert(kinds@.take(kinds@.len() as int) =~= kinds@);
                }
            },
            TurnPhase::Drew(drawn) => {
                if self.is_playable_for(hand.as_slice(), total, drawn) {
                    cards.push(drawn);
                }
                proof {
                    assert(cards@ =~= if self.playable(p.hand@, total as int, drawn) {
                        seq![drawn]
                    } else {
                        Seq::<Card>::empty()
                    });
                }
            },
        }
        proof {
            assert(legal_cards(*self, p.hand@, p.total(), cards@));
        }
        let others = self.other_seats(player);
        let ghost per_card = plays_of_card(*self, *player, p.hand@);
        let mut actions: Vec<Action> = Vec::new();
        let mut i: usize = 0;
        while i < cards.len()
            invariant
                self.wf(),
                i <= cards@.len(),
                p == self.players@[self.current_index as int],
                others@ == self.players@.filter(other_seat(*player)).map_values(|q: Player| Some(q.id)),
                per_card == plays_of_card(*self, *player, p.hand@),
                actions@ == cards@.take(i as int).map_values(per_card).flatten(),
            decreases cards@.len() - i,
        {
            let mut plays = self.plays_of(player, cards[i], &others);
            let ghost before = actions@;
            let ghost pl = plays@;
            actions.append(&mut plays);
            proof {
                assert((per_card)(cards@[i as int]) == pl);
                assert(actions@ =~= before + pl);
                assert(cards@.take(i + 1).map_values(per_card) =~= cards@.take(i as int).map_values(per_card).push(
                    (per_card)(cards@[i as int]),
                ));
                cards@.take(i as int).map_values(per_card).lemma_flatten_push((per_card)(cards@[i as int]));
            }
            i += 1;
        }
        proof {
            assert(cards@.take(cards@.len() as int) =~= cards@);
        }
        let closing = match self.phase {
            TurnPhase::AwaitingAction => {
                if self.can_draw_card_for(player) {
                    Action::Draw
                } else {
                    Action::Pass
                }
            },
            TurnPhase::Drew(_) => Action::Pass,
        };
        actions.push(closing);
        proof {
            assert(legal_cards(*self, p.hand@, p.total(), cards@));
        }
        Ok(actions)
    }
}

/// `actions` are the actions offered to the current seat `player`: the plays of
/// each legal card in ascending order, then `closing_action`.
pub open spec fn offered(g: Game, player: PlayerId, actions: Seq<Action>) -> bool {
    let p = g.players@[g.current_index as int];
    exists|cards: Seq<Card>|
        #[trigger] legal_cards(g, p.hand@, p.total(), cards) && actions == cards.flat_map(
            plays_of_card(g, player, p.hand@),
        ).push(closing_action(g, player))
}

/// Two different colors, both present among `hand`'s cards numbered `number`.
pub open spec fn has_two(hand: Seq<Card>, number: u8, c1: Color, c2: Color) -> bool {
    c1 != c2 && super::hands::has_number_color(hand, number, c1) && super::hands::has_number_color(hand, number, c2)
}

} // verus!
