//! What the rules promise of every play, swap, rotation and turn, stated over
//! the outcomes that the engine's operations guarantee.

use vstd::prelude::*;
use super::cards::{Card, Color, Direction, GameError, PlayerId, Rank, TurnPhase, reversed};
use super::game::{Game, advanced};
use super::hands::{hand_of, hands_rotated, hands_swapped};
use super::rules::{is_last_match, required_rank_spec};
use super::cards::{Action, PlayerDrawRule};
use super::actions::{card_plays, closing_action, color_choices, legal_cards, offered, other_seat, plays_of_card, plays_with_color, swap_choices};
use super::hands::{color_order, has_number_color, present_in_batch};
use super::turns::{colorless_play, multi_color_batch, needs_color};
use super::game::{Player, drew_for, refill_post};
use super::turns::{draw_outcome, pass_outcome};
use super::rules::{allowed_by, card_allowed_spec, draw_with_rule_post, has_match};
use super::cards::deck_spec;
use super::turns::{colored, discarded, not_numbered, numbered, play_error, play_outcome, played};

verus! {

/// A play is accepted only for a wild card, a card of the active color, or a
/// card whose rank matches a colored top card.
pub proof fn law_accepted_play_matches(
    old: Game,
    new: Game,
    player: PlayerId,
    card: Card,
    chosen: Option<Color>,
    swap_target: Option<PlayerId>,
    result: Result<super::cards::GameEvent, GameError>,
)
    requires
        play_outcome(old, new, player, card, chosen, swap_target, result),
        result is Ok,
    ensures
        card.is_wild() || card.color == Some(old.active_color) || (!old.top().is_wild() && card.rank == old.top().rank),
{
    assert(play_error(old, player, card, chosen, swap_target) is None);
}

/// Wild Draw Four is accepted only when the player holds no card of the active
/// color.
pub proof fn law_wild_draw_four_needs_no_active_color(
    old: Game,
    new: Game,
    player: PlayerId,
    card: Card,
    chosen: Option<Color>,
    swap_target: Option<PlayerId>,
    result: Result<super::cards::GameEvent, GameError>,
)
    requires
        play_outcome(old, new, player, card, chosen, swap_target, result),
        result is Ok,
        card.rank == Rank::WildDrawFour,
    ensures
        forall|i: int|
            0 <= i < old.players@[old.current_index as int].hand@.len() ==> (
            #[trigger] old.players@[old.current_index as int].hand@[i]).color != Some(old.active_color),
{
    assert(play_error(old, player, card, chosen, swap_target) is None);
}

/// After drawing, only the drawn card can be played.
pub proof fn law_only_drawn_card_after_draw(
    old: Game,
    new: Game,
    player: PlayerId,
    card: Card,
    chosen: Option<Color>,
    swap_target: Option<PlayerId>,
    result: Result<super::cards::GameEvent, GameError>,
)
    requires
        play_outcome(old, new, player, card, chosen, swap_target, result),
        result is Ok,
        old.phase is Drew,
    ensures
        old.phase == TurnPhase::Drew(card),
{
    assert(play_error(old, player, card, chosen, swap_target) is None);
}

/// Playing a number card takes every card of that number out of the held hand,
/// and the card left on top of the pile has the color that becomes active.
pub proof fn law_number_play_stacks_its_batch(old: Game, mid: Game, card: Card, color: Color, top: Card)
    requires
        discarded(old, mid, card, color, top),
        card.rank is Number,
    ensures
        forall|i: int|
            0 <= i < mid.players@[old.current_index as int].hand@.len() ==> (#[trigger] mid.players@[
                old.current_index as int].hand@[i]).rank != card.rank,
        mid.discard_pile@.last() == top,
        top.color == Some(color),
        top.rank == card.rank,
{
    let number = card.rank->0;
    let a = old.current_index as int;
    let hand = old.players@[a].hand@;
    let stacked = hand.filter(numbered(number));
    let t = choose|t: int|
        #![trigger stacked[t]]
        is_last_match(stacked, colored(color), t) && top == stacked[t] && mid.players@[a].hand@ == hand.filter(
            not_numbered(number),
        ) && mid.discard_pile@ == old.discard_pile@ + stacked.remove(t) + seq![top];
    hand.filter_lemma(not_numbered(number));
    hand.filter_lemma(numbered(number));
    assert(numbered(number)(stacked[t]));
    assert forall|i: int|
        0 <= i < mid.players@[a].hand@.len() implies (#[trigger] mid.players@[a].hand@[i]).rank != card.rank by {
        assert(not_numbered(number)(hand.filter(not_numbered(number))[i]));
    }
}

/// In a two-player game a Reverse that does not end the round gives the turn
/// straight back to the player who played it.
pub proof fn law_reverse_skips_in_two_player_game(
    old: Game,
    new: Game,
    player: PlayerId,
    card: Card,
    chosen: Option<Color>,
    swap_target: Option<PlayerId>,
    event: super::cards::GameEvent,
)
    requires
        old.wf(),
        old.players@.len() == 2,
        card.rank == Rank::Reverse,
        played(old, new, player, card, chosen, swap_target, event),
        new.winner != Some(player),
    ensures
        new.current_index == old.current_index,
{
    let a = old.current_index as int;
    let color = super::turns::final_color(old.players@[a].hand@, card, chosen);
    let top = event.kind->card;
    let mid = choose|mid: Game|
        #[trigger] discarded(old, mid, card, color, top) && if mid.players@[a].total() == 0 {
            &&& event.kind->hand_effect is None
            &&& new.players == mid.players
            &&& new.draw_pile == mid.draw_pile
            &&& new.discard_pile == mid.discard_pile
            &&& new.direction == mid.direction
            &&& new.current_index == mid.current_index
            &&& new.winner == Some(player)
            &&& new.events@.len() == old.events@.len() + 2
            &&& new.events@[old.events@.len() as int + 1] == (super::cards::GameEvent {
                sequence: (old.events@.len() + 1) as u64,
                kind: super::cards::EventKind::GameWon { player },
            })
        } else {
            &&& super::effects::effect_applied(mid, new, top, swap_target, event.kind->hand_effect)
            &&& new.winner == old.winner
            &&& new.events@.len() == old.events@.len() + 1
        };
    assert(top == card);
    assert(mid.current_index == old.current_index);
    assert(0 <= a < 2);
}

/// The winner of an accepted play is either unchanged or the player who made it.
pub proof fn law_only_the_player_can_win(
    old: Game,
    new: Game,
    player: PlayerId,
    card: Card,
    chosen: Option<Color>,
    swap_target: Option<PlayerId>,
    event: super::cards::GameEvent,
)
    requires
        played(old, new, player, card, chosen, swap_target, event),
    ensures
        new.winner == old.winner || new.winner == Some(player),
{
}

/// Swapping the same two hands twice gives every seat its hand back.
pub proof fn law_swap_undone(first_game: Game, second_game: Game, third_game: Game, first: int, second: int)
    requires
        0 <= first < first_game.players@.len(),
        0 <= second < first_game.players@.len(),
        hands_swapped(first_game, second_game, first, second),
        hands_swapped(second_game, third_game, first, second),
    ensures
        third_game.players@.len() == first_game.players@.len(),
        forall|k: int|
            0 <= k < first_game.players@.len() ==> hand_of(#[trigger] third_game.players@[k]) == hand_of(
                first_game.players@[k],
            ),
{
    assert forall|k: int| 0 <= k < first_game.players@.len() implies hand_of(
        #[trigger] third_game.players@[k],
    ) == hand_of(first_game.players@[k]) by {
        let source = if k == first {
            second
        } else if k == second {
            first
        } else {
            k
        };
        assert(hand_of(third_game.players@[k]) == hand_of(second_game.players@[source]));
        assert(hand_of(second_game.players@[source]) == hand_of(first_game.players@[k]));
    }
}

/// Rotating the hands one way and then the other gives every seat its hand back.
pub proof fn law_rotation_undone(first_game: Game, second_game: Game, third_game: Game, direction: Direction)
    requires
        first_game.players@.len() > 0,
        hands_rotated(first_game, second_game, direction),
        hands_rotated(second_game, third_game, reversed(direction)),
    ensures
        third_game.players@.len() == first_game.players@.len(),
        forall|k: int|
            0 <= k < first_game.players@.len() ==> hand_of(#[trigger] third_game.players@[k]) == hand_of(
                first_game.players@[k],
            ),
{
    let n = first_game.players@.len() as int;
    assert forall|k: int| 0 <= k < n implies hand_of(#[trigger] third_game.players@[k]) == hand_of(
        first_game.players@[k],
    ) by {
        match direction {
            Direction::Clockwise => {
                let s = (k + 1) % n;
                assert(hand_of(third_game.players@[k]) == hand_of(second_game.players@[s]));
                if k + 1 == n {
                    vstd::arithmetic::div_mod::lemma_mod_self_0(n);
                    assert(s == 0);
                    vstd::arithmetic::div_mod::lemma_small_mod((n - 1) as nat, n as nat);
                } else {
                    vstd::arithmetic::div_mod::lemma_small_mod((k + 1) as nat, n as nat);
                    assert(s == k + 1);
                    vstd::arithmetic::div_mod::lemma_mod_add_multiples_vanish(k, n);
                    vstd::arithmetic::div_mod::lemma_small_mod(k as nat, n as nat);
                }
                assert((s + n - 1) % n == k);
                assert(hand_of(second_game.players@[s]) == hand_of(first_game.players@[(s + n - 1) % n]));
            },
            Direction::CounterClockwise => {
                let s = (k + n - 1) % n;
                assert(hand_of(third_game.players@[k]) == hand_of(second_game.players@[s]));
                if k == 0 {
                    vstd::arithmetic::div_mod::lemma_small_mod((n - 1) as nat, n as nat);
                    assert(s == n - 1);
                    vstd::arithmetic::div_mod::lemma_mod_self_0(n);
                } else {
                    vstd::arithmetic::div_mod::lemma_mod_add_multiples_vanish(k - 1, n);
                    vstd::arithmetic::div_mod::lemma_small_mod((k - 1) as nat, n as nat);
                    assert(s == k - 1);
                    vstd::arithmetic::div_mod::lemma_small_mod(k as nat, n as nat);
                }
                assert((s + 1) % n == k);
                assert(hand_of(second_game.players@[s]) == hand_of(first_game.players@[(s + 1) % n]));
            },
        }
    }
}

/// Reversing the direction of play twice restores it.
pub proof fn law_reverse_twice(direction: Direction)
    ensures
        reversed(reversed(direction)) == direction,
{
}

/// Moving `a` seats and then `b` seats is moving `a + b` seats.
pub proof fn law_moves_add(index: int, len: int, direction: Direction, a: int, b: int)
    requires
        len > 0,
    ensures
        advanced(advanced(index, len, direction, a), len, direction, b) == advanced(index, len, direction, a + b),
{
    super::game::lemma_advanced_add(index, len, direction, a, b);
}


/// How many of the `len` draw positions from `start` on a rule guarantees
/// `rank` at.
pub open spec fn guaranteed_count(rule: PlayerDrawRule, start: int, len: nat, rank: Rank) -> nat
    decreases len,
{
    if len == 0 {
        0
    } else {
        guaranteed_count(rule, start, (len - 1) as nat, rank) + if required_rank_spec(rule, start + len - 1) == Some(
            rank,
        ) {
            1nat
        } else {
            0nat
        }
    }
}

/// The number of draws after which a rule's guarantees repeat.
pub open spec fn rule_period(rule: PlayerDrawRule) -> nat {
    match rule {
        PlayerDrawRule::GuaranteeDrawEightPerFiveAndSixteenPerTen => 10,
        PlayerDrawRule::GuaranteeDrawEightPerTwenty => 20,
        _ => 7,
    }
}

/// How many Draw Eight, Wild Square Root, Wild Draw Sixteen and Wild
/// Factorial cards a rule guarantees per period.
pub open spec fn guarantees_per_period(rule: PlayerDrawRule) -> (nat, nat, nat, nat) {
    match rule {
        PlayerDrawRule::GuaranteeDrawEightPerSeven => (1, 1, 0, 0),
        PlayerDrawRule::TwoDrawEightAndOneSixteenPerSeven => (2, 2, 1, 1),
        PlayerDrawRule::GuaranteeDrawEightPerFiveAndSixteenPerTen => (1, 1, 1, 1),
        PlayerDrawRule::GuaranteeDrawEightPerTwenty => (1, 1, 0, 0),
        _ => (0, 0, 0, 0),
    }
}

proof fn lemma_rule_periodic(rule: PlayerDrawRule, r: int)
    ensures
        required_rank_spec(rule, r + rule_period(rule)) == required_rank_spec(rule, r),
{
    let p = rule_period(rule) as int;
    vstd::arithmetic::div_mod::lemma_mod_add_multiples_vanish(r, 7);
    vstd::arithmetic::div_mod::lemma_mod_add_multiples_vanish(r + 1, 10);
    vstd::arithmetic::div_mod::lemma_mod_add_multiples_vanish(r + 1, 20);
    vstd::arithmetic::div_mod::lemma_mod_add_multiples_vanish(r + 1 + 5, 5);
    vstd::arithmetic::div_mod::lemma_mod_add_multiples_vanish(r + 1, 5);
    assert((r + 1 + 10) % 5 == (r + 1) % 5);
}

proof fn lemma_count_front(rule: PlayerDrawRule, start: int, len: nat, rank: Rank)
    ensures
        guaranteed_count(rule, start, len + 1, rank) == guaranteed_count(rule, start + 1, len, rank) + if
            required_rank_spec(rule, start) == Some(rank) {
            1nat
        } else {
            0nat
        },
    decreases len,
{
    let w = |r: int| if required_rank_spec(rule, r) == Some(rank) { 1nat } else { 0nat };
    assert(guaranteed_count(rule, start, len + 1, rank) == guaranteed_count(rule, start, len, rank) + w(start + len));
    if len > 0 {
        lemma_count_front(rule, start, (len - 1) as nat, rank);
        assert(guaranteed_count(rule, start + 1, len, rank) == guaranteed_count(rule, start + 1, (len - 1) as nat, rank)
            + w(start + 1 + len - 1));
    } else {
        assert(guaranteed_count(rule, start, 0, rank) == 0);
        assert(guaranteed_count(rule, start + 1, 0, rank) == 0);
    }
}

proof fn lemma_count_shift(rule: PlayerDrawRule, start: int, rank: Rank)
    requires
        start >= 0,
    ensures
        guaranteed_count(rule, start, rule_period(rule), rank) == guaranteed_count(rule, 0, rule_period(rule), rank),
    decreases start,
{
    if start > 0 {
        let p = rule_period(rule);
        lemma_count_shift(rule, start - 1, rank);
        lemma_count_front(rule, start - 1, p, rank);
        lemma_rule_periodic(rule, start - 1);
        assert(guaranteed_count(rule, start - 1, p + 1, rank) == guaranteed_count(rule, start - 1, p, rank) + if
            required_rank_spec(rule, start - 1 + p) == Some(rank) {
            1nat
        } else {
            0nat
        });
    }
}

proof fn lemma_first_period(rule: PlayerDrawRule)
    ensures
        guaranteed_count(rule, 0, rule_period(rule), Rank::DrawEight) == guarantees_per_period(rule).0,
        guaranteed_count(rule, 0, rule_period(rule), Rank::WildSquareRoot) == guarantees_per_period(rule).1,
        guaranteed_count(rule, 0, rule_period(rule), Rank::WildDrawSixteen) == guarantees_per_period(rule).2,
        guaranteed_count(rule, 0, rule_period(rule), Rank::WildFactorial) == guarantees_per_period(rule).3,
{
    match rule {
        PlayerDrawRule::GuaranteeDrawEightPerSeven => {
            lemma_period_guaranteedraweightperseven_draweight();
            lemma_period_guaranteedraweightperseven_wildsquareroot();
            lemma_period_guaranteedraweightperseven_wilddrawsixteen();
            lemma_period_guaranteedraweightperseven_wildfactorial();
        },
        PlayerDrawRule::TwoDrawEightAndOneSixteenPerSeven => {
            lemma_period_twodraweightandonesixteenperseven_draweight();
            lemma_period_twodraweightandonesixteenperseven_wildsquareroot();
            lemma_period_twodraweightandonesixteenperseven_wilddrawsixteen();
            lemma_period_twodraweightandonesixteenperseven_wildfactorial();
        },
        PlayerDrawRule::GuaranteeDrawEightPerFiveAndSixteenPerTen => {
            lemma_period_guaranteedraweightperfiveandsixteenperten_draweight();
            lemma_period_guaranteedraweightperfiveandsixteenperten_wildsquareroot();
            lemma_period_guaranteedraweightperfiveandsixteenperten_wilddrawsixteen();
            lemma_period_guaranteedraweightperfiveandsixteenperten_wildfactorial();
        },
        PlayerDrawRule::GuaranteeDrawEightPerTwenty => {
            lemma_period_guaranteedraweightpertwenty_draweight();
            lemma_period_guaranteedraweightpertwenty_wildsquareroot();
            lemma_period_guaranteedraweightpertwenty_wilddrawsixteen();
            lemma_period_guaranteedraweightpertwenty_wildfactorial();
        },
        _ => {
            lemma_no_guarantees(rule, 7, Rank::DrawEight);
            lemma_no_guarantees(rule, 7, Rank::WildSquareRoot);
            lemma_no_guarantees(rule, 7, Rank::WildDrawSixteen);
            lemma_no_guarantees(rule, 7, Rank::WildFactorial);
        },
    }
}

proof fn lemma_no_guarantees(rule: PlayerDrawRule, len: nat, rank: Rank)
    requires
        rule == PlayerDrawRule::ExcludeDrawEightAndSixteen || rule == PlayerDrawRule::ExcludeDrawSixteen,
    ensures
        guaranteed_count(rule, 0, len, rank) == 0,
    decreases len,
{
    if len > 0 {
        lemma_no_guarantees(rule, (len - 1) as nat, rank);
    }
}

proof fn lemma_period_guaranteedraweightperseven_draweight()
    ensures
        guaranteed_count(PlayerDrawRule::GuaranteeDrawEightPerSeven, 0, 7, Rank::DrawEight) == 1,
{
    assert(guaranteed_count(PlayerDrawRule::GuaranteeDrawEightPerSeven, 0, 0, Rank::DrawEight) == 0);
    assert(guaranteed_count(PlayerDrawRule::GuaranteeDrawEightPerSeven, 0, 1, Rank::DrawEight) == 1);
    assert(guaranteed_count(PlayerDrawRule::GuaranteeDrawEightPerSeven, 0, 2, Rank::DrawEight) == 1);
    assert(guaranteed_count(PlayerDrawRule::GuaranteeDrawEightPerSeven, 0, 3, Rank::DrawEight) == 1);
    assert(guaranteed_count(PlayerDrawRule::GuaranteeDrawEightPerSeven, 0, 4, Rank::DrawEight) == 1);
    assert(guaranteed_count(PlayerDrawRule::GuaranteeDrawEightPerSeven, 0, 5, Rank::DrawEight) == 1);
    assert(guaranteed_count(PlayerDrawRule::GuaranteeDrawEightPerSeven, 0, 6, Rank::DrawEight) == 1);
    assert(guaranteed_count(PlayerDrawRule::GuaranteeDrawEightPerSeven, 0, 7, Rank::DrawEight) == 1);
}

proof fn lemma_period_guaranteedraweightperseven_wildsquareroot()
    ensures
        guaranteed_count(PlayerDrawRule::GuaranteeDrawEightPerSeven, 0, 7, Rank::WildSquareRoot) == 1,
{
    assert(guaranteed_count(PlayerDrawRule::GuaranteeDrawEightPerSeven, 0, 0, Rank::WildSquareRoot) == 0);
    assert(guaranteed_count(PlayerDrawRule::GuaranteeDrawEightPerSeven, 0, 1, Rank::WildSquareRoot) == 0);
    assert(guaranteed_count(PlayerDrawRule::GuaranteeDrawEightPerSeven, 0, 2, Rank::WildSquareRoot) == 1);
    assert(guaranteed_count(PlayerDrawRule::GuaranteeDrawEightPerSeven, 0, 3, Rank::WildSquareRoot) == 1);
    assert(guaranteed_count(PlayerDrawRule::GuaranteeDrawEightPerSeven, 0, 4, Rank::WildSquareRoot) == 1);
    assert(guaranteed_count(PlayerDrawRule::GuaranteeDrawEightPerSeven, 0, 5, Rank::WildSquareRoot) == 1);
    assert(guaranteed_count(PlayerDrawRule::GuaranteeDrawEightPerSeven, 0, 6, Rank::WildSquareRoot) == 1);
    assert(guaranteed_count(PlayerDrawRule::GuaranteeDrawEightPerSeven, 0, 7, Rank::WildSquareRoot) == 1);
}

proof fn lemma_period_guaranteedraweightperseven_wilddrawsixteen()
    ensures
        guaranteed_count(PlayerDrawRule::GuaranteeDrawEightPerSeven, 0, 7, Rank::WildDrawSixteen) == 0,
{
    assert(guaranteed_count(PlayerDrawRule::GuaranteeDrawEightPerSeven, 0, 0, Rank::WildDrawSixteen) == 0);
    assert(guaranteed_count(PlayerDrawRule::GuaranteeDrawEightPerSeven, 0, 1, Rank::WildDrawSixteen) == 0);
    assert(guaranteed_count(PlayerDrawRule::GuaranteeDrawEightPerSeven, 0, 2, Rank::WildDrawSixteen) == 0);
    assert(guaranteed_count(PlayerDrawRule::GuaranteeDrawEightPerSeven, 0, 3, Rank::WildDrawSixteen) == 0);
    assert(guaranteed_count(PlayerDrawRule::GuaranteeDrawEightPerSeven, 0, 4, Rank::WildDrawSixteen) == 0);
    assert(guaranteed_count(PlayerDrawRule::GuaranteeDrawEightPerSeven, 0, 5, Rank::WildDrawSixteen) == 0);
    assert(guaranteed_count(PlayerDrawRule::GuaranteeDrawEightPerSeven, 0, 6, Rank::WildDrawSixteen) == 0);
    assert(guaranteed_count(PlayerDrawRule::GuaranteeDrawEightPerSeven, 0, 7, Rank::WildDrawSixteen) == 0);
}

proof fn lemma_period_guaranteedraweightperseven_wildfactorial()
    ensures
        guaranteed_count(PlayerDrawRule::GuaranteeDrawEightPerSeven, 0, 7, Rank::WildFactorial) == 0,
{
    assert(guaranteed_count(PlayerDrawRule::GuaranteeDrawEightPerSeven, 0, 0, Rank::WildFactorial) == 0);
    assert(guaranteed_count(PlayerDrawRule::GuaranteeDrawEightPerSeven, 0, 1, Rank::WildFactorial) == 0);
    assert(guaranteed_count(PlayerDrawRule::GuaranteeDrawEightPerSeven, 0, 2, Rank::WildFactorial) == 0);
    assert(guaranteed_count(PlayerDrawRule::GuaranteeDrawEightPerSeven, 0, 3, Rank::WildFactorial) == 0);
    assert(guaranteed_count(PlayerDrawRule::GuaranteeDrawEightPerSeven, 0, 4, Rank::WildFactorial) == 0);
    assert(guaranteed_count(PlayerDrawRule::GuaranteeDrawEightPerSeven, 0, 5, Rank::WildFactorial) == 0);
    assert(guaranteed_count(PlayerDrawRule::GuaranteeDrawEightPerSeven, 0, 6, Rank::WildFactorial) == 0);
    assert(guaranteed_count(PlayerDrawRule::GuaranteeDrawEightPerSeven, 0, 7, Rank::WildFactorial) == 0);
}

proof fn lemma_period_twodraweightandonesixteenperseven_draweight()
    ensures
        guaranteed_count(PlayerDrawRule::TwoDrawEightAndOneSixteenPerSeven, 0, 7, Rank::DrawEight) == 2,
{
    assert(guaranteed_count(PlayerDrawRule::TwoDrawEightAndOneSixteenPerSeven, 0, 0, Rank::DrawEight) == 0);
    assert(guaranteed_count(PlayerDrawRule::TwoDrawEightAndOneSixteenPerSeven, 0, 1, Rank::DrawEight) == 1);
    assert(guaranteed_count(PlayerDrawRule::TwoDrawEightAndOneSixteenPerSeven, 0, 2, Rank::DrawEight) == 2);
    assert(guaranteed_count(PlayerDrawRule::TwoDrawEightAndOneSixteenPerSeven, 0, 3, Rank::DrawEight) == 2);
    assert(guaranteed_count(PlayerDrawRule::TwoDrawEightAndOneSixteenPerSeven, 0, 4, Rank::DrawEight) == 2);
    assert(guaranteed_count(PlayerDrawRule::TwoDrawEightAndOneSixteenPerSeven, 0, 5, Rank::DrawEight) == 2);
    assert(guaranteed_count(PlayerDrawRule::TwoDrawEightAndOneSixteenPerSeven, 0, 6, Rank::DrawEight) == 2);
    assert(guaranteed_count(PlayerDrawRule::TwoDrawEightAndOneSixteenPerSeven, 0, 7, Rank::DrawEight) == 2);
}

proof fn lemma_period_twodraweightandonesixteenperseven_wildsquareroot()
    ensures
        guaranteed_count(PlayerDrawRule::TwoDrawEightAndOneSixteenPerSeven, 0, 7, Rank::WildSquareRoot) == 2,
{
    assert(guaranteed_count(PlayerDrawRule::TwoDrawEightAndOneSixteenPerSeven, 0, 0, Rank::WildSquareRoot) == 0);
    assert(guaranteed_count(PlayerDrawRule::TwoDrawEightAndOneSixteenPerSeven, 0, 1, Rank::WildSquareRoot) == 0);
    assert(guaranteed_count(PlayerDrawRule::TwoDrawEightAndOneSixteenPerSeven, 0, 2, Rank::WildSquareRoot) == 0);
    assert(guaranteed_count(PlayerDrawRule::TwoDrawEightAndOneSixteenPerSeven, 0, 3, Rank::WildSquareRoot) == 1);
    assert(guaranteed_count(PlayerDrawRule::TwoDrawEightAndOneSixteenPerSeven, 0, 4, Rank::WildSquareRoot) == 2);
    assert(guaranteed_count(PlayerDrawRule::TwoDrawEightAndOneSixteenPerSeven, 0, 5, Rank::WildSquareRoot) == 2);
    assert(guaranteed_count(PlayerDrawRule::TwoDrawEightAndOneSixteenPerSeven, 0, 6, Rank::WildSquareRoot) == 2);
    assert(guaranteed_count(PlayerDrawRule::TwoDrawEightAndOneSixteenPerSeven, 0, 7, Rank::WildSquareRoot) == 2);
}

proof fn lemma_period_twodraweightandonesixteenperseven_wilddrawsixteen()
    ensures
        guaranteed_count(PlayerDrawRule::TwoDrawEightAndOneSixteenPerSeven, 0, 7, Rank::WildDrawSixteen) == 1,
{
    assert(guaranteed_count(PlayerDrawRule::TwoDrawEightAndOneSixteenPerSeven, 0, 0, Rank::WildDrawSixteen) == 0);
    assert(guaranteed_count(PlayerDrawRule::TwoDrawEightAndOneSixteenPerSeven, 0, 1, Rank::WildDrawSixteen) == 0);
    assert(guaranteed_count(PlayerDrawRule::TwoDrawEightAndOneSixteenPerSeven, 0, 2, Rank::WildDrawSixteen) == 0);
    assert(guaranteed_count(PlayerDrawRule::TwoDrawEightAndOneSixteenPerSeven, 0, 3, Rank::WildDrawSixteen) == 0);
    assert(guaranteed_count(PlayerDrawRule::TwoDrawEightAndOneSixteenPerSeven, 0, 4, Rank::WildDrawSixteen) == 0);
    assert(guaranteed_count(PlayerDrawRule::TwoDrawEightAndOneSixteenPerSeven, 0, 5, Rank::WildDrawSixteen) == 1);
    assert(guaranteed_count(PlayerDrawRule::TwoDrawEightAndOneSixteenPerSeven, 0, 6, Rank::WildDrawSixteen) == 1);
    assert(guaranteed_count(PlayerDrawRule::TwoDrawEightAndOneSixteenPerSeven, 0, 7, Rank::WildDrawSixteen) == 1);
}

proof fn lemma_period_twodraweightandonesixteenperseven_wildfactorial()
    ensures
        guaranteed_count(PlayerDrawRule::TwoDrawEightAndOneSixteenPerSeven, 0, 7, Rank::WildFactorial) == 1,
{
    assert(guaranteed_count(PlayerDrawRule::TwoDrawEightAndOneSixteenPerSeven, 0, 0, Rank::WildFactorial) == 0);
    assert(guaranteed_count(PlayerDrawRule::TwoDrawEightAndOneSixteenPerSeven, 0, 1, Rank::WildFactorial) == 0);
    assert(guaranteed_count(PlayerDrawRule::TwoDrawEightAndOneSixteenPerSeven, 0, 2, Rank::WildFactorial) == 0);
    assert(guaranteed_count(PlayerDrawRule::TwoDrawEightAndOneSixteenPerSeven, 0, 3, Rank::WildFactorial) == 0);
    assert(guaranteed_count(PlayerDrawRule::TwoDrawEightAndOneSixteenPerSeven, 0, 4, Rank::WildFactorial) == 0);
    assert(guaranteed_count(PlayerDrawRule::TwoDrawEightAndOneSixteenPerSeven, 0, 5, Rank::WildFactorial) == 0);
    assert(guaranteed_count(PlayerDrawRule::TwoDrawEightAndOneSixteenPerSeven, 0, 6, Rank::WildFactorial) == 1);
    assert(guaranteed_count(PlayerDrawRule::TwoDrawEightAndOneSixteenPerSeven, 0, 7, Rank::WildFactorial) == 1);
}

proof fn lemma_period_guaranteedraweightperfiveandsixteenperten_draweight()
    ensures
        guaranteed_count(PlayerDrawRule::GuaranteeDrawEightPerFiveAndSixteenPerTen, 0, 10, Rank::DrawEight) == 1,
{
    assert(guaranteed_count(PlayerDrawRule::GuaranteeDrawEightPerFiveAndSixteenPerTen, 0, 0, Rank::DrawEight) == 0);
    assert(guaranteed_count(PlayerDrawRule::GuaranteeDrawEightPerFiveAndSixteenPerTen, 0, 1, Rank::DrawEight) == 0);
    assert(guaranteed_count(PlayerDrawRule::GuaranteeDrawEightPerFiveAndSixteenPerTen, 0, 2, Rank::DrawEight) == 0);
    assert(guaranteed_count(PlayerDrawRule::GuaranteeDrawEightPerFiveAndSixteenPerTen, 0, 3, Rank::DrawEight) == 0);
    assert(guaranteed_count(PlayerDrawRule::GuaranteeDrawEightPerFiveAndSixteenPerTen, 0, 4, Rank::DrawEight) == 0);
    assert(guaranteed_count(PlayerDrawRule::GuaranteeDrawEightPerFiveAndSixteenPerTen, 0, 5, Rank::DrawEight) == 1);
    assert(guaranteed_count(PlayerDrawRule::GuaranteeDrawEightPerFiveAndSixteenPerTen, 0, 6, Rank::DrawEight) == 1);
    assert(guaranteed_count(PlayerDrawRule::GuaranteeDrawEightPerFiveAndSixteenPerTen, 0, 7, Rank::DrawEight) == 1);
    assert(guaranteed_count(PlayerDrawRule::GuaranteeDrawEightPerFiveAndSixteenPerTen, 0, 8, Rank::DrawEight) == 1);
    assert(guaranteed_count(PlayerDrawRule::GuaranteeDrawEightPerFiveAndSixteenPerTen, 0, 9, Rank::DrawEight) == 1);
    assert(guaranteed_count(PlayerDrawRule::GuaranteeDrawEightPerFiveAndSixteenPerTen, 0, 10, Rank::DrawEight) == 1);
}

proof fn lemma_period_guaranteedraweightperfiveandsixteenperten_wildsquareroot()
    ensures
        guaranteed_count(PlayerDrawRule::GuaranteeDrawEightPerFiveAndSixteenPerTen, 0, 10, Rank::WildSquareRoot) == 1,
{
    assert(guaranteed_count(PlayerDrawRule::GuaranteeDrawEightPerFiveAndSixteenPerTen, 0, 0, Rank::WildSquareRoot) == 0);
    assert(guaranteed_count(PlayerDrawRule::GuaranteeDrawEightPerFiveAndSixteenPerTen, 0, 1, Rank::WildSquareRoot) == 0);
    assert(guaranteed_count(PlayerDrawRule::GuaranteeDrawEightPerFiveAndSixteenPerTen, 0, 2, Rank::WildSquareRoot) == 0);
    assert(guaranteed_count(PlayerDrawRule::GuaranteeDrawEightPerFiveAndSixteenPerTen, 0, 3, Rank::WildSquareRoot) == 0);
    assert(guaranteed_count(PlayerDrawRule::GuaranteeDrawEightPerFiveAndSixteenPerTen, 0, 4, Rank::WildSquareRoot) == 1);
    assert(guaranteed_count(PlayerDrawRule::GuaranteeDrawEightPerFiveAndSixteenPerTen, 0, 5, Rank::WildSquareRoot) == 1);
    assert(guaranteed_count(PlayerDrawRule::GuaranteeDrawEightPerFiveAndSixteenPerTen, 0, 6, Rank::WildSquareRoot) == 1);
    assert(guaranteed_count(PlayerDrawRule::GuaranteeDrawEightPerFiveAndSixteenPerTen, 0, 7, Rank::WildSquareRoot) == 1);
    assert(guaranteed_count(PlayerDrawRule::GuaranteeDrawEightPerFiveAndSixteenPerTen, 0, 8, Rank::WildSquareRoot) == 1);
    assert(guaranteed_count(PlayerDrawRule::GuaranteeDrawEightPerFiveAndSixteenPerTen, 0, 9, Rank::WildSquareRoot) == 1);
    assert(guaranteed_count(PlayerDrawRule::GuaranteeDrawEightPerFiveAndSixteenPerTen, 0, 10, Rank::WildSquareRoot) == 1);
}

proof fn lemma_period_guaranteedraweightperfiveandsixteenperten_wilddrawsixteen()
    ensures
        guaranteed_count(PlayerDrawRule::GuaranteeDrawEightPerFiveAndSixteenPerTen, 0, 10, Rank::WildDrawSixteen) == 1,
{
    assert(guaranteed_count(PlayerDrawRule::GuaranteeDrawEightPerFiveAndSixteenPerTen, 0, 0, Rank::WildDrawSixteen) == 0);
    assert(guaranteed_count(PlayerDrawRule::GuaranteeDrawEightPerFiveAndSixteenPerTen, 0, 1, Rank::WildDrawSixteen) == 0);
    assert(guaranteed_count(PlayerDrawRule::GuaranteeDrawEightPerFiveAndSixteenPerTen, 0, 2, Rank::WildDrawSixteen) == 0);
    assert(guaranteed_count(PlayerDrawRule::GuaranteeDrawEightPerFiveAndSixteenPerTen, 0, 3, Rank::WildDrawSixteen) == 0);
    assert(guaranteed_count(PlayerDrawRule::GuaranteeDrawEightPerFiveAndSixteenPerTen, 0, 4, Rank::WildDrawSixteen) == 0);
    assert(guaranteed_count(PlayerDrawRule::GuaranteeDrawEightPerFiveAndSixteenPerTen, 0, 5, Rank::WildDrawSixteen) == 0);
    assert(guaranteed_count(PlayerDrawRule::GuaranteeDrawEightPerFiveAndSixteenPerTen, 0, 6, Rank::WildDrawSixteen) == 0);
    assert(guaranteed_count(PlayerDrawRule::GuaranteeDrawEightPerFiveAndSixteenPerTen, 0, 7, Rank::WildDrawSixteen) == 0);
    assert(guaranteed_count(PlayerDrawRule::GuaranteeDrawEightPerFiveAndSixteenPerTen, 0, 8, Rank::WildDrawSixteen) == 0);
    assert(guaranteed_count(PlayerDrawRule::GuaranteeDrawEightPerFiveAndSixteenPerTen, 0, 9, Rank::WildDrawSixteen) == 0);
    assert(guaranteed_count(PlayerDrawRule::GuaranteeDrawEightPerFiveAndSixteenPerTen, 0, 10, Rank::WildDrawSixteen) == 1);
}

proof fn lemma_period_guaranteedraweightperfiveandsixteenperten_wildfactorial()
    ensures
        guaranteed_count(PlayerDrawRule::GuaranteeDrawEightPerFiveAndSixteenPerTen, 0, 10, Rank::WildFactorial) == 1,
{
    assert(guaranteed_count(PlayerDrawRule::GuaranteeDrawEightPerFiveAndSixteenPerTen, 0, 0, Rank::WildFactorial) == 0);
    assert(guaranteed_count(PlayerDrawRule::GuaranteeDrawEightPerFiveAndSixteenPerTen, 0, 1, Rank::WildFactorial) == 0);
    assert(guaranteed_count(PlayerDrawRule::GuaranteeDrawEightPerFiveAndSixteenPerTen, 0, 2, Rank::WildFactorial) == 0);
    assert(guaranteed_count(PlayerDrawRule::GuaranteeDrawEightPerFiveAndSixteenPerTen, 0, 3, Rank::WildFactorial) == 0);
    assert(guaranteed_count(PlayerDrawRule::GuaranteeDrawEightPerFiveAndSixteenPerTen, 0, 4, Rank::WildFactorial) == 0);
    assert(guaranteed_count(PlayerDrawRule::GuaranteeDrawEightPerFiveAndSixteenPerTen, 0, 5, Rank::WildFactorial) == 0);
    assert(guaranteed_count(PlayerDrawRule::GuaranteeDrawEightPerFiveAndSixteenPerTen, 0, 6, Rank::WildFactorial) == 0);
    assert(guaranteed_count(PlayerDrawRule::GuaranteeDrawEightPerFiveAndSixteenPerTen, 0, 7, Rank::WildFactorial) == 0);
    assert(guaranteed_count(PlayerDrawRule::GuaranteeDrawEightPerFiveAndSixteenPerTen, 0, 8, Rank::WildFactorial) == 0);
    assert(guaranteed_count(PlayerDrawRule::GuaranteeDrawEightPerFiveAndSixteenPerTen, 0, 9, Rank::WildFactorial) == 1);
    assert(guaranteed_count(PlayerDrawRule::GuaranteeDrawEightPerFiveAndSixteenPerTen, 0, 10, Rank::WildFactorial) == 1);
}

proof fn lemma_period_guaranteedraweightpertwenty_draweight()
    ensures
        guaranteed_count(PlayerDrawRule::GuaranteeDrawEightPerTwenty, 0, 20, Rank::DrawEight) == 1,
{
    assert(guaranteed_count(PlayerDrawRule::GuaranteeDrawEightPerTwenty, 0, 0, Rank::DrawEight) == 0);
    assert(guaranteed_count(PlayerDrawRule::GuaranteeDrawEightPerTwenty, 0, 1, Rank::DrawEight) == 0);
    assert(guaranteed_count(PlayerDrawRule::GuaranteeDrawEightPerTwenty, 0, 2, Rank::DrawEight) == 0);
    assert(guaranteed_count(PlayerDrawRule::GuaranteeDrawEightPerTwenty, 0, 3, Rank::DrawEight) == 0);
    assert(guaranteed_count(PlayerDrawRule::GuaranteeDrawEightPerTwenty, 0, 4, Rank::DrawEight) == 0);
    assert(guaranteed_count(PlayerDrawRule::GuaranteeDrawEightPerTwenty, 0, 5, Rank::DrawEight) == 0);
    assert(guaranteed_count(PlayerDrawRule::GuaranteeDrawEightPerTwenty, 0, 6, Rank::DrawEight) == 0);
    assert(guaranteed_count(PlayerDrawRule::GuaranteeDrawEightPerTwenty, 0, 7, Rank::DrawEight) == 0);
    assert(guaranteed_count(PlayerDrawRule::GuaranteeDrawEightPerTwenty, 0, 8, Rank::DrawEight) == 0);
    assert(guaranteed_count(PlayerDrawRule::GuaranteeDrawEightPerTwenty, 0, 9, Rank::DrawEight) == 0);
    assert(guaranteed_count(PlayerDrawRule::GuaranteeDrawEightPerTwenty, 0, 10, Rank::DrawEight) == 0);
    assert(guaranteed_count(PlayerDrawRule::GuaranteeDrawEightPerTwenty, 0, 11, Rank::DrawEight) == 0);
    assert(guaranteed_count(PlayerDrawRule::GuaranteeDrawEightPerTwenty, 0, 12, Rank::DrawEight) == 0);
    assert(guaranteed_count(PlayerDrawRule::GuaranteeDrawEightPerTwenty, 0, 13, Rank::DrawEight) == 0);
    assert(guaranteed_count(PlayerDrawRule::GuaranteeDrawEightPerTwenty, 0, 14, Rank::DrawEight) == 0);
    assert(guaranteed_count(PlayerDrawRule::GuaranteeDrawEightPerTwenty, 0, 15, Rank::DrawEight) == 0);
    assert(guaranteed_count(PlayerDrawRule::GuaranteeDrawEightPerTwenty, 0, 16, Rank::DrawEight) == 0);
    assert(guaranteed_count(PlayerDrawRule::GuaranteeDrawEightPerTwenty, 0, 17, Rank::DrawEight) == 0);
    assert(guaranteed_count(PlayerDrawRule::GuaranteeDrawEightPerTwenty, 0, 18, Rank::DrawEight) == 0);
    assert(guaranteed_count(PlayerDrawRule::GuaranteeDrawEightPerTwenty, 0, 19, Rank::DrawEight) == 0);
    assert(guaranteed_count(PlayerDrawRule::GuaranteeDrawEightPerTwenty, 0, 20, Rank::DrawEight) == 1);
}

proof fn lemma_period_guaranteedraweightpertwenty_wildsquareroot()
    ensures
        guaranteed_count(PlayerDrawRule::GuaranteeDrawEightPerTwenty, 0, 20, Rank::WildSquareRoot) == 1,
{
    assert(guaranteed_count(PlayerDrawRule::GuaranteeDrawEightPerTwenty, 0, 0, Rank::WildSquareRoot) == 0);
    assert(guaranteed_count(PlayerDrawRule::GuaranteeDrawEightPerTwenty, 0, 1, Rank::WildSquareRoot) == 0);
    assert(guaranteed_count(PlayerDrawRule::GuaranteeDrawEightPerTwenty, 0, 2, Rank::WildSquareRoot) == 0);
    assert(guaranteed_count(PlayerDrawRule::GuaranteeDrawEightPerTwenty, 0, 3, Rank::WildSquareRoot) == 0);
    assert(guaranteed_count(PlayerDrawRule::GuaranteeDrawEightPerTwenty, 0, 4, Rank::WildSquareRoot) == 0);
    assert(guaranteed_count(PlayerDrawRule::GuaranteeDrawEightPerTwenty, 0, 5, Rank::WildSquareRoot) == 0);
    assert(guaranteed_count(PlayerDrawRule::GuaranteeDrawEightPerTwenty, 0, 6, Rank::WildSquareRoot) == 0);
    assert(guaranteed_count(PlayerDrawRule::GuaranteeDrawEightPerTwenty, 0, 7, Rank::WildSquareRoot) == 0);
    assert(guaranteed_count(PlayerDrawRule::GuaranteeDrawEightPerTwenty, 0, 8, Rank::WildSquareRoot) == 0);
    assert(guaranteed_count(PlayerDrawRule::GuaranteeDrawEightPerTwenty, 0, 9, Rank::WildSquareRoot) == 0);
    assert(guaranteed_count(PlayerDrawRule::GuaranteeDrawEightPerTwenty, 0, 10, Rank::WildSquareRoot) == 0);
    assert(guaranteed_count(PlayerDrawRule::GuaranteeDrawEightPerTwenty, 0, 11, Rank::WildSquareRoot) == 0);
    assert(guaranteed_count(PlayerDrawRule::GuaranteeDrawEightPerTwenty, 0, 12, Rank::WildSquareRoot) == 0);
    assert(guaranteed_count(PlayerDrawRule::GuaranteeDrawEightPerTwenty, 0, 13, Rank::WildSquareRoot) == 0);
    assert(guaranteed_count(PlayerDrawRule::GuaranteeDrawEightPerTwenty, 0, 14, Rank::WildSquareRoot) == 0);
    assert(guaranteed_count(PlayerDrawRule::GuaranteeDrawEightPerTwenty, 0, 15, Rank::WildSquareRoot) == 0);
    assert(guaranteed_count(PlayerDrawRule::GuaranteeDrawEightPerTwenty, 0, 16, Rank::WildSquareRoot) == 0);
    assert(guaranteed_count(PlayerDrawRule::GuaranteeDrawEightPerTwenty, 0, 17, Rank::WildSquareRoot) == 0);
    assert(guaranteed_count(PlayerDrawRule::GuaranteeDrawEightPerTwenty, 0, 18, Rank::WildSquareRoot) == 0);
    assert(guaranteed_count(PlayerDrawRule::GuaranteeDrawEightPerTwenty, 0, 19, Rank::WildSquareRoot) == 1);
    assert(guaranteed_count(PlayerDrawRule::GuaranteeDrawEightPerTwenty, 0, 20, Rank::WildSquareRoot) == 1);
}

proof fn lemma_period_guaranteedraweightpertwenty_wilddrawsixteen()
    ensures
        guaranteed_count(PlayerDrawRule::GuaranteeDrawEightPerTwenty, 0, 20, Rank::WildDrawSixteen) == 0,
{
    assert(guaranteed_count(PlayerDrawRule::GuaranteeDrawEightPerTwenty, 0, 0, Rank::WildDrawSixteen) == 0);
    assert(guaranteed_count(PlayerDrawRule::GuaranteeDrawEightPerTwenty, 0, 1, Rank::WildDrawSixteen) == 0);
    assert(guaranteed_count(PlayerDrawRule::GuaranteeDrawEightPerTwenty, 0, 2, Rank::WildDrawSixteen) == 0);
    assert(guaranteed_count(PlayerDrawRule::GuaranteeDrawEightPerTwenty, 0, 3, Rank::WildDrawSixteen) == 0);
    assert(guaranteed_count(PlayerDrawRule::GuaranteeDrawEightPerTwenty, 0, 4, Rank::WildDrawSixteen) == 0);
    assert(guaranteed_count(PlayerDrawRule::GuaranteeDrawEightPerTwenty, 0, 5, Rank::WildDrawSixteen) == 0);
    assert(guaranteed_count(PlayerDrawRule::GuaranteeDrawEightPerTwenty, 0, 6, Rank::WildDrawSixteen) == 0);
    assert(guaranteed_count(PlayerDrawRule::GuaranteeDrawEightPerTwenty, 0, 7, Rank::WildDrawSixteen) == 0);
    assert(guaranteed_count(PlayerDrawRule::GuaranteeDrawEightPerTwenty, 0, 8, Rank::WildDrawSixteen) == 0);
    assert(guaranteed_count(PlayerDrawRule::GuaranteeDrawEightPerTwenty, 0, 9, Rank::WildDrawSixteen) == 0);
    assert(guaranteed_count(PlayerDrawRule::GuaranteeDrawEightPerTwenty, 0, 10, Rank::WildDrawSixteen) == 0);
    assert(guaranteed_count(PlayerDrawRule::GuaranteeDrawEightPerTwenty, 0, 11, Rank::WildDrawSixteen) == 0);
    assert(guaranteed_count(PlayerDrawRule::GuaranteeDrawEightPerTwenty, 0, 12, Rank::WildDrawSixteen) == 0);
    assert(guaranteed_count(PlayerDrawRule::GuaranteeDrawEightPerTwenty, 0, 13, Rank::WildDrawSixteen) == 0);
    assert(guaranteed_count(PlayerDrawRule::GuaranteeDrawEightPerTwenty, 0, 14, Rank::WildDrawSixteen) == 0);
    assert(guaranteed_count(PlayerDrawRule::GuaranteeDrawEightPerTwenty, 0, 15, Rank::WildDrawSixteen) == 0);
    assert(guaranteed_count(PlayerDrawRule::GuaranteeDrawEightPerTwenty, 0, 16, Rank::WildDrawSixteen) == 0);
    assert(guaranteed_count(PlayerDrawRule::GuaranteeDrawEightPerTwenty, 0, 17, Rank::WildDrawSixteen) == 0);
    assert(guaranteed_count(PlayerDrawRule::GuaranteeDrawEightPerTwenty, 0, 18, Rank::WildDrawSixteen) == 0);
    assert(guaranteed_count(PlayerDrawRule::GuaranteeDrawEightPerTwenty, 0, 19, Rank::WildDrawSixteen) == 0);
    assert(guaranteed_count(PlayerDrawRule::GuaranteeDrawEightPerTwenty, 0, 20, Rank::WildDrawSixteen) == 0);
}

proof fn lemma_period_guaranteedraweightpertwenty_wildfactorial()
    ensures
        guaranteed_count(PlayerDrawRule::GuaranteeDrawEightPerTwenty, 0, 20, Rank::WildFactorial) == 0,
{
    assert(guaranteed_count(PlayerDrawRule::GuaranteeDrawEightPerTwenty, 0, 0, Rank::WildFactorial) == 0);
    assert(guaranteed_count(PlayerDrawRule::GuaranteeDrawEightPerTwenty, 0, 1, Rank::WildFactorial) == 0);
    assert(guaranteed_count(PlayerDrawRule::GuaranteeDrawEightPerTwenty, 0, 2, Rank::WildFactorial) == 0);
    assert(guaranteed_count(PlayerDrawRule::GuaranteeDrawEightPerTwenty, 0, 3, Rank::WildFactorial) == 0);
    assert(guaranteed_count(PlayerDrawRule::GuaranteeDrawEightPerTwenty, 0, 4, Rank::WildFactorial) == 0);
    assert(guaranteed_count(PlayerDrawRule::GuaranteeDrawEightPerTwenty, 0, 5, Rank::WildFactorial) == 0);
    assert(guaranteed_count(PlayerDrawRule::GuaranteeDrawEightPerTwenty, 0, 6, Rank::WildFactorial) == 0);
    assert(guaranteed_count(PlayerDrawRule::GuaranteeDrawEightPerTwenty, 0, 7, Rank::WildFactorial) == 0);
    assert(guaranteed_count(PlayerDrawRule::GuaranteeDrawEightPerTwenty, 0, 8, Rank::WildFactorial) == 0);
    assert(guaranteed_count(PlayerDrawRule::GuaranteeDrawEightPerTwenty, 0, 9, Rank::WildFactorial) == 0);
    assert(guaranteed_count(PlayerDrawRule::GuaranteeDrawEightPerTwenty, 0, 10, Rank::WildFactorial) == 0);
    assert(guaranteed_count(PlayerDrawRule::GuaranteeDrawEightPerTwenty, 0, 11, Rank::WildFactorial) == 0);
    assert(guaranteed_count(PlayerDrawRule::GuaranteeDrawEightPerTwenty, 0, 12, Rank::WildFactorial) == 0);
    assert(guaranteed_count(PlayerDrawRule::GuaranteeDrawEightPerTwenty, 0, 13, Rank::WildFactorial) == 0);
    assert(guaranteed_count(PlayerDrawRule::GuaranteeDrawEightPerTwenty, 0, 14, Rank::WildFactorial) == 0);
    assert(guaranteed_count(PlayerDrawRule::GuaranteeDrawEightPerTwenty, 0, 15, Rank::WildFactorial) == 0);
    assert(guaranteed_count(PlayerDrawRule::GuaranteeDrawEightPerTwenty, 0, 16, Rank::WildFactorial) == 0);
    assert(guaranteed_count(PlayerDrawRule::GuaranteeDrawEightPerTwenty, 0, 17, Rank::WildFactorial) == 0);
    assert(guaranteed_count(PlayerDrawRule::GuaranteeDrawEightPerTwenty, 0, 18, Rank::WildFactorial) == 0);
    assert(guaranteed_count(PlayerDrawRule::GuaranteeDrawEightPerTwenty, 0, 19, Rank::WildFactorial) == 0);
    assert(guaranteed_count(PlayerDrawRule::GuaranteeDrawEightPerTwenty, 0, 20, Rank::WildFactorial) == 0);
}

/// Every window of a rule's period holds the same guarantees: as many Wild
/// Square Root as Draw Eight and as many Wild Factorial as Wild Draw Sixteen,
/// in the numbers `guarantees_per_period` gives; the exclusion rules guarantee
/// nothing.
pub proof fn law_guarantees_per_window(rule: PlayerDrawRule, start: int)
    requires
        start >= 0,
    ensures
        guaranteed_count(rule, start, rule_period(rule), Rank::DrawEight) == guarantees_per_period(rule).0,
        guaranteed_count(rule, start, rule_period(rule), Rank::WildSquareRoot) == guarantees_per_period(rule).1,
        guaranteed_count(rule, start, rule_period(rule), Rank::WildDrawSixteen) == guarantees_per_period(rule).2,
        guaranteed_count(rule, start, rule_period(rule), Rank::WildFactorial) == guarantees_per_period(rule).3,
        guarantees_per_period(rule).0 == guarantees_per_period(rule).1,
        guarantees_per_period(rule).2 == guarantees_per_period(rule).3,
        rule == PlayerDrawRule::ExcludeDrawEightAndSixteen || rule == PlayerDrawRule::ExcludeDrawSixteen
            ==> required_rank_spec(rule, start) is None,
{
    lemma_first_period(rule);
    lemma_count_shift(rule, start, Rank::DrawEight);
    lemma_count_shift(rule, start, Rank::WildSquareRoot);
    lemma_count_shift(rule, start, Rank::WildDrawSixteen);
    lemma_count_shift(rule, start, Rank::WildFactorial);
}


proof fn lemma_flat_map_member<A, B>(s: Seq<A>, f: spec_fn(A) -> Seq<B>, k: int)
    requires
        0 <= k < s.flat_map(f).len(),
    ensures
        exists|j: int, m: int| 0 <= j < s.len() && 0 <= m < f(s[j]).len() && #[trigger] f(s[j])[m] == s.flat_map(f)[k],
    decreases s.len(),
{
    if s.len() == 0 {
        assert(s.map_values(f) =~= Seq::<Seq<B>>::empty());
        assert(s.flat_map(f) =~= Seq::<B>::empty());
    } else {
        let init = s.drop_last();
        assert(s =~= init.push(s.last()));
        init.lemma_flat_map_push(f, s.last());
        let head = init.flat_map(f);
        if k < head.len() {
            lemma_flat_map_member(init, f, k);
            let (j, m) = choose|j: int, m: int|
                0 <= j < init.len() && 0 <= m < f(init[j]).len() && #[trigger] f(init[j])[m] == init.flat_map(f)[k];
            assert(s[j] == init[j]);
            assert(f(s[j])[m] == s.flat_map(f)[k]);
        } else {
            let j = s.len() - 1;
            let m = k - head.len();
            assert(f(s[j])[m] == s.flat_map(f)[k]);
        }
    }
}

/// Every play `legal_actions` offers passes every check of `play`, and the
/// closing pass or draw is allowed too (an AI that picks only offered actions
/// never moves illegally). Left out are the inputs on which this fails: after a
/// draw, a hand whose held cards were replaced by turning to another page no
/// longer holds the drawn card (the play is refused as not owned); and a held
/// card that is neither wild nor colored has no color to make active.
pub proof fn law_offered_plays_are_accepted(g: Game, player: PlayerId, actions: Seq<Action>, i: int)
    requires
        g.wf(),
        g.is_turn_of(player.0@),
        g.winner is None,
        offered(g, player, actions),
        0 <= i < actions.len(),
        g.phase matches TurnPhase::Drew(drawn) ==> g.players@[g.current_index as int].hand@.contains(drawn),
    ensures
        match actions[i] {
            Action::Play { card, chosen_color, swap_target } => play_error(g, player, card, chosen_color, swap_target)
                is None && ((forall|k: int|
                0 <= k < g.players@[g.current_index as int].hand@.len()
                    ==> (#[trigger] g.players@[g.current_index as int].hand@[k]).colored_unless_wild())
                ==> !colorless_play(g, card, chosen_color)),
            Action::Pass => g.phase is Drew || !g.can_draw_spec(player.0@),
            Action::Draw => g.phase is AwaitingAction && g.can_draw_spec(player.0@),
        },
{
    let p = g.players@[g.current_index as int];
    let hand = p.hand@;
    let cards = choose|cards: Seq<Card>|
        #[trigger] legal_cards(g, hand, p.total(), cards) && actions == cards.flat_map(plays_of_card(g, player, hand)).push(
            closing_action(g, player),
        );
    let all = cards.flat_map(plays_of_card(g, player, hand));
    if i == actions.len() - 1 {
        assert(actions[i] == closing_action(g, player));
    } else {
        assert(actions[i] == all[i]);
        lemma_flat_map_member(cards, plays_of_card(g, player, hand), i);
        let (j, m) = choose|j: int, m: int|
            0 <= j < cards.len() && 0 <= m < (plays_of_card(g, player, hand))(cards[j]).len() && #[trigger] (
            plays_of_card(g, player, hand))(cards[j])[m] == all[i];
        let card = cards[j];
        assert(cards.contains(card));
        let plays = card_plays(g, player, hand, card);
        assert((plays_of_card(g, player, hand))(card) == plays);
        lemma_flat_map_member(color_choices(hand, card), plays_with_color(g, player, card), m);
        let (c, t) = choose|c: int, t: int|
            0 <= c < color_choices(hand, card).len() && 0 <= t < (plays_with_color(g, player, card))(
                color_choices(hand, card)[c],
            ).len() && #[trigger] (plays_with_color(g, player, card))(color_choices(hand, card)[c])[t] == plays[m];
        let chosen = color_choices(hand, card)[c];
        let target = swap_choices(g, player, card)[t];
        assert(actions[i] == Action::Play { card, chosen_color: chosen, swap_target: target });
        // the card is held and playable, and after a draw it is the drawn card
        match g.phase {
            TurnPhase::AwaitingAction => {
                assert(hand.contains(card) && g.playable(hand, p.total(), card));
            },
            TurnPhase::Drew(drawn) => {
                assert(cards == seq![drawn]);
                assert(card == drawn);
            },
        }
        // the color choice fits the card
        if card.is_wild() {
            assert(chosen is Some);
        } else if card.rank is Number && multi_color_batch(hand, card.rank->0) {
            let number = card.rank->0;
            let colors = color_order().filter(present_in_batch(hand, number));
            assert(color_choices(hand, card) == colors.map_values(|x: Color| Some(x)));
            assert(chosen == Some(colors[c]));
            assert(colors.contains(colors[c]));
            broadcast use vstd::seq_lib::group_filter_ensures;
            assert((present_in_batch(hand, number))(colors[c]));
            assert(has_number_color(hand, number, chosen.unwrap()));
        } else {
            assert(chosen is None);
            assert(!needs_color(hand, card));
        }
        // the swap target fits the card
        if g.house_rules.seven_zero && card.rank == Rank::Number(7) {
            let others = g.players@.filter(other_seat(player));
            broadcast use vstd::seq_lib::group_filter_ensures;
            assert(swap_choices(g, player, card) == others.map_values(|q: Player| Some(q.id)));
            assert(t < others.len());
            assert(target == Some(others[t].id));
            assert(others.contains(others[t]));
            g.players@.lemma_filter_contains_rev(other_seat(player), others[t]);
            assert(g.players@.contains(others[t]));
            let k = choose|k: int| 0 <= k < g.players@.len() && g.players@[k] == others[t];
            assert((other_seat(player))(others[t]));
            assert(g.players@[k].id.0@ == target.unwrap().0@);
            assert(g.seat_of(target.unwrap().0@) != -1);
        } else {
            assert(target is None);
        }
    }
}


/// When `legal_actions` closes with a draw (no draw yet this turn, and the
/// player's rule leaves something to draw), the draw is accepted: a full deck
/// always holds number cards, which every rule admits.
pub proof fn law_offered_draw_is_accepted(
    g: Game,
    new: Game,
    player: PlayerId,
    result: Result<super::cards::GameEvent, GameError>,
)
    requires
        g.wf(),
        g.is_turn_of(player.0@),
        g.phase is AwaitingAction,
        g.can_draw_spec(player.0@),
        draw_outcome(g, new, player, result),
    ensures
        result is Ok,
{
    broadcast use vstd::seq_lib::group_to_multiset_ensures;
    let a = g.current_index as int;
    g.lemma_seat_unique(player.0@, a);
    let (mid, drawn) = choose|mid: Game, drawn: Result<Card, GameError>|
        #[trigger] drew_for(g, mid, a, drawn) && match drawn {
            Err(e) => result == Err::<super::cards::GameEvent, GameError>(e) && new == mid,
            Ok(card) => result is Ok,
        };
    if let Some(state) = g.rule_state(a) {
        let pile = choose|pile: Seq<Card>|
            #![trigger refill_post(g.deck_variant, g.draw_pile@, pile)]
            refill_post(g.deck_variant, g.draw_pile@, pile) && draw_with_rule_post(
                pile,
                mid.draw_pile@,
                state.rule,
                state.received as int,
                drawn,
            );
        if required_rank_spec(state.rule, state.received as int) is None {
            if g.draw_pile@.len() == 0 {
                let red_zero = deck_spec(g.deck_variant)[0];
                assert(red_zero.rank is Number);
                assert(deck_spec(g.deck_variant).contains(red_zero));
                assert(pile.to_multiset().count(red_zero) > 0);
                assert(pile.contains(red_zero));
                let k = choose|k: int| 0 <= k < pile.len() && pile[k] == red_zero;
                assert(card_allowed_spec(state.rule, red_zero));
                assert((allowed_by(state.rule))(pile[k]));
                assert(has_match(pile, allowed_by(state.rule)));
            } else {
                assert(pile == g.draw_pile@);
            }
        }
    }
}


/// A Skip that is accepted and does not end the round passes over the next
/// player: the turn goes two seats on in the direction of play, which stays.
pub proof fn law_skip_passes_over_the_next_player(
    old: Game,
    new: Game,
    player: PlayerId,
    card: Card,
    chosen: Option<Color>,
    swap_target: Option<PlayerId>,
    result: Result<super::cards::GameEvent, GameError>,
)
    requires
        old.wf(),
        card.rank == Rank::Skip,
        play_outcome(old, new, player, card, chosen, swap_target, result),
        result is Ok,
        new.winner != Some(player),
    ensures
        new.direction == old.direction,
        old.direction == Direction::Clockwise ==> new.current_index == (old.current_index + 2) % (
        old.players@.len() as int),
        old.direction == Direction::CounterClockwise ==> new.current_index == (old.current_index + 2 * old.players@.len()
            - 2) % (old.players@.len() as int),
{
    let event = result->Ok_0;
    assert(played(old, new, player, card, chosen, swap_target, event));
    let a = old.current_index as int;
    let n = old.players@.len() as int;
    let color = super::turns::final_color(old.players@[a].hand@, card, chosen);
    let top = event.kind->card;
    let mid = choose|mid: Game|
        #[trigger] discarded(old, mid, card, color, top) && if mid.players@[a].total() == 0 {
            &&& event.kind->hand_effect is None
            &&& new.players == mid.players
            &&& new.draw_pile == mid.draw_pile
            &&& new.discard_pile == mid.discard_pile
            &&& new.direction == mid.direction
            &&& new.current_index == mid.current_index
            &&& new.winner == Some(player)
            &&& new.events@.len() == old.events@.len() + 2
            &&& new.events@[old.events@.len() as int + 1] == (super::cards::GameEvent {
                sequence: (old.events@.len() + 1) as u64,
                kind: super::cards::EventKind::GameWon { player },
            })
        } else {
            &&& super::effects::effect_applied(mid, new, top, swap_target, event.kind->hand_effect)
            &&& new.winner == old.winner
            &&& new.events@.len() == old.events@.len() + 1
        };
    assert(top == card);
    assert(mid.current_index == old.current_index);
    assert(mid.players@.len() == n);
    assert(mid.direction == old.direction);
    if old.direction == Direction::CounterClockwise {
        vstd::arithmetic::div_mod::lemma_mod_add_multiples_vanish(a - 2, n);
        assert((a - 2 + 2 * n) % n == (a - 2) % n) by {
            vstd::arithmetic::div_mod::lemma_mod_add_multiples_vanish(a - 2 + n, n);
        }
    }
}

/// An accepted pass hands the turn to the very next seat in the direction of
/// play, which stays.
pub proof fn law_pass_moves_one_seat(
    old: Game,
    new: Game,
    player: PlayerId,
    result: Result<super::cards::GameEvent, GameError>,
)
    requires
        old.wf(),
        pass_outcome(old, new, player, result),
        result is Ok,
    ensures
        new.direction == old.direction,
        old.direction == Direction::Clockwise ==> new.current_index == (old.current_index + 1) % (
        old.players@.len() as int),
        old.direction == Direction::CounterClockwise ==> new.current_index == (old.current_index + old.players@.len()
            - 1) % (old.players@.len() as int),
{
    let a = old.current_index as int;
    let n = old.players@.len() as int;
    if old.direction == Direction::CounterClockwise {
        vstd::arithmetic::div_mod::lemma_mod_add_multiples_vanish(a - 1, n);
    }
}

proof fn lemma_flat_map_has<A, B>(s: Seq<A>, f: spec_fn(A) -> Seq<B>, j: int, m: int)
    requires
        0 <= j < s.len(),
        0 <= m < f(s[j]).len(),
    ensures
        s.flat_map(f).contains(f(s[j])[m]),
    decreases s.len(),
{
    let init = s.drop_last();
    assert(s =~= init.push(s.last()));
    init.lemma_flat_map_push(f, s.last());
    let head = init.flat_map(f);
    if j < s.len() - 1 {
        assert(s[j] == init[j]);
        lemma_flat_map_has(init, f, j, m);
        let k = choose|k: int| 0 <= k < head.len() && head[k] == f(s[j])[m];
        assert(s.flat_map(f)[k] == head[k]);
    } else {
        assert(s.flat_map(f)[head.len() + m] == f(s[j])[m]);
    }
}

/// Every wild card the player to move holds and may play is offered with
/// each of the four colors as the color it makes active.
pub proof fn law_wild_offered_in_every_color(
    g: Game,
    player: PlayerId,
    actions: Seq<Action>,
    card: Card,
    color: Color,
)
    requires
        g.wf(),
        offered(g, player, actions),
        g.phase == TurnPhase::AwaitingAction,
        g.players@[g.current_index as int].hand@.contains(card),
        card.is_wild(),
        g.playable(g.players@[g.current_index as int].hand@, g.players@[g.current_index as int].total(), card),
    ensures
        actions.contains(Action::Play { card, chosen_color: Some(color), swap_target: None }),
{
    let p = g.players@[g.current_index as int];
    let hand = p.hand@;
    let cards = choose|cards: Seq<Card>|
        #[trigger] legal_cards(g, hand, p.total(), cards) && actions == cards.flat_map(plays_of_card(g, player, hand)).push(
            closing_action(g, player),
        );
    assert(cards.contains(card));
    let j = choose|j: int| 0 <= j < cards.len() && cards[j] == card;
    let choices = color_choices(hand, card);
    assert(choices == color_order().map_values(|c: Color| Some(c)));
    let k: int = match color {
        Color::Red => 0,
        Color::Yellow => 1,
        Color::Green => 2,
        Color::Blue => 3,
    };
    assert(choices[k] == Some(color));
    let targets = swap_choices(g, player, card);
    assert(targets == seq![Option::<PlayerId>::None]);
    let inner = plays_with_color(g, player, card);
    assert(inner(choices[k])[0] == Action::Play { card, chosen_color: Some(color), swap_target: None });
    lemma_flat_map_has(choices, inner, k, 0);
    let plays = card_plays(g, player, hand, card);
    assert(plays.contains(Action::Play { card, chosen_color: Some(color), swap_target: None }));
    let mm = choose|mm: int| 0 <= mm < plays.len() && plays[mm] == Action::Play { card, chosen_color: Some(color), swap_target: None };
    assert((plays_of_card(g, player, hand))(cards[j]) == plays);
    lemma_flat_map_has(cards, plays_of_card(g, player, hand), j, mm);
    let all = cards.flat_map(plays_of_card(g, player, hand));
    let q = choose|q: int| 0 <= q < all.len() && all[q] == Action::Play { card, chosen_color: Some(color), swap_target: None };
    assert(actions[q] == all[q]);
}


/// Every card the player to move may play now is offered. One that is not a
/// wild, not a number card, and so names neither a color nor a swap target,
/// is offered exactly as the plain play of it.
pub proof fn law_playable_card_offered(g: Game, player: PlayerId, actions: Seq<Action>, card: Card)
    requires
        g.wf(),
        offered(g, player, actions),
        g.playable(g.players@[g.current_index as int].hand@, g.players@[g.current_index as int].total(), card),
        match g.phase {
            TurnPhase::AwaitingAction => g.players@[g.current_index as int].hand@.contains(card),
            TurnPhase::Drew(drawn) => drawn == card,
        },
        !card.is_wild(),
        !(card.rank is Number),
    ensures
        actions.contains(Action::Play { card, chosen_color: None, swap_target: None }),
{
    let p = g.players@[g.current_index as int];
    let hand = p.hand@;
    let cards = choose|cards: Seq<Card>|
        #[trigger] legal_cards(g, hand, p.total(), cards) && actions == cards.flat_map(plays_of_card(g, player, hand)).push(
            closing_action(g, player),
        );
    assert(cards.contains(card)) by {
        if g.phase is Drew {
            assert(cards[0] == card);
        }
    }
    let act = Action::Play { card, chosen_color: None, swap_target: None };
    let j = choose|j: int| 0 <= j < cards.len() && cards[j] == card;
    let choices = color_choices(hand, card);
    assert(choices == seq![Option::<Color>::None]);
    let targets = swap_choices(g, player, card);
    assert(targets == seq![Option::<PlayerId>::None]);
    let inner = plays_with_color(g, player, card);
    assert(inner(choices[0])[0] == act);
    lemma_flat_map_has(choices, inner, 0, 0);
    let plays = card_plays(g, player, hand, card);
    assert(plays.contains(act));
    let mm = choose|mm: int| 0 <= mm < plays.len() && plays[mm] == act;
    assert((plays_of_card(g, player, hand))(cards[j]) == plays);
    lemma_flat_map_has(cards, plays_of_card(g, player, hand), j, mm);
    let all = cards.flat_map(plays_of_card(g, player, hand));
    let q = choose|q: int| 0 <= q < all.len() && all[q] == act;
    assert(actions[q] == all[q]);
}

/// An accepted draw adds one card to the count of the player to move, who
/// keeps the turn in the phase after a draw; every other seat is unchanged.
pub proof fn law_draw_adds_one_card(
    old: Game,
    new: Game,
    player: PlayerId,
    result: Result<super::cards::GameEvent, GameError>,
)
    requires
        old.wf(),
        draw_outcome(old, new, player, result),
        result is Ok,
    ensures
        new.phase is Drew,
        new.current_index == old.current_index,
        new.direction == old.direction,
        new.players@.len() == old.players@.len(),
        new.players@[old.current_index as int].total() == count_after(old.players@[old.current_index as int].total(), 1),
        forall|k: int| 0 <= k < old.players@.len() && k != old.current_index ==> new.players@[k] == old.players@[k],
{
    let a = old.current_index as int;
    let (mid, drawn) = choose|mid: Game, drawn: Result<Card, GameError>|
        #[trigger] drew_for(old, mid, a, drawn) && match drawn {
            Err(e) => result == Err::<super::cards::GameEvent, GameError>(e) && new == mid,
            Ok(card) => {
                let event = super::cards::GameEvent {
                    sequence: old.events@.len() as u64,
                    kind: super::cards::EventKind::CardDrawn { player, count: 1 },
                };
                &&& result == Ok::<super::cards::GameEvent, GameError>(event)
                &&& super::game::pushed_card(mid, new, a, card)
                &&& new.phase == TurnPhase::Drew(card)
                &&& new.events@ == old.events@.push(event)
                &&& new.discard_pile == mid.discard_pile
                &&& new.winner == mid.winner
                &&& new.active_color == mid.active_color
                &&& new.direction == mid.direction
                &&& new.current_index == mid.current_index
                &&& new.deck_variant == mid.deck_variant
                &&& new.house_rules == mid.house_rules
                &&& new.refill_seed_source == mid.refill_seed_source
            },
        };
    assert(drawn is Ok);
    assert(mid.players@[a].total() == old.players@[a].total());
}

/// The seat `k` seats on (`k` at most two) from `a` among `n` seats in
/// direction `dir`.
pub open spec fn seat_steps(a: int, n: int, dir: Direction, k: int) -> int {
    match dir {
        Direction::Clockwise => (a + k) % n,
        Direction::CounterClockwise => (a + 2 * n - k) % n,
    }
}

proof fn lemma_seat_steps(a: int, n: int, dir: Direction, k: int)
    requires
        n > 0,
        0 <= a < n,
        0 <= k <= 2,
    ensures
        advanced(a, n, dir, k) == seat_steps(a, n, dir, k),
{
    if dir == Direction::CounterClockwise {
        vstd::arithmetic::div_mod::lemma_mod_add_multiples_vanish(a - k, n);
        vstd::arithmetic::div_mod::lemma_mod_add_multiples_vanish(a - k + n, n);
        assert(a + 2 * n - k == n + (n + (a - k)));
    }
}

proof fn lemma_next_seat_differs(a: int, n: int, dir: Direction)
    requires
        n >= 2,
        0 <= a < n,
    ensures
        0 <= seat_steps(a, n, dir, 1) < n,
        seat_steps(a, n, dir, 1) != a,
{
    if dir == Direction::Clockwise {
        if a + 1 < n {
            vstd::arithmetic::div_mod::lemma_small_mod((a + 1) as nat, n as nat);
        } else {
            vstd::arithmetic::div_mod::lemma_mod_add_multiples_vanish(0, n);
            assert(a + 1 == n + 0);
        }
    } else {
        vstd::arithmetic::div_mod::lemma_mod_add_multiples_vanish(a - 1 + n, n);
        assert(a + 2 * n - 1 == n + (a - 1 + n));
        if a >= 1 {
            vstd::arithmetic::div_mod::lemma_mod_add_multiples_vanish(a - 1, n);
            vstd::arithmetic::div_mod::lemma_small_mod((a - 1) as nat, n as nat);
        } else {
            vstd::arithmetic::div_mod::lemma_small_mod((n - 1) as nat, n as nat);
        }
    }
}

/// A hand's card count after `k` more cards, held at the largest count a
/// `usize` holds.
pub open spec fn count_after(total: int, k: int) -> int {
    if total + k > usize::MAX {
        usize::MAX as int
    } else {
        total + k
    }
}

/// The other direction of play.
pub open spec fn other_way(dir: Direction) -> Direction {
    match dir {
        Direction::Clockwise => Direction::CounterClockwise,
        Direction::CounterClockwise => Direction::Clockwise,
    }
}

/// An accepted play that does not end the round leaves the turn where the
/// card's effect sends it: a Wild or a plain number card to the next seat; a
/// Skip, a draw penalty, a discard wild or a Square Root two seats on; a
/// Reverse turns the direction and hands the turn to the next seat that way
/// (back to the player in a two-player game). The penalty cards go to the next
/// seat: Draw Two adds two, Wild Draw Four four, Draw Eight eight and Wild Draw
/// Sixteen sixteen cards to its count.
pub proof fn law_turn_after_play(
    old: Game,
    new: Game,
    player: PlayerId,
    card: Card,
    chosen: Option<Color>,
    swap_target: Option<PlayerId>,
    result: Result<super::cards::GameEvent, GameError>,
)
    requires
        old.wf(),
        play_outcome(old, new, player, card, chosen, swap_target, result),
        result is Ok,
        new.winner != Some(player),
    ensures
        ({
            let a = old.current_index as int;
            let n = old.players@.len() as int;
            let d = old.direction;
            let next = seat_steps(a, n, d, 1);
            &&& (card.rank == Rank::Wild || (card.rank is Number && !(old.house_rules.seven_zero && (card.rank
                == Rank::Number(0) || card.rank == Rank::Number(7))))) ==> new.current_index == next
                && new.direction == d
            &&& (card.rank == Rank::Skip || card.rank == Rank::DrawTwo || card.rank == Rank::DrawEight || card.rank
                == Rank::WildDrawFour || card.rank == Rank::WildDrawSixteen || card.rank == Rank::WildDiscardThirtyTwo
                || card.rank == Rank::WildDiscardSixtyFour || card.rank == Rank::WildSquareRoot)
                ==> new.current_index == seat_steps(a, n, d, 2) && new.direction == d
            &&& card.rank == Rank::Reverse ==> new.direction == other_way(d) && new.current_index == if n == 2 {
                a
            } else {
                seat_steps(a, n, other_way(d), 1)
            }
            &&& card.rank == Rank::DrawTwo ==> new.players@[next].total() == count_after(old.players@[next].total(), 2)
            &&& card.rank == Rank::WildDrawFour ==> new.players@[next].total() == count_after(
                old.players@[next].total(),
                4,
            )
            &&& card.rank == Rank::DrawEight ==> new.players@[next].total() == count_after(old.players@[next].total(), 8)
            &&& card.rank == Rank::WildDrawSixteen ==> new.players@[next].total() == count_after(
                old.players@[next].total(),
                16,
            )
        }),
{
    let event = result->Ok_0;
    assert(played(old, new, player, card, chosen, swap_target, event));
    let a = old.current_index as int;
    let n = old.players@.len() as int;
    let d = old.direction;
    let color = super::turns::final_color(old.players@[a].hand@, card, chosen);
    let top = event.kind->card;
    let mid = choose|mid: Game|
        #[trigger] discarded(old, mid, card, color, top) && if mid.players@[a].total() == 0 {
            &&& event.kind->hand_effect is None
            &&& new.players == mid.players
            &&& new.draw_pile == mid.draw_pile
            &&& new.discard_pile == mid.discard_pile
            &&& new.direction == mid.direction
            &&& new.current_index == mid.current_index
            &&& new.winner == Some(player)
            &&& new.events@.len() == old.events@.len() + 2
            &&& new.events@[old.events@.len() as int + 1] == (super::cards::GameEvent {
                sequence: (old.events@.len() + 1) as u64,
                kind: super::cards::EventKind::GameWon { player },
            })
        } else {
            &&& super::effects::effect_applied(mid, new, top, swap_target, event.kind->hand_effect)
            &&& new.winner == old.winner
            &&& new.events@.len() == old.events@.len() + 1
        };
    assert(mid.current_index == old.current_index);
    assert(mid.players@.len() == n);
    assert(mid.direction == d);
    assert(top.rank == card.rank) by {
        if let Rank::Number(number) = card.rank {
            let p = old.players@[a];
            let stacked = p.hand@.filter(numbered(number));
            let t = choose|t: int|
                #![trigger stacked[t]]
                is_last_match(stacked, colored(color), t) && top == stacked[t] && mid.players@[a].hand@ == p.hand@.filter(
                    not_numbered(number),
                ) && mid.discard_pile@ == old.discard_pile@ + stacked.remove(t) + seq![top];
            broadcast use vstd::seq_lib::group_filter_ensures;
            assert((numbered(number))(stacked[t]));
        }
    }
    lemma_seat_steps(a, n, d, 1);
    lemma_seat_steps(a, n, d, 2);
    lemma_seat_steps(a, n, reversed(d), 1);
    lemma_seat_steps(a, n, reversed(d), 2);
    assert(reversed(d) == other_way(d));
    let next = seat_steps(a, n, d, 1);
    lemma_next_seat_differs(a, n, d);
    if n == 2 {
        assert(seat_steps(a, n, reversed(d), 2) == a);
    }
    assert(mid.players@[next] == old.players@[next]);
}

} // verus!
