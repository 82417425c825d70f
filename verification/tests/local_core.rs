use rand::rngs::StdRng;
use rand::SeedableRng;
use uno::local_core::cards::{
    holiday_deck, standard_deck, Action, Card, Color, DeckVariant, Direction, EventKind, GameError, HandEffect,
    PlayerDrawRule, PlayerDrawState, PlayerId, PlusPlay, Rank, TurnPhase, HAND_BATCH_SIZE, MAX_PLAYERS, MIN_PLAYERS,
    STARTING_HAND_SIZE,
};
use uno::local_core::game::Game;
use uno::local_core::rules::{draw_card_with_rule, factorial_hand_size, MAX_FACTORIAL_HAND_SIZE};

fn players(count: usize) -> Vec<(PlayerId, String)> {
    (0..count)
        .map(|index| (PlayerId::new(&format!("p{index}")), format!("P{index}")))
        .collect()
}

fn game() -> Game {
    Game::new_seeded(players(2), DeckVariant::Standard, 7).unwrap()
}

fn seat(game: &Game, id: &PlayerId) -> usize {
    game.players.iter().position(|player| &player.id == id).unwrap()
}

#[test]
fn standard_deck_has_112_cards_and_two_zeros_per_color() {
    let deck = standard_deck();
    assert_eq!(deck.len(), 112);
    for color in Color::ALL {
        assert_eq!(deck.iter().filter(|card| **card == Card::new(color, Rank::Number(0))).count(), 2);
    }
}

#[test]
fn holiday_deck_has_exact_expansion_cards() {
    let deck = holiday_deck();
    assert_eq!(deck.len(), 130);
    for color in Color::ALL {
        assert_eq!(deck.iter().filter(|card| **card == Card::new(color, Rank::Number(0))).count(), 2);
        assert_eq!(deck.iter().filter(|card| **card == Card::new(color, Rank::DrawEight)).count(), 2);
    }
    assert_eq!(deck.iter().filter(|card| **card == Card::wild(Rank::WildDrawSixteen)).count(), 2);
    assert_eq!(deck.iter().filter(|card| **card == Card::wild(Rank::WildDiscardThirtyTwo)).count(), 2);
    assert_eq!(deck.iter().filter(|card| **card == Card::wild(Rank::WildDiscardSixtyFour)).count(), 2);
    assert_eq!(deck.iter().filter(|card| **card == Card::wild(Rank::WildFactorial)).count(), 2);
    assert_eq!(deck.iter().filter(|card| **card == Card::wild(Rank::WildSquareRoot)).count(), 2);
}

#[test]
fn factorial_size_uses_power_and_absolute_caps_without_overflow() {
    assert_eq!(factorial_hand_size(0), 0);
    assert_eq!(factorial_hand_size(1), 1);
    assert_eq!(factorial_hand_size(5), 120);
    assert_eq!(factorial_hand_size(8), 40_320);
    assert_eq!(factorial_hand_size(9), 362_880);
    assert_eq!(factorial_hand_size(10), 3_628_800);
    assert_eq!(factorial_hand_size(12), 479_001_600);
    assert_eq!(factorial_hand_size(13), MAX_FACTORIAL_HAND_SIZE);
    assert_eq!(factorial_hand_size(usize::MAX), MAX_FACTORIAL_HAND_SIZE);
}

#[test]
fn factorial_grows_and_skips_the_next_hand_in_both_directions() {
    for direction in [Direction::Clockwise, Direction::CounterClockwise] {
        let mut game = Game::new_seeded(players(3), DeckVariant::Holiday, 42).unwrap();
        let actor = game.players[0].id.clone();
        game.current_index = 0;
        game.direction = direction;
        game.players[0].hand = vec![Card::wild(Rank::WildFactorial), Card::new(Color::Blue, Rank::Number(1))];
        let target_index = if direction == Direction::Clockwise { 1 } else { 2 };
        game.players[target_index].hand = vec![
            Card::new(Color::Red, Rank::Number(1)),
            Card::new(Color::Red, Rank::Number(2)),
            Card::new(Color::Red, Rank::Number(3)),
            Card::new(Color::Red, Rank::Number(4)),
            Card::new(Color::Red, Rank::Number(5)),
        ];
        game.discard_pile = vec![Card::new(Color::Yellow, Rank::Number(7))];
        game.active_color = Color::Yellow;

        let event = game
            .apply_action(
                &actor,
                Action::Play {
                    card: Card::wild(Rank::WildFactorial),
                    chosen_color: Some(Color::Green),
                    swap_target: None,
                },
            )
            .unwrap();

        assert_eq!(game.players[target_index].hand.len(), 120);
        assert_eq!(game.current_index, if direction == Direction::Clockwise { 2 } else { 1 });
        assert!(matches!(
            event.kind,
            EventKind::CardPlayed { hand_effect: Some(HandEffect::Factorial { before: 5, after: 120, .. }), .. }
        ));
    }
}

#[test]
fn factorial_virtualizes_the_two_point_one_billion_card_cap() {
    let mut game = Game::new_seeded(players(3), DeckVariant::Holiday, 43).unwrap();
    let actor = game.players[0].id.clone();
    game.current_index = 0;
    game.players[0].hand = vec![Card::wild(Rank::WildFactorial), Card::new(Color::Blue, Rank::Number(1))];
    game.players[1].hand = (0..13).map(|number| Card::new(Color::Red, Rank::Number(number))).collect();
    game.discard_pile = vec![Card::new(Color::Yellow, Rank::Number(7))];
    game.active_color = Color::Yellow;

    game.apply_action(
        &actor,
        Action::Play { card: Card::wild(Rank::WildFactorial), chosen_color: Some(Color::Green), swap_target: None },
    )
    .unwrap();

    assert_eq!(game.players[1].hand_len(), MAX_FACTORIAL_HAND_SIZE);
    assert_eq!(game.players[1].hand.len(), HAND_BATCH_SIZE);
    assert_eq!(game.current_index, 2);
}

#[test]
fn square_root_randomly_reduces_the_actor_and_keeps_the_wild_on_top() {
    let mut first = Game::new_seeded(players(3), DeckVariant::Holiday, 77).unwrap();
    let mut second = Game::new_seeded(players(3), DeckVariant::Holiday, 77).unwrap();
    for game in [&mut first, &mut second] {
        let actor = game.players[0].id.clone();
        game.current_index = 0;
        game.players[0].hand = std::iter::once(Card::wild(Rank::WildSquareRoot))
            .chain((0..10).map(|number| Card::new(Color::Red, Rank::Number(number))))
            .collect();
        game.discard_pile = vec![Card::new(Color::Yellow, Rank::Number(7))];
        game.active_color = Color::Yellow;
        let event = game
            .apply_action(
                &actor,
                Action::Play {
                    card: Card::wild(Rank::WildSquareRoot),
                    chosen_color: Some(Color::Blue),
                    swap_target: None,
                },
            )
            .unwrap();
        assert_eq!(game.players[0].hand.len(), 3);
        assert_eq!(game.current_index, 2);
        assert_eq!(game.discard_pile.last(), Some(&Card::wild(Rank::WildSquareRoot)));
        assert!(matches!(
            event.kind,
            EventKind::CardPlayed { hand_effect: Some(HandEffect::SquareRoot { before: 10, after: 3, .. }), .. }
        ));
    }
    assert_eq!(first.players[0].hand, second.players[0].hand);
    assert_eq!(first.discard_pile, second.discard_pile);
}

#[test]
fn final_mathematical_wild_wins_without_transforming_a_hand() {
    for rank in [Rank::WildFactorial, Rank::WildSquareRoot] {
        let mut game = Game::new_seeded(players(2), DeckVariant::Holiday, 88).unwrap();
        let actor = game.players[0].id.clone();
        game.current_index = 0;
        game.players[0].hand = vec![Card::wild(rank)];
        let target_before = game.players[1].hand.clone();
        game.discard_pile = vec![Card::new(Color::Red, Rank::Number(4))];
        game.active_color = Color::Red;

        let event = game
            .apply_action(&actor, Action::Play { card: Card::wild(rank), chosen_color: Some(Color::Blue), swap_target: None })
            .unwrap();

        assert!(matches!(event.kind, EventKind::CardPlayed { hand_effect: None, .. }));
        assert_eq!(game.winner, Some(actor));
        assert_eq!(game.players[1].hand, target_before);
    }
}

#[test]
fn player_count_is_two_to_five() {
    assert_eq!(
        Game::new_seeded(players(1), DeckVariant::Standard, 1).unwrap_err(),
        GameError::InvalidPlayerCount(1)
    );
    assert!(Game::new_seeded(players(5), DeckVariant::Holiday, 1).is_ok());
    assert_eq!(
        Game::new_seeded(players(6), DeckVariant::Standard, 1).unwrap_err(),
        GameError::InvalidPlayerCount(6)
    );
}

#[test]
fn seed_reproduces_initial_state() {
    let first = Game::new_seeded(players(3), DeckVariant::Holiday, 42).unwrap();
    let second = Game::new_seeded(players(3), DeckVariant::Holiday, 42).unwrap();
    assert_eq!(first.public_state(), second.public_state());
    assert_eq!(first.hand_for(&PlayerId::new("p0")), second.hand_for(&PlayerId::new("p0")));
}

fn ai_rules(rule: PlayerDrawRule, count: usize) -> Vec<(PlayerId, PlayerDrawRule)> {
    (1..count).map(|index| (PlayerId::new(&format!("p{index}")), rule)).collect()
}

fn is_holiday_only(rank: Rank) -> bool {
    matches!(
        rank,
        Rank::DrawEight
            | Rank::WildDrawSixteen
            | Rank::WildDiscardThirtyTwo
            | Rank::WildDiscardSixtyFour
            | Rank::WildFactorial
            | Rank::WildSquareRoot
    )
}

#[test]
fn easy_ai_never_receives_either_guarantee_tier() {
    let mut game = Game::new_seeded_with_draw_rules(
        players(2),
        DeckVariant::Holiday,
        ai_rules(PlayerDrawRule::ExcludeDrawEightAndSixteen, 2),
        11,
    )
    .unwrap();
    let bot = PlayerId::new("p1");
    assert!(game.hand_for(&bot).unwrap().iter().all(|card| !is_holiday_only(card.rank)));
    for _ in 0..30 {
        let card = game.draw_card_for(&bot).unwrap();
        assert!(!is_holiday_only(card.rank));
    }
}

#[test]
fn normal_ai_excludes_sixteen_factorial_and_discard_wilds_but_allows_square_root() {
    let mut game = Game::new_seeded_with_draw_rules(
        players(2),
        DeckVariant::Holiday,
        ai_rules(PlayerDrawRule::ExcludeDrawSixteen, 2),
        12,
    )
    .unwrap();
    let bot = PlayerId::new("p1");
    assert!(game.hand_for(&bot).unwrap().iter().all(|card| !matches!(
        card.rank,
        Rank::WildDrawSixteen | Rank::WildDiscardThirtyTwo | Rank::WildDiscardSixtyFour | Rank::WildFactorial
    )));
    game.draw_pile = vec![Card::wild(Rank::WildSquareRoot)];
    assert_eq!(game.draw_card_for(&bot).unwrap().rank, Rank::WildSquareRoot);
    for _ in 0..30 {
        assert!(!matches!(
            game.draw_card_for(&bot).unwrap().rank,
            Rank::WildDrawSixteen | Rank::WildDiscardThirtyTwo | Rank::WildDiscardSixtyFour | Rank::WildFactorial
        ));
    }
}

#[test]
fn hard_ai_receives_draw_eight_and_square_root_in_each_initial_hand() {
    let game = Game::new_seeded_with_draw_rules(
        players(5),
        DeckVariant::Holiday,
        ai_rules(PlayerDrawRule::GuaranteeDrawEightPerSeven, 5),
        13,
    )
    .unwrap();
    for index in 1..5 {
        let id = PlayerId::new(&format!("p{index}"));
        assert!(game.hand_for(&id).unwrap().iter().any(|card| card.rank == Rank::DrawEight));
        assert!(game.hand_for(&id).unwrap().iter().any(|card| card.rank == Rank::WildSquareRoot));
    }
}

#[test]
fn extreme_ai_gets_exact_holiday_ratio_in_every_seven_cards() {
    let mut game = Game::new_seeded_with_draw_rules(
        players(5),
        DeckVariant::Holiday,
        ai_rules(PlayerDrawRule::TwoDrawEightAndOneSixteenPerSeven, 5),
        14,
    )
    .unwrap();
    for index in 1..5 {
        let bot = PlayerId::new(&format!("p{index}"));
        let hand = game.hand_for(&bot).unwrap();
        assert_eq!(hand.iter().filter(|card| card.rank == Rank::DrawEight).count(), 2);
        assert_eq!(hand.iter().filter(|card| card.rank == Rank::WildDrawSixteen).count(), 1);
        assert_eq!(hand.iter().filter(|card| card.rank == Rank::WildSquareRoot).count(), 2);
        assert_eq!(hand.iter().filter(|card| card.rank == Rank::WildFactorial).count(), 1);
    }

    let bot = PlayerId::new("p1");
    let next_seven: Vec<Card> = (0..7).map(|_| game.draw_card_for(&bot).unwrap()).collect();
    assert_eq!(next_seven.iter().filter(|card| card.rank == Rank::DrawEight).count(), 2);
    assert_eq!(next_seven.iter().filter(|card| card.rank == Rank::WildDrawSixteen).count(), 1);
    assert_eq!(next_seven.iter().filter(|card| card.rank == Rank::WildSquareRoot).count(), 2);
    assert_eq!(next_seven.iter().filter(|card| card.rank == Rank::WildFactorial).count(), 1);
}

#[test]
fn easy_human_gets_both_members_of_each_guaranteed_tier() {
    let human = PlayerId::new("p0");
    let rules = vec![(human.clone(), PlayerDrawRule::GuaranteeDrawEightPerFiveAndSixteenPerTen)];
    let mut game = Game::new_seeded_with_draw_rules(players(2), DeckVariant::Holiday, rules, 15).unwrap();

    assert_eq!(game.hand_for(&human).unwrap()[3].rank, Rank::WildSquareRoot);
    assert_eq!(game.hand_for(&human).unwrap()[4].rank, Rank::DrawEight);
    let cards: Vec<Card> = (8..=20).map(|_| game.draw_card_for(&human).unwrap()).collect();
    assert_eq!(cards[1].rank, Rank::WildFactorial);
    assert_eq!(cards[2].rank, Rank::WildDrawSixteen);
    assert_eq!(cards[6].rank, Rank::WildSquareRoot);
    assert_eq!(cards[7].rank, Rank::DrawEight);
    assert_eq!(cards[11].rank, Rank::WildFactorial);
    assert_eq!(cards[12].rank, Rank::WildDrawSixteen);
}

#[test]
fn normal_human_gets_square_root_and_draw_eight_every_twenty_cards() {
    let human = PlayerId::new("p0");
    let rules = vec![(human.clone(), PlayerDrawRule::GuaranteeDrawEightPerTwenty)];
    let mut game = Game::new_seeded_with_draw_rules(players(2), DeckVariant::Holiday, rules, 16).unwrap();

    let cards: Vec<Card> = (8..=40).map(|_| game.draw_card_for(&human).unwrap()).collect();
    assert_eq!(cards[11].rank, Rank::WildSquareRoot);
    assert_eq!(cards[12].rank, Rank::DrawEight);
    assert_eq!(cards[31].rank, Rank::WildSquareRoot);
    assert_eq!(cards[32].rank, Rank::DrawEight);
}

#[test]
fn human_guarantees_allow_random_holiday_cards_between_guarantees() {
    let mut deck = vec![Card::wild(Rank::WildDrawSixteen)];
    let card = draw_card_with_rule(
        &mut deck,
        PlayerDrawRule::GuaranteeDrawEightPerFiveAndSixteenPerTen,
        0,
        &mut StdRng::seed_from_u64(17),
    )
    .unwrap();
    assert_eq!(card.rank, Rank::WildDrawSixteen);
}

#[test]
fn penalty_draws_advance_the_same_player_guarantee_counter() {
    let human = PlayerId::new("p0");
    let rules = vec![(human.clone(), PlayerDrawRule::GuaranteeDrawEightPerFiveAndSixteenPerTen)];
    let mut game = Game::new_seeded_with_draw_rules(players(2), DeckVariant::Holiday, rules, 18).unwrap();
    let index = seat(&game, &human);
    game.players[index].draw_state.as_mut().unwrap().received = 4;
    let before = game.hand_for(&human).unwrap().len();

    assert_eq!(game.draw_available_cards_to_player(&human, 1), 1);
    assert_eq!(game.hand_for(&human).unwrap()[before].rank, Rank::DrawEight);
    assert_eq!(game.players[index].draw_state.unwrap().received, 5);
}

#[test]
fn standard_deck_ignores_player_draw_guarantees() {
    let human = PlayerId::new("p0");
    let rules = vec![(human.clone(), PlayerDrawRule::GuaranteeDrawEightPerFiveAndSixteenPerTen)];
    let mut game = Game::new_seeded_with_draw_rules(players(2), DeckVariant::Standard, rules, 19).unwrap();
    for _ in 0..30 {
        assert!(!is_holiday_only(game.draw_card_for(&human).unwrap().rank));
    }
}

#[test]
fn pass_requires_a_draw() {
    let mut game = game();
    let current = game.current_player().clone();
    assert_eq!(game.apply_action(&current, Action::Pass).unwrap_err(), GameError::CannotPassBeforeDrawing);
    game.apply_action(&current, Action::Draw).unwrap();
    assert!(game.apply_action(&current, Action::Pass).is_ok());
}

#[test]
fn empty_draw_pile_refills_instead_of_allowing_pass() {
    let mut game = game();
    let current = game.current_player().clone();
    game.draw_pile.clear();
    game.discard_pile.truncate(1);

    assert_eq!(game.legal_actions(&current).unwrap().last(), Some(&Action::Draw));
    assert_eq!(game.apply_action(&current, Action::Pass).unwrap_err(), GameError::CannotPassBeforeDrawing);
    assert!(game.apply_action(&current, Action::Draw).is_ok());
}

#[test]
fn player_can_pass_when_draw_rule_excludes_every_remaining_card() {
    let mut game = Game::new_seeded(players(2), DeckVariant::Holiday, 20).unwrap();
    let current = game.current_player().clone();
    let index = seat(&game, &current);
    game.players[index].draw_state =
        Some(PlayerDrawState { rule: PlayerDrawRule::ExcludeDrawEightAndSixteen, received: 0 });
    game.draw_pile = vec![Card::new(Color::Red, Rank::DrawEight), Card::wild(Rank::WildDrawSixteen)];
    game.discard_pile.truncate(1);

    assert_eq!(game.legal_actions(&current).unwrap().last(), Some(&Action::Pass));
    assert!(game.apply_action(&current, Action::Pass).is_ok());
}

#[test]
fn only_drawn_card_can_be_played_after_draw() {
    let mut game = game();
    let current = game.current_player().clone();
    let old_card = game.hand_for(&current).unwrap()[0];
    game.apply_action(&current, Action::Draw).unwrap();
    assert_eq!(
        game.apply_action(
            &current,
            Action::Play {
                card: old_card,
                chosen_color: old_card.is_wild().then_some(Color::Red),
                swap_target: None,
            },
        )
        .unwrap_err(),
        GameError::DrawnCardOnly(old_card)
    );
}

#[test]
fn wild_draw_four_is_illegal_with_active_color_in_hand() {
    let mut game = game();
    let current = game.current_player().clone();
    game.active_color = Color::Red;
    game.players[0].hand = vec![Card::new(Color::Red, Rank::Number(3)), Card::wild(Rank::WildDrawFour)];
    assert_eq!(
        game.apply_action(
            &current,
            Action::Play { card: Card::wild(Rank::WildDrawFour), chosen_color: Some(Color::Blue), swap_target: None },
        )
        .unwrap_err(),
        GameError::WildDrawFourNotAllowed
    );
}

#[test]
fn draw_eight_matches_color_or_rank_and_skips_target() {
    let mut game = game();
    let current = game.current_player().clone();
    let target = game.players[1].id.clone();
    let selected = Card::new(Color::Red, Rank::DrawEight);
    game.active_color = Color::Red;
    game.discard_pile = vec![Card::new(Color::Red, Rank::Number(3))];
    game.players[0].hand = vec![selected, Card::new(Color::Blue, Rank::Number(1))];
    let before = game.hand_for(&target).unwrap().len();

    game.apply_action(&current, Action::Play { card: selected, chosen_color: None, swap_target: None }).unwrap();

    assert_eq!(game.hand_for(&target).unwrap().len(), before + 8);
    assert_eq!(game.current_player(), &current);

    game.active_color = Color::Blue;
    game.discard_pile = vec![Card::new(Color::Yellow, Rank::DrawEight)];
    game.players[0].hand = vec![Card::new(Color::Green, Rank::DrawEight)];
    assert!(game.legal_actions(&current).unwrap().iter().any(|action| {
        matches!(
            action,
            Action::Play {
                card: Card { color: Some(Color::Green), rank: Rank::DrawEight },
                chosen_color: None,
                swap_target: None,
            }
        )
    }));
}

#[test]
fn wild_draw_sixteen_is_unrestricted_and_changes_color() {
    let mut game = game();
    let current = game.current_player().clone();
    let target = game.players[1].id.clone();
    let wild = Card::wild(Rank::WildDrawSixteen);
    game.active_color = Color::Red;
    game.discard_pile = vec![Card::new(Color::Red, Rank::Number(4))];
    game.players[0].hand =
        vec![Card::new(Color::Red, Rank::Number(7)), wild, Card::new(Color::Blue, Rank::Number(2))];
    let before = game.hand_for(&target).unwrap().len();

    assert_eq!(
        game.apply_action(&current, Action::Play { card: wild, chosen_color: None, swap_target: None }).unwrap_err(),
        GameError::MissingColorChoice
    );
    game.apply_action(&current, Action::Play { card: wild, chosen_color: Some(Color::Green), swap_target: None })
        .unwrap();

    assert_eq!(game.active_color, Color::Green);
    assert_eq!(game.hand_for(&target).unwrap().len(), before + 16);
    assert_eq!(game.current_player(), &current);
}

#[test]
fn plus_batch_planner_uses_wild_as_a_color_bridge_and_excludes_plus_four() {
    let mut game = game();
    let current = game.current_player().clone();
    let plus_four = Card::wild(Rank::WildDrawFour);
    game.set_test_turn(
        &current,
        vec![
            Card::new(Color::Blue, Rank::DrawTwo),
            Card::new(Color::Red, Rank::DrawEight),
            Card::wild(Rank::WildDrawSixteen),
            Card::new(Color::Green, Rank::DrawTwo),
            plus_four,
        ],
        Card::new(Color::Red, Rank::Number(5)),
    );

    let plays = game.best_plus_batch(&current).unwrap();

    assert_eq!(plays.len(), 4);
    assert!(!plays.iter().any(|play| play.card == plus_four));
    let wild_index = plays.iter().position(|play| play.card.rank == Rank::WildDrawSixteen).unwrap();
    assert!(wild_index + 1 < plays.len());
    assert_eq!(plays[wild_index].chosen_color, plays[wild_index + 1].card.color);
}

#[test]
fn plus_batch_planner_handles_thirty_two_wild_draw_sixteens() {
    let mut game = game();
    let current = game.current_player().clone();
    let target = game.players[1].id.clone();
    let wild = Card::wild(Rank::WildDrawSixteen);
    game.set_test_turn(&current, vec![wild; 32], Card::new(Color::Red, Rank::Number(5)));
    let target_before = game.hand_len_for(&target).unwrap();

    let mut plays = game.best_plus_batch(&current).unwrap();

    assert_eq!(plays.len(), 32);
    assert!(plays[..31].iter().all(|play| play.chosen_color.is_some()));
    assert_eq!(plays[31].chosen_color, None);
    plays[31].chosen_color = Some(Color::Blue);

    let event = game.apply_plus_batch(&current, plays).unwrap();

    assert_eq!(game.hand_len_for(&target).unwrap(), target_before + 512);
    assert_eq!(game.hand_for(&target).unwrap().len(), HAND_BATCH_SIZE);
    assert!(matches!(
        event.kind,
        EventKind::PlusBatchPlayed { cards, penalty: 512, drawn: 512, final_color: Color::Blue, .. } if cards.len() == 32
    ));
}

#[test]
fn plus_batch_after_drawing_can_only_plan_one_matching_card_value() {
    let mut game = game();
    let current = game.current_player().clone();
    let drawn = Card::new(Color::Red, Rank::DrawTwo);
    game.set_test_turn(
        &current,
        vec![drawn, drawn, Card::new(Color::Blue, Rank::DrawTwo)],
        Card::new(Color::Red, Rank::Number(5)),
    );
    game.phase = TurnPhase::Drew(drawn);

    let plays = game.best_plus_batch(&current).unwrap();

    assert_eq!(plays.len(), 1);
    assert_eq!(plays[0].card, drawn);
}

#[test]
fn plus_batch_draws_the_sum_skips_once_and_still_penalizes_on_a_win() {
    let mut game = Game::new_seeded(players(3), DeckVariant::Standard, 70).unwrap();
    let current = game.current_player().clone();
    let target = game.players[1].id.clone();
    let after_target = game.players[2].id.clone();
    let before = game.hand_for(&target).unwrap().len();
    let red = Card::new(Color::Red, Rank::DrawTwo);
    let blue = Card::new(Color::Blue, Rank::DrawTwo);
    game.set_test_turn(&current, vec![red, blue], Card::new(Color::Red, Rank::Number(5)));

    let event = game
        .apply_plus_batch(
            &current,
            vec![PlusPlay { card: red, chosen_color: None }, PlusPlay { card: blue, chosen_color: None }],
        )
        .unwrap();

    assert_eq!(game.hand_for(&target).unwrap().len(), before + 4);
    assert_eq!(game.current_player(), &after_target);
    assert_eq!(game.public_state().winner, Some(current.clone()));
    assert!(matches!(
        event.kind,
        EventKind::PlusBatchPlayed {
            player,
            target: event_target,
            penalty: 4,
            drawn: 4,
            final_color: Color::Blue,
            ..
        } if player == current && event_target == target
    ));
}

#[test]
fn invalid_plus_batch_is_atomic_and_final_wild_sets_the_selected_color() {
    let mut game = game();
    let current = game.current_player().clone();
    let red = Card::new(Color::Red, Rank::DrawTwo);
    let blue = Card::new(Color::Blue, Rank::DrawEight);
    let wild = Card::wild(Rank::WildDrawSixteen);
    let remaining = Card::new(Color::Yellow, Rank::Number(1));
    game.set_test_turn(&current, vec![red, blue, wild, remaining], Card::new(Color::Red, Rank::Number(5)));
    let before_hand = game.hand_for(&current).unwrap().to_vec();
    let before_state = game.public_state();

    assert_eq!(
        game.apply_plus_batch(&current, vec![PlusPlay { card: blue, chosen_color: None }]).unwrap_err(),
        GameError::InvalidPlusBatch
    );
    assert_eq!(game.hand_for(&current).unwrap(), before_hand);
    assert_eq!(game.public_state(), before_state);

    game.apply_plus_batch(
        &current,
        vec![PlusPlay { card: red, chosen_color: None }, PlusPlay { card: wild, chosen_color: Some(Color::Green) }],
    )
    .unwrap();
    assert_eq!(game.public_state().active_color, Color::Green);
    assert_eq!(game.hand_for(&current).unwrap(), &[blue, remaining]);
}

#[test]
fn discard_wilds_require_their_full_pre_play_hand_threshold() {
    for (rank, minimum) in [(Rank::WildDiscardThirtyTwo, 66), (Rank::WildDiscardSixtyFour, 132)] {
        let mut game = game();
        let current = game.current_player().clone();
        let card = Card::wild(rank);
        game.players[0].hand = std::iter::once(card)
            .chain((1..minimum - 1).map(|number| Card::new(Color::Red, Rank::Number(number as u8 % 10))))
            .collect();
        assert_eq!(game.players[0].hand.len(), minimum - 1);
        assert!(!game
            .legal_actions(&current)
            .unwrap()
            .iter()
            .any(|action| matches!(action, Action::Play { card: candidate, .. } if *candidate == card)));
        let before = game.players[0].hand.clone();
        assert_eq!(
            game.apply_action(&current, Action::Play { card, chosen_color: Some(Color::Blue), swap_target: None })
                .unwrap_err(),
            GameError::CardNotPlayable(card)
        );
        assert_eq!(game.players[0].hand, before);

        game.players[0].hand.push(Card::new(Color::Yellow, Rank::Number(1)));
        assert!(game
            .legal_actions(&current)
            .unwrap()
            .iter()
            .any(|action| matches!(action, Action::Play { card: candidate, .. } if *candidate == card)));
    }
}

#[test]
fn discard_wilds_redistribute_evenly_discard_exactly_and_skip_next_player() {
    for player_count in MIN_PLAYERS..=MAX_PLAYERS {
        for (rank, minimum, processed, distributed, discarded) in
            [(Rank::WildDiscardThirtyTwo, 66, 44, 12, 32), (Rank::WildDiscardSixtyFour, 132, 88, 24, 64)]
        {
            let mut game = Game::new_seeded(players(player_count), DeckVariant::Holiday, 31).unwrap();
            let current = game.current_player().clone();
            let card = Card::wild(rank);
            game.active_color = Color::Red;
            game.discard_pile = vec![Card::new(Color::Red, Rank::Number(3))];
            game.players[0].hand = std::iter::once(card)
                .chain((1..minimum).map(|number| Card::new(Color::ALL[number % 4], Rank::Number((number % 10) as u8))))
                .collect();
            for player in &mut game.players[1..] {
                player.hand = vec![Card::new(Color::Blue, Rank::Number(9))];
            }
            let before_total = game.players.iter().map(|player| player.hand.len()).sum::<usize>();
            let event = game
                .apply_action(&current, Action::Play { card, chosen_color: Some(Color::Green), swap_target: None })
                .unwrap();

            assert_eq!(game.players[0].hand.len(), minimum - processed - 1);
            let received_each = distributed / (player_count - 1);
            assert!(game.players[1..].iter().all(|player| player.hand.len() == received_each + 1));
            assert_eq!(game.discard_pile.len(), discarded + 2);
            assert_eq!(game.discard_pile.last(), Some(&card));
            assert_eq!(game.active_color, Color::Green);
            assert_eq!(game.current_index, 2 % player_count);
            assert_eq!(
                game.players.iter().map(|player| player.hand.len()).sum::<usize>(),
                before_total - discarded - 1
            );
            assert!(matches!(
                event.kind,
                EventKind::CardPlayed {
                    hand_effect: Some(HandEffect::Redistribute {
                        discarded: event_discarded,
                        distributed: event_distributed,
                    }),
                    ..
                } if event_discarded == discarded && event_distributed == distributed
            ));
        }
    }
}

#[test]
fn discard_wild_randomization_is_reproducible() {
    let setup = || {
        let mut game = Game::new_seeded(players(3), DeckVariant::Holiday, 41).unwrap();
        game.players[0].hand = std::iter::once(Card::wild(Rank::WildDiscardThirtyTwo))
            .chain((1..66).map(|number| Card::new(Color::ALL[number % 4], Rank::Number((number % 10) as u8))))
            .collect();
        game
    };
    let mut first = setup();
    let mut second = setup();
    let player = first.current_player().clone();
    let action = Action::Play {
        card: Card::wild(Rank::WildDiscardThirtyTwo),
        chosen_color: Some(Color::Yellow),
        swap_target: None,
    };
    first.apply_action(&player, action.clone()).unwrap();
    second.apply_action(&player, action).unwrap();

    assert_eq!(first.players, second.players);
    assert_eq!(first.discard_pile, second.discard_pile);
}

#[test]
fn discard_wild_skips_in_counter_clockwise_direction() {
    let mut game = Game::new_seeded(players(4), DeckVariant::Holiday, 42).unwrap();
    let player = game.current_player().clone();
    let card = Card::wild(Rank::WildDiscardThirtyTwo);
    game.direction = Direction::CounterClockwise;
    game.players[0].hand = std::iter::once(card)
        .chain((1..66).map(|number| Card::new(Color::ALL[number % 4], Rank::Number((number % 10) as u8))))
        .collect();

    game.apply_action(&player, Action::Play { card, chosen_color: Some(Color::Blue), swap_target: None }).unwrap();

    assert_eq!(game.current_index, 2);
}

#[test]
fn large_penalty_draws_all_available_cards_without_failing() {
    let mut game = game();
    let current = game.current_player().clone();
    let target = game.players[1].id.clone();
    let wild = Card::wild(Rank::WildDrawSixteen);
    game.active_color = Color::Red;
    game.discard_pile = vec![Card::new(Color::Red, Rank::Number(4))];
    game.draw_pile = vec![
        Card::new(Color::Yellow, Rank::Number(1)),
        Card::new(Color::Yellow, Rank::Number(2)),
        Card::new(Color::Yellow, Rank::Number(3)),
    ];
    game.players[0].hand = vec![wild, Card::new(Color::Blue, Rank::Number(2))];
    let before = game.hand_for(&target).unwrap().len();

    game.apply_action(&current, Action::Play { card: wild, chosen_color: Some(Color::Blue), swap_target: None })
        .unwrap();

    assert_eq!(game.hand_for(&target).unwrap().len(), before + 16);
    assert_eq!(game.draw_pile.len(), standard_deck().len() - 13);
    assert_eq!(game.discard_pile, vec![Card::new(Color::Red, Rank::Number(4)), wild]);
    assert_eq!(game.current_player(), &current);
}

#[test]
fn final_holiday_card_wins_without_penalty() {
    let mut game = game();
    let current = game.current_player().clone();
    let target = game.players[1].id.clone();
    let wild = Card::wild(Rank::WildDrawSixteen);
    game.players[0].hand = vec![wild];
    let before = game.hand_for(&target).unwrap().len();

    game.apply_action(&current, Action::Play { card: wild, chosen_color: Some(Color::Yellow), swap_target: None })
        .unwrap();

    assert_eq!(game.public_state().winner, Some(current));
    assert_eq!(game.hand_for(&target).unwrap().len(), before);
}

#[test]
fn number_batch_requires_a_present_color_and_puts_it_on_top() {
    let mut game = game();
    let current = game.current_player().clone();
    let selected = Card::new(Color::Blue, Rank::Number(3));
    let other_number = Card::new(Color::Red, Rank::Number(3));
    let remaining = Card::new(Color::Green, Rank::Number(8));
    game.active_color = Color::Blue;
    game.discard_pile = vec![Card::new(Color::Blue, Rank::Number(6))];
    game.players[0].hand = vec![other_number, remaining, selected];

    let before_state = game.public_state();
    let before_hand = game.players[0].hand.clone();
    assert_eq!(
        game.apply_action(&current, Action::Play { card: selected, chosen_color: None, swap_target: None })
            .unwrap_err(),
        GameError::MissingColorChoice
    );
    assert_eq!(game.public_state(), before_state);
    assert_eq!(game.players[0].hand, before_hand);
    assert_eq!(
        game.apply_action(&current, Action::Play { card: selected, chosen_color: Some(Color::Yellow), swap_target: None })
            .unwrap_err(),
        GameError::InvalidNumberBatchColor(Color::Yellow)
    );
    assert_eq!(game.public_state(), before_state);
    assert_eq!(game.players[0].hand, before_hand);

    let event = game
        .apply_action(&current, Action::Play { card: selected, chosen_color: Some(Color::Red), swap_target: None })
        .unwrap();

    assert_eq!(game.players[0].hand, vec![remaining]);
    assert_eq!(game.discard_pile, vec![Card::new(Color::Blue, Rank::Number(6)), selected, other_number]);
    assert_eq!(game.active_color, Color::Red);
    assert!(matches!(
        event.kind,
        EventKind::CardPlayed { card: event_card, chosen_color: Some(Color::Red), .. } if event_card == other_number
    ));
}

#[test]
fn number_stack_can_win_round() {
    let mut game = game();
    let current = game.current_player().clone();
    let selected = Card::new(Color::Yellow, Rank::Number(4));
    game.active_color = Color::Yellow;
    game.discard_pile = vec![Card::new(Color::Yellow, Rank::Number(7))];
    game.players[0].hand = vec![selected, Card::new(Color::Red, Rank::Number(4))];

    game.apply_action(&current, Action::Play { card: selected, chosen_color: Some(Color::Red), swap_target: None })
        .unwrap();

    assert_eq!(game.public_state().winner, Some(current));
}

#[test]
fn seven_swaps_remaining_hands_and_requires_another_player() {
    let mut game = Game::new_seeded(players(3), DeckVariant::Standard, 30).unwrap();
    let current = game.current_player().clone();
    let target = game.players[2].id.clone();
    let seven = Card::new(Color::Red, Rank::Number(7));
    let actors_remaining = Card::new(Color::Blue, Rank::Number(1));
    let targets_hand = vec![Card::new(Color::Yellow, Rank::Number(3)), Card::new(Color::Green, Rank::Number(4))];
    game.active_color = Color::Red;
    game.discard_pile = vec![Card::new(Color::Red, Rank::Number(5))];
    game.players[0].hand = vec![seven, actors_remaining];
    game.players[2].hand.clone_from(&targets_hand);

    assert_eq!(
        game.apply_action(&current, Action::Play { card: seven, chosen_color: None, swap_target: None })
            .unwrap_err(),
        GameError::MissingSwapTarget
    );
    assert_eq!(game.players[0].hand, vec![seven, actors_remaining]);

    let event = game
        .apply_action(&current, Action::Play { card: seven, chosen_color: None, swap_target: Some(target.clone()) })
        .unwrap();

    assert_eq!(game.players[0].hand, targets_hand);
    assert_eq!(game.players[2].hand, vec![actors_remaining]);
    assert_eq!(game.current_player(), &game.players[1].id);
    assert!(matches!(
        event.kind,
        EventKind::CardPlayed { hand_effect: Some(HandEffect::Swap { target: event_target }), .. }
            if event_target == target
    ));
}

#[test]
fn seven_rejects_self_and_unexpected_targets_without_mutation() {
    let mut game = game();
    let current = game.current_player().clone();
    let seven = Card::new(Color::Red, Rank::Number(7));
    let other = Card::new(Color::Blue, Rank::Number(2));
    game.active_color = Color::Red;
    game.discard_pile = vec![Card::new(Color::Red, Rank::Number(5))];
    game.players[0].hand = vec![seven, other];

    assert_eq!(
        game.apply_action(&current, Action::Play { card: seven, chosen_color: None, swap_target: Some(current.clone()) })
            .unwrap_err(),
        GameError::InvalidSwapTarget(current.clone())
    );
    assert_eq!(game.players[0].hand, vec![seven, other]);

    game.house_rules.seven_zero = false;
    let other_id = game.players[1].id.clone();
    assert_eq!(
        game.apply_action(&current, Action::Play { card: seven, chosen_color: None, swap_target: Some(other_id) })
            .unwrap_err(),
        GameError::UnexpectedSwapTarget
    );
}

#[test]
fn disabled_seven_zero_treats_numbers_normally() {
    let mut game = game();
    let current = game.current_player().clone();
    let seven = Card::new(Color::Red, Rank::Number(7));
    let remaining = Card::new(Color::Blue, Rank::Number(2));
    game.house_rules.seven_zero = false;
    game.active_color = Color::Red;
    game.discard_pile = vec![Card::new(Color::Red, Rank::Number(5))];
    game.players[0].hand = vec![seven, remaining];
    let target_before = game.players[1].hand.clone();

    let event = game
        .apply_action(&current, Action::Play { card: seven, chosen_color: None, swap_target: None })
        .unwrap();

    assert_eq!(game.players[0].hand, vec![remaining]);
    assert_eq!(game.players[1].hand, target_before);
    assert!(matches!(event.kind, EventKind::CardPlayed { hand_effect: None, .. }));
}

#[test]
fn zero_rotates_hands_in_both_directions() {
    for direction in [Direction::Clockwise, Direction::CounterClockwise] {
        let mut game = Game::new_seeded(players(3), DeckVariant::Standard, 31).unwrap();
        let current = game.current_player().clone();
        let zero = Card::new(Color::Red, Rank::Number(0));
        let first = vec![Card::new(Color::Blue, Rank::Number(1))];
        let second = vec![Card::new(Color::Green, Rank::Number(2))];
        let third = vec![Card::new(Color::Yellow, Rank::Number(3))];
        game.direction = direction;
        game.active_color = Color::Red;
        game.discard_pile = vec![Card::new(Color::Red, Rank::Number(5))];
        game.players[0].hand = [vec![zero], first.clone()].concat();
        game.players[1].hand.clone_from(&second);
        game.players[2].hand.clone_from(&third);

        let event = game
            .apply_action(&current, Action::Play { card: zero, chosen_color: None, swap_target: None })
            .unwrap();

        let expected = match direction {
            Direction::Clockwise => [third.clone(), first.clone(), second.clone()],
            Direction::CounterClockwise => [second.clone(), third.clone(), first.clone()],
        };
        assert_eq!(game.players[0].hand, expected[0]);
        assert_eq!(game.players[1].hand, expected[1]);
        assert_eq!(game.players[2].hand, expected[2]);
        assert!(matches!(
            event.kind,
            EventKind::CardPlayed { hand_effect: Some(HandEffect::Rotate { direction: event_direction }), .. }
                if event_direction == direction
        ));
    }
}

#[test]
fn two_player_zero_swaps_hands() {
    let mut game = game();
    let current = game.current_player().clone();
    let zero = Card::new(Color::Red, Rank::Number(0));
    let first = Card::new(Color::Blue, Rank::Number(1));
    let second = vec![Card::new(Color::Green, Rank::Number(2))];
    game.active_color = Color::Red;
    game.discard_pile = vec![Card::new(Color::Red, Rank::Number(5))];
    game.players[0].hand = vec![zero, first];
    game.players[1].hand.clone_from(&second);

    game.apply_action(&current, Action::Play { card: zero, chosen_color: None, swap_target: None }).unwrap();

    assert_eq!(game.players[0].hand, second);
    assert_eq!(game.players[1].hand, vec![first]);
}

#[test]
fn multi_discard_seven_wins_without_swapping() {
    let mut game = game();
    let current = game.current_player().clone();
    let target = game.players[1].id.clone();
    let red = Card::new(Color::Red, Rank::Number(7));
    let blue = Card::new(Color::Blue, Rank::Number(7));
    game.active_color = Color::Red;
    game.discard_pile = vec![Card::new(Color::Red, Rank::Number(5))];
    game.players[0].hand = vec![red, blue];
    let target_before = game.players[1].hand.clone();

    let event = game
        .apply_action(&current, Action::Play { card: red, chosen_color: Some(Color::Blue), swap_target: Some(target) })
        .unwrap();

    assert_eq!(game.public_state().winner, Some(current));
    assert_eq!(game.players[1].hand, target_before);
    assert!(matches!(event.kind, EventKind::CardPlayed { hand_effect: None, .. }));
}

#[test]
fn reverse_skips_opponent_in_two_player_game() {
    let mut game = game();
    let current = game.current_player().clone();
    game.active_color = Color::Red;
    game.discard_pile = vec![Card::new(Color::Red, Rank::Number(5))];
    game.players[0].hand = vec![Card::new(Color::Red, Rank::Reverse), Card::new(Color::Blue, Rank::Number(1))];
    game.apply_action(
        &current,
        Action::Play { card: Card::new(Color::Red, Rank::Reverse), chosen_color: None, swap_target: None },
    )
    .unwrap();
    assert_eq!(game.current_player(), &current);
}

#[test]
fn standard_draw_refills_a_complete_deck_and_preserves_discards() {
    let mut game = game();
    let top = Card::new(Color::Blue, Rank::Number(9));
    game.draw_pile.clear();
    let discards = vec![Card::new(Color::Red, Rank::Number(1)), Card::new(Color::Green, Rank::Number(2)), top];
    game.discard_pile.clone_from(&discards);

    let drawn = game.draw_card().unwrap();

    assert_eq!(game.draw_pile.len(), standard_deck().len() - 1);
    assert_eq!(
        game.draw_pile.iter().filter(|card| card.rank == Rank::Number(0)).count()
            + usize::from(drawn.rank == Rank::Number(0)),
        8
    );
    assert_eq!(game.discard_pile, discards);
}

#[test]
fn holiday_draw_refills_a_complete_deck_and_preserves_discards() {
    let mut game = Game::new_seeded(players(2), DeckVariant::Holiday, 21).unwrap();
    let discards = vec![Card::new(Color::Yellow, Rank::Number(4)), Card::wild(Rank::WildDrawSixteen)];
    game.draw_pile.clear();
    game.discard_pile.clone_from(&discards);

    let drawn = game.draw_card().unwrap();

    assert_eq!(game.draw_pile.len(), holiday_deck().len() - 1);
    assert_eq!(
        game.draw_pile.iter().filter(|card| card.rank == Rank::Number(0)).count()
            + usize::from(drawn.rank == Rank::Number(0)),
        8
    );
    assert_eq!(game.discard_pile, discards);
}

#[test]
fn seeded_refills_are_reproducible_across_multiple_decks() {
    let mut first = Game::new_seeded(players(2), DeckVariant::Holiday, 22).unwrap();
    let mut second = Game::new_seeded(players(2), DeckVariant::Holiday, 22).unwrap();

    for _ in 0..2 {
        first.draw_pile.clear();
        second.draw_pile.clear();
        let first_cards: Vec<Card> = (0..12).map(|_| first.draw_card().unwrap()).collect();
        let second_cards: Vec<Card> = (0..12).map(|_| second.draw_card().unwrap()).collect();
        assert_eq!(first_cards, second_cards);
        assert_eq!(first.draw_pile.len(), holiday_deck().len() - 12);
        assert_eq!(second.draw_pile.len(), holiday_deck().len() - 12);
    }
}

#[test]
fn holiday_draw_rules_still_apply_after_a_refill() {
    let bot = PlayerId::new("p1");
    let mut game = Game::new_seeded_with_draw_rules(
        players(2),
        DeckVariant::Holiday,
        vec![(bot.clone(), PlayerDrawRule::ExcludeDrawEightAndSixteen)],
        23,
    )
    .unwrap();
    game.draw_pile.clear();

    for _ in 0..30 {
        let card = game.draw_card_for(&bot).unwrap();
        assert!(!is_holiday_only(card.rank));
    }
}

#[test]
fn final_card_wins_round() {
    let mut game = game();
    let current = game.current_player().clone();
    let card = Card::new(Color::Red, Rank::Number(4));
    game.active_color = Color::Red;
    game.discard_pile = vec![Card::new(Color::Red, Rank::Number(2))];
    game.players[0].hand = vec![card];
    game.apply_action(&current, Action::Play { card, chosen_color: None, swap_target: None }).unwrap();
    assert_eq!(game.public_state().winner, Some(current.clone()));
    assert_eq!(game.apply_action(&current, Action::Draw).unwrap_err(), GameError::GameAlreadyWon);
}

#[test]
fn public_state_hides_card_identities() {
    let game = game();
    assert_eq!(game.public_state().players[0].hand_len, STARTING_HAND_SIZE);
}

#[test]
fn legal_actions_stay_bounded_for_many_duplicate_cards() {
    let mut game = game();
    let current = game.current_player().clone();
    let repeated = Card::new(Color::Red, Rank::Number(5));
    game.set_test_turn(&current, vec![repeated; 1_000_000], Card::new(Color::Red, Rank::Number(1)));

    let legal = game.legal_actions(&current).unwrap();

    assert_eq!(game.hand_len_for(&current), Ok(1_000_000));
    assert_eq!(legal.len(), 2);
    assert!(legal.iter().any(|action| matches!(action, Action::Play { card, .. } if *card == repeated)));
    assert!(legal.contains(&Action::Draw));
}

#[test]
fn virtual_pages_keep_total_count_and_bound_concrete_cards() {
    let mut game = Game::new_seeded(players(2), DeckVariant::Standard, 90).unwrap();
    let current = game.current_player().clone();
    game.set_test_turn(&current, vec![Card::new(Color::Red, Rank::Number(5)); 401], Card::new(Color::Red, Rank::Number(1)));

    assert_eq!(game.hand_len_for(&current), Ok(401));
    assert_eq!(game.hand_page_for(&current), Ok((0, 3, 200)));

    game.materialize_hand_page(&current, 2).unwrap();
    assert_eq!(game.hand_len_for(&current), Ok(401));
    assert_eq!(game.hand_page_for(&current), Ok((2, 3, 1)));

    game.materialize_hand_page(&current, 0).unwrap();
    assert_eq!(game.hand_page_for(&current), Ok((0, 3, 200)));
}

#[test]
fn virtual_generation_uses_rules_without_consuming_the_shared_pile() {
    let bot = PlayerId::new("p0");
    let mut easy = Game::new_seeded_with_draw_rules(
        players(2),
        DeckVariant::Holiday,
        vec![(bot.clone(), PlayerDrawRule::ExcludeDrawEightAndSixteen)],
        91,
    )
    .unwrap();
    easy.set_test_turn(&bot, vec![Card::new(Color::Red, Rank::Number(5)); 400], Card::new(Color::Red, Rank::Number(1)));
    let pile_len = easy.draw_pile.len();
    easy.materialize_hand_page(&bot, 1).unwrap();
    assert_eq!(easy.draw_pile.len(), pile_len);
    assert!(easy.hand_for(&bot).unwrap().iter().all(|card| !is_holiday_only(card.rank)));

    let mut hard = Game::new_seeded_with_draw_rules(
        players(2),
        DeckVariant::Holiday,
        vec![(bot.clone(), PlayerDrawRule::GuaranteeDrawEightPerSeven)],
        92,
    )
    .unwrap();
    hard.set_test_turn(&bot, vec![Card::new(Color::Red, Rank::Number(5)); 400], Card::new(Color::Red, Rank::Number(1)));
    hard.materialize_hand_page(&bot, 1).unwrap();
    assert_eq!(hard.hand_for(&bot).unwrap()[0].rank, Rank::DrawEight);
    assert_eq!(hard.hand_for(&bot).unwrap()[1].rank, Rank::WildSquareRoot);
}

#[test]
fn a_drawn_card_stays_concrete_when_the_active_batch_is_full() {
    let mut game = Game::new_seeded(players(2), DeckVariant::Standard, 93).unwrap();
    let current = game.current_player().clone();
    let drawn = Card::new(Color::Blue, Rank::Number(9));
    game.set_test_turn(&current, vec![Card::new(Color::Red, Rank::Number(5)); 201], Card::new(Color::Red, Rank::Number(1)));
    game.draw_pile.push(drawn);

    game.apply_action(&current, Action::Draw).unwrap();

    assert_eq!(game.hand_len_for(&current), Ok(202));
    assert_eq!(game.hand_for(&current).unwrap().len(), HAND_BATCH_SIZE);
    assert!(game.hand_for(&current).unwrap().contains(&drawn));
    assert_eq!(game.phase, TurnPhase::Drew(drawn));
}

#[test]
fn an_exhausted_active_batch_materializes_the_remaining_virtual_cards() {
    let mut game = Game::new_seeded(players(2), DeckVariant::Standard, 96).unwrap();
    let current = game.current_player().clone();
    game.set_test_turn(&current, vec![Card::new(Color::Red, Rank::Number(5)); 201], Card::new(Color::Red, Rank::Number(1)));
    game.players[0].hand.clear();

    assert_eq!(game.hand_len_for(&current), Ok(1));
    assert_eq!(game.materialize_next_batch_if_empty(&current), Ok(true));
    assert_eq!(game.hand_len_for(&current), Ok(1));
    assert_eq!(game.hand_for(&current).unwrap().len(), 1);
}

#[test]
fn virtual_square_root_and_discard_wilds_use_total_counts() {
    let mut square = Game::new_seeded(players(3), DeckVariant::Holiday, 94).unwrap();
    let actor = square.current_player().clone();
    let mut hand = vec![Card::wild(Rank::WildSquareRoot)];
    hand.extend(vec![Card::new(Color::Red, Rank::Number(5)); 999]);
    square.set_test_turn(&actor, hand, Card::new(Color::Red, Rank::Number(1)));
    square
        .apply_action(
            &actor,
            Action::Play { card: Card::wild(Rank::WildSquareRoot), chosen_color: Some(Color::Blue), swap_target: None },
        )
        .unwrap();
    assert_eq!(square.hand_len_for(&actor), Ok(31));
    assert_eq!(square.hand_for(&actor).unwrap().len(), 31);

    let mut discard = Game::new_seeded(players(3), DeckVariant::Holiday, 95).unwrap();
    let actor = discard.current_player().clone();
    let recipients = [discard.players[1].id.clone(), discard.players[2].id.clone()];
    let before = recipients.iter().map(|id| discard.hand_len_for(id).unwrap()).collect::<Vec<_>>();
    let mut hand = vec![Card::wild(Rank::WildDiscardThirtyTwo)];
    hand.extend(vec![Card::new(Color::Red, Rank::Number(5)); 300]);
    discard.set_test_turn(&actor, hand, Card::new(Color::Red, Rank::Number(1)));
    discard
        .apply_action(
            &actor,
            Action::Play {
                card: Card::wild(Rank::WildDiscardThirtyTwo),
                chosen_color: Some(Color::Blue),
                swap_target: None,
            },
        )
        .unwrap();
    assert_eq!(discard.hand_len_for(&actor), Ok(256));
    for (id, previous) in recipients.iter().zip(before) {
        assert_eq!(discard.hand_len_for(id), Ok(previous + 6));
    }
    assert!(discard.players.iter().all(|player| player.hand.len() <= HAND_BATCH_SIZE));
}

#[test]
fn swapping_two_hands_twice_restores_them() {
    let mut game = Game::new_seeded(players(3), DeckVariant::Standard, 11).unwrap();
    let before: Vec<Vec<Card>> = game.players.iter().map(|player| player.hand.clone()).collect();
    game.swap_hands(0, 2);
    assert_eq!(game.players[0].hand, before[2]);
    assert_eq!(game.players[2].hand, before[0]);
    assert_eq!(game.players[1].hand, before[1]);
    game.swap_hands(0, 2);
    let after: Vec<Vec<Card>> = game.players.iter().map(|player| player.hand.clone()).collect();
    assert_eq!(after, before);
}

#[test]
fn rotating_hands_one_way_then_back_restores_them() {
    let mut game = Game::new_seeded(players(4), DeckVariant::Standard, 5).unwrap();
    let before: Vec<Vec<Card>> = game.players.iter().map(|player| player.hand.clone()).collect();
    game.rotate_hands(Direction::Clockwise);
    assert_eq!(game.players[1].hand, before[0]);
    assert_eq!(game.players[0].hand, before[3]);
    game.rotate_hands(Direction::CounterClockwise);
    let after: Vec<Vec<Card>> = game.players.iter().map(|player| player.hand.clone()).collect();
    assert_eq!(after, before);
}

#[test]
fn reversing_twice_keeps_the_direction() {
    let mut direction = Direction::Clockwise;
    direction.reverse();
    assert_eq!(direction, Direction::CounterClockwise);
    direction.reverse();
    assert_eq!(direction, Direction::Clockwise);
}

#[test]
fn a_fresh_table_holds_exactly_the_deck() {
    for (variant, seed) in [(DeckVariant::Standard, 3u64), (DeckVariant::Holiday, 4u64)] {
        let game = Game::new_seeded(players(5), variant, seed).unwrap();
        let mut table: Vec<Card> = game.players.iter().flat_map(|player| player.hand.clone()).collect();
        table.extend(game.draw_pile.iter().copied());
        table.extend(game.discard_pile.iter().copied());
        let mut deck = uno::local_core::cards::deck(variant);
        table.sort();
        deck.sort();
        assert_eq!(table, deck);
    }
}

#[test]
fn discard_wild_gives_away_only_the_actors_cards() {
    let mut game = game();
    let actor = game.current_index;
    let hand: Vec<Card> = (0..66).map(|index| Card::new(Color::ALL[index % 4], Rank::Number((index % 10) as u8))).collect();
    game.players[actor].hand = hand.clone();
    let other = 1 - actor;
    let other_before = game.players[other].hand.clone();
    let discard_before = game.discard_pile.len();
    game.redistribute_and_discard(44, 12);
    let other_after = &game.players[other].hand;
    assert_eq!(&other_after[..other_before.len()], &other_before[..]);
    let given = &other_after[other_before.len()..];
    assert_eq!(given.len(), 12);
    let discarded = &game.discard_pile[discard_before - 1..game.discard_pile.len() - 1];
    assert_eq!(discarded.len(), 32);
    let mut all: Vec<Card> = game.players[actor].hand.clone();
    all.extend_from_slice(given);
    all.extend_from_slice(discarded);
    let mut expected = hand;
    all.sort();
    expected.sort();
    assert_eq!(all, expected);
}

#[test]
fn a_card_without_color_is_refused_after_a_draw() {
    let mut game = game();
    let current = game.current_player().clone();
    game.apply_action(&current, Action::Draw).unwrap();
    let odd = Card { color: None, rank: Rank::Number(5) };
    assert_eq!(
        game.apply_action(&current, Action::Play { card: odd, chosen_color: None, swap_target: None }).unwrap_err(),
        GameError::DrawnCardOnly(odd)
    );
}

#[test]
fn every_offered_action_is_accepted() {
    for seed in [1u64, 2, 3, 4, 5] {
        let game = Game::new_seeded(players(3), DeckVariant::Holiday, seed).unwrap();
        let current = game.current_player().clone();
        let actions = game.legal_actions(&current).unwrap();
        assert!(!actions.is_empty());
        for action in actions {
            let mut copy = Game::new_seeded(players(3), DeckVariant::Holiday, seed).unwrap();
            assert!(copy.apply_action(&current, action.clone()).is_ok(), "{action:?}");
        }
    }
}

#[test]
fn penalty_cards_come_off_the_top_of_the_pile() {
    let mut game = game();
    let actor = game.current_index;
    let current = game.current_player().clone();
    let card = Card::new(game.active_color, Rank::DrawTwo);
    game.players[actor].hand.push(card);
    let target = (actor + 1) % game.players.len();
    let target_before = game.players[target].hand.clone();
    let pile_before = game.draw_pile.clone();
    game.apply_action(&current, Action::Play { card, chosen_color: None, swap_target: None }).unwrap();
    let gained = &game.players[target].hand[target_before.len()..];
    assert_eq!(gained.len(), 2);
    assert_eq!(gained[0], pile_before[pile_before.len() - 1]);
    assert_eq!(gained[1], pile_before[pile_before.len() - 2]);
    assert_eq!(game.draw_pile, pile_before[..pile_before.len() - 2].to_vec());
}
