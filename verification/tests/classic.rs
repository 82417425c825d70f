use uno::uno_core::{Card, Color, Command, EventKind, Game, GameError, PlayerId, Rank, STARTING_HAND_SIZE};

fn players(count: usize) -> Vec<(PlayerId, String)> {
    (0..count).map(|index| (PlayerId::new(&format!("p{index}")), format!("Player {index}"))).collect()
}

#[test]
fn valid_player_count_starts_game() {
    let game = Game::new(players(2)).expect("game starts");
    assert_eq!(game.players().len(), 2);
    assert_eq!(game.players()[0].hand.len(), STARTING_HAND_SIZE);
    assert_eq!(game.events()[0].sequence, 0);
}

#[test]
fn invalid_player_count_is_rejected() {
    assert_eq!(Game::new(players(1)).unwrap_err(), GameError::InvalidPlayerCount(1));
    assert_eq!(Game::new(players(6)).unwrap_err(), GameError::InvalidPlayerCount(6));
}

#[test]
fn debug_game_allows_one_player() {
    let game = Game::new_debug(players(1)).expect("debug game starts");
    assert_eq!(game.players().len(), 1);
    assert_eq!(game.current_player(), &PlayerId::new("p0"));
}

#[test]
fn valid_card_play_is_accepted() {
    let mut game = Game::new(players(2)).expect("game starts");
    let current = game.current_player().clone();
    let card = game
        .hand_for(&current)
        .unwrap()
        .iter()
        .copied()
        .find(|card| game.is_playable(*card))
        .unwrap_or(Card::wild(Rank::Wild));
    if !game.hand_for(&current).unwrap().contains(&card) {
        game.players[0].hand.push(card);
    }

    let event = game
        .apply_command(Command::Play {
            player: current.clone(),
            card,
            chosen_color: card.is_wild().then_some(Color::Blue),
        })
        .expect("play accepted");
    assert!(matches!(event.kind, EventKind::CardPlayed { .. }));
}

#[test]
fn invalid_card_play_is_rejected() {
    let mut game = Game::new(players(2)).expect("game starts");
    let current = game.current_player().clone();
    let card = Card::new(Color::Red, Rank::Number(9));
    game.players[0].hand.retain(|owned| *owned != card);
    let error = game.apply_command(Command::Play { player: current, card, chosen_color: None }).unwrap_err();
    assert!(matches!(error, GameError::CardNotOwned(_) | GameError::CardNotPlayable(_)));
}

#[test]
fn duplicate_event_is_rejected() {
    let mut game = Game::new(players(2)).expect("game starts");
    let duplicate = game.events()[0].clone();
    assert_eq!(
        game.apply_event_once(duplicate.clone()).unwrap_err(),
        GameError::EventAlreadyApplied(duplicate.sequence)
    );
}

#[test]
fn public_state_hides_other_hands() {
    let game = Game::new(players(2)).expect("game starts");
    let public = game.public_state();
    assert_eq!(public.players[0].hand_len, STARTING_HAND_SIZE);
    assert_eq!(game.hand_for(&PlayerId::new("p0")).unwrap().len(), STARTING_HAND_SIZE);
}

#[test]
fn duplicate_game_copies_every_part() {
    let game = Game::new(players(3)).expect("game starts");
    let copy = game.duplicate();
    assert_eq!(copy.public_state(), game.public_state());
    assert_eq!(copy.draw_pile, game.draw_pile);
    assert_eq!(copy.events, game.events);
    for (a, b) in copy.players.iter().zip(game.players.iter()) {
        assert_eq!(a.hand, b.hand);
        assert_eq!(a.id, b.id);
    }
}
