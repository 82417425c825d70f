//! Setting up a round: checking the seats, dealing seven cards each (under the
//! players' draw rules in a Holiday game), and turning up the first number card.

use rand::rngs::StdRng;
use vstd::prelude::*;
use vstd::multiset::Multiset;
use super::cards::{
    Card, Color, DeckVariant, Direction, EventKind, GameError, GameEvent, HouseRules, PlayerDrawRule,
    PlayerDrawState, PlayerId, Rank, RefillSeedSource, TurnPhase, HAND_BATCH_SIZE, MAX_PLAYERS,
    MIN_PLAYERS, STARTING_HAND_SIZE, deck, deck_spec,
};
use super::game::{
    Game, Player, card_fits_rule, copy_id, guaranteed_rank, ids_distinct, lemma_conjured_card, lemma_draw_moves,
    lemma_only_guaranteed_add, lemma_rule_draw_fits, lemma_swap_removed_cards, only_guaranteed,
};
use super::random::{rng_from_entropy, rng_seed_from_u64, shuffle};
use super::rules::{
    allowed_by, card_allowed_spec, draw_card_with_rule, draw_with_rule_post, has_match, is_last_match, rank_is, required_rank_spec, swap_removed,
};

verus! {

/// Seat `i`'s identifier already belongs to an earlier seat.
pub open spec fn repeats_earlier(players: Seq<(PlayerId, String)>, i: int) -> bool {
    exists|j: int| 0 <= j < i && players[j].0.0@ == #[trigger] players[i].0.0@
}

/// The identifier of the first seat (from `i` on) that repeats an earlier one.
pub open spec fn duplicate_from(players: Seq<(PlayerId, String)>, i: int) -> Option<PlayerId>
    decreases players.len() - i,
{
    if i < 0 || i >= players.len() {
        None
    } else if repeats_earlier(players, i) {
        Some(players[i].0)
    } else {
        duplicate_from(players, i + 1)
    }
}

/// The draw rule given for `id`: the last entry naming it.
pub open spec fn rule_for(rules: Seq<(PlayerId, PlayerDrawRule)>, id: Seq<char>) -> Option<PlayerDrawRule>
    decreases rules.len(),
{
    if rules.len() == 0 {
        None
    } else if rules.last().0.0@ == id {
        Some(rules.last().1)
    } else {
        rule_for(rules.drop_last(), id)
    }
}

/// Why a round cannot start with these seats, if it cannot: a seat count outside
/// 2..=5, or a repeated identifier.
pub open spec fn setup_error(players: Seq<(PlayerId, String)>) -> Option<GameError> {
    if players.len() < MIN_PLAYERS || players.len() > MAX_PLAYERS {
        Some(GameError::InvalidPlayerCount(players.len() as usize))
    } else {
        match duplicate_from(players, 0) {
            Some(id) => Some(GameError::DuplicatePlayer(id)),
            None => None,
        }
    }
}

/// A freshly dealt table: the seats in order with seven cards each (dealt under
/// the seat's rule in a Holiday game) and their rules' counters at seven, one
/// colored number card face up and its color active, the first seat to play
/// clockwise, and the `GameStarted` event logged. The hands and both piles
/// hold exactly the deck's cards, plus the guaranteed cards that a draw rule
/// created because the pile had none left (none where no rule applies).
pub open spec fn freshly_dealt(
    g: Game,
    players: Seq<(PlayerId, String)>,
    variant: DeckVariant,
    house_rules: HouseRules,
    rules: Seq<(PlayerId, PlayerDrawRule)>,
    source: RefillSeedSource,
) -> bool {
    &&& g.wf()
    &&& g.players@.len() == players.len()
    &&& forall|k: int|
        0 <= k < players.len() ==> {
            let p = #[trigger] g.players@[k];
            &&& p.id == players[k].0
            &&& p.name == players[k].1
            &&& p.hand@.len() == STARTING_HAND_SIZE
            &&& p.virtual_len == 0
            &&& p.hand_page == 0
            &&& p.materialized_received == STARTING_HAND_SIZE
            &&& p.draw_state == match rule_for(rules, players[k].0.0@) {
                Some(rule) => Some(PlayerDrawState { rule, received: STARTING_HAND_SIZE }),
                None => None,
            }
            &&& variant == DeckVariant::Holiday ==> (rule_for(rules, players[k].0.0@) matches Some(rule)
                ==> forall|j: int| 0 <= j < STARTING_HAND_SIZE ==> card_fits_rule(rule, j, #[trigger] p.hand@[j]))
        }
    &&& g.discard_pile@.len() == 1
    &&& g.discard_pile@[0].rank is Number
    &&& g.discard_pile@[0].color == Some(g.active_color)
    &&& g.current_index == 0
    &&& g.direction == Direction::Clockwise
    &&& g.phase == TurnPhase::AwaitingAction
    &&& g.winner is None
    &&& g.events@ == seq![GameEvent { sequence: 0, kind: EventKind::GameStarted }]
    &&& g.deck_variant == variant
    &&& g.house_rules == house_rules
    &&& g.refill_seed_source == source
    &&& exists|extra: Multiset<Card>|
        #![trigger only_guaranteed(extra)]
        only_guaranteed(extra) && table_cards(g).to_multiset() == deck_spec(variant).to_multiset().add(extra) && (
        no_rule_applies(players, variant, rules) ==> extra.len() == 0)
}

/// The outcome of setting up a round: refused exactly as `setup_error` says;
/// otherwise a freshly dealt table (the pile always has enough cards).
pub open spec fn setup_outcome(
    result: Result<Game, GameError>,
    players: Seq<(PlayerId, String)>,
    variant: DeckVariant,
    house_rules: HouseRules,
    rules: Seq<(PlayerId, PlayerDrawRule)>,
    source: RefillSeedSource,
) -> bool {
    match setup_error(players) {
        Some(e) => result == Err::<Game, GameError>(e),
        None => result matches Ok(g) && freshly_dealt(g, players, variant, house_rules, rules, source),
    }
}

/// Every card of `pile` is a wild or carries a color.
pub open spec fn pile_colored(pile: Seq<Card>) -> bool {
    forall|i: int| 0 <= i < pile.len() ==> (#[trigger] pile[i]).colored_unless_wild()
}

/// The first seat repeating an earlier identifier, as `duplicate_from` says.
fn find_duplicate(players: &Vec<(PlayerId, String)>) -> (dup: Option<PlayerId>)
    ensures
        dup == duplicate_from(players@, 0),
{
    let mut i: usize = 0;
    while i < players.len()
        invariant
            i <= players@.len(),
            duplicate_from(players@, 0) == duplicate_from(players@, i as int),
        decreases players@.len() - i,
    {
        let mut j: usize = 0;
        let mut seen = false;
        while j < i
            invariant
                j <= i < players@.len(),
                seen == exists|k: int| 0 <= k < j && players@[k].0.0@ == #[trigger] players@[i as int].0.0@,
            decreases i - j,
        {
            if players[j].0 == players[i].0 {
                seen = true;
            }
            j += 1;
        }
        if seen {
            return Some(copy_id(&players[i].0));
        }
        i += 1;
    }
    None
}

/// The rule given for `id`, as `rule_for` says.
fn lookup_rule(rules: &Vec<(PlayerId, PlayerDrawRule)>, id: &PlayerId) -> (rule: Option<PlayerDrawRule>)
    ensures
        rule == rule_for(rules@, id.0@),
{
    let mut found: Option<PlayerDrawRule> = None;
    let mut i: usize = 0;
    while i < rules.len()
        invariant
            i <= rules@.len(),
            found == rule_for(rules@.take(i as int), id.0@),
        decreases rules@.len() - i,
    {
        proof {
            assert(rules@.take(i + 1).drop_last() =~= rules@.take(i as int));
        }
        if rules[i].0 == *id {
            found = Some(rules[i].1);
        }
        i += 1;
    }
    proof {
        assert(rules@.take(rules@.len() as int) =~= rules@);
    }
    found
}

/// Deals one seat's seven cards from `pile`, under `rule` in a Holiday game.
/// Every rule admits number cards, so a pile with seven of them never runs dry;
/// at most seven number cards leave it.
fn deal_hand(
    pile: &mut Vec<Card>,
    variant: DeckVariant,
    rule: Option<PlayerDrawRule>,
    rng: &mut StdRng,
) -> (result: Result<Vec<Card>, GameError>)
    requires
        pile_colored(old(pile)@),
        numbers(old(pile)@) >= STARTING_HAND_SIZE,
    ensures
        pile_colored(final(pile)@),
        numbers(final(pile)@) + STARTING_HAND_SIZE >= numbers(old(pile)@),
        result matches Ok(hand) && hand@.len() == STARTING_HAND_SIZE && (variant == DeckVariant::Holiday ==> (
        rule matches Some(r) ==> forall|j: int|
            0 <= j < STARTING_HAND_SIZE ==> card_fits_rule(r, j, #[trigger] hand@[j]))) && dealt_from(
            old(pile)@,
            hand@,
            final(pile)@,
            rule is None || variant != DeckVariant::Holiday,
        ),
{
    broadcast use vstd::seq_lib::group_to_multiset_ensures;
    broadcast use vstd::multiset::group_multiset_axioms;
    let ghost start = pile@;
    let ghost mut extra: Multiset<Card> = Multiset::empty();
    let mut hand: Vec<Card> = Vec::new();
    proof {
        assert(hand@ + pile@ =~= start);
    }
    let mut k: usize = 0;
    while k < STARTING_HAND_SIZE
        invariant
            k <= STARTING_HAND_SIZE,
            hand@.len() == k,
            pile_colored(pile@),
            numbers(start) >= STARTING_HAND_SIZE,
            numbers(pile@) + k >= numbers(start),
            variant == DeckVariant::Holiday ==> (rule matches Some(r) ==> forall|j: int|
                0 <= j < k ==> card_fits_rule(r, j, #[trigger] hand@[j])),
            (hand@ + pile@).to_multiset() == start.to_multiset().add(extra),
            only_guaranteed(extra),
            (rule is None || variant != DeckVariant::Holiday) ==> extra.len() == 0,
        decreases STARTING_HAND_SIZE - k,
    {
        let ghost before = pile@;
        let ghost held = hand@;
        proof {
            lemma_numbers_found(before);
        }
        let card = match rule {
            Some(r) => {
                if variant == DeckVariant::Holiday {
                    let drawn = draw_card_with_rule(pile, r, k, rng);
                    proof {
                        lemma_rule_draw_fits(before, pile@, r, k as int, drawn);
                        lemma_draw_keeps_colored(before, pile@, r, k as int, drawn);
                        lemma_draw_takes_one_number(before, pile@, r, k as int, drawn);
                    }
                    match drawn {
                        Ok(card) => {
                            proof {
                                lemma_draw_moves(before, pile@, r, k as int, card);
                                if pile@ == before && guaranteed_rank(card.rank) {
                                    lemma_conjured_card(held, before, card);
                                    assert(only_guaranteed(extra.insert(card)));
                                    assert(start.to_multiset().add(extra).insert(card) =~= start.to_multiset().add(
                                        extra.insert(card),
                                    ));
                                    extra = extra.insert(card);
                                } else {
                                    let i = choose|i: int|
                                        0 <= i < before.len() && card == before[i] && pile@ == swap_removed(before, i);
                                    lemma_swap_removed_cards(held, before, i);
                                }
                            }
                            card
                        },
                        Err(e) => return Err(e),
                    }
                } else {
                    match pile.pop() {
                        Some(card) => card,
                        None => return Err(GameError::EmptyDrawPile),
                    }
                }
            },
            None => match pile.pop() {
                Some(card) => card,
                None => return Err(GameError::EmptyDrawPile),
            },
        };
        proof {
            if pile@ != before && pile@ =~= before.drop_last() {
                assert(numbers(before) == numbers(before.drop_last()) + number_weight(before.last()));
            }
            if pile@ =~= before.drop_last() && before.len() > 0 && card == before.last() {
                assert(swap_removed(before, before.len() - 1) =~= before.drop_last());
                lemma_swap_removed_cards(held, before, before.len() - 1);
            }
        }
        hand.push(card);
        k += 1;
    }
    Ok(hand)
}

/// Dealing moved cards from `before` to `hand`, leaving `after`, and created
/// only cards of guaranteed ranks (none where no rule applies).
pub open spec fn dealt_from(before: Seq<Card>, hand: Seq<Card>, after: Seq<Card>, plain: bool) -> bool {
    exists|extra: Multiset<Card>|
        #![trigger only_guaranteed(extra)]
        only_guaranteed(extra) && (hand + after).to_multiset() == before.to_multiset().add(extra) && (plain
            ==> extra.len() == 0)
}

/// The last number card of `pile`, if any.
fn last_number_card(pile: &Vec<Card>) -> (index: Option<usize>)
    ensures
        match index {
            Some(i) => i < pile@.len() && pile@[i as int].rank is Number && forall|k: int|
                i < k < pile@.len() ==> !(#[trigger] pile@[k].rank is Number),
            None => forall|k: int| 0 <= k < pile@.len() ==> !(#[trigger] pile@[k].rank is Number),
        },
{
    let mut i: usize = pile.len();
    while i > 0
        invariant
            i <= pile@.len(),
            forall|k: int| i <= k < pile@.len() ==> !(#[trigger] pile@[k].rank is Number),
        decreases i,
    {
        if let Rank::Number(_) = pile[i - 1].rank {
            return Some(i - 1);
        }
        i -= 1;
    }
    None
}

impl Game {
    /// Sets up a round with these seats, deck variant, house rules and draw
    /// rules (the last entry for an identifier counts), shuffling with `rng`;
    /// see `setup_outcome`.
    pub fn new_with_rng(
        players: Vec<(PlayerId, String)>,
        deck_variant: DeckVariant,
        house_rules: HouseRules,
        player_draw_rules: Vec<(PlayerId, PlayerDrawRule)>,
        rng: StdRng,
        refill_seed_source: RefillSeedSource,
    ) -> (result: Result<Game, GameError>)
        ensures
            setup_outcome(result, players@, deck_variant, house_rules, player_draw_rules@, refill_seed_source),
    {
        let mut rng = rng;
        if players.len() < MIN_PLAYERS || players.len() > MAX_PLAYERS {
            return Err(GameError::InvalidPlayerCount(players.len()));
        }
        if let Some(id) = find_duplicate(&players) {
            return Err(GameError::DuplicatePlayer(id));
        }
        let mut pile = deck(deck_variant);
        proof {
            broadcast use vstd::seq_lib::group_to_multiset_ensures;
            assert(pile_colored(pile@));
        }
        let ghost unshuffled = pile@;
        shuffle(&mut pile, &mut rng);
        proof {
            broadcast use vstd::seq_lib::group_to_multiset_ensures;
            assert forall|i: int| 0 <= i < pile@.len() implies (#[trigger] pile@[i]).colored_unless_wild() by {
                assert(pile@.to_multiset().count(pile@[i]) > 0);
                assert(unshuffled.contains(pile@[i]));
            }
            lemma_numbers_permuted(unshuffled, pile@);
            lemma_deck_numbers(deck_variant);
        }
        let mut seats: Vec<Player> = Vec::new();
        let mut k: usize = 0;
        let ghost mut extra: Multiset<Card> = Multiset::empty();
        proof {
            broadcast use vstd::seq_lib::group_to_multiset_ensures;
            broadcast use vstd::multiset::group_multiset_axioms;
            assert(held_cards(seats@) + pile@ =~= pile@);
            assert(deck_spec(deck_variant).to_multiset().add(extra) =~= deck_spec(deck_variant).to_multiset());
        }
        while k < players.len()
            invariant
                (held_cards(seats@) + pile@).to_multiset() == deck_spec(deck_variant).to_multiset().add(extra),
                only_guaranteed(extra),
                no_rule_applies(players@, deck_variant, player_draw_rules@) ==> extra.len() == 0,
                k <= players@.len(),
                MIN_PLAYERS <= players@.len() <= MAX_PLAYERS,
                duplicate_from(players@, 0) is None,
                pile_colored(pile@),
                numbers(pile@) + STARTING_HAND_SIZE * k >= 40,
                seats@.len() == k,
                forall|m: int|
                    0 <= m < k ==> {
                        let p = #[trigger] seats@[m];
                        &&& p.id == players@[m].0
                        &&& p.name == players@[m].1
                        &&& p.hand@.len() == STARTING_HAND_SIZE
                        &&& p.virtual_len == 0
                        &&& p.hand_page == 0
                        &&& p.materialized_received == STARTING_HAND_SIZE
                        &&& p.draw_state == match rule_for(player_draw_rules@, players@[m].0.0@) {
                            Some(rule) => Some(PlayerDrawState { rule, received: STARTING_HAND_SIZE }),
                            None => None,
                        }
                        &&& deck_variant == DeckVariant::Holiday ==> (rule_for(player_draw_rules@, players@[m].0.0@) matches Some(
                            rule,
                        ) ==> forall|j: int| 0 <= j < STARTING_HAND_SIZE ==> card_fits_rule(rule, j, #[trigger] p.hand@[j]))
                    },
            decreases players@.len() - k,
        {
            let id = copy_id(&players[k].0);
            let name = players[k].1.clone();
            let rule = lookup_rule(&player_draw_rules, &id);
            let ghost pile_before = pile@;
            let ghost seats_before = seats@;
            let hand = deal_hand(&mut pile, deck_variant, rule, &mut rng)?;
            let ghost dealt = hand@;
            let draw_state = match rule {
                Some(rule) => Some(PlayerDrawState { rule, received: STARTING_HAND_SIZE }),
                None => None,
            };
            seats.push(
                Player {
                    id,
                    name,
                    hand,
                    virtual_len: 0,
                    hand_page: 0,
                    materialized_received: STARTING_HAND_SIZE,
                    draw_state,
                },
            );
            proof {
                broadcast use vstd::seq_lib::lemma_multiset_commutative;
                broadcast use vstd::multiset::group_multiset_axioms;
                let plain = rule is None || deck_variant != DeckVariant::Holiday;
                let e = choose|e: Multiset<Card>|
                    #![trigger only_guaranteed(e)]
                    only_guaranteed(e) && (dealt + pile@).to_multiset() == pile_before.to_multiset().add(e) && (plain
                        ==> e.len() == 0);
                let old_seats = seats@.drop_last();
                assert(old_seats =~= seats_before);
                assert(seats@.last().hand@ == dealt);
                assert(held_cards(seats@) == held_cards(old_seats) + dealt);
                assert(held_cards(seats@) + pile@ =~= held_cards(old_seats) + (dealt + pile@));
                assert((held_cards(old_seats) + (dealt + pile@)).to_multiset() =~= held_cards(old_seats).to_multiset().add(
                    pile_before.to_multiset().add(e),
                ));
                assert((held_cards(old_seats) + pile_before).to_multiset() =~= held_cards(old_seats).to_multiset().add(
                    pile_before.to_multiset(),
                ));
                lemma_only_guaranteed_add(extra, e);
                if no_rule_applies(players@, deck_variant, player_draw_rules@) {
                    if deck_variant != DeckVariant::Standard {
                        assert(rule_for(player_draw_rules@, (players@[k as int]).0.0@) is None);
                    }
                    assert(plain);
                }
                assert(deck_spec(deck_variant).to_multiset().add(extra).add(e) =~= deck_spec(deck_variant).to_multiset().add(
                    extra.add(e),
                ));
                assert((held_cards(seats@) + pile@).to_multiset() =~= deck_spec(deck_variant).to_multiset().add(
                    extra.add(e),
                ));
                extra = extra.add(e);
            }
            k += 1;
        }
        proof {
            assert(numbers(pile@) > 0);
            lemma_numbers_found(pile@);
        }
        let discard_index = match last_number_card(&pile) {
            Some(index) => index,
            None => return Err(GameError::EmptyDrawPile),
        };
        let ghost pile_before = pile@;
        let first_discard = pile.swap_remove(discard_index);
        proof {
            broadcast use vstd::seq_lib::lemma_multiset_commutative;
            broadcast use vstd::seq_lib::group_to_multiset_ensures;
            broadcast use vstd::multiset::group_multiset_axioms;
            assert(pile@ =~= swap_removed(pile_before, discard_index as int));
            lemma_swap_removed_cards(held_cards(seats@), pile_before, discard_index as int);
            let h = held_cards(seats@);
            assert((h.push(first_discard) + pile@).to_multiset() =~= (h + pile@ + seq![first_discard]).to_multiset());
        }
        let active_color = first_discard.color.unwrap();
        let mut discard_pile: Vec<Card> = Vec::new();
        discard_pile.push(first_discard);
        proof {
            assert forall|i: int, j: int| 0 <= i < j < seats@.len() implies seats@[i].id.0@ != seats@[j].id.0@ by {
                lemma_no_duplicate(players@, 0, j);
            }
        }
        let mut game = Game {
            deck_variant,
            house_rules,
            players: seats,
            draw_pile: pile,
            discard_pile,
            active_color,
            current_index: 0,
            direction: Direction::Clockwise,
            phase: TurnPhase::AwaitingAction,
            events: Vec::new(),
            winner: None,
            rng,
            refill_seed_source,
        };
        game.push_event(EventKind::GameStarted);
        proof {
            assert(game.events@ =~= seq![GameEvent { sequence: 0, kind: EventKind::GameStarted }]);
            assert(game.discard_pile@ =~= seq![first_discard]);
            assert(table_cards(game).to_multiset() == deck_spec(deck_variant).to_multiset().add(extra));
        }
        Ok(game)
    }
}

impl Game {
    /// A round with the default house rules, no draw rules, and a generator
    /// seeded from the operating system; refills draw fresh entropy.
    pub fn new(players: Vec<(PlayerId, String)>, deck_variant: DeckVariant) -> (result: Result<Game, GameError>)
        ensures
            setup_outcome(result, players@, deck_variant, HouseRules { seven_zero: true }, seq![], RefillSeedSource::Runtime),
    {
        let rules: Vec<(PlayerId, PlayerDrawRule)> = Vec::new();
        Game::new_with_rng(
            players,
            deck_variant,
            HouseRules::default(),
            rules,
            rng_from_entropy(),
            RefillSeedSource::Runtime,
        )
    }

    /// A round with the given house rules and no draw rules.
    pub fn new_with_house_rules(
        players: Vec<(PlayerId, String)>,
        deck_variant: DeckVariant,
        house_rules: HouseRules,
    ) -> (result: Result<Game, GameError>)
        ensures
            setup_outcome(result, players@, deck_variant, house_rules, seq![], RefillSeedSource::Runtime),
    {
        let rules: Vec<(PlayerId, PlayerDrawRule)> = Vec::new();
        Game::new_with_rng(players, deck_variant, house_rules, rules, rng_from_entropy(), RefillSeedSource::Runtime)
    }

    /// A round with the default house rules and the given draw rules.
    pub fn new_with_draw_rules(
        players: Vec<(PlayerId, String)>,
        deck_variant: DeckVariant,
        player_draw_rules: Vec<(PlayerId, PlayerDrawRule)>,
    ) -> (result: Result<Game, GameError>)
        ensures
            setup_outcome(
                result,
                players@,
                deck_variant,
                HouseRules { seven_zero: true },
                player_draw_rules@,
                RefillSeedSource::Runtime,
            ),
    {
        Game::new_with_rng(
            players,
            deck_variant,
            HouseRules::default(),
            player_draw_rules,
            rng_from_entropy(),
            RefillSeedSource::Runtime,
        )
    }

    /// A round with the given house rules and draw rules.
    pub fn new_with_house_rules_and_draw_rules(
        players: Vec<(PlayerId, String)>,
        deck_variant: DeckVariant,
        house_rules: HouseRules,
        player_draw_rules: Vec<(PlayerId, PlayerDrawRule)>,
    ) -> (result: Result<Game, GameError>)
        ensures
            setup_outcome(result, players@, deck_variant, house_rules, player_draw_rules@, RefillSeedSource::Runtime),
    {
        Game::new_with_rng(
            players,
            deck_variant,
            house_rules,
            player_draw_rules,
            rng_from_entropy(),
            RefillSeedSource::Runtime,
        )
    }

    /// A reproducible round: the generator is seeded with `seed` and refills
    /// are seeded from it.
    pub fn new_seeded(players: Vec<(PlayerId, String)>, deck_variant: DeckVariant, seed: u64) -> (result: Result<
        Game,
        GameError,
    >)
        ensures
            setup_outcome(
                result,
                players@,
                deck_variant,
                HouseRules { seven_zero: true },
                seq![],
                RefillSeedSource::Deterministic,
            ),
    {
        let rules: Vec<(PlayerId, PlayerDrawRule)> = Vec::new();
        Game::new_with_rng(
            players,
            deck_variant,
            HouseRules::default(),
            rules,
            rng_seed_from_u64(seed),
            RefillSeedSource::Deterministic,
        )
    }

    /// A reproducible round with draw rules.
    pub fn new_seeded_with_draw_rules(
        players: Vec<(PlayerId, String)>,
        deck_variant: DeckVariant,
        player_draw_rules: Vec<(PlayerId, PlayerDrawRule)>,
        seed: u64,
    ) -> (result: Result<Game, GameError>)
        ensures
            setup_outcome(
                result,
                players@,
                deck_variant,
                HouseRules { seven_zero: true },
                player_draw_rules@,
                RefillSeedSource::Deterministic,
            ),
    {
        Game::new_with_rng(
            players,
            deck_variant,
            HouseRules::default(),
            player_draw_rules,
            rng_seed_from_u64(seed),
            RefillSeedSource::Deterministic,
        )
    }

    /// Arranges a turn for `player`: they hold `hand` (beyond the held batch
    /// as counted cards), `discard_top` alone is on the pile with its color
    /// active, and nothing has been drawn or won.
    pub fn set_test_turn(&mut self, player: &PlayerId, hand: Vec<Card>, discard_top: Card)
        requires
            old(self).wf(),
            old(self).seat_of(player.0@) != -1,
            discard_top.color is Some,
        ensures
            final(self).wf(),
            ({
                let seat = old(self).seat_of(player.0@);
                let p = old(self).players@[seat];
                let q = final(self).players@[seat];
                &&& final(self).current_index == seat
                &&& final(self).players@.len() == old(self).players@.len()
                &&& forall|k: int| 0 <= k < old(self).players@.len() && k != seat ==> final(self).players@[k] == old(self).players@[k]
                &&& q.id == p.id
                &&& q.name == p.name
                &&& q.materialized_received == p.materialized_received
                &&& q.draw_state == p.draw_state
                &&& q.hand@ == if hand@.len() <= HAND_BATCH_SIZE { hand@ } else { hand@.take(HAND_BATCH_SIZE as int) }
                &&& q.virtual_len == if hand@.len() <= HAND_BATCH_SIZE { 0 } else { hand@.len() - HAND_BATCH_SIZE }
                &&& q.hand_page == 0
                &&& final(self).active_color == discard_top.color.unwrap()
                &&& final(self).discard_pile@ == seq![discard_top]
                &&& final(self).phase == TurnPhase::AwaitingAction
                &&& final(self).winner is None
                &&& final(self).draw_pile == old(self).draw_pile
                &&& final(self).events == old(self).events
                &&& final(self).direction == old(self).direction
                &&& final(self).deck_variant == old(self).deck_variant
                &&& final(self).house_rules == old(self).house_rules
                &&& final(self).refill_seed_source == old(self).refill_seed_source
            }),
    {
        let index = self.player_index(player).unwrap();
        self.current_index = index;
        let mut hand = hand;
        let ghost given = hand@;
        let total = hand.len();
        hand.truncate(HAND_BATCH_SIZE);
        proof {
            if given.len() <= HAND_BATCH_SIZE {
                assert(hand@ =~= given);
            } else {
                assert(hand@ =~= given.take(HAND_BATCH_SIZE as int));
            }
        }
        self.players[index].hand = hand;
        self.players[index].virtual_len = if total > HAND_BATCH_SIZE { total - HAND_BATCH_SIZE } else { 0 };
        self.players[index].hand_page = 0;
        self.active_color = discard_top.color.unwrap();
        let mut pile: Vec<Card> = Vec::new();
        pile.push(discard_top);
        self.discard_pile = pile;
        self.phase = TurnPhase::AwaitingAction;
        self.winner = None;
        proof {
            assert(self.discard_pile@ =~= seq![discard_top]);
            old(self).lemma_seat_unique(player.0@, index as int);
            assert forall|i: int| 0 <= i < self.players@.len() implies (#[trigger] self.players@[i]).hand@.len() <= HAND_BATCH_SIZE by {
                if i != index {
                    assert(self.players@[i] == old(self).players@[i]);
                }
            }
            assert forall|i: int, j: int| 0 <= i < j < self.players@.len() implies self.players@[i].id.0@ != self.players@[j].id.0@ by {
                assert(self.players@[i].id == old(self).players@[i].id);
                assert(self.players@[j].id == old(self).players@[j].id);
            }
        }
    }
}

proof fn lemma_no_duplicate(players: Seq<(PlayerId, String)>, i: int, j: int)
    requires
        0 <= i <= j < players.len(),
        duplicate_from(players, i) is None,
    ensures
        !repeats_earlier(players, j),
    decreases j - i,
{
    if i < j {
        lemma_no_duplicate(players, i + 1, j);
    }
}


/// A draw under a rule only takes cards out of the pile.
proof fn lemma_draw_keeps_colored(
    old_pile: Seq<Card>,
    new_pile: Seq<Card>,
    rule: PlayerDrawRule,
    received: int,
    result: Result<Card, GameError>,
)
    requires
        draw_with_rule_post(old_pile, new_pile, rule, received, result),
        pile_colored(old_pile),
    ensures
        pile_colored(new_pile),
{
    let pred = match required_rank_spec(rule, received) {
        Some(rank) => rank_is(rank),
        None => allowed_by(rule),
    };
    if new_pile != old_pile {
        if let Ok(card) = result {
            let i = choose|i: int| is_last_match(old_pile, pred, i) && card == old_pile[i] && new_pile
                == swap_removed(old_pile, i);
            assert forall|k: int| 0 <= k < new_pile.len() implies (#[trigger] new_pile[k]).colored_unless_wild() by {
                assert(new_pile[k] == old_pile[k] || new_pile[k] == old_pile.last());
            }
        }
    }
}


// ===== number cards in the pile =====

/// How many number cards `pile` holds.
pub open spec fn numbers(pile: Seq<Card>) -> nat
    decreases pile.len(),
{
    if pile.len() == 0 {
        0
    } else {
        numbers(pile.drop_last()) + if pile.last().rank is Number {
            1nat
        } else {
            0nat
        }
    }
}

spec fn number_weight(card: Card) -> nat {
    if card.rank is Number {
        1
    } else {
        0
    }
}

proof fn lemma_numbers_add(a: Seq<Card>, b: Seq<Card>)
    ensures
        numbers(a + b) == numbers(a) + numbers(b),
    decreases b.len(),
{
    if b.len() == 0 {
        assert(a + b =~= a);
    } else {
        lemma_numbers_add(a, b.drop_last());
        assert((a + b).drop_last() =~= a + b.drop_last());
    }
}

proof fn lemma_numbers_single(card: Card)
    ensures
        numbers(seq![card]) == number_weight(card),
{
    assert(seq![card].drop_last() =~= Seq::<Card>::empty());
    assert(seq![card].last() == card);
    assert(numbers(Seq::<Card>::empty()) == 0);
}

proof fn lemma_numbers_remove(s: Seq<Card>, j: int)
    requires
        0 <= j < s.len(),
    ensures
        numbers(s) == numbers(s.remove(j)) + number_weight(s[j]),
{
    assert(s =~= s.take(j) + seq![s[j]] + s.skip(j + 1));
    assert(s.remove(j) =~= s.take(j) + s.skip(j + 1));
    lemma_numbers_add(s.take(j) + seq![s[j]], s.skip(j + 1));
    lemma_numbers_add(s.take(j), seq![s[j]]);
    lemma_numbers_add(s.take(j), s.skip(j + 1));
    lemma_numbers_single(s[j]);
}

proof fn lemma_numbers_update(s: Seq<Card>, i: int, card: Card)
    requires
        0 <= i < s.len(),
    ensures
        numbers(s.update(i, card)) + number_weight(s[i]) == numbers(s) + number_weight(card),
{
    lemma_numbers_remove(s, i);
    lemma_numbers_remove(s.update(i, card), i);
    assert(s.update(i, card).remove(i) =~= s.remove(i));
}

proof fn lemma_numbers_swap_removed(s: Seq<Card>, i: int)
    requires
        0 <= i < s.len(),
    ensures
        numbers(swap_removed(s, i)) + number_weight(s[i]) == numbers(s),
{
    let u = s.update(i, s.last());
    lemma_numbers_update(s, i, s.last());
    assert(u.last() == s.last());
    assert(numbers(u) == numbers(u.drop_last()) + number_weight(u.last()));
}

/// Two piles holding the same cards, in any order, hold as many number cards.
proof fn lemma_numbers_permuted(a: Seq<Card>, b: Seq<Card>)
    requires
        a.to_multiset() == b.to_multiset(),
    ensures
        numbers(a) == numbers(b),
    decreases a.len(),
{
    broadcast use vstd::seq_lib::group_to_multiset_ensures;
    if a.len() == 0 {
        vstd::seq_lib::to_multiset_len(a);
        vstd::seq_lib::to_multiset_len(b);
        assert(b.len() == 0);
    } else {
        let x = a.last();
        let rest = a.drop_last();
        assert(a =~= rest.push(x));
        assert(a.to_multiset() == rest.to_multiset().insert(x));
        assert(b.to_multiset().count(x) > 0);
        assert(b.contains(x));
        let j = choose|j: int| 0 <= j < b.len() && b[j] == x;
        assert(b.remove(j).to_multiset() == b.to_multiset().remove(x));
        assert(rest.to_multiset() =~= rest.to_multiset().insert(x).remove(x));
        lemma_numbers_permuted(rest, b.remove(j));
        lemma_numbers_remove(b, j);
    }
}

proof fn lemma_numbers_all(s: Seq<Card>)
    requires
        forall|i: int| 0 <= i < s.len() ==> (#[trigger] s[i]).rank is Number,
    ensures
        numbers(s) == s.len(),
    decreases s.len(),
{
    if s.len() > 0 {
        lemma_numbers_all(s.drop_last());
    }
}

proof fn lemma_numbers_found(s: Seq<Card>)
    requires
        numbers(s) > 0,
    ensures
        exists|i: int| 0 <= i < s.len() && (#[trigger] s[i]).rank is Number,
    decreases s.len(),
{
    if !(s.last().rank is Number) {
        lemma_numbers_found(s.drop_last());
        let i = choose|i: int| 0 <= i < s.drop_last().len() && (#[trigger] s.drop_last()[i]).rank is Number;
        assert(s[i] == s.drop_last()[i]);
    } else {
        assert(s[s.len() - 1].rank is Number);
    }
}

/// Every full deck holds at least forty number cards (those of its first two
/// color blocks alone).
proof fn lemma_deck_numbers(variant: DeckVariant)
    ensures
        numbers(deck_spec(variant)) >= 40,
{
    let d = deck_spec(variant);
    assert(d.len() >= 112);
    assert forall|i: int| 0 <= i < 46 && (i < 20 || 26 <= i) implies (#[trigger] d[i]).rank is Number by {
        if i < 20 {
            assert(i % 26 == i && i / 26 == 0);
        } else if 26 <= i {
            assert(i % 26 == i - 26 && i / 26 == 1);
        }
    }
    let first = d.take(20);
    let gap = d.subrange(20, 26);
    let second = d.subrange(26, 46);
    let tail = d.skip(46);
    assert forall|i: int| 0 <= i < first.len() implies (#[trigger] first[i]).rank is Number by {
        assert(first[i] == d[i]);
    }
    assert forall|i: int| 0 <= i < second.len() implies (#[trigger] second[i]).rank is Number by {
        assert(second[i] == d[i + 26]);
    }
    lemma_numbers_all(first);
    lemma_numbers_all(second);
    assert(d =~= first + gap + second + tail);
    lemma_numbers_add(first + gap + second, tail);
    lemma_numbers_add(first + gap, second);
    lemma_numbers_add(first, gap);
}


/// A draw under a rule from a pile holding a number card succeeds, and takes at
/// most one number card from the pile.
proof fn lemma_draw_takes_one_number(
    old_pile: Seq<Card>,
    new_pile: Seq<Card>,
    rule: PlayerDrawRule,
    received: int,
    result: Result<Card, GameError>,
)
    requires
        draw_with_rule_post(old_pile, new_pile, rule, received, result),
        exists|i: int| 0 <= i < old_pile.len() && (#[trigger] old_pile[i]).rank is Number,
    ensures
        result is Ok,
        numbers(new_pile) + 1 >= numbers(old_pile),
{
    let n = choose|i: int| 0 <= i < old_pile.len() && (#[trigger] old_pile[i]).rank is Number;
    assert(card_allowed_spec(rule, old_pile[n]));
    let pred = match required_rank_spec(rule, received) {
        Some(rank) => rank_is(rank),
        None => allowed_by(rule),
    };
    if required_rank_spec(rule, received) is None {
        assert((allowed_by(rule))(old_pile[n]));
        assert(has_match(old_pile, allowed_by(rule)));
    }
    if new_pile != old_pile {
        if let Ok(card) = result {
            let i = choose|i: int| is_last_match(old_pile, pred, i) && card == old_pile[i] && new_pile
                == swap_removed(old_pile, i);
            lemma_numbers_swap_removed(old_pile, i);
        }
    }
}


// ===== the cards on the table =====

/// The held cards of the seats, seat by seat.
pub open spec fn held_cards(players: Seq<Player>) -> Seq<Card>
    decreases players.len(),
{
    if players.len() == 0 {
        Seq::empty()
    } else {
        held_cards(players.drop_last()) + players.last().hand@
    }
}

/// Every card identity on the table: the held hands, the draw pile and the
/// discard pile.
pub open spec fn table_cards(g: Game) -> Seq<Card> {
    held_cards(g.players@) + g.draw_pile@ + g.discard_pile@
}

/// No seat deals under a draw rule: a standard game, or no rule names a seat.
pub open spec fn no_rule_applies(
    players: Seq<(PlayerId, String)>,
    variant: DeckVariant,
    rules: Seq<(PlayerId, PlayerDrawRule)>,
) -> bool {
    variant == DeckVariant::Standard || forall|k: int|
        0 <= k < players.len() ==> rule_for(rules, (#[trigger] players[k]).0.0@) is None
}

} // verus!
