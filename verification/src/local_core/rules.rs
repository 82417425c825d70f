//! Player-specific Holiday draw rules, the factorial hand-size cap, and the
//! draw and virtual-card generation that apply them.

use vstd::prelude::*;
use vstd::arithmetic::power::{lemma_pow0, lemma_pow1, lemma_pow_adds, lemma_pow_increases, pow};
use super::cards::{
    Card, Color, DeckVariant, GameError, PlayerDrawRule, Rank, deck, deck_spec, distinct_sorted,
    standard_card,
};
use super::random::gen_index;
use rand::rngs::StdRng;

verus! {

/// The rank a draw rule guarantees for the player's card number `received + 1`
/// (counting from one), if any.
pub open spec fn required_rank_spec(rule: PlayerDrawRule, received: int) -> Option<Rank> {
    let block_position = received % 7;
    let card_number = received + 1;
    match rule {
        PlayerDrawRule::GuaranteeDrawEightPerSeven => if block_position == 0 {
            Some(Rank::DrawEight)
        } else if block_position == 1 {
            Some(Rank::WildSquareRoot)
        } else {
            None
        },
        PlayerDrawRule::TwoDrawEightAndOneSixteenPerSeven => if block_position < 2 {
            Some(Rank::DrawEight)
        } else if block_position < 4 {
            Some(Rank::WildSquareRoot)
        } else if block_position == 4 {
            Some(Rank::WildDrawSixteen)
        } else if block_position == 5 {
            Some(Rank::WildFactorial)
        } else {
            None
        },
        PlayerDrawRule::GuaranteeDrawEightPerFiveAndSixteenPerTen => if card_number % 10 == 0 {
            Some(Rank::WildDrawSixteen)
        } else if card_number % 10 == 9 {
            Some(Rank::WildFactorial)
        } else if card_number % 5 == 0 {
            Some(Rank::DrawEight)
        } else if card_number % 10 == 4 {
            Some(Rank::WildSquareRoot)
        } else {
            None
        },
        PlayerDrawRule::GuaranteeDrawEightPerTwenty => if card_number % 20 == 0 {
            Some(Rank::DrawEight)
        } else if card_number % 20 == 19 {
            Some(Rank::WildSquareRoot)
        } else {
            None
        },
        _ => None,
    }
}

/// Guaranteed ranks are always Holiday tier cards.
pub open spec fn is_guaranteed_tier(rank: Rank) -> bool {
    rank == Rank::DrawEight || rank == Rank::WildDrawSixteen || rank == Rank::WildFactorial
        || rank == Rank::WildSquareRoot
}

pub fn required_rank_for_rule(rule: PlayerDrawRule, received: usize) -> (rank: Option<Rank>)
    ensures
        rank == required_rank_spec(rule, received as int),
        rank matches Some(r) ==> is_guaranteed_tier(r),
{
    let block_position = received % 7;
    // `(received + 1) % m` computed without overflowing at `usize::MAX`.
    let number_mod_10 = if received % 10 == 9 { 0 } else { received % 10 + 1 };
    let number_mod_5 = if received % 5 == 4 { 0 } else { received % 5 + 1 };
    let number_mod_20 = if received % 20 == 19 { 0 } else { received % 20 + 1 };
    match rule {
        PlayerDrawRule::GuaranteeDrawEightPerSeven => if block_position == 0 {
            Some(Rank::DrawEight)
        } else if block_position == 1 {
            Some(Rank::WildSquareRoot)
        } else {
            None
        },
        PlayerDrawRule::TwoDrawEightAndOneSixteenPerSeven => if block_position < 2 {
            Some(Rank::DrawEight)
        } else if block_position < 4 {
            Some(Rank::WildSquareRoot)
        } else if block_position == 4 {
            Some(Rank::WildDrawSixteen)
        } else if block_position == 5 {
            Some(Rank::WildFactorial)
        } else {
            None
        },
        PlayerDrawRule::GuaranteeDrawEightPerFiveAndSixteenPerTen => if number_mod_10 == 0 {
            Some(Rank::WildDrawSixteen)
        } else if number_mod_10 == 9 {
            Some(Rank::WildFactorial)
        } else if number_mod_5 == 0 {
            Some(Rank::DrawEight)
        } else if number_mod_10 == 4 {
            Some(Rank::WildSquareRoot)
        } else {
            None
        },
        PlayerDrawRule::GuaranteeDrawEightPerTwenty => if number_mod_20 == 0 {
            Some(Rank::DrawEight)
        } else if number_mod_20 == 19 {
            Some(Rank::WildSquareRoot)
        } else {
            None
        },
        _ => None,
    }
}

/// The upper Holiday tier and the discard wilds, which restrictive rules exclude.
pub open spec fn is_upper_or_discard_wild(rank: Rank) -> bool {
    rank == Rank::WildDrawSixteen || rank == Rank::WildDiscardThirtyTwo
        || rank == Rank::WildDiscardSixtyFour || rank == Rank::WildFactorial
}

/// Whether a rule lets a player receive a card of this kind from the shared pile.
pub open spec fn card_allowed_spec(rule: PlayerDrawRule, card: Card) -> bool {
    match rule {
        PlayerDrawRule::ExcludeDrawEightAndSixteen | PlayerDrawRule::TwoDrawEightAndOneSixteenPerSeven =>
            !(card.rank == Rank::DrawEight || card.rank == Rank::WildSquareRoot)
                && !is_upper_or_discard_wild(card.rank),
        PlayerDrawRule::ExcludeDrawSixteen => !is_upper_or_discard_wild(card.rank),
        _ => true,
    }
}

pub fn card_allowed_for_rule(rule: PlayerDrawRule, card: &Card) -> (allowed: bool)
    ensures
        allowed == card_allowed_spec(rule, *card),
{
    let upper_or_discard_wild = match card.rank {
        Rank::WildDrawSixteen | Rank::WildDiscardThirtyTwo | Rank::WildDiscardSixtyFour
        | Rank::WildFactorial => true,
        _ => false,
    };
    let lower_tier = match card.rank {
        Rank::DrawEight | Rank::WildSquareRoot => true,
        _ => false,
    };
    match rule {
        PlayerDrawRule::ExcludeDrawEightAndSixteen => !lower_tier && !upper_or_discard_wild,
        PlayerDrawRule::ExcludeDrawSixteen => !upper_or_discard_wild,
        PlayerDrawRule::GuaranteeDrawEightPerSeven
        | PlayerDrawRule::GuaranteeDrawEightPerFiveAndSixteenPerTen
        | PlayerDrawRule::GuaranteeDrawEightPerTwenty => true,
        PlayerDrawRule::TwoDrawEightAndOneSixteenPerSeven => !lower_tier && !upper_or_discard_wild,
    }
}

pub const MAX_FACTORIAL_HAND_SIZE: usize = 2_100_000_000;

pub open spec fn factorial(n: nat) -> nat
    decreases n,
{
    if n == 0 {
        1
    } else {
        n * factorial((n - 1) as nat)
    }
}

pub open spec fn min_int(a: int, b: int) -> int {
    if a <= b {
        a
    } else {
        b
    }
}

/// The size a Wild Factorial turns a hand of `cards` cards into:
/// `min(cards!, cards^15, 2_100_000_000)`.
pub open spec fn factorial_hand_size_spec(cards: nat) -> int {
    min_int(factorial(cards) as int, min_int(pow(cards as int, 15), MAX_FACTORIAL_HAND_SIZE as int))
}

proof fn lemma_factorial_positive(n: nat)
    ensures
        factorial(n) >= 1,
    decreases n,
{
    if n > 0 {
        lemma_factorial_positive((n - 1) as nat);
        assert(n * factorial((n - 1) as nat) >= 1) by (nonlinear_arith)
            requires
                n >= 1,
                factorial((n - 1) as nat) >= 1,
        ;
    }
}

proof fn lemma_factorial_monotone(a: nat, b: nat)
    requires
        a <= b,
    ensures
        factorial(a) <= factorial(b),
    decreases b - a,
{
    if a < b {
        lemma_factorial_monotone(a, (b - 1) as nat);
        lemma_factorial_positive((b - 1) as nat);
        assert(factorial((b - 1) as nat) <= b * factorial((b - 1) as nat)) by (nonlinear_arith)
            requires
                b >= 1,
                factorial((b - 1) as nat) >= 1,
        ;
    }
}

/// The hand size a Wild Factorial produces from `cards` cards, without overflow.
pub fn factorial_hand_size(cards: usize) -> (size: usize)
    ensures
        size as int == factorial_hand_size_spec(cards as nat),
{
    // First cap: `cards^15`, or the absolute cap once any power reaches it.
    let mut value: usize = 1;
    let mut k: usize = 0;
    let mut within = true;
    proof {
        lemma_pow0(cards as int);
    }
    while k < 15
        invariant
            k <= 15,
            within ==> value as int == pow(cards as int, k as nat) && value < MAX_FACTORIAL_HAND_SIZE,
            !within ==> pow(cards as int, 15) >= MAX_FACTORIAL_HAND_SIZE,
        decreases 15 - k,
    {
        if within {
            proof {
                reveal(pow);
                lemma_pow_adds(cards as int, k as nat, 1);
                lemma_pow1(cards as int);
            }
            match value.checked_mul(cards) {
                Some(result) if result < MAX_FACTORIAL_HAND_SIZE => {
                    value = result;
                },
                _ => {
                    proof {
                        assert(pow(cards as int, (k + 1) as nat) == value * cards);
                        if cards == 0 {
                            assert(value * cards == 0) by (nonlinear_arith)
                                requires
                                    cards == 0,
                            ;
                        }
                        assert(pow(cards as int, (k + 1) as nat) >= MAX_FACTORIAL_HAND_SIZE);
                        lemma_pow_increases(cards as nat, (k + 1) as nat, 15);
                    }
                    within = false;
                },
            }
        }
        k += 1;
    }
    let limit = if within { value } else { MAX_FACTORIAL_HAND_SIZE };
    assert(limit as int == min_int(pow(cards as int, 15), MAX_FACTORIAL_HAND_SIZE as int));
    let mut result: usize = 1;
    let mut factor: usize = 2;
    proof {
        reveal_with_fuel(factorial, 2);
    }
    if cards >= 2 {
        proof {
            lemma_pow_increases(cards as nat, 1, 15);
            lemma_pow1(cards as int);
        }
        while factor <= cards
            invariant
                2 <= factor <= cards + 1,
                cards >= 2,
                result as int == factorial((factor - 1) as nat),
                result < limit,
                limit as int == min_int(pow(cards as int, 15), MAX_FACTORIAL_HAND_SIZE as int),
            decreases cards + 1 - factor,
        {
            proof {
                assert(factorial(factor as nat) == factor * factorial((factor - 1) as nat));
                assert(factor * factorial((factor - 1) as nat) == result * factor) by (nonlinear_arith)
                    requires
                        result as int == factorial((factor - 1) as nat),
                ;
            }
            match result.checked_mul(factor) {
                Some(next) if next < limit => {
                    result = next;
                },
                _ => {
                    proof {
                        assert(factorial(factor as nat) >= limit);
                        lemma_factorial_monotone(factor as nat, cards as nat);
                    }
                    return limit;
                },
            }
            if factor == cards {
                return result;
            }
            factor += 1;
        }
        result
    } else if result < limit {
        result
    } else {
        limit
    }
}


/// A card that a rule conjures when the pile holds no card of a guaranteed rank:
/// a Draw Eight of some color, or the colorless wild of that rank.
pub open spec fn conjured(card: Card, rank: Rank) -> bool {
    &&& card.rank == rank
    &&& rank == Rank::DrawEight ==> card.color is Some
    &&& rank != Rank::DrawEight ==> card.color is None
}

/// `deck` loses its element `i`, the last element taking its place.
pub open spec fn swap_removed(deck: Seq<Card>, i: int) -> Seq<Card> {
    deck.update(i, deck.last()).drop_last()
}

/// `i` is the last index of `deck` whose card satisfies `pred`.
pub open spec fn is_last_match(deck: Seq<Card>, pred: spec_fn(Card) -> bool, i: int) -> bool {
    &&& 0 <= i < deck.len()
    &&& pred(deck[i])
    &&& forall|k: int| i < k < deck.len() ==> !pred(#[trigger] deck[k])
}

pub open spec fn has_match(deck: Seq<Card>, pred: spec_fn(Card) -> bool) -> bool {
    exists|k: int| 0 <= k < deck.len() && pred(#[trigger] deck[k])
}

/// The result of taking the last card of `deck` that satisfies `pred` by
/// `swap_remove`.
pub open spec fn takes_last_match(
    old_deck: Seq<Card>,
    new_deck: Seq<Card>,
    pred: spec_fn(Card) -> bool,
    card: Card,
) -> bool {
    exists|i: int| is_last_match(old_deck, pred, i) && card == old_deck[i] && new_deck == swap_removed(old_deck, i)
}

pub open spec fn rank_is(rank: Rank) -> spec_fn(Card) -> bool {
    |card: Card| card.rank == rank
}

pub open spec fn allowed_by(rule: PlayerDrawRule) -> spec_fn(Card) -> bool {
    |card: Card| card_allowed_spec(rule, card)
}

/// What one draw under a player rule does to the shared pile.
pub open spec fn draw_with_rule_post(
    old_deck: Seq<Card>,
    new_deck: Seq<Card>,
    rule: PlayerDrawRule,
    received: int,
    result: Result<Card, GameError>,
) -> bool {
    match required_rank_spec(rule, received) {
        Some(rank) => match result {
            Ok(card) => if has_match(old_deck, rank_is(rank)) {
                takes_last_match(old_deck, new_deck, rank_is(rank), card)
            } else {
                new_deck == old_deck && conjured(card, rank)
            },
            Err(_) => false,
        },
        None => if has_match(old_deck, allowed_by(rule)) {
            result matches Ok(card) && takes_last_match(old_deck, new_deck, allowed_by(rule), card)
        } else {
            result == Err::<Card, GameError>(GameError::EmptyDrawPile) && new_deck == old_deck
        },
    }
}

/// Finds the last index whose card satisfies `pred`, or `None`.
fn rposition_rank(deck: &Vec<Card>, rank: Rank) -> (index: Option<usize>)
    ensures
        match index {
            Some(i) => is_last_match(deck@, rank_is(rank), i as int),
            None => !has_match(deck@, rank_is(rank)),
        },
{
    let mut i = deck.len();
    while i > 0
        invariant
            i <= deck@.len(),
            forall|k: int| i <= k < deck@.len() ==> !(rank_is(rank))(#[trigger] deck@[k]),
        decreases i,
    {
        if deck[i - 1].rank == rank {
            return Some(i - 1);
        }
        i -= 1;
    }
    None
}

fn rposition_allowed(deck: &Vec<Card>, rule: PlayerDrawRule) -> (index: Option<usize>)
    ensures
        match index {
            Some(i) => is_last_match(deck@, allowed_by(rule), i as int),
            None => !has_match(deck@, allowed_by(rule)),
        },
{
    let mut i = deck.len();
    while i > 0
        invariant
            i <= deck@.len(),
            forall|k: int| i <= k < deck@.len() ==> !(allowed_by(rule))(#[trigger] deck@[k]),
        decreases i,
    {
        if card_allowed_for_rule(rule, &deck[i - 1]) {
            return Some(i - 1);
        }
        i -= 1;
    }
    None
}

fn conjure(rank: Rank, rng: &mut StdRng) -> (card: Card)
    requires
        is_guaranteed_tier(rank),
    ensures
        conjured(card, rank),
{
    if rank == Rank::DrawEight {
        Card::new(Color::ALL[gen_index(rng, 4)], Rank::DrawEight)
    } else {
        Card::wild(rank)
    }
}

/// Draws one card for a player with a draw rule: the guaranteed rank when the
/// rule asks for one (taken from the pile, or conjured when the pile has none),
/// otherwise the last card the rule allows.
pub fn draw_card_with_rule(
    deck: &mut Vec<Card>,
    rule: PlayerDrawRule,
    received: usize,
    rng: &mut StdRng,
) -> (result: Result<Card, GameError>)
    ensures
        draw_with_rule_post(old(deck)@, final(deck)@, rule, received as int, result),
{
    if let Some(rank) = required_rank_for_rule(rule, received) {
        if let Some(index) = rposition_rank(deck, rank) {
            let card = deck.swap_remove(index);
            return Ok(card);
        }
        return Ok(conjure(rank, rng));
    }
    match rposition_allowed(deck, rule) {
        Some(index) => Ok(deck.swap_remove(index)),
        None => Err(GameError::EmptyDrawPile),
    }
}

pub open spec fn sat_add(a: int, b: int) -> int {
    if a + b > usize::MAX {
        usize::MAX as int
    } else {
        a + b
    }
}

pub open spec fn sat_sub(a: int, b: int) -> int {
    if a - b < 0 {
        0
    } else {
        a - b
    }
}

/// The rule that governs a player's cards in a deck variant: rules apply to
/// Holiday games only.
pub open spec fn effective_rule(variant: DeckVariant, rule: Option<PlayerDrawRule>) -> Option<PlayerDrawRule> {
    if variant == DeckVariant::Holiday {
        rule
    } else {
        None
    }
}

/// A card generated at draw position `position` for a player with `rule` in a
/// game of `variant`: the guaranteed rank when the rule names one, otherwise
/// some kind of card of the deck that the rule allows.
pub open spec fn generated_card_ok(
    variant: DeckVariant,
    rule: Option<PlayerDrawRule>,
    position: int,
    card: Card,
) -> bool {
    match effective_rule(variant, rule) {
        Some(r) => match required_rank_spec(r, position) {
            Some(rank) => conjured(card, rank),
            None => deck_spec(variant).contains(card) && card_allowed_spec(r, card),
        },
        None => deck_spec(variant).contains(card),
    }
}

/// Generates `count` card identities for a player's virtual cards, simulating
/// consecutive draws from position `received` without touching the shared pile.
pub fn generate_virtual_cards(
    variant: DeckVariant,
    rule: Option<PlayerDrawRule>,
    received: usize,
    count: usize,
    rng: &mut StdRng,
) -> (generated: Vec<Card>)
    ensures
        generated@.len() == count,
        forall|k: int|
            0 <= k < count ==> generated_card_ok(
                variant,
                rule,
                sat_add(received as int, k),
                #[trigger] generated@[k],
            ),
{
    let effective = if variant == DeckVariant::Holiday {
        rule
    } else {
        None
    };
    let full = deck(variant);
    let all_types = distinct_sorted(full.as_slice());
    let mut allowed_types: Vec<Card> = Vec::new();
    let ghost red_zero = Card { color: Some(Color::Red), rank: Rank::Number(0) };
    proof {
        assert(full@[0] == standard_card(0));
        assert(full@[0] == red_zero);
        assert(full@.contains(red_zero));
    }
    let mut i: usize = 0;
    while i < all_types.len()
        invariant
            i <= all_types@.len(),
            effective == effective_rule(variant, rule),
            forall|c: Card| all_types@.contains(c) <==> full@.contains(c),
            full@ == deck_spec(variant),
            red_zero == (Card { color: Some(Color::Red), rank: Rank::Number(0) }),
            forall|k: int|
                0 <= k < allowed_types@.len() ==> full@.contains(#[trigger] allowed_types@[k]) && (
                effective matches Some(r) ==> card_allowed_spec(r, allowed_types@[k])),
            (exists|k: int| 0 <= k < i && #[trigger] all_types@[k] == red_zero) ==> allowed_types@.contains(red_zero),
        decreases all_types@.len() - i,
    {
        let candidate = all_types[i];
        let keep = match effective {
            Some(r) => card_allowed_for_rule(r, &candidate),
            None => true,
        };
        let ghost prev = allowed_types@;
        if keep {
            allowed_types.push(candidate);
            proof {
                assert(allowed_types@[allowed_types@.len() - 1] == candidate);
            }
        }
        proof {
            if exists|k: int| 0 <= k < i + 1 && #[trigger] all_types@[k] == red_zero {
                let k = choose|k: int| 0 <= k < i + 1 && #[trigger] all_types@[k] == red_zero;
                if k < i {
                    assert(prev.contains(red_zero));
                    let j = choose|j: int| 0 <= j < prev.len() && #[trigger] prev[j] == red_zero;
                    assert(allowed_types@[j] == red_zero);
                } else {
                    assert(candidate == red_zero);
                    assert(keep);
                    assert(allowed_types@[allowed_types@.len() - 1] == red_zero);
                }
            }
        }
        i += 1;
    }
    proof {
        let k = choose|k: int| 0 <= k < all_types@.len() && #[trigger] all_types@[k] == red_zero;
        assert(allowed_types@.contains(red_zero));
    }
    let mut generated: Vec<Card> = Vec::new();
    let mut offset: usize = 0;
    while offset < count
        invariant
            offset <= count,
            generated@.len() == offset,
            allowed_types@.len() > 0,
            effective == effective_rule(variant, rule),
            full@ == deck_spec(variant),
            forall|k: int|
                0 <= k < allowed_types@.len() ==> full@.contains(#[trigger] allowed_types@[k]) && (
                effective matches Some(r) ==> card_allowed_spec(r, allowed_types@[k])),
            forall|k: int|
                0 <= k < offset ==> generated_card_ok(
                    variant,
                    rule,
                    sat_add(received as int, k),
                    #[trigger] generated@[k],
                ),
        decreases count - offset,
    {
        let position = received.saturating_add(offset);
        let guaranteed = match effective {
            Some(r) => required_rank_for_rule(r, position),
            None => None,
        };
        let card = match guaranteed {
            Some(rank) => conjure(rank, rng),
            None => {
                let index = gen_index(rng, allowed_types.len());
                allowed_types[index]
            },
        };
        generated.push(card);
        proof {
            assert(generated@[offset as int] == card);
        }
        offset += 1;
    }
    generated
}


/// The floor of the square root of `value`, by bisection.
pub fn isqrt(value: usize) -> (root: usize)
    ensures
        root * root <= value,
        value < (root + 1) * (root + 1),
{
    let target = value as u128;
    let mut low: u128 = 0;
    let mut high: u128 = target + 1;
    proof {
        assert(target < high * high) by (nonlinear_arith)
            requires
                high == target + 1,
        ;
    }
    while high - low > 1
        invariant
            low < high <= target + 1,
            target == value as u128,
            target <= u64::MAX,
            low * low <= target,
            target < high * high,
        decreases high - low,
    {
        let mid = low + (high - low) / 2;
        assert(mid <= u64::MAX);
        assert(mid * mid <= u128::MAX) by (nonlinear_arith)
            requires
                mid <= u64::MAX,
        ;
        if mid * mid <= target {
            low = mid;
        } else {
            high = mid;
        }
    }
    assert(high == low + 1);
    low as usize
}

} // verus!
