use vstd::prelude::*;
use crate::text::{ascii_lower, chars_equal, chars_of, decimal, push_decimal, push_str, to_ascii_lower};

verus! {

pub const MIN_PLAYERS: usize = 2;
pub const MAX_PLAYERS: usize = 5;
pub const STARTING_HAND_SIZE: usize = 7;
pub const HAND_BATCH_SIZE: usize = 200;

#[derive(Clone, Copy, Debug, PartialEq, Eq, Structural, PartialOrd, Ord, Hash)]
pub enum Color {
    Red,
    Yellow,
    Green,
    Blue,
}

impl Color {
    pub const ALL: [Color; 4] = [Color::Red, Color::Yellow, Color::Green, Color::Blue];
}

#[derive(Clone, Copy, Debug, PartialEq, Eq, Structural, PartialOrd, Ord, Hash)]
pub enum Rank {
    Number(u8),
    Skip,
    Reverse,
    DrawTwo,
    DrawEight,
    Wild,
    WildDrawFour,
    WildDrawSixteen,
    WildDiscardThirtyTwo,
    WildDiscardSixtyFour,
    WildFactorial,
    WildSquareRoot,
}

#[derive(Clone, Copy, Debug, PartialEq, Eq, Structural, PartialOrd, Ord, Hash)]
pub struct Card {
    pub color: Option<Color>,
    pub rank: Rank,
}

pub open spec fn rank_is_wild(rank: Rank) -> bool {
    match rank {
        Rank::Wild | Rank::WildDrawFour | Rank::WildDrawSixteen | Rank::WildDiscardThirtyTwo
        | Rank::WildDiscardSixtyFour | Rank::WildFactorial | Rank::WildSquareRoot => true,
        _ => false,
    }
}

impl Card {
    pub fn new(color: Color, rank: Rank) -> (card: Card)
        ensures
            card == (Card { color: Some(color), rank }),
    {
        Card { color: Some(color), rank }
    }

    pub fn wild(rank: Rank) -> (card: Card)
        ensures
            card == (Card { color: None, rank }),
    {
        Card { color: None, rank }
    }

    pub open spec fn spec_is_wild(self) -> bool {
        rank_is_wild(self.rank)
    }

    /// A card as the decks make it: a wild, or a card of some color.
    pub open spec fn colored_unless_wild(self) -> bool {
        !rank_is_wild(self.rank) ==> self.color is Some
    }

    #[verifier::when_used_as_spec(spec_is_wild)]
    pub fn is_wild(self) -> (wild: bool)
        ensures
            wild == rank_is_wild(self.rank),
    {
        match self.rank {
            Rank::Wild | Rank::WildDrawFour | Rank::WildDrawSixteen | Rank::WildDiscardThirtyTwo
            | Rank::WildDiscardSixtyFour | Rank::WildFactorial | Rank::WildSquareRoot => true,
            _ => false,
        }
    }
}

pub open spec fn color_at(k: int) -> Color {
    if k == 0 {
        Color::Red
    } else if k == 1 {
        Color::Yellow
    } else if k == 2 {
        Color::Green
    } else {
        Color::Blue
    }
}

/// The rank at position `j` (0..26) of one color's block in the standard deck:
/// two zeros, two of each number 1..=9, then two Skip, two Reverse and two Draw Two.
pub open spec fn block_rank(j: int) -> Rank {
    if j < 2 {
        Rank::Number(0)
    } else if j < 20 {
        Rank::Number(((j - 2) / 2 + 1) as u8)
    } else if j < 22 {
        Rank::Skip
    } else if j < 24 {
        Rank::Reverse
    } else {
        Rank::DrawTwo
    }
}

pub const STANDARD_DECK_LEN: usize = 112;
pub const HOLIDAY_DECK_LEN: usize = 130;

/// Card `i` of the standard 112-card deck, in construction order: for each color
/// in Red, Yellow, Green, Blue order a block of 26 cards, then four pairs of
/// Wild and Wild Draw Four.
pub open spec fn standard_card(i: int) -> Card {
    if i < 104 {
        Card { color: Some(color_at(i / 26)), rank: block_rank(i % 26) }
    } else if (i - 104) % 2 == 0 {
        Card { color: None, rank: Rank::Wild }
    } else {
        Card { color: None, rank: Rank::WildDrawFour }
    }
}

/// Card `i` of the 130-card Holiday deck: the standard deck followed by two Draw
/// Eight per color and two of each of the five Holiday wilds.
pub open spec fn holiday_card(i: int) -> Card {
    if i < 112 {
        standard_card(i)
    } else if i < 120 {
        Card { color: Some(color_at((i - 112) / 2)), rank: Rank::DrawEight }
    } else {
        let m = (i - 120) / 2;
        Card {
            color: None,
            rank: if m == 0 {
                Rank::WildDrawSixteen
            } else if m == 1 {
                Rank::WildDiscardThirtyTwo
            } else if m == 2 {
                Rank::WildDiscardSixtyFour
            } else if m == 3 {
                Rank::WildFactorial
            } else {
                Rank::WildSquareRoot
            },
        }
    }
}

pub open spec fn standard_deck_spec() -> Seq<Card> {
    Seq::new(112, |i: int| standard_card(i))
}

pub open spec fn holiday_deck_spec() -> Seq<Card> {
    Seq::new(130, |i: int| holiday_card(i))
}

fn color_at_exec(k: usize) -> (c: Color)
    requires
        k < 4,
    ensures
        c == color_at(k as int),
{
    Color::ALL[k]
}

fn standard_card_at(i: usize) -> (card: Card)
    requires
        i < 112,
    ensures
        card == standard_card(i as int),
{
    if i < 104 {
        let j = i % 26;
        let rank = if j < 2 {
            Rank::Number(0)
        } else if j < 20 {
            Rank::Number(((j - 2) / 2 + 1) as u8)
        } else if j < 22 {
            Rank::Skip
        } else if j < 24 {
            Rank::Reverse
        } else {
            Rank::DrawTwo
        };
        Card::new(color_at_exec(i / 26), rank)
    } else if (i - 104) % 2 == 0 {
        Card::wild(Rank::Wild)
    } else {
        Card::wild(Rank::WildDrawFour)
    }
}

fn holiday_card_at(i: usize) -> (card: Card)
    requires
        i < 130,
    ensures
        card == holiday_card(i as int),
{
    if i < 112 {
        standard_card_at(i)
    } else if i < 120 {
        Card::new(color_at_exec((i - 112) / 2), Rank::DrawEight)
    } else {
        let m = (i - 120) / 2;
        let rank = if m == 0 {
            Rank::WildDrawSixteen
        } else if m == 1 {
            Rank::WildDiscardThirtyTwo
        } else if m == 2 {
            Rank::WildDiscardSixtyFour
        } else if m == 3 {
            Rank::WildFactorial
        } else {
            Rank::WildSquareRoot
        };
        Card::wild(rank)
    }
}

/// The standard 112-card deck in construction order.
pub fn standard_deck() -> (deck: Vec<Card>)
    ensures
        deck@ == standard_deck_spec(),
{
    let mut deck: Vec<Card> = Vec::new();
    let mut i: usize = 0;
    while i < 112
        invariant
            i <= 112,
            deck@ =~= Seq::new(i as nat, |k: int| standard_card(k)),
        decreases 112 - i,
    {
        deck.push(standard_card_at(i));
        i += 1;
    }
    deck
}

/// The 130-card Holiday deck: the standard deck followed by its expansion cards.
pub fn holiday_deck() -> (deck: Vec<Card>)
    ensures
        deck@ == holiday_deck_spec(),
{
    let mut deck = standard_deck();
    let mut i: usize = 112;
    while i < 130
        invariant
            112 <= i <= 130,
            deck@ =~= Seq::new(i as nat, |k: int| holiday_card(k)),
        decreases 130 - i,
    {
        deck.push(holiday_card_at(i));
        i += 1;
    }
    deck
}

} // verus!

verus! {

#[derive(Clone, Copy, Debug, PartialEq, Eq, Structural)]
pub enum DeckVariant {
    Standard,
    Holiday,
}

impl DeckVariant {
    pub const ALL: [DeckVariant; 2] = [DeckVariant::Standard, DeckVariant::Holiday];
}

impl Default for DeckVariant {
    fn default() -> (variant: DeckVariant)
        ensures
            variant == DeckVariant::Holiday,
    {
        DeckVariant::Holiday
    }
}

pub open spec fn deck_spec(variant: DeckVariant) -> Seq<Card> {
    match variant {
        DeckVariant::Standard => standard_deck_spec(),
        DeckVariant::Holiday => holiday_deck_spec(),
    }
}

/// The full deck of the given variant, in construction order.
pub fn deck(variant: DeckVariant) -> (cards: Vec<Card>)
    ensures
        cards@ == deck_spec(variant),
{
    match variant {
        DeckVariant::Standard => standard_deck(),
        DeckVariant::Holiday => holiday_deck(),
    }
}

} // verus!

verus! {

#[derive(Clone, Copy, Debug, PartialEq, Eq, Structural)]
pub enum Direction {
    Clockwise,
    CounterClockwise,
}

pub open spec fn reversed(direction: Direction) -> Direction {
    match direction {
        Direction::Clockwise => Direction::CounterClockwise,
        Direction::CounterClockwise => Direction::Clockwise,
    }
}

impl Direction {
    /// Flips the direction of play.
    pub fn reverse(&mut self)
        ensures
            *final(self) == reversed(*old(self)),
    {
        *self = match *self {
            Direction::Clockwise => Direction::CounterClockwise,
            Direction::CounterClockwise => Direction::Clockwise,
        };
    }
}

#[derive(Clone, Debug, Hash, PartialOrd, Ord)]
pub struct PlayerId(pub String);

impl PartialEq for PlayerId {
    fn eq(&self, other: &Self) -> (same: bool) {
        self.0 == other.0
    }
}

impl vstd::std_specs::cmp::PartialEqSpecImpl for PlayerId {
    open spec fn obeys_eq_spec() -> bool {
        true
    }

    open spec fn eq_spec(&self, other: &Self) -> bool {
        self.0@ == other.0@
    }
}

impl Eq for PlayerId {}

impl PlayerId {
    pub fn new(value: &str) -> (id: PlayerId)
        ensures
            id.0@ == value@,
    {
        PlayerId(value.to_owned())
    }

    /// A copy of the identifier with the same text.
    pub fn duplicate(&self) -> (id: PlayerId)
        ensures
            id.0@ == self.0@,
    {
        PlayerId(self.0.clone())
    }
}

#[derive(Clone, Copy, Debug, PartialEq, Eq, Structural)]
pub struct HouseRules {
    pub seven_zero: bool,
}

impl Default for HouseRules {
    fn default() -> (rules: HouseRules)
        ensures
            rules.seven_zero,
    {
        HouseRules { seven_zero: true }
    }
}

#[derive(Clone, Copy, Debug, PartialEq, Eq, Structural)]
pub enum PlayerDrawRule {
    ExcludeDrawEightAndSixteen,
    ExcludeDrawSixteen,
    GuaranteeDrawEightPerSeven,
    TwoDrawEightAndOneSixteenPerSeven,
    GuaranteeDrawEightPerFiveAndSixteenPerTen,
    GuaranteeDrawEightPerTwenty,
}

/// A player's draw rule and how many cards it has handed that player so far.
#[derive(Clone, Copy, Debug, PartialEq, Eq, Structural)]
pub struct PlayerDrawState {
    pub rule: PlayerDrawRule,
    pub received: usize,
}

/// Where the seed of a refill shuffle comes from: fresh operating-system entropy,
/// or the game's own generator so that seeded games stay reproducible.
#[derive(Clone, Copy, Debug, PartialEq, Eq, Structural)]
pub enum RefillSeedSource {
    Runtime,
    Deterministic,
}

#[derive(Clone, Copy, Debug, PartialEq, Eq, Structural)]
pub enum TurnPhase {
    AwaitingAction,
    Drew(Card),
}

#[derive(Clone, Debug, PartialEq, Eq)]
pub enum Action {
    Play { card: Card, chosen_color: Option<Color>, swap_target: Option<PlayerId> },
    Draw,
    Pass,
}

#[derive(Clone, Copy, Debug, PartialEq, Eq, Structural)]
pub struct PlusPlay {
    pub card: Card,
    pub chosen_color: Option<Color>,
}

#[derive(Clone, Copy, Debug, PartialEq, Eq, Structural)]
pub struct IndexedPlusPlay {
    pub hand_index: usize,
    pub play: PlusPlay,
}

#[derive(Clone, Debug, PartialEq, Eq)]
pub enum HandEffect {
    Swap { target: PlayerId },
    Rotate { direction: Direction },
    Redistribute { discarded: usize, distributed: usize },
    Factorial { target: PlayerId, before: usize, after: usize },
    SquareRoot { target: PlayerId, before: usize, after: usize },
}

#[derive(Clone, Debug, PartialEq, Eq)]
pub enum EventKind {
    GameStarted,
    CardPlayed {
        player: PlayerId,
        card: Card,
        chosen_color: Option<Color>,
        hand_effect: Option<HandEffect>,
    },
    PlusBatchPlayed {
        player: PlayerId,
        cards: Vec<Card>,
        target: PlayerId,
        penalty: usize,
        drawn: usize,
        final_color: Color,
    },
    CardDrawn { player: PlayerId, count: usize },
    TurnPassed { player: PlayerId },
    GameWon { player: PlayerId },
}

#[derive(Clone, Debug, PartialEq, Eq)]
pub struct GameEvent {
    pub sequence: u64,
    pub kind: EventKind,
}

#[derive(Clone, Debug, PartialEq, Eq)]
pub struct PublicPlayerState {
    pub id: PlayerId,
    pub name: String,
    pub hand_len: usize,
}

#[derive(Clone, Debug, PartialEq, Eq)]
pub struct PublicGameState {
    pub players: Vec<PublicPlayerState>,
    pub discard_top: Card,
    pub active_color: Color,
    pub current_player: PlayerId,
    pub direction: Direction,
    pub has_drawn: bool,
    pub winner: Option<PlayerId>,
    pub next_sequence: u64,
}

#[derive(Debug, Clone, PartialEq, Eq)]
pub enum GameError {
    InvalidPlayerCount(usize),
    DuplicatePlayer(PlayerId),
    UnknownPlayer(PlayerId),
    NotPlayerTurn(PlayerId),
    CardNotOwned(Card),
    CardNotPlayable(Card),
    DrawnCardOnly(Card),
    MissingColorChoice,
    UnexpectedColorChoice,
    InvalidNumberBatchColor(Color),
    MissingSwapTarget,
    UnexpectedSwapTarget,
    InvalidSwapTarget(PlayerId),
    WildDrawFourNotAllowed,
    InvalidColor(String),
    AlreadyDrew,
    CannotPassBeforeDrawing,
    GameAlreadyWon,
    EmptyDrawPile,
    EmptyPlusBatch,
    InvalidPlusBatch,
}

} // verus!

verus! {

pub open spec fn color_key(color: Option<Color>) -> int {
    match color {
        None => 0,
        Some(Color::Red) => 1,
        Some(Color::Yellow) => 2,
        Some(Color::Green) => 3,
        Some(Color::Blue) => 4,
    }
}

pub open spec fn rank_key(rank: Rank) -> int {
    match rank {
        Rank::Number(n) => n as int,
        Rank::Skip => 256,
        Rank::Reverse => 257,
        Rank::DrawTwo => 258,
        Rank::DrawEight => 259,
        Rank::Wild => 260,
        Rank::WildDrawFour => 261,
        Rank::WildDrawSixteen => 262,
        Rank::WildDiscardThirtyTwo => 263,
        Rank::WildDiscardSixtyFour => 264,
        Rank::WildFactorial => 265,
        Rank::WildSquareRoot => 266,
    }
}

/// The position of a card in the derived `Ord` order of `Card`: by color
/// (colorless first, then Red, Yellow, Green, Blue), then by rank in declaration
/// order, numbers by value.
pub open spec fn card_key(card: Card) -> int {
    color_key(card.color) * 300 + rank_key(card.rank)
}

pub proof fn lemma_card_key_injective(a: Card, b: Card)
    ensures
        card_key(a) == card_key(b) ==> a == b,
{
}

pub fn card_key_exec(card: Card) -> (key: u32)
    ensures
        key as int == card_key(card),
{
    let color: u32 = match card.color {
        None => 0,
        Some(Color::Red) => 1,
        Some(Color::Yellow) => 2,
        Some(Color::Green) => 3,
        Some(Color::Blue) => 4,
    };
    let rank: u32 = match card.rank {
        Rank::Number(n) => n as u32,
        Rank::Skip => 256,
        Rank::Reverse => 257,
        Rank::DrawTwo => 258,
        Rank::DrawEight => 259,
        Rank::Wild => 260,
        Rank::WildDrawFour => 261,
        Rank::WildDrawSixteen => 262,
        Rank::WildDiscardThirtyTwo => 263,
        Rank::WildDiscardSixtyFour => 264,
        Rank::WildFactorial => 265,
        Rank::WildSquareRoot => 266,
    };
    color * 300 + rank
}

/// Strictly increasing in the card order, hence free of duplicates.
pub open spec fn sorted_distinct(cards: Seq<Card>) -> bool {
    forall|i: int, j: int| 0 <= i < j < cards.len() ==> card_key(cards[i]) < card_key(cards[j])
}

/// The distinct cards of `cards` in ascending card order (what collecting into a
/// `BTreeSet<Card>` and iterating yields).
pub fn distinct_sorted(cards: &[Card]) -> (result: Vec<Card>)
    ensures
        sorted_distinct(result@),
        forall|c: Card| result@.contains(c) <==> cards@.contains(c),
{
    let mut result: Vec<Card> = Vec::new();
    let mut i: usize = 0;
    while i < cards.len()
        invariant
            i <= cards@.len(),
            sorted_distinct(result@),
            forall|c: Card| result@.contains(c) <==> cards@.subrange(0, i as int).contains(c),
        decreases cards@.len() - i,
    {
        let card = cards[i];
        let key = card_key_exec(card);
        let ghost before = result@;
        let mut pos: usize = 0;
        while pos < result.len() && card_key_exec(result[pos]) < key
            invariant
                pos <= result@.len(),
                key as int == card_key(card),
                forall|k: int| 0 <= k < pos ==> card_key(#[trigger] result@[k]) < card_key(card),
            decreases result@.len() - pos,
        {
            pos += 1;
        }
        let present = pos < result.len() && card_key_exec(result[pos]) == key;
        if !present {
            proof {
                assert forall|k: int| pos <= k < result@.len() implies card_key(card) < card_key(
                    #[trigger] result@[k],
                ) by {
                    assert(card_key(result@[pos as int]) <= card_key(result@[k]));
                }
            }
            result.insert(pos, card);
            proof {
                assert forall|c: Card| result@.contains(c) <==> (before.contains(c) || c == card) by {
                    if result@.contains(c) {
                        let k = choose|k: int| 0 <= k < result@.len() && #[trigger] result@[k] == c;
                        if k < pos {
                            assert(before[k] == c);
                        } else if k > pos {
                            assert(before[k - 1] == c);
                        }
                    }
                    if before.contains(c) {
                        let k = choose|k: int| 0 <= k < before.len() && #[trigger] before[k] == c;
                        if k < pos {
                            assert(result@[k] == c);
                        } else {
                            assert(result@[k + 1] == c);
                        }
                    }
                    if c == card {
                        assert(result@[pos as int] == c);
                    }
                }
            }
        } else {
            proof {
                lemma_card_key_injective(card, result@[pos as int]);
                assert(before.contains(card));
            }
        }
        proof {
            assert(cards@.subrange(0, i + 1) =~= cards@.subrange(0, i as int).push(card));
            assert forall|c: Card| result@.contains(c) <==> cards@.subrange(0, i + 1).contains(c) by {
                assert(result@.contains(c) <==> (before.contains(c) || c == card));
                if cards@.subrange(0, i + 1).contains(c) {
                    if c != card {
                        let k = choose|k: int| 0 <= k < i + 1 && #[trigger] cards@.subrange(0, i + 1)[k] == c;
                        assert(cards@.subrange(0, i as int)[k] == c);
                    }
                }
                if cards@.subrange(0, i as int).contains(c) {
                    let k = choose|k: int| 0 <= k < i && #[trigger] cards@.subrange(0, i as int)[k] == c;
                    assert(cards@.subrange(0, i + 1)[k] == c);
                }
                if c == card {
                    assert(cards@.subrange(0, i + 1)[i as int] == c);
                }
            }
        }
        i += 1;
    }
    proof {
        assert(cards@.subrange(0, cards@.len() as int) =~= cards@);
    }
    result
}


// ===== names =====

/// A color's name.
pub open spec fn color_name(color: Color) -> Seq<char> {
    match color {
        Color::Red => "red"@,
        Color::Yellow => "yellow"@,
        Color::Green => "green"@,
        Color::Blue => "blue"@,
    }
}

/// The color a text names, ignoring ASCII case: its name or its initial.
pub open spec fn color_named(text: Seq<char>) -> Option<Color> {
    let lower = ascii_lower(text);
    if lower == "red"@ || lower == "r"@ {
        Some(Color::Red)
    } else if lower == "yellow"@ || lower == "y"@ {
        Some(Color::Yellow)
    } else if lower == "green"@ || lower == "g"@ {
        Some(Color::Green)
    } else if lower == "blue"@ || lower == "b"@ {
        Some(Color::Blue)
    } else {
        None
    }
}

/// A rank's name: its number, or its name in lower case with hyphens.
pub open spec fn rank_name(rank: Rank) -> Seq<char> {
    match rank {
        Rank::Number(n) => decimal(n as nat),
        Rank::Skip => "skip"@,
        Rank::Reverse => "reverse"@,
        Rank::DrawTwo => "draw-two"@,
        Rank::DrawEight => "draw-eight"@,
        Rank::Wild => "wild"@,
        Rank::WildDrawFour => "wild-draw-four"@,
        Rank::WildDrawSixteen => "wild-draw-sixteen"@,
        Rank::WildDiscardThirtyTwo => "wild-discard-thirty-two"@,
        Rank::WildDiscardSixtyFour => "wild-discard-sixty-four"@,
        Rank::WildFactorial => "wild-factorial"@,
        Rank::WildSquareRoot => "wild-square-root"@,
    }
}

/// A card's name: `color:rank`, or `wild:rank` without a color.
pub open spec fn card_name(card: Card) -> Seq<char> {
    match card.color {
        Some(c) => color_name(c) + ":"@ + rank_name(card.rank),
        None => "wild:"@ + rank_name(card.rank),
    }
}

impl Color {
    /// The color's name.
    pub fn label(&self) -> (text: &'static str)
        ensures
            text@ == color_name(*self),
    {
        match self {
            Color::Red => "red",
            Color::Yellow => "yellow",
            Color::Green => "green",
            Color::Blue => "blue",
        }
    }

    /// Reads a color from its name or initial in any ASCII case; anything else
    /// is `InvalidColor` with the text.
    pub fn parse(value: &str) -> (result: Result<Color, GameError>)
        ensures
            match color_named(value@) {
                Some(c) => result == Ok::<Color, GameError>(c),
                None => result matches Err(GameError::InvalidColor(text)) && text@ == value@,
            },
    {
        let chars = chars_of(value);
        let lower = to_ascii_lower(chars.as_slice());
        let l = lower.as_slice();
        if chars_equal(l, "red") || chars_equal(l, "r") {
            Ok(Color::Red)
        } else if chars_equal(l, "yellow") || chars_equal(l, "y") {
            Ok(Color::Yellow)
        } else if chars_equal(l, "green") || chars_equal(l, "g") {
            Ok(Color::Green)
        } else if chars_equal(l, "blue") || chars_equal(l, "b") {
            Ok(Color::Blue)
        } else {
            Err(GameError::InvalidColor(value.to_owned()))
        }
    }
}

impl Rank {
    /// The rank's name; see `rank_name`.
    pub fn label(&self) -> (text: String)
        ensures
            text@ == rank_name(*self),
    {
        let mut text = String::new();
        match self {
            Rank::Number(n) => push_decimal(&mut text, *n as u64),
            Rank::Skip => push_str(&mut text, "skip"),
            Rank::Reverse => push_str(&mut text, "reverse"),
            Rank::DrawTwo => push_str(&mut text, "draw-two"),
            Rank::DrawEight => push_str(&mut text, "draw-eight"),
            Rank::Wild => push_str(&mut text, "wild"),
            Rank::WildDrawFour => push_str(&mut text, "wild-draw-four"),
            Rank::WildDrawSixteen => push_str(&mut text, "wild-draw-sixteen"),
            Rank::WildDiscardThirtyTwo => push_str(&mut text, "wild-discard-thirty-two"),
            Rank::WildDiscardSixtyFour => push_str(&mut text, "wild-discard-sixty-four"),
            Rank::WildFactorial => push_str(&mut text, "wild-factorial"),
            Rank::WildSquareRoot => push_str(&mut text, "wild-square-root"),
        }
        proof {
            assert(text@ =~= rank_name(*self));
        }
        text
    }
}

impl Card {
    /// The card's name; see `card_name`.
    pub fn label(&self) -> (text: String)
        ensures
            text@ == card_name(*self),
    {
        let mut text = String::new();
        match self.color {
            Some(color) => {
                push_str(&mut text, color.label());
                push_str(&mut text, ":");
            },
            None => push_str(&mut text, "wild:"),
        }
        let rank = self.rank.label();
        push_str(&mut text, rank.as_str());
        proof {
            assert(text@ =~= card_name(*self));
        }
        text
    }
}
} // verus!
