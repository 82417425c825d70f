use uno::local_core::cards::{Card as LocalCard, Color as LocalColor, GameError as LocalGameError, Rank as LocalRank};
use uno::uno_core::{Card, Color, GameError, Rank};

#[test]
fn local_colors_print_and_parse() {
    assert_eq!(LocalColor::Red.label(), "red");
    assert_eq!(LocalColor::Yellow.label(), "yellow");
    assert_eq!(LocalColor::Green.label(), "green");
    assert_eq!(LocalColor::Blue.label(), "blue");
    assert_eq!(LocalColor::parse("RED"), Ok(LocalColor::Red));
    assert_eq!(LocalColor::parse("y"), Ok(LocalColor::Yellow));
    assert_eq!(LocalColor::parse("G"), Ok(LocalColor::Green));
    assert_eq!(LocalColor::parse("blue"), Ok(LocalColor::Blue));
    assert_eq!(LocalColor::parse("purple"), Err(LocalGameError::InvalidColor("purple".to_owned())));
}

#[test]
fn local_ranks_print_their_names() {
    assert_eq!(LocalRank::Number(7).label(), "7");
    assert_eq!(LocalRank::Number(0).label(), "0");
    assert_eq!(LocalRank::DrawTwo.label(), "draw-two");
    assert_eq!(LocalRank::DrawEight.label(), "draw-eight");
    assert_eq!(LocalRank::WildDrawSixteen.label(), "wild-draw-sixteen");
    assert_eq!(LocalRank::WildDiscardThirtyTwo.label(), "wild-discard-thirty-two");
    assert_eq!(LocalRank::WildDiscardSixtyFour.label(), "wild-discard-sixty-four");
    assert_eq!(LocalRank::WildFactorial.label(), "wild-factorial");
    assert_eq!(LocalRank::WildSquareRoot.label(), "wild-square-root");
}

#[test]
fn local_cards_print_color_and_rank() {
    assert_eq!(LocalCard::new(LocalColor::Blue, LocalRank::Number(9)).label(), "blue:9");
    assert_eq!(LocalCard::new(LocalColor::Red, LocalRank::Reverse).label(), "red:reverse");
    assert_eq!(LocalCard::wild(LocalRank::WildDrawFour).label(), "wild:wild-draw-four");
}

#[test]
fn classic_labels_match_display_text() {
    assert_eq!(Color::Green.label(), "green");
    assert_eq!(Color::parse("b"), Ok(Color::Blue));
    assert_eq!(Color::parse("orange"), Err(GameError::InvalidColor("orange".to_owned())));
    assert_eq!(Rank::Number(12).label(), "12");
    assert_eq!(Rank::Skip.label(), "skip");
    assert_eq!(Card::new(Color::Yellow, Rank::DrawTwo).label(), "yellow:draw-two");
    assert_eq!(Card { color: None, rank: Rank::Wild }.label(), "wild:wild");
}
