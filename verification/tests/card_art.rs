use image::Rgba;
use uno::card_art::{
    color_rgba, generate_card_art, rank_label, BLACK, BLUE, CARD_HEIGHT, CARD_WIDTH, GREEN, RED, TRANSPARENT, WHITE,
    YELLOW,
};
use uno::local_core::cards::{Card, Color, Rank};

fn rgba(value: u32) -> Rgba<u8> {
    Rgba(value.to_be_bytes())
}

#[test]
fn every_rank_generates_a_fixed_rgba_card() {
    let ranks = [
        Rank::Number(0),
        Rank::Number(9),
        Rank::Skip,
        Rank::Reverse,
        Rank::DrawTwo,
        Rank::DrawEight,
        Rank::Wild,
        Rank::WildDrawFour,
        Rank::WildDrawSixteen,
        Rank::WildDiscardThirtyTwo,
        Rank::WildDiscardSixtyFour,
        Rank::WildFactorial,
        Rank::WildSquareRoot,
    ];
    for rank in ranks {
        let card = if matches!(
            rank,
            Rank::Wild
                | Rank::WildDrawFour
                | Rank::WildDrawSixteen
                | Rank::WildDiscardThirtyTwo
                | Rank::WildDiscardSixtyFour
                | Rank::WildFactorial
                | Rank::WildSquareRoot
        ) {
            Card::wild(rank)
        } else {
            Card::new(Color::Red, rank)
        };
        let image = generate_card_art(card).image;
        assert_eq!(image.dimensions(), (CARD_WIDTH, CARD_HEIGHT));
        assert_eq!(*image.get_pixel(150, 20), if card.is_wild() { rgba(YELLOW) } else { rgba(RED) });
        assert_ne!(*image.get_pixel(90, 135), rgba(TRANSPARENT));
    }
}

#[test]
fn colors_and_wild_quadrants_are_distinct() {
    for color in Color::ALL {
        let image = generate_card_art(Card::new(color, Rank::DrawEight)).image;
        assert_eq!(*image.get_pixel(20, 20), rgba(color_rgba(color)));
    }

    let wild = generate_card_art(Card::wild(Rank::WildDrawSixteen)).image;
    assert_eq!(*wild.get_pixel(20, 20), rgba(RED));
    assert_eq!(*wild.get_pixel(150, 20), rgba(YELLOW));
    assert_eq!(*wild.get_pixel(20, 240), rgba(GREEN));
    assert_eq!(*wild.get_pixel(150, 240), rgba(BLUE));
}

#[test]
fn discard_wilds_render_a_minus_sign_in_the_center() {
    for rank in [Rank::WildDiscardThirtyTwo, Rank::WildDiscardSixtyFour] {
        let image = generate_card_art(Card::wild(rank)).image;
        assert_eq!(*image.get_pixel(40, 135), rgba(WHITE));
        assert_eq!(*image.get_pixel(40, 110), rgba(BLACK));
    }
}

#[test]
fn mathematical_wilds_use_distinct_ascii_labels() {
    assert_eq!(rank_label(Rank::WildFactorial), "x!");
    assert_eq!(rank_label(Rank::WildSquareRoot), "SQRT");
    for rank in [Rank::WildFactorial, Rank::WildSquareRoot] {
        let image = generate_card_art(Card::wild(rank)).image;
        assert_ne!(*image.get_pixel(90, 135), rgba(TRANSPARENT));
    }
}

#[test]
fn skip_uses_block_symbols_in_the_center_and_corners() {
    let image = generate_card_art(Card::new(Color::Red, Rank::Skip)).image;

    assert_eq!(*image.get_pixel(90, 92), rgba(BLACK));
    assert_eq!(*image.get_pixel(90, 135), rgba(BLACK));
    assert_eq!(*image.get_pixel(90, 155), rgba(WHITE));

    assert_eq!(*image.get_pixel(36, 25), rgba(WHITE));
    assert_eq!(*image.get_pixel(36, 42), rgba(WHITE));
    assert_eq!(*image.get_pixel(36, 50), rgba(RED));

    assert_eq!(*image.get_pixel(144, 211), rgba(WHITE));
    assert_eq!(*image.get_pixel(144, 228), rgba(WHITE));
    assert_eq!(*image.get_pixel(144, 236), rgba(RED));
}

#[test]
fn corners_outside_the_rounded_border_stay_transparent() {
    let image = generate_card_art(Card::new(Color::Blue, Rank::Number(3))).image;
    assert_eq!(*image.get_pixel(0, 0), rgba(TRANSPARENT));
    assert_eq!(*image.get_pixel(179, 269), rgba(TRANSPARENT));
    assert_eq!(*image.get_pixel(90, 2), rgba(BLACK));
    assert_eq!(*image.get_pixel(90, 8), rgba(WHITE));
}
