//! Card faces drawn in code, independent of language: rounded rectangles,
//! ellipses, the skip symbol and 5×7 dot-matrix glyphs written straight into
//! RGBA pixels, with no system fonts or image assets.
//!
//! A picture is a stack of layers (a shape and a color); each pixel takes the
//! color of the last layer that covers it. Colors are packed as `0xRRGGBBAA`.

use vstd::prelude::*;
use image::{Rgba, RgbaImage};
use crate::local_core::cards::{Card, Color, Rank};
use crate::text::chars_of;

verus! {

/// The fixed pixel width of a card face.
pub const CARD_WIDTH: u32 = 180;

/// The fixed pixel height of a card face, keeping the 2:3 card shape.
pub const CARD_HEIGHT: u32 = 270;

pub const TRANSPARENT: u32 = 0x0000_0000;
pub const BLACK: u32 = 0x1212_18FF;
pub const WHITE: u32 = 0xFAF6_E1FF;
pub const RED: u32 = 0xDA2D_37FF;
pub const YELLOW: u32 = 0xF5C2_26FF;
pub const GREEN: u32 = 0x2E9D_52FF;
pub const BLUE: u32 = 0x2E66_D2FF;

// ===== the image buffer =====

/// An RGBA image of the `image` crate (`RgbaImage`), held whole: Verus sees it
/// only through `canvas_size` and `canvas_pixels`.
#[verifier::external_body]
pub struct Canvas {
    pub image: RgbaImage,
}

/// The width and height a canvas was made with.
pub uninterp spec fn canvas_size(canvas: Canvas) -> (u32, u32);

/// The pixels of a canvas in row-major order, each packed as `0xRRGGBBAA` from
/// its four channels.
pub uninterp spec fn canvas_pixels(canvas: Canvas) -> Seq<u32>;

/// `RgbaImage::from_pixel`: an image of the given size with every pixel set to
/// `fill` (given packed). The image crate panics when the buffer's byte length
/// overflows `usize`, which `requires` rules out.
#[verifier::external_body]
fn blank_canvas(width: u32, height: u32, fill: u32) -> (canvas: Canvas)
    requires
        (width as int) * (height as int) * 4 <= usize::MAX,
    ensures
        canvas_size(canvas) == (width, height),
        canvas_pixels(canvas) == Seq::new((width as nat) * (height as nat), |i: int| fill),
{
    Canvas { image: RgbaImage::from_pixel(width, height, Rgba(fill.to_be_bytes())) }
}

/// `ImageBuffer::put_pixel`: sets pixel `(x, y)` to `color` (given packed) and
/// leaves the others; it panics outside the image, which `requires` rules out.
#[verifier::external_body]
fn paint_pixel(canvas: &mut Canvas, x: u32, y: u32, color: u32)
    requires
        x < canvas_size(*old(canvas)).0,
        y < canvas_size(*old(canvas)).1,
    ensures
        canvas_size(*final(canvas)) == canvas_size(*old(canvas)),
        canvas_pixels(*final(canvas)) == canvas_pixels(*old(canvas)).update(
            (y as int) * (canvas_size(*old(canvas)).0 as int) + (x as int),
            color,
        ),
{
    canvas.image.put_pixel(x, y, Rgba(color.to_be_bytes()));
}

// ===== shapes =====

/// What a layer covers.
pub enum Shape {
    /// An axis-aligned rectangle with corners rounded to `radius`.
    Rounded { x: int, y: int, width: int, height: int, radius: int },
    /// The ellipse filling the rectangle.
    Ellipse { x: int, y: int, width: int, height: int },
    /// A ring with a slash from top left to bottom right: the skip symbol.
    Block { center_x: int, center_y: int, radius: int, stroke: int },
    /// Dot-matrix text, each glyph cell `6 * scale` wide, its top left at `(x, y)`.
    Text { label: Seq<char>, x: int, y: int, scale: int },
}

/// Whether pixel `(px, py)` lies in the rounded rectangle: in the rectangle,
/// and within `radius` of the corner's center where it lies in a corner square.
pub open spec fn in_rounded(px: int, py: int, x: int, y: int, width: int, height: int, radius: int) -> bool {
    let right = x + width;
    let bottom = y + height;
    let dx = if px < x + radius {
        x + radius - px
    } else if px >= right - radius {
        px - (right - radius - 1)
    } else {
        0
    };
    let dy = if py < y + radius {
        y + radius - py
    } else if py >= bottom - radius {
        py - (bottom - radius - 1)
    } else {
        0
    };
    &&& x <= px < right
    &&& y <= py < bottom
    &&& (dx == 0 || dy == 0 || dx * dx + dy * dy <= radius * radius)
}

/// Whether pixel `(px, py)` lies in the ellipse inscribed in the rectangle,
/// its center taken at the pixel's center (all coordinates doubled).
pub open spec fn in_ellipse(px: int, py: int, x: int, y: int, width: int, height: int) -> bool {
    let dx = 2 * px + 1 - (2 * x + width);
    let dy = 2 * py + 1 - (2 * y + height);
    &&& x <= px < x + width
    &&& y <= py < y + height
    &&& dx * dx * height * height + dy * dy * width * width <= width * width * height * height
}

/// Whether pixel `(px, py)` lies on the skip symbol: on the ring between
/// `radius - stroke` and `radius`, or on the slash within the circle.
pub open spec fn in_block(px: int, py: int, center_x: int, center_y: int, radius: int, stroke: int) -> bool {
    let dx = px - center_x;
    let dy = py - center_y;
    let distance = dx * dx + dy * dy;
    let inner = radius - stroke;
    let half = stroke / 2;
    &&& center_x - radius <= px <= center_x + radius
    &&& center_y - radius <= py <= center_y + radius
    &&& distance <= radius * radius
    &&& (distance >= inner * inner || (dy - dx) * (dy - dx) <= 2 * half * half)
}

/// Whether column `column` of a glyph row is lit (columns from the left).
pub open spec fn lit(bits: u8, column: int) -> bool {
    bits & (1u8 << ((4 - column) as u8)) != 0
}

/// Whether pixel `(px, py)` is lit by the text: in the cell of character `k`,
/// at glyph row `row` and column `column`, each glyph dot a `scale` square.
pub open spec fn in_text(px: int, py: int, label: Seq<char>, x: int, y: int, scale: int) -> bool {
    let k = (px - x) / (6 * scale);
    let column = ((px - x) % (6 * scale)) / scale;
    let row = (py - y) / scale;
    &&& px >= x
    &&& py >= y
    &&& k < label.len()
    &&& column < 5
    &&& row < 7
    &&& lit(glyph_rows(label[k])[row], column)
}

/// Whether `shape` covers pixel `(px, py)` of the card.
pub open spec fn covers(shape: Shape, px: int, py: int) -> bool {
    match shape {
        Shape::Rounded { x, y, width, height, radius } => in_rounded(px, py, x, y, width, height, radius),
        Shape::Ellipse { x, y, width, height } => in_ellipse(px, py, x, y, width, height),
        Shape::Block { center_x, center_y, radius, stroke } => in_block(px, py, center_x, center_y, radius, stroke),
        Shape::Text { label, x, y, scale } => in_text(px, py, label, x, y, scale),
    }
}

/// The color of pixel `(px, py)` under a stack of layers: that of the last
/// layer covering it, transparent where none does.
pub open spec fn painted(layers: Seq<(Shape, u32)>, px: int, py: int) -> u32
    decreases layers.len(),
{
    if layers.len() == 0 {
        TRANSPARENT
    } else if covers(layers.last().0, px, py) {
        layers.last().1
    } else {
        painted(layers.drop_last(), px, py)
    }
}

/// The pixels of a card face drawn from `layers`, row by row.
pub open spec fn picture(layers: Seq<(Shape, u32)>) -> Seq<u32> {
    Seq::new(
        (CARD_WIDTH as nat) * (CARD_HEIGHT as nat),
        |i: int| painted(layers, i % (CARD_WIDTH as int), i / (CARD_WIDTH as int)),
    )
}

/// The 5×7 glyph of a character, one row per entry, the low five bits of
/// each row its columns from the left; a question mark for any character
/// without a glyph of its own.
pub open spec fn glyph_rows(c: char) -> Seq<u8> {
    if c == '0' {
        seq![0b01110u8, 0b10001u8, 0b10011u8, 0b10101u8, 0b11001u8, 0b10001u8, 0b01110u8]
    } else if c == '1' {
        seq![0b00100u8, 0b01100u8, 0b00100u8, 0b00100u8, 0b00100u8, 0b00100u8, 0b01110u8]
    } else if c == '2' {
        seq![0b01110u8, 0b10001u8, 0b00001u8, 0b00010u8, 0b00100u8, 0b01000u8, 0b11111u8]
    } else if c == '3' {
        seq![0b11110u8, 0b00001u8, 0b00001u8, 0b01110u8, 0b00001u8, 0b00001u8, 0b11110u8]
    } else if c == '4' {
        seq![0b00010u8, 0b00110u8, 0b01010u8, 0b10010u8, 0b11111u8, 0b00010u8, 0b00010u8]
    } else if c == '5' {
        seq![0b11111u8, 0b10000u8, 0b10000u8, 0b11110u8, 0b00001u8, 0b00001u8, 0b11110u8]
    } else if c == '6' {
        seq![0b01110u8, 0b10000u8, 0b10000u8, 0b11110u8, 0b10001u8, 0b10001u8, 0b01110u8]
    } else if c == '7' {
        seq![0b11111u8, 0b00001u8, 0b00010u8, 0b00100u8, 0b01000u8, 0b01000u8, 0b01000u8]
    } else if c == '8' {
        seq![0b01110u8, 0b10001u8, 0b10001u8, 0b01110u8, 0b10001u8, 0b10001u8, 0b01110u8]
    } else if c == '9' {
        seq![0b01110u8, 0b10001u8, 0b10001u8, 0b01111u8, 0b00001u8, 0b00001u8, 0b01110u8]
    } else if c == '+' {
        seq![0u8, 0b00100u8, 0b00100u8, 0b11111u8, 0b00100u8, 0b00100u8, 0u8]
    } else if c == '-' {
        seq![0u8, 0u8, 0u8, 0b11111u8, 0u8, 0u8, 0u8]
    } else if c == '!' {
        seq![0b00100u8, 0b00100u8, 0b00100u8, 0b00100u8, 0b00100u8, 0u8, 0b00100u8]
    } else if c == 'x' {
        seq![0u8, 0u8, 0b10001u8, 0b01010u8, 0b00100u8, 0b01010u8, 0b10001u8]
    } else if c == 'S' {
        seq![0b01111u8, 0b10000u8, 0b10000u8, 0b01110u8, 0b00001u8, 0b00001u8, 0b11110u8]
    } else if c == 'Q' {
        seq![0b01110u8, 0b10001u8, 0b10001u8, 0b10001u8, 0b10101u8, 0b10010u8, 0b01101u8]
    } else if c == 'T' {
        seq![0b11111u8, 0b00100u8, 0b00100u8, 0b00100u8, 0b00100u8, 0b00100u8, 0b00100u8]
    } else if c == 'R' {
        seq![0b11110u8, 0b10001u8, 0b10001u8, 0b11110u8, 0b10100u8, 0b10010u8, 0b10001u8]
    } else if c == 'W' {
        seq![0b10001u8, 0b10001u8, 0b10001u8, 0b10101u8, 0b10101u8, 0b10101u8, 0b01010u8]
    } else {
        seq![0b01110u8, 0b10001u8, 0b00010u8, 0b00100u8, 0b00100u8, 0u8, 0b00100u8]
    }
}

/// The glyph of a character; see `glyph_rows`.
fn glyph(c: char) -> (rows: [u8; 7])
    ensures
        rows@ == glyph_rows(c),
{
    let rows: [u8; 7] = match c {
        '0' => [0b01110u8, 0b10001u8, 0b10011u8, 0b10101u8, 0b11001u8, 0b10001u8, 0b01110u8],
        '1' => [0b00100u8, 0b01100u8, 0b00100u8, 0b00100u8, 0b00100u8, 0b00100u8, 0b01110u8],
        '2' => [0b01110u8, 0b10001u8, 0b00001u8, 0b00010u8, 0b00100u8, 0b01000u8, 0b11111u8],
        '3' => [0b11110u8, 0b00001u8, 0b00001u8, 0b01110u8, 0b00001u8, 0b00001u8, 0b11110u8],
        '4' => [0b00010u8, 0b00110u8, 0b01010u8, 0b10010u8, 0b11111u8, 0b00010u8, 0b00010u8],
        '5' => [0b11111u8, 0b10000u8, 0b10000u8, 0b11110u8, 0b00001u8, 0b00001u8, 0b11110u8],
        '6' => [0b01110u8, 0b10000u8, 0b10000u8, 0b11110u8, 0b10001u8, 0b10001u8, 0b01110u8],
        '7' => [0b11111u8, 0b00001u8, 0b00010u8, 0b00100u8, 0b01000u8, 0b01000u8, 0b01000u8],
        '8' => [0b01110u8, 0b10001u8, 0b10001u8, 0b01110u8, 0b10001u8, 0b10001u8, 0b01110u8],
        '9' => [0b01110u8, 0b10001u8, 0b10001u8, 0b01111u8, 0b00001u8, 0b00001u8, 0b01110u8],
        '+' => [0u8, 0b00100u8, 0b00100u8, 0b11111u8, 0b00100u8, 0b00100u8, 0u8],
        '-' => [0u8, 0u8, 0u8, 0b11111u8, 0u8, 0u8, 0u8],
        '!' => [0b00100u8, 0b00100u8, 0b00100u8, 0b00100u8, 0b00100u8, 0u8, 0b00100u8],
        'x' => [0u8, 0u8, 0b10001u8, 0b01010u8, 0b00100u8, 0b01010u8, 0b10001u8],
        'S' => [0b01111u8, 0b10000u8, 0b10000u8, 0b01110u8, 0b00001u8, 0b00001u8, 0b11110u8],
        'Q' => [0b01110u8, 0b10001u8, 0b10001u8, 0b10001u8, 0b10101u8, 0b10010u8, 0b01101u8],
        'T' => [0b11111u8, 0b00100u8, 0b00100u8, 0b00100u8, 0b00100u8, 0b00100u8, 0b00100u8],
        'R' => [0b11110u8, 0b10001u8, 0b10001u8, 0b11110u8, 0b10100u8, 0b10010u8, 0b10001u8],
        'W' => [0b10001u8, 0b10001u8, 0b10001u8, 0b10101u8, 0b10101u8, 0b10101u8, 0b01010u8],
        _ => [0b01110u8, 0b10001u8, 0b00010u8, 0b00100u8, 0b00100u8, 0u8, 0b00100u8],
    };
    proof {
        assert(rows@ =~= glyph_rows(c));
    }
    rows
}

// ===== drawing =====

/// A shape as the drawing code holds it.
pub enum Stroke {
    Rounded { x: u32, y: u32, width: u32, height: u32, radius: u32 },
    Ellipse { x: u32, y: u32, width: u32, height: u32 },
    Block { center_x: i32, center_y: i32, radius: i32, stroke: i32 },
    Text { label: Vec<char>, x: u32, y: u32, scale: u32 },
}

/// The shape a stroke draws.
pub open spec fn shape_of(stroke: Stroke) -> Shape {
    match stroke {
        Stroke::Rounded { x, y, width, height, radius } => Shape::Rounded {
            x: x as int,
            y: y as int,
            width: width as int,
            height: height as int,
            radius: radius as int,
        },
        Stroke::Ellipse { x, y, width, height } => Shape::Ellipse {
            x: x as int,
            y: y as int,
            width: width as int,
            height: height as int,
        },
        Stroke::Block { center_x, center_y, radius, stroke } => Shape::Block {
            center_x: center_x as int,
            center_y: center_y as int,
            radius: radius as int,
            stroke: stroke as int,
        },
        Stroke::Text { label, x, y, scale } => Shape::Text { label: label@, x: x as int, y: y as int, scale: scale as int },
    }
}

/// Sizes small enough for the drawing arithmetic.
pub open spec fn stroke_fits(stroke: Stroke) -> bool {
    match stroke {
        Stroke::Rounded { x, y, width, height, radius } => x <= 1000 && y <= 1000 && width <= 1000 && height <= 1000
            && radius < width && radius < height,
        Stroke::Ellipse { x, y, width, height } => x <= 1000 && y <= 1000 && width <= 1000 && height <= 1000,
        Stroke::Block { center_x, center_y, radius, stroke } => -1000 <= center_x <= 1000 && -1000 <= center_y
            <= 1000 && 0 <= stroke <= radius <= 1000,
        Stroke::Text { label, x, y, scale } => 1 <= scale <= 100 && x <= 1000 && y <= 1000,
    }
}

/// Whether the stroke covers pixel `(px, py)`; see `covers`.
fn stroke_covers(stroke: &Stroke, px: u32, py: u32) -> (covered: bool)
    requires
        stroke_fits(*stroke),
        px < CARD_WIDTH,
        py < CARD_HEIGHT,
    ensures
        covered == covers(shape_of(*stroke), px as int, py as int),
{
    match stroke {
        Stroke::Rounded { x, y, width, height, radius } => {
            let (x, y, width, height, radius) = (*x, *y, *width, *height, *radius);
            let right = x + width;
            let bottom = y + height;
            if !(x <= px && px < right && y <= py && py < bottom) {
                return false;
            }
            let dx: u32 = if px < x + radius {
                x + radius - px
            } else if px >= right - radius {
                px - (right - radius - 1)
            } else {
                0
            };
            let dy: u32 = if py < y + radius {
                y + radius - py
            } else if py >= bottom - radius {
                py - (bottom - radius - 1)
            } else {
                0
            };
            proof {
                assert(dx * dx <= radius * radius) by (nonlinear_arith)
                    requires
                        dx <= radius,
                ;
                assert(dy * dy <= radius * radius) by (nonlinear_arith)
                    requires
                        dy <= radius,
                ;
                assert(radius * radius <= 1000 * 1000) by (nonlinear_arith)
                    requires
                        radius <= 1000,
                ;
            }
            dx == 0 || dy == 0 || dx * dx + dy * dy <= radius * radius
        },
        Stroke::Ellipse { x, y, width, height } => {
            let (x, y, width, height) = (*x, *y, *width, *height);
            if !(x <= px && px < x + width && y <= py && py < y + height) {
                return false;
            }
            let rx = width as i64;
            let ry = height as i64;
            let dx = px as i64 * 2 + 1 - (x as i64 * 2 + rx);
            let dy = py as i64 * 2 + 1 - (y as i64 * 2 + ry);
            proof {
                assert(-rx <= dx <= rx && -ry <= dy <= ry);
                assert(dx * dx <= rx * rx) by (nonlinear_arith)
                    requires
                        -rx <= dx <= rx,
                ;
                assert(dy * dy <= ry * ry) by (nonlinear_arith)
                    requires
                        -ry <= dy <= ry,
                ;
                assert(rx * rx <= 1_000_000 && ry * ry <= 1_000_000 && rx * rx >= 0 && ry * ry >= 0) by (nonlinear_arith)
                    requires
                        0 <= rx <= 1000,
                        0 <= ry <= 1000,
                ;
                assert(0 <= dx * dx && 0 <= dy * dy) by (nonlinear_arith);
                assert(dx * dx * (ry * ry) <= 1_000_000_000_000 && dy * dy * (rx * rx) <= 1_000_000_000_000
                    && rx * rx * (ry * ry) <= 1_000_000_000_000) by (nonlinear_arith)
                    requires
                        0 <= dx * dx <= rx * rx <= 1_000_000,
                        0 <= dy * dy <= ry * ry <= 1_000_000,
                ;
                assert(dx * dx * ry * ry == dx * dx * (ry * ry)) by (nonlinear_arith);
                assert(dy * dy * rx * rx == dy * dy * (rx * rx)) by (nonlinear_arith);
                assert(rx * rx * ry * ry == rx * rx * (ry * ry)) by (nonlinear_arith);
            }
            (dx * dx) * (ry * ry) + (dy * dy) * (rx * rx) <= (rx * rx) * (ry * ry)
        },
        Stroke::Block { center_x, center_y, radius, stroke } => {
            let (cx, cy, r, w) = (*center_x, *center_y, *radius, *stroke);
            let x = px as i32;
            let y = py as i32;
            if x < cx - r || x > cx + r || y < cy - r || y > cy + r {
                return false;
            }
            let dx = x - cx;
            let dy = y - cy;
            let inner = r - w;
            let half = w / 2;
            proof {
                assert(dx * dx <= r * r && dy * dy <= r * r && 0 <= dx * dx && 0 <= dy * dy) by (nonlinear_arith)
                    requires
                        -r <= dx <= r,
                        -r <= dy <= r,
                ;
                assert(r * r <= 1_000_000 && inner * inner <= 1_000_000 && half * half <= 1_000_000) by (nonlinear_arith)
                    requires
                        0 <= r <= 1000,
                        0 <= inner <= 1000,
                        0 <= half <= 1000,
                ;
                assert(-2000 <= dy - dx <= 2000);
                assert((dy - dx) * (dy - dx) <= 4_000_000) by (nonlinear_arith)
                    requires
                        -2000 <= dy - dx <= 2000,
                ;
                assert(0 <= 2 * half * half <= 2_000_000) by (nonlinear_arith)
                    requires
                        0 <= half <= 1000,
                ;
            }
            let distance = dx * dx + dy * dy;
            let diff = dy - dx;
            proof {
                assert(0 <= diff * diff <= 4_000_000) by (nonlinear_arith)
                    requires
                        -2000 <= diff <= 2000,
                ;
            }
            distance <= r * r && (distance >= inner * inner || diff * diff <= 2 * half * half)
        },
        Stroke::Text { label, x, y, scale } => {
            let (x, y, scale) = (*x, *y, *scale);
            if px < x || py < y {
                return false;
            }
            let cell = 6 * scale;
            let k = (px - x) / cell;
            let column = ((px - x) % cell) / scale;
            let row = (py - y) / scale;
            if (k as usize) < label.len() && column < 5 && row < 7 {
                let rows = glyph(label[k as usize]);
                rows[row as usize] & (1u8 << ((4 - column) as u8)) != 0
            } else {
                false
            }
        },
    }
}

/// Paints with `color` every pixel the stroke covers.
fn fill(canvas: &mut Canvas, stroke: &Stroke, color: u32)
    requires
        canvas_size(*old(canvas)) == (CARD_WIDTH, CARD_HEIGHT),
        canvas_pixels(*old(canvas)).len() == (CARD_WIDTH as int) * (CARD_HEIGHT as int),
        stroke_fits(*stroke),
    ensures
        canvas_size(*final(canvas)) == (CARD_WIDTH, CARD_HEIGHT),
        canvas_pixels(*final(canvas)) == Seq::new(
            (CARD_WIDTH as nat) * (CARD_HEIGHT as nat),
            |i: int|
                if covers(shape_of(*stroke), i % (CARD_WIDTH as int), i / (CARD_WIDTH as int)) {
                    color
                } else {
                    canvas_pixels(*old(canvas))[i]
                },
        ),
{
    let ghost before = canvas_pixels(*canvas);
    let ghost shape = shape_of(*stroke);
    let mut y: u32 = 0;
    while y < CARD_HEIGHT
        invariant
            y <= CARD_HEIGHT,
            shape == shape_of(*stroke),
            stroke_fits(*stroke),
            before.len() == 48600,
            canvas_size(*canvas) == (CARD_WIDTH, CARD_HEIGHT),
            canvas_pixels(*canvas).len() == 48600,
            forall|i: int|
                0 <= i < 48600 ==> #[trigger] canvas_pixels(*canvas)[i] == if i < y * 180 && covers(
                    shape,
                    i % 180,
                    i / 180,
                ) {
                    color
                } else {
                    before[i]
                },
        decreases CARD_HEIGHT - y,
    {
        let mut x: u32 = 0;
        while x < CARD_WIDTH
            invariant
                x <= CARD_WIDTH,
                y < CARD_HEIGHT,
                shape == shape_of(*stroke),
                stroke_fits(*stroke),
                before.len() == 48600,
                canvas_size(*canvas) == (CARD_WIDTH, CARD_HEIGHT),
                canvas_pixels(*canvas).len() == 48600,
                forall|i: int|
                    0 <= i < 48600 ==> #[trigger] canvas_pixels(*canvas)[i] == if i < y * 180 + x && covers(
                        shape,
                        i % 180,
                        i / 180,
                    ) {
                        color
                    } else {
                        before[i]
                    },
            decreases CARD_WIDTH - x,
        {
            let ghost at = (y as int) * 180 + (x as int);
            proof {
                assert(at % 180 == x && at / 180 == y);
            }
            if stroke_covers(stroke, x, y) {
                paint_pixel(canvas, x, y, color);
            }
            x += 1;
        }
        y += 1;
    }
    proof {
        assert(canvas_pixels(*canvas) =~= Seq::new(
            (CARD_WIDTH as nat) * (CARD_HEIGHT as nat),
            |i: int|
                if covers(shape, i % (CARD_WIDTH as int), i / (CARD_WIDTH as int)) {
                    color
                } else {
                    before[i]
                },
        ));
    }
}

// ===== cards =====

/// The palette color of a card color.
pub open spec fn color_value(color: Color) -> u32 {
    match color {
        Color::Red => RED,
        Color::Yellow => YELLOW,
        Color::Green => GREEN,
        Color::Blue => BLUE,
    }
}

pub fn color_rgba(color: Color) -> (value: u32)
    ensures
        value == color_value(color),
{
    match color {
        Color::Red => RED,
        Color::Yellow => YELLOW,
        Color::Green => GREEN,
        Color::Blue => BLUE,
    }
}

/// The short label drawn on a card of this rank (skip cards draw a symbol):
/// digits 0–9 as themselves, other numbers as `?`.
pub open spec fn rank_label_text(rank: Rank) -> Seq<char> {
    match rank {
        Rank::Number(n) => if n <= 9 {
            seq![('0' as u32 + n) as char]
        } else {
            seq!['?']
        },
        Rank::Skip => Seq::empty(),
        Rank::Reverse => seq!['R'],
        Rank::DrawTwo => seq!['+', '2'],
        Rank::DrawEight => seq!['+', '8'],
        Rank::Wild => seq!['W'],
        Rank::WildDrawFour => seq!['+', '4'],
        Rank::WildDrawSixteen => seq!['+', '1', '6'],
        Rank::WildDiscardThirtyTwo => seq!['-', '3', '2'],
        Rank::WildDiscardSixtyFour => seq!['-', '6', '4'],
        Rank::WildFactorial => seq!['x', '!'],
        Rank::WildSquareRoot => seq!['S', 'Q', 'R', 'T'],
    }
}

/// The label of a rank other than skip; see `rank_label_text`.
pub fn rank_label(rank: Rank) -> (label: &'static str)
    requires
        rank != Rank::Skip,
    ensures
        label@ == rank_label_text(rank),
{
    let label = match rank {
        Rank::Number(0) => "0",
        Rank::Number(1) => "1",
        Rank::Number(2) => "2",
        Rank::Number(3) => "3",
        Rank::Number(4) => "4",
        Rank::Number(5) => "5",
        Rank::Number(6) => "6",
        Rank::Number(7) => "7",
        Rank::Number(8) => "8",
        Rank::Number(9) => "9",
        Rank::Number(_) => "?",
        Rank::Skip => "",
        Rank::Reverse => "R",
        Rank::DrawTwo => "+2",
        Rank::DrawEight => "+8",
        Rank::Wild => "W",
        Rank::WildDrawFour => "+4",
        Rank::WildDrawSixteen => "+16",
        Rank::WildDiscardThirtyTwo => "-32",
        Rank::WildDiscardSixtyFour => "-64",
        Rank::WildFactorial => "x!",
        Rank::WildSquareRoot => "SQRT",
    };
    proof {
        reveal_strlit("0");
        reveal_strlit("1");
        reveal_strlit("2");
        reveal_strlit("3");
        reveal_strlit("4");
        reveal_strlit("5");
        reveal_strlit("6");
        reveal_strlit("7");
        reveal_strlit("8");
        reveal_strlit("9");
        reveal_strlit("?");
        reveal_strlit("R");
        reveal_strlit("+2");
        reveal_strlit("+8");
        reveal_strlit("W");
        reveal_strlit("+4");
        reveal_strlit("+16");
        reveal_strlit("-32");
        reveal_strlit("-64");
        reveal_strlit("x!");
        reveal_strlit("SQRT");
        assert(label@ =~= rank_label_text(rank));
    }
    label
}

/// The glyph scale of a label: 16 up to two characters, 10 for three, 7 for more.
pub open spec fn label_scale(len: int) -> int {
    if len >= 4 {
        7
    } else if len == 3 {
        10
    } else {
        16
    }
}

/// The width of a label of `len` characters: glyphs five dots wide with one
/// dot between them, each dot `scale` pixels.
pub open spec fn label_width(len: int, scale: int) -> int {
    len * 6 * scale - scale
}

/// `a - b`, or zero where `b` is larger.
pub open spec fn minus(a: int, b: int) -> int {
    if a >= b {
        a - b
    } else {
        0
    }
}

/// The width of `text` in dots at `scale`; see `label_width`.
fn text_width(text: &str, scale: u32) -> (width: u32)
    requires
        1 <= text@.len() <= 10,
        1 <= scale <= 100,
    ensures
        width as int == label_width(text@.len() as int, scale as int),
{
    let count = chars_of(text).len() as u32;
    proof {
        assert(count * 6 * scale <= 6000) by (nonlinear_arith)
            requires
                count <= 10,
                scale <= 100,
        ;
        assert(count * 6 * scale >= scale) by (nonlinear_arith)
            requires
                count >= 1,
                scale >= 1,
        ;
    }
    count * 6 * scale - scale
}

/// The layers of a card face, bottom first: a black rounded border, a white
/// inner border, the body in the card's color (black for wilds); four colored
/// quadrants and a black ellipse on wilds, a white ellipse otherwise; then the
/// skip symbol in the middle and two corners, or the rank label centered and in
/// two corners. Marks are white on wilds and black otherwise, corners white.
pub open spec fn card_layers(card: Card) -> Seq<(Shape, u32)> {
    let wild = card.is_wild();
    let body = match card.color {
        Some(c) => color_value(c),
        None => BLACK,
    };
    let ink = if wild {
        WHITE
    } else {
        BLACK
    };
    let frame = seq![
        (Shape::Rounded { x: 0, y: 0, width: 180, height: 270, radius: 18 }, BLACK),
        (Shape::Rounded { x: 6, y: 6, width: 168, height: 258, radius: 14 }, WHITE),
        (Shape::Rounded { x: 12, y: 12, width: 156, height: 246, radius: 11 }, body),
    ];
    let middle = if wild {
        seq![
            (Shape::Rounded { x: 12, y: 12, width: 78, height: 123, radius: 8 }, RED),
            (Shape::Rounded { x: 90, y: 12, width: 78, height: 123, radius: 8 }, YELLOW),
            (Shape::Rounded { x: 12, y: 135, width: 78, height: 123, radius: 8 }, GREEN),
            (Shape::Rounded { x: 90, y: 135, width: 78, height: 123, radius: 8 }, BLUE),
            (Shape::Ellipse { x: 34, y: 64, width: 112, height: 142 }, BLACK),
        ]
    } else {
        seq![(Shape::Ellipse { x: 34, y: 64, width: 112, height: 142 }, WHITE)]
    };
    let marks = if card.rank == Rank::Skip {
        seq![
            (Shape::Block { center_x: 90, center_y: 135, radius: 43, stroke: 8 }, ink),
            (Shape::Block { center_x: 36, center_y: 42, radius: 17, stroke: 4 }, WHITE),
            (Shape::Block { center_x: 144, center_y: 228, radius: 17, stroke: 4 }, WHITE),
        ]
    } else {
        let label = rank_label_text(card.rank);
        let n = label.len() as int;
        let scale = label_scale(n);
        seq![
            (
                Shape::Text {
                    label,
                    x: minus(180, label_width(n, scale)) / 2,
                    y: minus(135, 7 * scale / 2),
                    scale,
                },
                ink,
            ),
            (Shape::Text { label, x: 22, y: 24, scale: 5 }, WHITE),
            (Shape::Text { label, x: minus(180, 22 + label_width(n, 5)), y: 211, scale: 5 }, WHITE),
        ]
    };
    frame + middle + marks
}

/// The layers as drawn, with what each stroke draws.
pub open spec fn drawn_layers(strokes: Seq<(Stroke, u32)>) -> Seq<(Shape, u32)> {
    strokes.map_values(|layer: (Stroke, u32)| (shape_of(layer.0), layer.1))
}

fn push_layer(layers: &mut Vec<(Stroke, u32)>, stroke: Stroke, color: u32)
    requires
        stroke_fits(stroke),
        forall|i: int| 0 <= i < old(layers)@.len() ==> stroke_fits(#[trigger] old(layers)@[i].0),
    ensures
        final(layers)@ == old(layers)@.push((stroke, color)),
        forall|i: int| 0 <= i < final(layers)@.len() ==> stroke_fits(#[trigger] final(layers)@[i].0),
{
    layers.push((stroke, color));
}

fn label_stroke(label: &'static str, x: u32, y: u32, scale: u32) -> (stroke: Stroke)
    requires
        1 <= scale <= 100,
        x <= 1000,
        y <= 1000,
    ensures
        shape_of(stroke) == (Shape::Text { label: label@, x: x as int, y: y as int, scale: scale as int }),
        stroke_fits(stroke),
{
    Stroke::Text { label: chars_of(label), x, y, scale }
}

/// The strokes of a card face; see `card_layers`.
fn card_strokes(card: Card) -> (layers: Vec<(Stroke, u32)>)
    ensures
        drawn_layers(layers@) == card_layers(card),
        forall|i: int| 0 <= i < layers@.len() ==> stroke_fits(#[trigger] layers@[i].0),
{
    let wild = card.is_wild();
    let body = match card.color {
        Some(color) => color_rgba(color),
        None => BLACK,
    };
    let ink = if wild {
        WHITE
    } else {
        BLACK
    };
    let mut layers: Vec<(Stroke, u32)> = Vec::new();
    push_layer(&mut layers, Stroke::Rounded { x: 0, y: 0, width: CARD_WIDTH, height: CARD_HEIGHT, radius: 18 }, BLACK);
    push_layer(&mut layers, Stroke::Rounded { x: 6, y: 6, width: CARD_WIDTH - 12, height: CARD_HEIGHT - 12, radius: 14 }, WHITE);
    push_layer(&mut layers, Stroke::Rounded { x: 12, y: 12, width: CARD_WIDTH - 24, height: CARD_HEIGHT - 24, radius: 11 }, body);
    if wild {
        push_layer(&mut layers, Stroke::Rounded { x: 12, y: 12, width: 78, height: 123, radius: 8 }, RED);
        push_layer(&mut layers, Stroke::Rounded { x: 90, y: 12, width: 78, height: 123, radius: 8 }, YELLOW);
        push_layer(&mut layers, Stroke::Rounded { x: 12, y: 135, width: 78, height: 123, radius: 8 }, GREEN);
        push_layer(&mut layers, Stroke::Rounded { x: 90, y: 135, width: 78, height: 123, radius: 8 }, BLUE);
        push_layer(&mut layers, Stroke::Ellipse { x: 34, y: 64, width: 112, height: 142 }, BLACK);
    } else {
        push_layer(&mut layers, Stroke::Ellipse { x: 34, y: 64, width: 112, height: 142 }, WHITE);
    }
    if card.rank == Rank::Skip {
        push_layer(&mut layers, Stroke::Block { center_x: 90, center_y: 135, radius: 43, stroke: 8 }, ink);
        push_layer(&mut layers, Stroke::Block { center_x: 36, center_y: 42, radius: 17, stroke: 4 }, WHITE);
        push_layer(&mut layers, Stroke::Block { center_x: 144, center_y: 228, radius: 17, stroke: 4 }, WHITE);
    } else {
        let label = rank_label(card.rank);
        let ghost n = label@.len() as int;
        let count = chars_of(label).len();
        let scale: u32 = if count >= 4 {
            7
        } else if count == 3 {
            10
        } else {
            16
        };
        let width = text_width(label, scale);
        let x = if CARD_WIDTH >= width {
            (CARD_WIDTH - width) / 2
        } else {
            0
        };
        let half_height = 7 * scale / 2;
        let y = if 135 >= half_height {
            135 - half_height
        } else {
            0
        };
        push_layer(&mut layers, label_stroke(label, x, y, scale), ink);
        push_layer(&mut layers, label_stroke(label, 22, 24, 5), WHITE);
        let corner_width = text_width(label, 5);
        let corner_x = if CARD_WIDTH >= 22 + corner_width {
            CARD_WIDTH - (22 + corner_width)
        } else {
            0
        };
        push_layer(&mut layers, label_stroke(label, corner_x, CARD_HEIGHT - 59, 5), WHITE);
    }
    proof {
        assert(drawn_layers(layers@) =~= card_layers(card));
    }
    layers
}

/// Draws the fixed-size RGBA face of a card; its pixels are `card_layers`
/// painted bottom to top (see `picture`).
pub fn generate_card_art(card: Card) -> (art: Canvas)
    ensures
        canvas_size(art) == (CARD_WIDTH, CARD_HEIGHT),
        canvas_pixels(art) == picture(card_layers(card)),
{
    let layers = card_strokes(card);
    let mut canvas = blank_canvas(CARD_WIDTH, CARD_HEIGHT, TRANSPARENT);
    let ghost spec_layers = drawn_layers(layers@);
    proof {
        assert(canvas_pixels(canvas) =~= picture(spec_layers.take(0)));
    }
    let mut k: usize = 0;
    while k < layers.len()
        invariant
            k <= layers@.len(),
            spec_layers == drawn_layers(layers@),
            forall|i: int| 0 <= i < layers@.len() ==> stroke_fits(#[trigger] layers@[i].0),
            canvas_size(canvas) == (CARD_WIDTH, CARD_HEIGHT),
            canvas_pixels(canvas) == picture(spec_layers.take(k as int)),
        decreases layers@.len() - k,
    {
        let ghost before = canvas_pixels(canvas);
        fill(&mut canvas, &layers[k].0, layers[k].1);
        proof {
            let next = spec_layers.take(k + 1);
            assert(next.drop_last() =~= spec_layers.take(k as int));
            assert(next.last() == (shape_of(layers@[k as int].0), layers@[k as int].1));
            assert(canvas_pixels(canvas) =~= picture(next));
        }
        k += 1;
    }
    proof {
        assert(spec_layers.take(k as int) =~= spec_layers);
    }
    canvas
}

} // verus!
