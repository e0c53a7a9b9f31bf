//! Colors, their text encoding and their inversion.

use vstd::prelude::*;
use vstd::string::*;

verus! {

/// The colors that are known by name.
#[derive(Debug, Clone, Copy, PartialEq, Eq, PartialOrd, Ord, Structural)]
pub enum NamedColor {
    White,
    Black,
}

/// A color of one cell: opaque, with an alpha channel, or a named one.
#[derive(Clone, Copy, PartialEq, Eq, PartialOrd, Ord, Debug, Structural)]
pub enum Color {
    Rgb { r: u8, g: u8, b: u8 },
    Rgba { r: u8, g: u8, b: u8, a: u8 },
    Named(NamedColor),
}

/// The sixteen upper-case hexadecimal digits, by value.
pub open spec fn hex_digits() -> Seq<char> {
    seq![
        '0', '1', '2', '3', '4', '5', '6', '7', '8', '9', 'A', 'B', 'C', 'D', 'E', 'F',
    ]
}

/// The two hexadecimal digits of a byte, the high one first.
pub open spec fn hex_byte(b: u8) -> Seq<char> {
    seq![hex_digits()[b as int / 16], hex_digits()[b as int % 16]]
}

/// The value of an upper-case hexadecimal digit; `-1` for any other character.
pub open spec fn hex_value(digit: char) -> int {
    match digit {
        '0' => 0,
        '1' => 1,
        '2' => 2,
        '3' => 3,
        '4' => 4,
        '5' => 5,
        '6' => 6,
        '7' => 7,
        '8' => 8,
        '9' => 9,
        'A' => 10,
        'B' => 11,
        'C' => 12,
        'D' => 13,
        'E' => 14,
        'F' => 15,
        _ => -1,
    }
}

/// The byte that two hexadecimal digits stand for.
pub open spec fn byte_value(high: char, low: char) -> int {
    16 * hex_value(high) + hex_value(low)
}

impl NamedColor {
    /// The name in lower case.
    pub open spec fn name(self) -> Seq<char> {
        match self {
            NamedColor::White => seq!['w', 'h', 'i', 't', 'e'],
            NamedColor::Black => seq!['b', 'l', 'a', 'c', 'k'],
        }
    }

    /// The other one of the two named colors.
    pub open spec fn opposite(self) -> NamedColor {
        match self {
            NamedColor::White => NamedColor::Black,
            NamedColor::Black => NamedColor::White,
        }
    }
}

impl Color {
    /// The text that a paint surface takes for this color: `#RRGGBB`,
    /// `#RRGGBBAA`, or the lower-case name.
    pub open spec fn css(self) -> Seq<char> {
        match self {
            Color::Rgb { r, g, b } => seq!['#'] + hex_byte(r) + hex_byte(g) + hex_byte(b),
            Color::Rgba { r, g, b, a } => seq!['#'] + hex_byte(r) + hex_byte(g) + hex_byte(b)
                + hex_byte(a),
            Color::Named(named) => named.name(),
        }
    }

    /// The complement: every color channel mirrored in `0..=255`, the alpha
    /// channel kept, the two named colors swapped.
    pub open spec fn inverted(self) -> Color {
        match self {
            Color::Rgb { r, g, b } => Color::Rgb {
                r: (255 - r) as u8,
                g: (255 - g) as u8,
                b: (255 - b) as u8,
            },
            Color::Rgba { r, g, b, a } => Color::Rgba {
                r: (255 - r) as u8,
                g: (255 - g) as u8,
                b: (255 - b) as u8,
                a,
            },
            Color::Named(named) => Color::Named(named.opposite()),
        }
    }

    /// The place of a color in the total order by which paint calls are
    /// batched: opaque colors first, then those with alpha, then the named
    /// ones; within a kind by channels, red first.
    pub open spec fn rank(self) -> nat {
        match self {
            Color::Rgb { r, g, b } => (r * 0x100_0000 + g * 0x1_0000 + b * 0x100) as nat,
            Color::Rgba { r, g, b, a } => (0x1_0000_0000 + r * 0x100_0000 + g * 0x1_0000 + b
                * 0x100 + a) as nat,
            Color::Named(NamedColor::White) => 0x2_0000_0000,
            Color::Named(NamedColor::Black) => 0x2_0000_0001,
        }
    }

    /// Encodes the color as text.
    pub fn to_css_color(self) -> (text: String)
        ensures
            text@ == self.css(),
    {
        match self {
            Color::Rgb { r, g, b } => {
                let mut text = String::from_str("#");
                proof {
                    reveal_strlit("#");
                }
                push_hex_byte(&mut text, r);
                push_hex_byte(&mut text, g);
                push_hex_byte(&mut text, b);
                text
            },
            Color::Rgba { r, g, b, a } => {
                let mut text = String::from_str("#");
                proof {
                    reveal_strlit("#");
                }
                push_hex_byte(&mut text, r);
                push_hex_byte(&mut text, g);
                push_hex_byte(&mut text, b);
                push_hex_byte(&mut text, a);
                text
            },
            Color::Named(NamedColor::White) => {
                proof {
                    reveal_strlit("white");
                }
                String::from_str("white")
            },
            Color::Named(NamedColor::Black) => {
                proof {
                    reveal_strlit("black");
                }
                String::from_str("black")
            },
        }
    }

    /// Inverts the color.
    pub fn invert(self) -> (inverse: Color)
        ensures
            inverse == self.inverted(),
    {
        match self {
            Color::Rgb { r, g, b } => Color::Rgb { r: 255 - r, g: 255 - g, b: 255 - b },
            Color::Rgba { r, g, b, a } => Color::Rgba { r: 255 - r, g: 255 - g, b: 255 - b, a },
            Color::Named(NamedColor::White) => Color::Named(NamedColor::Black),
            Color::Named(NamedColor::Black) => Color::Named(NamedColor::White),
        }
    }

    /// Computes the rank of the color in the batching order.
    pub fn sort_key(self) -> (key: u64)
        ensures
            key == self.rank(),
    {
        match self {
            Color::Rgb { r, g, b } => {
                let r: u64 = r as u64;
                let g: u64 = g as u64;
                let b: u64 = b as u64;
                r * 0x100_0000 + g * 0x1_0000 + b * 0x100
            },
            Color::Rgba { r, g, b, a } => {
                let r: u64 = r as u64;
                let g: u64 = g as u64;
                let b: u64 = b as u64;
                let a: u64 = a as u64;
                0x1_0000_0000 + r * 0x100_0000 + g * 0x1_0000 + b * 0x100 + a
            },
            Color::Named(NamedColor::White) => 0x2_0000_0000,
            Color::Named(NamedColor::Black) => 0x2_0000_0001,
        }
    }
}

/// Appends the two hexadecimal digits of `byte` to `text`.
fn push_hex_byte(text: &mut String, byte: u8)
    ensures
        final(text)@ == old(text)@ + hex_byte(byte),
{
    let digits: &str = "0123456789ABCDEF";
    proof {
        reveal_strlit("0123456789ABCDEF");
        assert(digits@ =~= hex_digits());
    }
    let high: usize = (byte / 16) as usize;
    let low: usize = (byte % 16) as usize;
    text.append(digits.substring_ascii(high, high + 1));
    text.append(digits.substring_ascii(low, low + 1));
    proof {
        assert(text@ =~= old(text)@ + hex_byte(byte));
    }
}

/// The two digits of a byte are upper-case hexadecimal digits, and they
/// stand for the byte.
pub proof fn lemma_hex_byte_round_trip(byte: u8)
    ensures
        hex_byte(byte).len() == 2,
        0 <= hex_value(hex_byte(byte)[0]) < 16,
        0 <= hex_value(hex_byte(byte)[1]) < 16,
        byte_value(hex_byte(byte)[0], hex_byte(byte)[1]) == byte,
{
    let high = byte as int / 16;
    let low = byte as int % 16;
    lemma_hex_digit_value(high);
    lemma_hex_digit_value(low);
}

/// The digit of a value below sixteen has that value.
proof fn lemma_hex_digit_value(value: int)
    requires
        0 <= value < 16,
    ensures
        hex_value(hex_digits()[value]) == value,
{
    if value == 0 {
    } else if value == 1 {
    } else if value == 2 {
    } else if value == 3 {
    } else if value == 4 {
    } else if value == 5 {
    } else if value == 6 {
    } else if value == 7 {
    } else if value == 8 {
    } else if value == 9 {
    } else if value == 10 {
    } else if value == 11 {
    } else if value == 12 {
    } else if value == 13 {
    } else if value == 14 {
    } else {
    }
}

/// An opaque color is encoded in seven characters: `#`, then red, green
/// and blue, each as two upper-case hexadecimal digits, from which the
/// channels can be read back.
pub proof fn lemma_rgb_encoding_round_trip(r: u8, g: u8, b: u8)
    ensures
        ({
            let text = (Color::Rgb { r, g, b }).css();
            &&& text.len() == 7
            &&& text[0] == '#'
            &&& forall|i: int| 1 <= i < 7 ==> 0 <= hex_value(#[trigger] text[i]) < 16
            &&& byte_value(text[1], text[2]) == r
            &&& byte_value(text[3], text[4]) == g
            &&& byte_value(text[5], text[6]) == b
        }),
{
    lemma_hex_byte_round_trip(r);
    lemma_hex_byte_round_trip(g);
    lemma_hex_byte_round_trip(b);
}

/// A color with alpha is encoded as the opaque color of its three color
/// channels, followed by the two digits of the alpha channel.
pub proof fn lemma_rgba_encoding_round_trip(r: u8, g: u8, b: u8, a: u8)
    ensures
        ({
            let text = (Color::Rgba { r, g, b, a }).css();
            &&& text.len() == 9
            &&& text.take(7) == (Color::Rgb { r, g, b }).css()
            &&& text.skip(7) == hex_byte(a)
            &&& 0 <= hex_value(text[7]) < 16
            &&& 0 <= hex_value(text[8]) < 16
            &&& byte_value(text[7], text[8]) == a
        }),
{
    lemma_hex_byte_round_trip(a);
    let text = (Color::Rgba { r, g, b, a }).css();
    assert(text.take(7) =~= (Color::Rgb { r, g, b }).css());
    assert(text.skip(7) =~= hex_byte(a));
}

/// Two colors with the same text are the same color.
pub proof fn lemma_encoding_is_injective(first: Color, second: Color)
    requires
        first.css() == second.css(),
    ensures
        first == second,
{
    let text = first.css();
    match first {
        Color::Rgb { r, g, b } => {
            lemma_rgb_encoding_round_trip(r, g, b);
        },
        Color::Rgba { r, g, b, a } => {
            lemma_rgb_encoding_round_trip(r, g, b);
            lemma_rgba_encoding_round_trip(r, g, b, a);
            assert(text[1] == text.take(7)[1] && text[2] == text.take(7)[2]);
            assert(text[3] == text.take(7)[3] && text[4] == text.take(7)[4]);
            assert(text[5] == text.take(7)[5] && text[6] == text.take(7)[6]);
        },
        Color::Named(named) => {
            assert(text[0] == 'w' || text[0] == 'b');
        },
    }
    match second {
        Color::Rgb { r, g, b } => {
            lemma_rgb_encoding_round_trip(r, g, b);
        },
        Color::Rgba { r, g, b, a } => {
            lemma_rgb_encoding_round_trip(r, g, b);
            lemma_rgba_encoding_round_trip(r, g, b, a);
            assert(text[1] == text.take(7)[1] && text[2] == text.take(7)[2]);
            assert(text[3] == text.take(7)[3] && text[4] == text.take(7)[4]);
            assert(text[5] == text.take(7)[5] && text[6] == text.take(7)[6]);
        },
        Color::Named(named) => {
            assert(text[0] == 'w' || text[0] == 'b');
        },
    }
}

/// Inverting twice gives the color back, and inverting never touches
/// the alpha channel.
pub proof fn lemma_invert_is_involutive(color: Color)
    ensures
        color.inverted().inverted() == color,
        (color matches Color::Rgba { a, .. } ==> (color.inverted() matches Color::Rgba {
            a: kept,
            ..
        } && kept == a)),
{
}

/// Inverting swaps the two named colors, and nothing but a named color
/// becomes one.
pub proof fn lemma_invert_swaps_named(color: Color)
    ensures
        Color::Named(NamedColor::White).inverted() == Color::Named(NamedColor::Black),
        Color::Named(NamedColor::Black).inverted() == Color::Named(NamedColor::White),
        color.inverted() is Named <==> color is Named,
        color.inverted() is Rgb <==> color is Rgb,
        color.inverted() is Rgba <==> color is Rgba,
{
}

/// No two colors share a rank: the order by rank is total.
pub proof fn lemma_rank_is_injective(first: Color, second: Color)
    requires
        first.rank() == second.rank(),
    ensures
        first == second,
{
    lemma_rank_of_kind(first);
    lemma_rank_of_kind(second);
    match (first, second) {
        (Color::Rgb { r, g, b }, Color::Rgb { r: r2, g: g2, b: b2 }) => {
            lemma_channels_of_sum(r, g, b, 0, r2, g2, b2, 0);
        },
        (Color::Rgba { r, g, b, a }, Color::Rgba { r: r2, g: g2, b: b2, a: a2 }) => {
            lemma_channels_of_sum(r, g, b, a, r2, g2, b2, a2);
        },
        _ => {},
    }
}

/// The kinds of color lie apart in the order by rank.
proof fn lemma_rank_of_kind(color: Color)
    ensures
        color is Rgb ==> color.rank() < 0x1_0000_0000,
        color is Rgba ==> 0x1_0000_0000 <= color.rank() < 0x2_0000_0000,
        color is Named ==> 0x2_0000_0000 <= color.rank(),
{
}

/// Four bytes are determined by the number that they make up.
proof fn lemma_channels_of_sum(r: u8, g: u8, b: u8, a: u8, r2: u8, g2: u8, b2: u8, a2: u8)
    requires
        r * 0x100_0000 + g * 0x1_0000 + b * 0x100 + a == r2 * 0x100_0000 + g2 * 0x1_0000 + b2
            * 0x100 + a2,
    ensures
        r == r2,
        g == g2,
        b == b2,
        a == a2,
{
    let low = g * 0x1_0000 + b * 0x100 + a;
    let low2 = g2 * 0x1_0000 + b2 * 0x100 + a2;
    assert(0 <= low < 0x100_0000 && 0 <= low2 < 0x100_0000);
    if r < r2 {
        assert(r * 0x100_0000 + low < r2 * 0x100_0000);
    } else if r2 < r {
        assert(r2 * 0x100_0000 + low2 < r * 0x100_0000);
    }
    assert(r == r2);
    let lower = b * 0x100 + a;
    let lower2 = b2 * 0x100 + a2;
    assert(0 <= lower < 0x1_0000 && 0 <= lower2 < 0x1_0000);
    if g < g2 {
        assert(g * 0x1_0000 + lower < g2 * 0x1_0000);
    } else if g2 < g {
        assert(g2 * 0x1_0000 + lower2 < g * 0x1_0000);
    }
    assert(g == g2);
    if b < b2 {
        assert(b * 0x100 + a < b2 * 0x100);
    } else if b2 < b {
        assert(b2 * 0x100 + a2 < b * 0x100);
    }
}

} // verus!
