use langton::{Color, NamedColor};

fn rgb(r: u8, g: u8, b: u8) -> Color {
    Color::Rgb { r, g, b }
}

fn rgba(r: u8, g: u8, b: u8, a: u8) -> Color {
    Color::Rgba { r, g, b, a }
}

#[test]
fn test_color_to_css_string() {
    assert_eq!(Color::Named(NamedColor::Black).to_css_color(), "black");
    assert_eq!(Color::Named(NamedColor::White).to_css_color(), "white");
    assert_eq!(rgb(255, 255, 255).to_css_color(), "#FFFFFF");
    assert_eq!(rgb(1, 2, 3).to_css_color(), "#010203");
    assert_eq!(rgb(0, 0, 0).to_css_color(), "#000000");
    assert_eq!(rgba(1, 2, 3, 4).to_css_color(), "#01020304");
}

#[test]
fn test_color_invert() {
    assert_eq!(rgb(0, 0, 0).invert(), rgb(255, 255, 255));
    assert_eq!(rgb(255, 255, 255).invert(), rgb(0, 0, 0));
    assert_eq!(rgb(10, 20, 30).invert(), rgb(245, 235, 225));
    assert_eq!(rgba(0, 0, 0, 100).invert(), rgba(255, 255, 255, 100));
    assert_eq!(rgba(255, 255, 255, 50).invert(), rgba(0, 0, 0, 50));
    assert_eq!(rgba(10, 20, 30, 0).invert(), rgba(245, 235, 225, 0));
    assert_eq!(
        Color::Named(NamedColor::White).invert(),
        Color::Named(NamedColor::Black)
    );
    assert_eq!(
        Color::Named(NamedColor::Black).invert(),
        Color::Named(NamedColor::White)
    );
}

#[test]
fn css_of_every_byte_is_two_upper_case_hex_digits() {
    for byte in 0..=255u8 {
        let text = rgb(byte, 0, 255 - byte).to_css_color();
        assert_eq!(text.len(), 7);
        assert!(text.starts_with('#'));
        assert!(text[1..]
            .chars()
            .all(|c| c.is_ascii_digit() || ('A'..='F').contains(&c)));
        assert_eq!(u8::from_str_radix(&text[1..3], 16), Ok(byte));
        assert_eq!(u8::from_str_radix(&text[3..5], 16), Ok(0));
        assert_eq!(u8::from_str_radix(&text[5..7], 16), Ok(255 - byte));
        assert_eq!(text, format!("#{:02X}{:02X}{:02X}", byte, 0, 255 - byte));
    }
}

#[test]
fn css_with_alpha_appends_two_digits() {
    for alpha in 0..=255u8 {
        let text = rgba(18, 171, 239, alpha).to_css_color();
        assert_eq!(text, format!("#12ABEF{:02X}", alpha));
    }
    assert_eq!(rgba(0, 0, 0, 250).to_css_color(), "#000000FA");
}

#[test]
fn invert_twice_gives_the_color_back() {
    for value in 0..=255u8 {
        let opaque = rgb(value, 255 - value, value / 2);
        assert_eq!(opaque.invert().invert(), opaque);
        let clear = rgba(value, value / 3, 255 - value, value);
        assert_eq!(clear.invert().invert(), clear);
        assert_eq!(clear.invert(), rgba(255 - value, 255 - value / 3, value, value));
    }
    for named in [NamedColor::White, NamedColor::Black] {
        assert_eq!(Color::Named(named).invert().invert(), Color::Named(named));
    }
}

#[test]
fn invert_keeps_the_kind_of_color() {
    assert!(matches!(rgb(1, 2, 3).invert(), Color::Rgb { .. }));
    assert!(matches!(rgba(1, 2, 3, 4).invert(), Color::Rgba { a: 4, .. }));
    assert!(matches!(
        Color::Named(NamedColor::White).invert(),
        Color::Named(NamedColor::Black)
    ));
}

#[test]
fn sort_key_has_exact_values() {
    assert_eq!(rgb(0, 0, 0).sort_key(), 0);
    assert_eq!(rgb(1, 2, 3).sort_key(), 0x0102_0300);
    assert_eq!(rgb(255, 255, 255).sort_key(), 0xFFFF_FF00);
    assert_eq!(rgba(0, 0, 0, 0).sort_key(), 0x1_0000_0000);
    assert_eq!(rgba(1, 2, 3, 4).sort_key(), 0x1_0102_0304);
    assert_eq!(Color::Named(NamedColor::White).sort_key(), 0x2_0000_0000);
    assert_eq!(Color::Named(NamedColor::Black).sort_key(), 0x2_0000_0001);
}

#[test]
fn sort_key_orders_as_the_colors_do() {
    let samples = [
        rgb(0, 0, 0),
        rgb(0, 0, 1),
        rgb(0, 1, 0),
        rgb(1, 0, 0),
        rgb(255, 255, 255),
        rgba(0, 0, 0, 0),
        rgba(0, 0, 0, 255),
        rgba(0, 0, 1, 0),
        rgba(9, 200, 7, 31),
        rgba(255, 255, 255, 255),
        Color::Named(NamedColor::White),
        Color::Named(NamedColor::Black),
    ];
    for first in samples {
        for second in samples {
            assert_eq!(
                first.sort_key().cmp(&second.sort_key()),
                first.cmp(&second),
                "{first:?} against {second:?}"
            );
        }
    }
}
