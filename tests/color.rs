use hex::color::{ColorError, Rgb};

#[test]
fn parse_hex_red() {
    assert_eq!(Rgb::parse("#ff0000"), Ok(Rgb::new(255, 0, 0)));
}

#[test]
fn parse_other_notations() {
    assert_eq!(Rgb::parse("rgb(0, 128, 255)"), Ok(Rgb::new(0, 128, 255)));
    assert_eq!(Rgb::parse("hsl(0, 100%, 50%)"), Ok(Rgb::new(255, 0, 0)));
    assert_eq!(Rgb::parse("#ABCDEF"), Ok(Rgb::new(0xab, 0xcd, 0xef)));
}

#[test]
fn parse_malformed_fails() {
    assert_eq!(Rgb::parse("notacolor"), Err(ColorError::Malformed));
    assert_eq!(Rgb::parse(""), Err(ColorError::Malformed));
}

#[test]
fn hex_text_is_lowercase_six_digits() {
    assert_eq!(Rgb::new(255, 0, 0).to_hex_string(), "#ff0000");
    assert_eq!(Rgb::new(0x0a, 0xbc, 0x01).to_hex_string(), "#0abc01");
    assert_eq!(Rgb::new(0, 0, 0).to_hex_string(), "#000000");
}

#[test]
fn hex_round_trip() {
    for c in [
        Rgb::new(0, 0, 0),
        Rgb::new(255, 255, 255),
        Rgb::new(18, 52, 86),
        Rgb::new(171, 205, 239),
    ] {
        assert_eq!(Rgb::parse(&c.to_hex_string()), Ok(c));
    }
}

#[test]
fn random_round_trips() {
    for _ in 0..20 {
        let c = Rgb::random();
        assert_eq!(Rgb::parse(&c.to_hex_string()), Ok(c));
    }
}

#[test]
fn lighten_and_darken_red() {
    let red = Rgb::new(255, 0, 0);
    assert_eq!(red.lighten(10), Rgb::new(255, 51, 51));
    assert_eq!(red.darken(10), Rgb::new(204, 0, 0));
    assert_eq!(red.lighten(0), red);
    assert_eq!(red.darken(0), red);
}

#[test]
fn lighten_then_darken_returns_near_original() {
    for c in [Rgb::new(255, 0, 0), Rgb::new(18, 52, 86), Rgb::new(100, 150, 200)] {
        let back = c.lighten(10).darken(10);
        for (a, b) in [(c.r, back.r), (c.g, back.g), (c.b, back.b)] {
            assert!((a as i32 - b as i32).abs() <= 2, "{:?} -> {:?}", c, back);
        }
    }
    assert_eq!(Rgb::new(255, 51, 51).darken(10), Rgb::new(255, 0, 0));
}

#[test]
fn repeated_lighten_reaches_white() {
    let mut c = Rgb::new(18, 52, 86);
    for _ in 0..20 {
        c = c.lighten(10);
    }
    assert_eq!(c, Rgb::new(255, 255, 255));
    assert_eq!(Rgb::new(255, 255, 255).lighten(10), Rgb::new(255, 255, 255));
}

#[test]
fn repeated_darken_reaches_black() {
    let mut c = Rgb::new(200, 180, 20);
    for _ in 0..20 {
        c = c.darken(10);
    }
    assert_eq!(c, Rgb::new(0, 0, 0));
    assert_eq!(Rgb::new(0, 0, 0).darken(10), Rgb::new(0, 0, 0));
}

#[test]
fn full_amount_saturates() {
    let c = Rgb::new(18, 52, 86);
    assert_eq!(c.lighten(100), Rgb::new(255, 255, 255));
    assert_eq!(c.darken(100), Rgb::new(0, 0, 0));
}

#[test]
fn black_lightens_to_gray() {
    assert_eq!(Rgb::new(0, 0, 0).lighten(50), Rgb::new(128, 128, 128));
}

#[test]
fn rgb8_tuple() {
    assert_eq!(Rgb::new(1, 2, 3).to_rgb8_tuple(), (1, 2, 3));
}

#[test]
fn from_parsed_drops_alpha() {
    assert_eq!(Rgb::from_parsed(Some((1, 2, 3, 4))), Ok(Rgb::new(1, 2, 3)));
    assert_eq!(Rgb::from_parsed(None), Err(ColorError::Malformed));
}
