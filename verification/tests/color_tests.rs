use wgpu_canvas::color::{Color, ColorError};

#[test]
fn from_hex_parses_plain_code() {
    assert_eq!(Color::from_hex("FF006E", 255), Ok(Color(255, 0, 110, 255)));
}

#[test]
fn from_hex_strips_leading_hash() {
    assert_eq!(Color::from_hex("#FF006E", 128), Ok(Color(255, 0, 110, 128)));
}

#[test]
fn from_hex_accepts_lowercase() {
    assert_eq!(Color::from_hex("ff006e", 7), Ok(Color(255, 0, 110, 7)));
}

#[test]
fn from_hex_rejects_short_code() {
    assert_eq!(Color::from_hex("FFFF", 255), Err(ColorError::NotSixHexDigits));
}

#[test]
fn from_hex_rejects_bad_digit() {
    assert_eq!(Color::from_hex("GGGGGG", 255), Err(ColorError::NotSixHexDigits));
}

#[test]
fn from_hex_rejects_eight_digits() {
    assert_eq!(Color::from_hex("FF006E00", 255), Err(ColorError::NotSixHexDigits));
}

#[test]
fn hex_renders_uppercase_and_round_trips() {
    let c = Color::from_hex("#ff006e", 255).unwrap();
    let s = c.hex();
    assert_eq!(s, "FF006E".to_string());
    assert_eq!(Color::from_hex(&s, 255), Ok(c));
}

#[test]
fn opacity_returns_alpha() {
    assert_eq!(Color(1, 2, 3, 77).opacity(), 77);
}

#[test]
fn darken_scales_and_saturates() {
    // factor 128/256 halves each channel, then pushes it from the average
    let c = Color::darken(Color(200, 100, 0, 9), 128);
    // avg 100: 100 + (100-100)/5 = 100; 50 + (50-100)/5 = 40; 0 - 20 -> 0
    assert_eq!(c, Color(100, 40, 0, 9));
    // a factor above one saturates at the channel bound
    assert_eq!(Color::darken(Color(255, 255, 255, 1), 512).0, 255);
}

#[test]
fn high_contrast_boundary() {
    // luma scale 1000: 128 * 1000 == 128000 is not strictly above the threshold
    assert!(!Color::is_high_contrast(Color(128, 128, 128, 255)));
    assert!(Color::is_high_contrast(Color(129, 129, 129, 255)));
    assert!(Color::is_high_contrast(Color(255, 255, 255, 255)));
    assert!(!Color::is_high_contrast(Color(0, 0, 0, 255)));
}
