use quicksilver::graphics::color::{hex_to_rgb, HexError};

#[test]
fn hex_six_digits() {
    assert_eq!(hex_to_rgb("#FF0000"), Ok([255, 0, 0]));
    assert_eq!(hex_to_rgb("00FF00"), Ok([0, 255, 0]));
    assert_eq!(hex_to_rgb("1a2B3c"), Ok([0x1a, 0x2b, 0x3c]));
}

#[test]
fn hex_three_digits() {
    assert_eq!(hex_to_rgb("00f"), Ok([0, 0, 255]));
    assert_eq!(hex_to_rgb("#fff"), Ok([255, 255, 255]));
    assert_eq!(hex_to_rgb("#a1c"), Ok([0xaa, 0x11, 0xcc]));
}

#[test]
fn hex_leading_hashes_are_all_trimmed() {
    assert_eq!(hex_to_rgb("###123456"), Ok([0x12, 0x34, 0x56]));
}

#[test]
fn hex_wrong_length() {
    assert_eq!(hex_to_rgb("FF"), Err(HexError::Malformed));
    assert_eq!(hex_to_rgb("FF00FF00"), Err(HexError::Malformed));
    assert_eq!(hex_to_rgb(""), Err(HexError::Malformed));
    assert_eq!(hex_to_rgb("#"), Err(HexError::Malformed));
}

#[test]
fn hex_invalid_digits() {
    assert_eq!(hex_to_rgb("GG0000"), Err(HexError::InvalidDigit));
    assert_eq!(hex_to_rgb("#xyz"), Err(HexError::InvalidDigit));
    assert_eq!(hex_to_rgb("00-100"), Err(HexError::InvalidDigit));
}

#[test]
fn hex_plus_sign_pair() {
    // a component written `+f` reads as a signed number, as `from_str_radix` does
    assert_eq!(hex_to_rgb("+f0000"), Ok([15, 0, 0]));
    assert_eq!(hex_to_rgb("++0000"), Err(HexError::InvalidDigit));
}

#[test]
fn hex_multibyte_text_is_invalid() {
    assert_eq!(hex_to_rgb("\u{20ac}"), Err(HexError::InvalidDigit));
    assert_eq!(hex_to_rgb("\u{e9}1a2b"), Err(HexError::InvalidDigit));
}
