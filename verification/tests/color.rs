use boba::color::Color;

#[test]
fn hex_of_six_and_eight_digits() {
    assert_eq!(Color::hex("F0F8FF"), Some(Color::new(0xF0, 0xF8, 0xFF, 255)));
    assert_eq!(Color::hex("8A2BE2"), Some(Color::new(138, 43, 226, 255)));
    assert_eq!(Color::hex("00000000"), Some(Color::new(0, 0, 0, 0)));
    assert_eq!(Color::hex("1E90FF80"), Some(Color::new(30, 144, 255, 128)));
    assert_eq!(Color::hex_panic("FFD700"), Color::new(255, 215, 0, 255));
}

#[test]
fn hex_of_three_and_four_digits_takes_each_digit_as_a_channel() {
    assert_eq!(Color::hex("0000"), Some(Color::new(0, 0, 0, 0)));
    assert_eq!(Color::hex("F0A"), Some(Color::new(15, 0, 10, 255)));
    assert_eq!(Color::hex("19FC"), Some(Color::new(1, 9, 15, 12)));
}

#[test]
fn hex_refuses_other_strings() {
    assert_eq!(Color::hex(""), None);
    assert_eq!(Color::hex("FF"), None);
    assert_eq!(Color::hex("FFFFF"), None);
    assert_eq!(Color::hex("FFFFFFF"), None);
    assert_eq!(Color::hex("FFFFFFFFF"), None);
    // small letters and signs are no digits
    assert_eq!(Color::hex("ffffff"), None);
    assert_eq!(Color::hex("#FFF"), None);
    assert_eq!(Color::hex("GGG"), None);
    assert_eq!(Color::hex("FFFFFG"), None);
    assert_eq!(Color::hex("FFFFFF0/"), None);
    assert_eq!(Color::hex("12:"), None);
    assert_eq!(Color::hex("@12"), None);
}
