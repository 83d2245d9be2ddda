use conway_piston::colors;
use conway_piston::hex::{fits, validate_hex};

#[test]
fn test_hex_validation() {
    assert!(validate_hex("#FFFFFF").is_some());
    assert!(validate_hex("ljk").is_none());
    assert!(validate_hex("j00FFFF").is_none())
}

#[test]
fn valid_color_is_handed_back() {
    assert_eq!(Some("#00ff7A"), validate_hex("#00ff7A"));
    assert_eq!(Some("#zzzzzz"), validate_hex("#zzzzzz"));
}

#[test]
fn color_needs_seven_bytes() {
    assert_eq!(None, validate_hex(""));
    assert_eq!(None, validate_hex("#"));
    assert_eq!(None, validate_hex("#FFFFF"));
    assert_eq!(None, validate_hex("#FFFFFFF"));
}

#[test]
fn color_needs_alphanumeric_characters_after_the_sign() {
    assert_eq!(None, validate_hex("#FFF FF"));
    assert_eq!(None, validate_hex("#FFFFF!"));
    assert_eq!(None, validate_hex("#-12345"));
    assert_eq!(None, validate_hex("##12345"));
    assert_eq!(None, validate_hex("#12345#"));
}

#[test]
fn color_is_measured_in_bytes() {
    assert_eq!(Some("#\u{e9}abcd"), validate_hex("#\u{e9}abcd"));
    assert_eq!(Some("#\u{4e2d}\u{6587}"), validate_hex("#\u{4e2d}\u{6587}"));
    assert_eq!(None, validate_hex("#\u{e9}abcde"));
    assert_eq!(None, validate_hex("#\u{2603}abc"));
    assert_eq!(None, validate_hex("\u{e9}#abcd"));
}

#[test]
fn fits_asks_for_the_sign_first_and_alphanumerics_after() {
    assert!(fits(0, '#', false));
    assert!(!fits(0, 'a', true));
    assert!(fits(1, 'a', true));
    assert!(fits(6, '#', true));
    assert!(!fits(1, '#', false));
    assert!(!fits(3, '!', false));
}

#[test]
fn colors_answers_yes_or_no() {
    assert!(colors::validate_hex("#FFFFFF"));
    assert!(colors::validate_hex("#a1B2c3"));
    assert!(!colors::validate_hex("ljk"));
    assert!(!colors::validate_hex("j00FFFF"));
    assert!(!colors::validate_hex("#FFFFF_"));
}
