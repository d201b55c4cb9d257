use toolbox::colors::{
    convert_color, find_mean_color, hex_to_rgb, hex_valid, mean_hex, rgb_to_hex,
    validate_hex_pair, NumberError,
};

#[test]
fn test_hex_to_rgb_3digit() {
    assert_eq!(hex_to_rgb("#efc"), Some("rgb(238, 255, 204)".to_string()));
}

#[test]
fn test_hex_to_rgb_6digit() {
    assert_eq!(hex_to_rgb("#564da9"), Some("rgb(86, 77, 169)".to_string()));
}

#[test]
fn test_rgb_to_hex() {
    assert_eq!(rgb_to_hex("rgb(123, 67, 254)"), Some("#7b43fe".to_string()));
}

#[test]
fn test_rgb_to_hex_spaces() {
    assert_eq!(rgb_to_hex("rgb(34, 231, 0)"), Some("#22e700".to_string()));
}

#[test]
fn hex_to_rgb_refuses_what_is_no_digit() {
    assert_eq!(hex_to_rgb("#xyz"), None);
    assert_eq!(hex_to_rgb("#12345g"), None);
}

#[test]
fn hex_to_rgb_reads_a_sign_before_one_digit() {
    assert_eq!(hex_to_rgb("#+f+0+a"), Some("rgb(15, 0, 10)".to_string()));
    assert_eq!(hex_to_rgb("#+++"), None);
}

#[test]
fn rgb_to_hex_refuses_numbers_above_255() {
    assert_eq!(rgb_to_hex("rgb(256, 0, 0)"), None);
    assert_eq!(rgb_to_hex("rgb(1, 2)"), None);
    assert_eq!(rgb_to_hex("rgb( 0 ,0,  7 )"), Some("#000007".to_string()));
}

#[test]
fn convert_color_goes_both_ways() {
    assert_eq!(convert_color("#efc"), Some("rgb(238, 255, 204)".to_string()));
    assert_eq!(convert_color("#564DA9"), Some("rgb(86, 77, 169)".to_string()));
    assert_eq!(convert_color("rgb(123, 67, 254)"), Some("#7b43fe".to_string()));
    assert_eq!(convert_color("#efcd"), None);
    assert_eq!(convert_color("blue"), None);
}

#[test]
fn mean_hex_rounds_down_and_drops_leading_zeros() {
    assert_eq!(mean_hex("10", "20"), Ok("18".to_string()));
    assert_eq!(mean_hex("00", "0b"), Ok("5".to_string()));
    assert_eq!(mean_hex("ff", "FF"), Ok("ff".to_string()));
}

#[test]
fn mean_hex_reports_each_failure() {
    assert_eq!(mean_hex("", "20"), Err(NumberError::Empty));
    assert_eq!(mean_hex("1g", "20"), Err(NumberError::InvalidDigit));
    assert_eq!(mean_hex("10", "+"), Err(NumberError::InvalidDigit));
    assert_eq!(mean_hex("10000", "1"), Err(NumberError::Overflow));
}

#[test]
fn mean_color_of_two_colors() {
    assert_eq!(find_mean_color("102030", "304050"), Ok("203040".to_string()));
    assert_eq!(find_mean_color("000000", "ffffff"), Ok("7f7f7f".to_string()));
    assert_eq!(find_mean_color("00zz00", "ffffff"), Err(NumberError::InvalidDigit));
    assert_eq!(find_mean_color("0000", "ffff"), Err(NumberError::Empty));
}

#[test]
fn hex_valid_accepts_six_digits() {
    assert_eq!(hex_valid("a1B2c3").ok(), Some("a1B2c3"));
}

#[test]
fn hex_valid_says_what_is_wrong() {
    let short = hex_valid("abc").unwrap_err();
    assert_eq!(short.message, "hex length needs to be 6");
    assert_eq!(short.hex, "abc");
    let bad = hex_valid("12x45y").unwrap_err();
    assert_eq!(bad.message, "Invalid hex digit 'x'");
    let wide = hex_valid("ééé").unwrap_err();
    assert_eq!(wide.message, "Invalid hex digit 'é'");
}

#[test]
fn hex_pair_reports_the_first_bad_one() {
    assert_eq!(validate_hex_pair("000000", "ffffff").ok(), Some(("000000", "ffffff")));
    assert_eq!(validate_hex_pair("00000", "fffff").unwrap_err().hex, "00000");
    assert_eq!(validate_hex_pair("000000", "fffffg").unwrap_err().message, "Invalid hex digit 'g'");
}
