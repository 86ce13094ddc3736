use exercise_extractor::decimal::parse_i32;

#[test]
fn parses_plain_digits() {
    assert_eq!(parse_i32(b"105"), Some(105));
    assert_eq!(parse_i32(b"0"), Some(0));
    assert_eq!(parse_i32(b"7"), Some(7));
}

#[test]
fn parses_signs() {
    assert_eq!(parse_i32(b"-7"), Some(-7));
    assert_eq!(parse_i32(b"+7"), Some(7));
    assert_eq!(parse_i32(b"-0"), Some(0));
    assert_eq!(parse_i32(b"+0"), Some(0));
}

#[test]
fn parses_leading_zeros() {
    assert_eq!(parse_i32(b"007"), Some(7));
    assert_eq!(parse_i32(b"-00012"), Some(-12));
    assert_eq!(parse_i32(b"00000000000000000000000001"), Some(1));
}

#[test]
fn parses_the_ends_of_the_range() {
    assert_eq!(parse_i32(b"2147483647"), Some(i32::MAX));
    assert_eq!(parse_i32(b"-2147483648"), Some(i32::MIN));
    assert_eq!(parse_i32(b"+2147483647"), Some(i32::MAX));
}

#[test]
fn rejects_what_is_out_of_range() {
    assert_eq!(parse_i32(b"2147483648"), None);
    assert_eq!(parse_i32(b"-2147483649"), None);
    assert_eq!(parse_i32(b"99999999999999999999"), None);
    assert_eq!(parse_i32(b"-99999999999999999999"), None);
    assert_eq!(parse_i32(b"21474836470"), None);
}

#[test]
fn rejects_the_empty_text_and_a_lone_sign() {
    assert_eq!(parse_i32(b""), None);
    assert_eq!(parse_i32(b"+"), None);
    assert_eq!(parse_i32(b"-"), None);
}

#[test]
fn rejects_what_is_not_a_digit() {
    assert_eq!(parse_i32(b"12a"), None);
    assert_eq!(parse_i32(b"a12"), None);
    assert_eq!(parse_i32(b" 12"), None);
    assert_eq!(parse_i32(b"12 "), None);
    assert_eq!(parse_i32(b"1_000"), None);
    assert_eq!(parse_i32(b"--1"), None);
    assert_eq!(parse_i32(b"+-1"), None);
    assert_eq!(parse_i32(b"1-"), None);
    assert_eq!(parse_i32(b"1.5"), None);
    assert_eq!(parse_i32(b"0x10"), None);
    assert_eq!(parse_i32("\u{661}\u{662}".as_bytes()), None);
}

#[test]
fn agrees_with_the_standard_parser() {
    let samples: [&str; 16] = [
        "0", "1", "-1", "+1", "42", "-42", "2147483647", "2147483648", "-2147483648",
        "-2147483649", "", "+", "-", "12x", "0012", "9999999999",
    ];
    for text in samples {
        assert_eq!(parse_i32(text.as_bytes()), text.parse::<i32>().ok());
    }
}
