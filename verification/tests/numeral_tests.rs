use miniparse::numeral::parse_integer;

#[test]
fn plain_numerals() {
    assert_eq!(parse_integer("0"), Some(0));
    assert_eq!(parse_integer("7"), Some(7));
    assert_eq!(parse_integer("42"), Some(42));
    assert_eq!(parse_integer("100"), Some(100));
    assert_eq!(parse_integer("1234567890"), Some(1234567890));
}

#[test]
fn leading_zeros_do_not_count() {
    assert_eq!(parse_integer("007"), Some(7));
    assert_eq!(parse_integer("0000000000000000000001"), Some(1));
    assert_eq!(parse_integer("-000"), Some(0));
}

#[test]
fn signed_numerals() {
    assert_eq!(parse_integer("+5"), Some(5));
    assert_eq!(parse_integer("-5"), Some(-5));
    assert_eq!(parse_integer("-0"), Some(0));
}

#[test]
fn limits_of_the_type() {
    assert_eq!(parse_integer("2147483647"), Some(i32::MAX));
    assert_eq!(parse_integer("+2147483647"), Some(i32::MAX));
    assert_eq!(parse_integer("2147483648"), None);
    assert_eq!(parse_integer("-2147483648"), Some(i32::MIN));
    assert_eq!(parse_integer("-2147483649"), None);
    assert_eq!(parse_integer("21474836470"), None);
    assert_eq!(parse_integer("99999999999999999999999999"), None);
    assert_eq!(parse_integer("-99999999999999999999999999"), None);
}

#[test]
fn texts_that_are_no_numerals() {
    assert_eq!(parse_integer(""), None);
    assert_eq!(parse_integer("+"), None);
    assert_eq!(parse_integer("-"), None);
    assert_eq!(parse_integer("--1"), None);
    assert_eq!(parse_integer("+-1"), None);
    assert_eq!(parse_integer("1a"), None);
    assert_eq!(parse_integer("a1"), None);
    assert_eq!(parse_integer(" 1"), None);
    assert_eq!(parse_integer("1 "), None);
    assert_eq!(parse_integer("1_000"), None);
    assert_eq!(parse_integer("1.5"), None);
    assert_eq!(parse_integer("\u{663}"), None);
    assert_eq!(parse_integer("99999999999999999999999999x"), None);
}

#[test]
fn agrees_with_the_standard_reading() {
    for text in ["0", "12", "-12", "+12", "", "-", "2147483647", "2147483648", "-2147483648", "x"] {
        assert_eq!(parse_integer(text), text.parse::<i32>().ok());
    }
}
