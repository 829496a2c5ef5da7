use site_routes::decimal::i32_to_decimal;
use site_routes::decimal::parse_i32;

#[test]
fn decimal_of_small_values() {
    assert_eq!(i32_to_decimal(0), "0");
    assert_eq!(i32_to_decimal(7), "7");
    assert_eq!(i32_to_decimal(-1), "-1");
    assert_eq!(i32_to_decimal(10), "10");
    assert_eq!(i32_to_decimal(12345), "12345");
    assert_eq!(i32_to_decimal(-98060), "-98060");
}

#[test]
fn decimal_of_extremes() {
    assert_eq!(i32_to_decimal(i32::MAX), "2147483647");
    assert_eq!(i32_to_decimal(i32::MIN), "-2147483648");
}

#[test]
fn parse_plain_numbers() {
    assert_eq!(parse_i32("42"), Some(42));
    assert_eq!(parse_i32("0"), Some(0));
    assert_eq!(parse_i32("007"), Some(7));
    assert_eq!(parse_i32("-15"), Some(-15));
    assert_eq!(parse_i32("+15"), Some(15));
    assert_eq!(parse_i32("-0"), Some(0));
}

#[test]
fn parse_range_edges() {
    assert_eq!(parse_i32("2147483647"), Some(i32::MAX));
    assert_eq!(parse_i32("-2147483648"), Some(i32::MIN));
    assert_eq!(parse_i32("2147483648"), None);
    assert_eq!(parse_i32("-2147483649"), None);
    assert_eq!(parse_i32("100000000000000000000000"), None);
}

#[test]
fn parse_rejects_junk() {
    assert_eq!(parse_i32(""), None);
    assert_eq!(parse_i32("+"), None);
    assert_eq!(parse_i32("-"), None);
    assert_eq!(parse_i32("12a"), None);
    assert_eq!(parse_i32("a12"), None);
    assert_eq!(parse_i32(" 12"), None);
    assert_eq!(parse_i32("1 2"), None);
    assert_eq!(parse_i32("1.5"), None);
    assert_eq!(parse_i32("--4"), None);
    assert_eq!(parse_i32("+-4"), None);
}

#[test]
fn parse_agrees_with_std() {
    let samples = [
        "0", "-1", "12", "4096", "-4096", "2147483647", "-2147483648", "2147483648", "007", "+9",
        "", "x", "9e4",
    ];
    for s in samples {
        assert_eq!(parse_i32(s), s.parse::<i32>().ok(), "segment {:?}", s);
    }
}
