use recipe_scaler::text::format_amount;
use recipe_scaler::text::parse_amount;

#[test]
fn parse_whole_number() {
    assert_eq!(parse_amount("200"), Some(2_000_000));
    assert_eq!(parse_amount("0"), Some(0));
    assert_eq!(parse_amount("007"), Some(70_000));
}

#[test]
fn parse_fractional_number() {
    assert_eq!(parse_amount("2.5"), Some(25_000));
    assert_eq!(parse_amount("0.0001"), Some(1));
    assert_eq!(parse_amount("12.3456"), Some(123_456));
}

#[test]
fn parse_rejects_bad_text() {
    assert_eq!(parse_amount(""), None);
    assert_eq!(parse_amount("abc"), None);
    assert_eq!(parse_amount("-1"), None);
    assert_eq!(parse_amount(".5"), None);
    assert_eq!(parse_amount("2."), None);
    assert_eq!(parse_amount("2.50000"), None);
    assert_eq!(parse_amount("1.2.3"), None);
    assert_eq!(parse_amount("1 2"), None);
}

#[test]
fn parse_rejects_too_large() {
    assert_eq!(parse_amount("100000000000"), None);
    assert_eq!(parse_amount("99999999999"), Some(999_999_999_990_000));
}

#[test]
fn format_whole_and_fraction() {
    assert_eq!(format_amount(2_000_000), "200");
    assert_eq!(format_amount(25_000), "2.5000");
    assert_eq!(format_amount(0), "0");
    assert_eq!(format_amount(1), "0.0001");
}

#[test]
fn format_then_parse_round_trip() {
    for u in [0u64, 1, 9_999, 10_000, 123_456, 999_999_999_990_000] {
        let text = format_amount(u as u128);
        assert_eq!(parse_amount(text.as_str()), Some(u));
    }
}
