use trading_bots::price::{parse_price, PRICE_SCALE};

#[test]
fn parses_exchange_quote_with_eight_decimals() {
    assert_eq!(parse_price("66400.12000000"), Some(6_640_012_000_000));
}

#[test]
fn parses_integer_and_partial_fraction_forms() {
    assert_eq!(parse_price("66400"), Some(66_400 * PRICE_SCALE));
    assert_eq!(parse_price("1.5"), Some(150_000_000));
    assert_eq!(parse_price("1."), Some(PRICE_SCALE));
    assert_eq!(parse_price(".25"), Some(25_000_000));
    assert_eq!(parse_price("0.00000001"), Some(1));
}

#[test]
fn drops_digits_beyond_the_eighth() {
    assert_eq!(parse_price("0.123456789"), Some(12_345_678));
}

#[test]
fn rejects_text_that_is_not_a_plain_decimal() {
    assert_eq!(parse_price(""), None);
    assert_eq!(parse_price("."), None);
    assert_eq!(parse_price("-1"), None);
    assert_eq!(parse_price("1e5"), None);
    assert_eq!(parse_price("1.2.3"), None);
    assert_eq!(parse_price("12a"), None);
    assert_eq!(parse_price("1.2x"), None);
    assert_eq!(parse_price("１"), None);
}

#[test]
fn rejects_values_beyond_u64() {
    // u64::MAX is 184467440737.09551615 in fixed-point units
    assert_eq!(parse_price("184467440737.09551615"), Some(u64::MAX));
    assert_eq!(parse_price("184467440737.09551616"), None);
    assert_eq!(parse_price("184467440738"), None);
    assert_eq!(parse_price("99999999999999999999999"), None);
}
