use sysrag::numfmt::{format_score, i64_to_dec, parse_i64_range, parse_u64_range, u64_to_dec};

#[test]
fn unsigned_decimal_formatting() {
    assert_eq!(u64_to_dec(0), "0");
    assert_eq!(u64_to_dec(7), "7");
    assert_eq!(u64_to_dec(1700000000), "1700000000");
    assert_eq!(u64_to_dec(u64::MAX), "18446744073709551615");
}

#[test]
fn signed_decimal_formatting() {
    assert_eq!(i64_to_dec(0), "0");
    assert_eq!(i64_to_dec(-42), "-42");
    assert_eq!(i64_to_dec(i64::MIN), "-9223372036854775808");
}

#[test]
fn unsigned_decimal_parsing() {
    assert_eq!(parse_u64_range("1337", 0, 4), Some(1337));
    assert_eq!(parse_u64_range("x1337y", 1, 5), Some(1337));
    assert_eq!(parse_u64_range("", 0, 0), None);
    assert_eq!(parse_u64_range("12a4", 0, 4), None);
    assert_eq!(parse_u64_range("18446744073709551615", 0, 20), Some(u64::MAX));
    assert_eq!(parse_u64_range("18446744073709551616", 0, 20), None);
}

#[test]
fn signed_decimal_parsing() {
    assert_eq!(parse_i64_range("-42", 0, 3), Some(-42));
    assert_eq!(parse_i64_range("42", 0, 2), Some(42));
    assert_eq!(parse_i64_range("-", 0, 1), None);
    assert_eq!(parse_i64_range("-9223372036854775808", 0, 20), Some(i64::MIN));
    assert_eq!(parse_i64_range("-9223372036854775809", 0, 20), None);
    assert_eq!(parse_i64_range("9223372036854775808", 0, 19), None);
}

#[test]
fn scores_print_with_two_decimals() {
    assert_eq!(format_score(0), "0.00");
    assert_eq!(format_score(120_000), "0.12");
    assert_eq!(format_score(1_000_000), "1.00");
    assert_eq!(format_score(-50_000), "-0.05");
    assert_eq!(format_score(999_999), "0.99");
    assert_eq!(format_score(-1_000_000), "-1.00");
}
