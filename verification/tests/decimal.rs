use pack_match::decimal::parse_i64;

#[test]
fn parse_i64_reads_plain_numbers() {
    assert_eq!(parse_i64("0"), Some(0));
    assert_eq!(parse_i64("7"), Some(7));
    assert_eq!(parse_i64("1234567890"), Some(1234567890));
    assert_eq!(parse_i64("007"), Some(7));
}

#[test]
fn parse_i64_reads_signs() {
    assert_eq!(parse_i64("-5"), Some(-5));
    assert_eq!(parse_i64("+5"), Some(5));
    assert_eq!(parse_i64("-0"), Some(0));
    assert_eq!(parse_i64("+0"), Some(0));
}

#[test]
fn parse_i64_reads_the_limits() {
    assert_eq!(parse_i64("9223372036854775807"), Some(i64::MAX));
    assert_eq!(parse_i64("-9223372036854775808"), Some(i64::MIN));
    assert_eq!(parse_i64("9223372036854775808"), None);
    assert_eq!(parse_i64("-9223372036854775809"), None);
    assert_eq!(parse_i64("99999999999999999999999999999999999999999999"), None);
    assert_eq!(parse_i64("000000000000000000000000000000000000000000042"), Some(42));
}

#[test]
fn parse_i64_rejects_what_is_not_a_number() {
    assert_eq!(parse_i64(""), None);
    assert_eq!(parse_i64("-"), None);
    assert_eq!(parse_i64("+"), None);
    assert_eq!(parse_i64("--1"), None);
    assert_eq!(parse_i64("+-1"), None);
    assert_eq!(parse_i64("1-"), None);
    assert_eq!(parse_i64("12a"), None);
    assert_eq!(parse_i64(" 12"), None);
    assert_eq!(parse_i64("12 "), None);
    assert_eq!(parse_i64("1_000"), None);
    assert_eq!(parse_i64("1.0"), None);
    assert_eq!(parse_i64("٣"), None);
    assert_eq!(parse_i64("1é"), None);
}

#[test]
fn parse_i64_agrees_with_the_standard_parser() {
    let samples = [
        "0", "-0", "+7", "42", "-42", "0042", "", "-", "+", "4 2", "9223372036854775807",
        "9223372036854775808", "-9223372036854775808", "-9223372036854775809", "x", "1x", "+x",
        "18446744073709551616", "١٢٣",
    ];
    for text in samples {
        assert_eq!(parse_i64(text), text.parse::<i64>().ok());
    }
}
