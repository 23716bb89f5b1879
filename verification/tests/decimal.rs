use secure_notes::decimal::{i32_to_text, parse_i32};

#[test]
fn numbers_are_written_without_leading_zeros() {
    assert_eq!(i32_to_text(0), "0");
    assert_eq!(i32_to_text(7), "7");
    assert_eq!(i32_to_text(10), "10");
    assert_eq!(i32_to_text(-1), "-1");
    assert_eq!(i32_to_text(1234567890), "1234567890");
    assert_eq!(i32_to_text(i32::MAX), "2147483647");
    assert_eq!(i32_to_text(i32::MIN), "-2147483648");
}

#[test]
fn written_numbers_are_what_std_writes() {
    for n in [0, 1, -1, 9, 10, 99, 100, -100, 65535, i32::MAX, i32::MIN, i32::MIN + 1] {
        assert_eq!(i32_to_text(n), n.to_string());
    }
}

#[test]
fn signs_and_leading_zeros_are_read() {
    assert_eq!(parse_i32("0"), Some(0));
    assert_eq!(parse_i32("42"), Some(42));
    assert_eq!(parse_i32("+42"), Some(42));
    assert_eq!(parse_i32("-42"), Some(-42));
    assert_eq!(parse_i32("-0"), Some(0));
    assert_eq!(parse_i32("007"), Some(7));
    assert_eq!(parse_i32("2147483647"), Some(i32::MAX));
    assert_eq!(parse_i32("-2147483648"), Some(i32::MIN));
    assert_eq!(parse_i32("0000000000000000000001"), Some(1));
}

#[test]
fn what_is_no_number_is_refused() {
    assert_eq!(parse_i32(""), None);
    assert_eq!(parse_i32("+"), None);
    assert_eq!(parse_i32("-"), None);
    assert_eq!(parse_i32("--1"), None);
    assert_eq!(parse_i32("+-1"), None);
    assert_eq!(parse_i32(" 1"), None);
    assert_eq!(parse_i32("1 "), None);
    assert_eq!(parse_i32("1.0"), None);
    assert_eq!(parse_i32("12a"), None);
    assert_eq!(parse_i32("a12"), None);
    assert_eq!(parse_i32("\u{663}"), None);
    assert_eq!(parse_i32("2147483648"), None);
    assert_eq!(parse_i32("-2147483649"), None);
    assert_eq!(parse_i32("99999999999999999999999999"), None);
    assert_eq!(parse_i32("-99999999999999999999999999"), None);
}

#[test]
fn reading_agrees_with_std() {
    for text in ["", "+", "-", "0", "-0", "+0", "12", "+12", "-12", "012", "1_000", "0x10", "2147483647", "2147483648", "-2147483648", "-2147483649", "٣", "1e3"] {
        assert_eq!(parse_i32(text), text.parse::<i32>().ok());
    }
}

#[test]
fn every_written_number_reads_back() {
    for n in [0, 1, -1, 12345, -12345, i32::MAX, i32::MIN] {
        assert_eq!(parse_i32(&i32_to_text(n)), Some(n));
    }
}
