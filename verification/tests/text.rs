use copymet::text::{eq_ignore_ascii_case, i64_to_decimal, parse_bool, parse_decimal_micros, parse_u64, str_equal};

#[test]
fn decimal_forms() {
    assert_eq!(parse_decimal_micros("0.55"), Some(550_000));
    assert_eq!(parse_decimal_micros("12"), Some(12_000_000));
    assert_eq!(parse_decimal_micros("+3."), Some(3_000_000));
    assert_eq!(parse_decimal_micros(".5"), Some(500_000));
    assert_eq!(parse_decimal_micros("007.000001"), Some(7_000_001));
}

#[test]
fn decimal_extra_fraction_digits_dropped() {
    assert_eq!(parse_decimal_micros("1.2345678"), Some(1_234_567));
}

#[test]
fn decimal_rejects_other_text() {
    for s in ["", ".", "+", "abc", "1.2.3", "-1", " 1", "1,5", "e3", "1e", "1e+", ".e1", "1e1.5", "1ee2", "1e3x", "-1e3", "+-1", "1e--2"] {
        assert_eq!(parse_decimal_micros(s), None, "{}", s);
    }
}

#[test]
fn decimal_exponent_forms() {
    assert_eq!(parse_decimal_micros("1e3"), Some(1_000_000_000));
    assert_eq!(parse_decimal_micros("2.5E-1"), Some(250_000));
    assert_eq!(parse_decimal_micros("1e-6"), Some(1));
    assert_eq!(parse_decimal_micros("1e-7"), Some(0));
    assert_eq!(parse_decimal_micros("+.5e1"), Some(5_000_000));
    assert_eq!(parse_decimal_micros("5.e+2"), Some(500_000_000));
    assert_eq!(parse_decimal_micros("1.2345678e2"), Some(123_456_780));
    assert_eq!(parse_decimal_micros("00001e-4"), Some(100));
    assert_eq!(parse_decimal_micros("0e999999999999999999999999"), Some(0));
    assert_eq!(parse_decimal_micros("1e999999999999999999999999"), None);
    assert_eq!(parse_decimal_micros("1e-99999999999999999999999999999"), Some(0));
    assert_eq!(parse_decimal_micros("1.8446744073709551615e13"), Some(u64::MAX));
    assert_eq!(parse_decimal_micros("1.8446744073709551616e13"), None);
    assert_eq!(parse_decimal_micros("18446744073709.551615e0"), Some(u64::MAX));
    assert_eq!(parse_decimal_micros("1e14"), None);
    assert_eq!(parse_decimal_micros("1e13"), Some(10_000_000_000_000_000_000));
}

#[test]
fn decimal_negative_below_one_micro_is_zero() {
    for s in ["-0", "-0.0", "-.0", "-0e5", "-0.0000001", "-1e-7", "-0.0000009"] {
        assert_eq!(parse_decimal_micros(s), Some(0), "{}", s);
    }
    for s in ["-0.000001", "-1", "-1e3", "-", "--0", "-+0", "-e1"] {
        assert_eq!(parse_decimal_micros(s), None, "{}", s);
    }
}

#[test]
fn decimal_range_limit() {
    assert_eq!(parse_decimal_micros("18446744073709.551615"), Some(u64::MAX));
    assert_eq!(parse_decimal_micros("18446744073709.551616"), None);
    assert_eq!(parse_decimal_micros("99999999999999999999999"), None);
}

#[test]
fn u64_forms() {
    assert_eq!(parse_u64("500"), Some(500));
    assert_eq!(parse_u64("+7"), Some(7));
    assert_eq!(parse_u64("18446744073709551615"), Some(u64::MAX));
    assert_eq!(parse_u64("18446744073709551616"), None);
    assert_eq!(parse_u64(""), None);
    assert_eq!(parse_u64("+"), None);
    assert_eq!(parse_u64("1a"), None);
    assert_eq!(parse_u64("-1"), None);
}

#[test]
fn u64_agrees_with_std() {
    for s in ["0", "42", "+42", "0042", "", "x", "18446744073709551615", "18446744073709551616", "1 "] {
        assert_eq!(parse_u64(s), s.parse::<u64>().ok(), "{}", s);
    }
}

#[test]
fn bool_forms() {
    assert_eq!(parse_bool("true"), Some(true));
    assert_eq!(parse_bool("false"), Some(false));
    assert_eq!(parse_bool("True"), None);
    assert_eq!(parse_bool(""), None);
}

#[test]
fn decimal_text_of_integers() {
    for v in [0i64, 7, -5, 1_700_000_000, i64::MAX, i64::MIN] {
        assert_eq!(i64_to_decimal(v), v.to_string());
    }
}

#[test]
fn ascii_case_insensitive_equality() {
    assert!(eq_ignore_ascii_case("sell", "SELL"));
    assert!(eq_ignore_ascii_case("SeLl", "sElL"));
    assert!(!eq_ignore_ascii_case("SELLS", "SELL"));
    assert!(!eq_ignore_ascii_case("BUY", "SELL"));
    assert!(eq_ignore_ascii_case("", ""));
}

#[test]
fn string_equality() {
    assert!(str_equal("abc", "abc"));
    assert!(!str_equal("abc", "abd"));
    assert!(!str_equal("ab", "abc"));
}
