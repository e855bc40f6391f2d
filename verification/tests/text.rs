use filepressor::text::{decimal_string, parse_u64, to_chars};

#[test]
fn decimal_matches_to_string() {
    for n in [0u64, 1, 9, 10, 11, 99, 100, 12345, u64::MAX] {
        assert_eq!(decimal_string(n), n.to_string());
    }
}

#[test]
fn parse_u64_matches_std() {
    for t in ["0", "7", "+7", "+", "", "-1", "12a", "007", "18446744073709551615", "18446744073709551616", " 1", "99999999999999999999"] {
        assert_eq!(parse_u64(&to_chars(t)), t.parse::<u64>().ok(), "parse of {t:?}");
    }
}
