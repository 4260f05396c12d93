//! Pattern matching and numeric parsing.

use xctl::rules::matches_pattern;
use xctl::strutil::{parse_decimal_milli, parse_u32, str_contains, str_eq, u32_to_string, u64_to_string};

#[test]
fn test_matches_pattern() {
    assert!(matches_pattern("gpu-0", "gpu-*"));
    assert!(matches_pattern("gpu-1", "gpu-*"));
    assert!(!matches_pattern("cpu-0", "gpu-*"));
    assert!(matches_pattern("mlx5_0", "mlx5_*"));
}

#[test]
fn pattern_without_star_is_exact() {
    assert!(matches_pattern("gpu-0", "gpu-0"));
    assert!(!matches_pattern("gpu-0", "gpu"));
}

#[test]
fn pattern_with_two_stars_is_exact() {
    assert!(!matches_pattern("gpu-0", "g*u*"));
    assert!(matches_pattern("g*u*", "g*u*"));
}

#[test]
fn pattern_star_matches_prefix_and_suffix() {
    assert!(matches_pattern("mlx5_97", "mlx*7"));
    assert!(!matches_pattern("mlx5_97", "mlx*8"));
}

#[test]
fn decimal_parsing_in_thousandths() {
    assert_eq!(parse_decimal_milli("85"), Some(85_000));
    assert_eq!(parse_decimal_milli("0.5"), Some(500));
    assert_eq!(parse_decimal_milli("-1.25"), Some(-1_250));
    assert_eq!(parse_decimal_milli("+7."), Some(7_000));
    assert_eq!(parse_decimal_milli(".125"), Some(125));
    assert_eq!(parse_decimal_milli("1.2345"), Some(1_234));
}

#[test]
fn non_numeric_strings_do_not_parse() {
    assert_eq!(parse_decimal_milli("IO_WAIT"), None);
    assert_eq!(parse_decimal_milli("D"), None);
    assert_eq!(parse_decimal_milli(""), None);
    assert_eq!(parse_decimal_milli("-"), None);
    assert_eq!(parse_decimal_milli("."), None);
    assert_eq!(parse_decimal_milli("1e3"), None);
    assert_eq!(parse_decimal_milli("1.2.3"), None);
}

#[test]
fn u32_round_trip() {
    assert_eq!(u32_to_string(0).as_str(), "0");
    assert_eq!(u32_to_string(1234).as_str(), "1234");
    assert_eq!(u64_to_string(4294967296).as_str(), "4294967296");
    assert_eq!(parse_u32("1234"), Some(1234));
    assert_eq!(parse_u32("004"), Some(4));
    assert_eq!(parse_u32(""), None);
    assert_eq!(parse_u32("12a"), None);
    assert_eq!(parse_u32("4294967295"), Some(u32::MAX));
    assert_eq!(parse_u32("4294967296"), None);
}

#[test]
fn string_helpers() {
    assert!(str_eq("abc", "abc"));
    assert!(!str_eq("abc", "abd"));
    assert!(str_contains("transport IO_WAIT marker", "IO_WAIT"));
    assert!(!str_contains("transport", "IO_WAIT"));
}
