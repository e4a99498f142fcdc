use ranim::text::{u128_decimal, ends_with, join_strings, push_str, starts_with, string_of, u64_decimal};

#[test]
fn decimals_of_integers() {
    assert_eq!(u64_decimal(0), "0");
    assert_eq!(u64_decimal(7), "7");
    assert_eq!(u64_decimal(1920), "1920");
    assert_eq!(u64_decimal(u64::MAX), u64::MAX.to_string());
    assert_eq!(u128_decimal(u128::MAX), u128::MAX.to_string());
    assert_eq!(u128_decimal(10), "10");
}

#[test]
fn joining_and_appending() {
    let v = vec!["a".to_string(), "bc".to_string(), String::new()];
    assert_eq!(join_strings(&v, ","), "a,bc,");
    assert_eq!(join_strings(&vec![], ","), "");
    assert_eq!(join_strings(&vec!["x".to_string()], ", "), "x");
    let mut s = string_of("ab");
    push_str(&mut s, "cd");
    assert_eq!(s, "abcd");
}

#[test]
fn prefixes_and_suffixes() {
    assert!(starts_with("preview.png", "preview"));
    assert!(!starts_with("pre", "preview"));
    assert!(starts_with("x", ""));
    assert!(ends_with("a\n\n", "\n\n"));
    assert!(!ends_with("a\n", "\n\n"));
    assert!(ends_with("héllo", "llo"));
}
