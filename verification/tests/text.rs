use elf_diff::text::{chars_less, chars_of, i64_to_decimal, is_whitespace, string_from_chars};

#[test]
fn decimal_text() {
    assert_eq!(i64_to_decimal(0), "0");
    assert_eq!(i64_to_decimal(1234), "1234");
    assert_eq!(i64_to_decimal(-64), "-64");
    assert_eq!(i64_to_decimal(i64::MAX), "9223372036854775807");
    assert_eq!(i64_to_decimal(i64::MIN), "-9223372036854775808");
}

#[test]
fn whitespace_matches_std() {
    for c in ['\t', '\n', ' ', '\u{85}', '\u{a0}', '\u{2003}', '\u{3000}', 'a', '_', '\u{200b}'] {
        assert_eq!(is_whitespace(c), c.is_whitespace());
    }
}

#[test]
fn lexicographic_order() {
    let a = chars_of("abc");
    let b = chars_of("abd");
    let p = chars_of("ab");
    assert!(chars_less(&a, &b));
    assert!(!chars_less(&b, &a));
    assert!(chars_less(&p, &a));
    assert!(!chars_less(&a, &a));
}

#[test]
fn chars_round_trip() {
    let c = chars_of("héllo");
    assert_eq!(c.len(), 5);
    assert_eq!(string_from_chars(&c, 1, 4), "éll");
}
