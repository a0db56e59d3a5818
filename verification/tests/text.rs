use nexovia::calendar::civil_from_days;
use nexovia::text::{char_is_ws, chars_of, collapse_chars, push_decimal, push_padded, starts_with, str_eq, string_of, trim_chars};

fn collapse(s: &str) -> String {
    string_of(&collapse_chars(&chars_of(s)))
}

fn trimmed(s: &str) -> String {
    string_of(&trim_chars(&chars_of(s)))
}

#[test]
fn civil_dates() {
    assert_eq!(civil_from_days(0), (1970, 1, 1));
    assert_eq!(civil_from_days(59), (1970, 3, 1));
    assert_eq!(civil_from_days(11016), (2000, 2, 29));
    assert_eq!(civil_from_days(11017), (2000, 3, 1));
    assert_eq!(civil_from_days(47541), (2100, 3, 1));
    assert_eq!(civil_from_days(2932896), (9999, 12, 31));
}

#[test]
fn dates_are_distinct_for_distinct_days() {
    let mut prev = civil_from_days(0);
    for d in 1..3000u64 {
        let cur = civil_from_days(d);
        assert!(cur > prev, "day {d}");
        prev = cur;
    }
}

#[test]
fn whitespace_collapse() {
    assert_eq!(collapse("  a \t b\n\nc  "), "a b c");
    assert_eq!(collapse("\u{3000}x\u{a0}y"), "x y");
    assert_eq!(collapse(""), "");
    assert_eq!(collapse("   "), "");
    let out = collapse(" many   spaces\there ");
    assert!(!out.contains("  ") && !out.starts_with(' ') && !out.ends_with(' '));
}

#[test]
fn trimming() {
    assert_eq!(trimmed("  x y \n"), "x y");
    assert_eq!(trimmed("\u{2003}z\u{85}"), "z");
    assert_eq!(trimmed(""), "");
    assert!(char_is_ws('\u{2028}'));
    assert!(!char_is_ws('\u{200b}'));
    assert!(!char_is_ws('a'));
}

#[test]
fn numbers() {
    let mut s = String::new();
    push_decimal(&mut s, 0);
    s.push(',');
    push_decimal(&mut s, 1234567890123456789012345678901234567);
    assert_eq!(s, "0,1234567890123456789012345678901234567");
    let mut p = String::new();
    push_padded(&mut p, 7, 3);
    push_padded(&mut p, 12345, 2);
    assert_eq!(p, "00712345");
}

#[test]
fn comparisons() {
    assert!(str_eq("abc", "abc"));
    assert!(!str_eq("abc", "abd"));
    assert!(starts_with("org/base.toml", "org/"));
    assert!(!starts_with("or", "org/"));
}
