use oinky::helpers::{check_slug, parse_date_string, parse_u32, utc_offset_seconds, SlugCheck};
use oinky::strutil::{str_ends_with, str_lex_leq, str_starts_with, trim_str};

#[test]
fn parses_unsigned_numbers() {
    assert_eq!(parse_u32("0"), Some(0));
    assert_eq!(parse_u32("2023"), Some(2023));
    assert_eq!(parse_u32("4294967295"), Some(u32::MAX));
    assert_eq!(parse_u32("4294967296"), None);
    assert_eq!(parse_u32(""), None);
    assert_eq!(parse_u32("12a"), None);
    assert_eq!(parse_u32("-3"), None);
}

#[test]
fn parses_date_strings() {
    assert_eq!(parse_date_string("2023-06-01"), Some((2023, 6, 1)));
    assert_eq!(parse_date_string("2023-06"), None);
    assert_eq!(parse_date_string("20a3-06-01"), None);
    assert_eq!(parse_date_string("2023-06-01-extra"), Some((2023, 6, 1)));
}

#[test]
fn bounds_the_utc_offset() {
    assert_eq!(utc_offset_seconds(0), Some(0));
    assert_eq!(utc_offset_seconds(2), Some(7200));
    assert_eq!(utc_offset_seconds(-23), Some(-82800));
    assert_eq!(utc_offset_seconds(24), None);
    assert_eq!(utc_offset_seconds(-24), None);
}

#[test]
fn slug_checks() {
    let slug = Some(String::from("/archive/index.html"));
    assert_eq!(check_slug("^/archive", &slug), SlugCheck::Match);
    assert_eq!(check_slug("^/blog", &slug), SlugCheck::NoMatch);
    assert_eq!(check_slug("(", &slug), SlugCheck::InvalidPattern);
    assert_eq!(check_slug("^/archive", &None), SlugCheck::NoSlug);
    assert_eq!(check_slug("(", &None), SlugCheck::InvalidPattern);
}

#[test]
fn string_utilities() {
    assert!(str_starts_with("/site/a.md", "/site"));
    assert!(!str_starts_with("/a.md", "/site"));
    assert!(str_ends_with("/site/a.md", ".md"));
    assert!(!str_ends_with("/site/a.markdown", ".md"));
    assert_eq!(trim_str("  spaced\t"), "spaced");
    assert!(str_lex_leq("abc", "abd"));
    assert!(str_lex_leq("ab", "abc"));
    assert!(!str_lex_leq("b", "abc"));
}

#[test]
fn trimming_unicode_whitespace() {
    assert_eq!(trim_str("\u{a0}spaced\u{2003}"), "spaced");
}
