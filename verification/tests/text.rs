//! Strings.

use localhost::string_map::StringMap;
use localhost::text::{
    contains_text, decimal_text, decoded_text, eq_ignore_case, find_bytes, has_prefix, has_suffix,
    lines_of, lower_text, parse_unsigned, same, signed_text, split_crlf, split_text, trimmed,
    upper_text, white,
};

#[test]
fn white_space_is_that_of_the_standard_library() {
    for n in 0..=0x10FFFFu32 {
        if let Some(c) = char::from_u32(n) {
            assert_eq!(white(c), c.is_whitespace(), "U+{n:04X}");
        }
    }
}

#[test]
fn case_is_that_of_the_standard_library() {
    for s in ["", "AbC-9", "\u{c4}\u{d6}\u{df}", "\u{212a}", "\u{130}", "\u{3a3}a\u{3a3}"] {
        assert_eq!(lower_text(s), s.to_lowercase());
        assert_eq!(upper_text(s), s.to_uppercase());
    }
    assert_eq!(lower_text("GET"), "get");
    assert_eq!(upper_text("stra\u{df}e"), "STRASSE");
}

#[test]
fn bytes_that_are_no_text_are_repaired() {
    assert_eq!(decoded_text(b"a\xffb"), "a\u{fffd}b");
    assert_eq!(decoded_text("\u{e9}".as_bytes()), "\u{e9}");
}

#[test]
fn comparing() {
    assert!(same("abc", "abc"));
    assert!(!same("abc", "abd"));
    assert!(eq_ignore_case("Example.COM", "example.com"));
    assert!(!eq_ignore_case("\u{c4}", "\u{e4}"));
    assert!(has_prefix("abc", "ab") && !has_prefix("abc", "b"));
    assert!(has_suffix("abc", "bc") && !has_suffix("abc", "b"));
    assert!(contains_text("abc", "b") && contains_text("abc", "") && !contains_text("abc", "d"));
}

#[test]
fn searching_and_splitting() {
    assert_eq!(find_bytes(b"abcabc", b"ca", 0), Some(2));
    assert_eq!(find_bytes(b"abcabc", b"ab", 1), Some(3));
    assert_eq!(find_bytes(b"abc", b"abcd", 0), None);
    assert_eq!(trimmed(" \t a b\u{a0}"), "a b");
    assert_eq!(split_crlf("a\r\n\r\nb\r\n"), vec!["a", "", "b", ""]);
    assert_eq!(split_text(";a;;b", ';'), vec!["", "a", "", "b"]);
    for s in ["", "a", "a\n", "a\r\nb", "a\n\nb\r\n", "\n", "a\rb", "a\r"] {
        assert_eq!(lines_of(s), s.lines().collect::<Vec<&str>>());
    }
}

#[test]
fn numerals() {
    for s in ["0", "7", "+7", "007", "", "+", "-1", "1x", "18446744073709551615", "18446744073709551616"] {
        assert_eq!(parse_unsigned(s, 10, u64::MAX), s.parse::<u64>().ok(), "{s}");
        assert_eq!(parse_unsigned(s, 16, u64::MAX), u64::from_str_radix(s, 16).ok(), "{s}");
        assert_eq!(parse_unsigned(s, 10, u16::MAX as u64), s.parse::<u16>().ok().map(u64::from));
    }
    assert_eq!(parse_unsigned("fF", 16, u64::MAX), Some(255));
    for n in [0u64, 9, 10, 4096, u64::MAX] {
        assert_eq!(decimal_text(n), n.to_string());
        assert_eq!(parse_unsigned(&decimal_text(n), 10, u64::MAX), Some(n));
    }
    for n in [0i32, -1, i32::MIN, i32::MAX] {
        assert_eq!(signed_text(n), n.to_string());
    }
}

#[test]
fn string_map_keeps_one_value_for_each_key() {
    let mut m: StringMap<u8> = StringMap::new();
    assert!(m.is_empty());
    assert_eq!(m.insert("a".into(), 1), None);
    assert_eq!(m.insert("b".into(), 2), None);
    assert_eq!(m.insert("a".into(), 3), Some(1));
    assert_eq!(m.len(), 2);
    assert_eq!(m.get("a"), Some(&3));
    assert!(m.contains_key("b"));
    assert_eq!(m.entry(0), ("a", &3));
    let copy = m.clone();
    assert_eq!(m.remove("a"), Some(3));
    assert_eq!(m.remove("a"), None);
    assert_eq!(m.get("a"), None);
    assert_eq!(m.len(), 1);
    assert_eq!(copy.len(), 2);
}
