use mini_download_serve::text;

fn chars(s: &str) -> Vec<char> {
    s.chars().collect()
}

#[test]
fn white_space_is_what_unicode_says() {
    for c in '\u{0}'..=char::MAX {
        assert_eq!(text::white_space(c), c.is_whitespace(), "{c:?}");
    }
}

#[test]
fn numbers_are_read_as_the_standard_library_does() {
    for s in [
        "", "0", "7", "007", "+7", "+", "-", "-7", "++7", "1 ", " 1", "12a", "a12", "\u{664}",
        "18446744073709551615", "18446744073709551616", "99999999999999999999999999",
        "+18446744073709551615", "00000000000000000000000000000000001",
    ] {
        assert_eq!(text::parse_u64(&chars(s)), s.parse::<u64>().ok(), "{s:?}");
    }
}

#[test]
fn numbers_are_written_and_read_back() {
    for n in [0u64, 1, 9, 10, 99, 100, 1023, 65536, u64::MAX - 1, u64::MAX] {
        let s = text::decimal(n);
        assert_eq!(s, n.to_string());
        assert_eq!(text::parse_u64(&chars(&s)), Some(n));
    }
}

#[test]
fn texts_are_trimmed_and_split() {
    assert_eq!(text::trim(&chars("  a b \u{2003}")), chars("a b"));
    assert_eq!(text::trim(&chars(" \t ")), chars(""));
    assert_eq!(
        text::split_once(&chars("a-b-c"), '-'),
        Some((chars("a"), chars("b-c")))
    );
    assert_eq!(text::split_once(&chars("abc"), '-'), None);
    assert_eq!(text::split_chars(&chars("/a//b"), '/'), vec![chars(""), chars("a"), chars(""), chars("b")]);
    assert_eq!(text::split_chars(&chars(""), '/'), vec![chars("")]);
    assert_eq!(text::trim_leading(&chars("//a/"), '/'), chars("a/"));
    assert_eq!(text::trim_trailing(&chars("a??"), '?'), chars("a"));
    assert_eq!(text::strip_prefix(&chars("bytes=1"), "bytes="), Some(chars("1")));
    assert_eq!(text::strip_prefix(&chars("byte"), "bytes="), None);
    assert!(text::same_text("::", "::"));
    assert!(!text::same_text("::", ":"));
}
