use codex_tui::text::{
    ascii_lower_chars, char_utf8_len, chars_of, has_prefix, is_whitespace, join_lines, str_lt,
    to_ascii_lower, trim_chars, trim_start_str,
};

#[test]
fn whitespace_is_unicode_white_space() {
    for c in [' ', '\t', '\n', '\r', '\u{0B}', '\u{0C}', '\u{85}', '\u{A0}', '\u{2003}', '\u{3000}'] {
        assert!(is_whitespace(c), "{:?}", c);
        assert_eq!(is_whitespace(c), c.is_whitespace());
    }
    for c in ['a', '/', '\u{200B}', '\u{1F600}'] {
        assert!(!is_whitespace(c), "{:?}", c);
        assert_eq!(is_whitespace(c), c.is_whitespace());
    }
}

#[test]
fn ascii_lowercase_only_touches_capitals() {
    assert_eq!(to_ascii_lower('Q'), 'q');
    assert_eq!(to_ascii_lower('q'), 'q');
    assert_eq!(to_ascii_lower('É'), 'É');
    assert_eq!(ascii_lower_chars(&vec!['A', 'b', 'Z', '1']), vec!['a', 'b', 'z', '1']);
}

#[test]
fn utf8_lengths() {
    assert_eq!(char_utf8_len('a'), 1);
    assert_eq!(char_utf8_len('é'), 2);
    assert_eq!(char_utf8_len('\u{276D}'), 3);
    assert_eq!(char_utf8_len('\u{1F600}'), 4);
}

#[test]
fn trimming() {
    assert_eq!(trim_chars("  ab c\t"), vec!['a', 'b', ' ', 'c']);
    assert!(trim_chars(" \u{3000} ").is_empty());
    assert_eq!(trim_start_str("  x y "), "x y ");
    assert_eq!(chars_of("hé"), vec!['h', 'é']);
}

#[test]
fn prefixes_and_order() {
    assert!(has_prefix(&vec!['a', 'b'], &vec!['a']));
    assert!(has_prefix(&vec!['a', 'b'], &vec![]));
    assert!(!has_prefix(&vec!['a'], &vec!['a', 'b']));
    assert!(!has_prefix(&vec!['a', 'b'], &vec!['b']));
    assert!(str_lt("/clear", "/clearhistory"));
    assert!(str_lt("/bug", "/clear"));
    assert!(!str_lt("/clear", "/clear"));
    assert!(!str_lt("/help", "/diff"));
    assert_eq!(str_lt("a\u{FF}", "a\u{100}"), "a\u{FF}" < "a\u{100}");
}

#[test]
fn joining_lines() {
    assert_eq!(join_lines(&["x".to_string()]), "x");
    assert_eq!(join_lines(&["x".to_string(), "y".to_string()]), "x\ny");
}
