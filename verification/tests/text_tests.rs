use simlogtail::text::{chars_of, is_blank_str, is_white_space_char, text_eq, trim_str};

#[test]
fn white_space_matches_std_for_every_char() {
    for u in 0u32..=0x10FFFF {
        if let Some(c) = char::from_u32(u) {
            assert_eq!(is_white_space_char(c), c.is_whitespace(), "code point {:#x}", u);
        }
    }
}

#[test]
fn trim_matches_std() {
    let samples = [
        "", " ", "\t\n", "abc", "  abc  ", "\u{3000}x y\u{2028}", "\r\n", "a\u{a0}", "\u{85}b",
        " \u{200b} ", "line\n", "  \t mid dle \t ",
    ];
    for s in samples.iter() {
        assert_eq!(trim_str(s), s.trim(), "sample {:?}", s);
    }
}

#[test]
fn blank_lines() {
    assert!(is_blank_str(""));
    assert!(is_blank_str(" \t\r\n"));
    assert!(is_blank_str("\u{2003}\u{3000}"));
    assert!(!is_blank_str(" x "));
    assert!(!is_blank_str("\u{200b}"));
    for s in ["", " ", "a", " a", "\u{feff}"].iter() {
        assert_eq!(is_blank_str(s), s.trim().is_empty());
    }
}

#[test]
fn chars_and_equality() {
    assert_eq!(chars_of("héllo"), vec!['h', 'é', 'l', 'l', 'o']);
    assert!(chars_of("").is_empty());
    assert!(text_eq("abc", "abc"));
    assert!(!text_eq("abc", "abd"));
    assert!(!text_eq("abc", "ab"));
    assert!(text_eq("", ""));
}
