use ayumi::text::{char_is_whitespace, chars_of, parse_usize};

#[test]
fn usize_parsing_accepts_plus_and_rejects_signs_and_spaces() {
    assert_eq!(parse_usize(&chars_of("42")), Some(42));
    assert_eq!(parse_usize(&chars_of("+42")), Some(42));
    assert_eq!(parse_usize(&chars_of("0000")), Some(0));
    assert_eq!(parse_usize(&chars_of("")), None);
    assert_eq!(parse_usize(&chars_of("+")), None);
    assert_eq!(parse_usize(&chars_of("++1")), None);
    assert_eq!(parse_usize(&chars_of("-1")), None);
    assert_eq!(parse_usize(&chars_of("1 ")), None);
    assert_eq!(parse_usize(&chars_of("\u{0664}")), None);
    for s in ["7", "+9", "123456", "x", ""] {
        assert_eq!(parse_usize(&chars_of(s)), s.parse::<usize>().ok());
    }
}

#[test]
fn whitespace_is_unicode_white_space() {
    for c in ['\t', '\n', '\u{0B}', '\u{0C}', '\r', ' ', '\u{85}', '\u{A0}', '\u{1680}', '\u{2000}',
        '\u{200A}', '\u{2028}', '\u{2029}', '\u{202F}', '\u{205F}', '\u{3000}']
    {
        assert!(char_is_whitespace(c));
    }
    for c in ['a', '\u{200B}', '\u{180E}', '\u{FEFF}', '\0', '+'] {
        assert!(!char_is_whitespace(c));
    }
    for u in 0u32..0x3100 {
        if let Some(c) = char::from_u32(u) {
            assert_eq!(char_is_whitespace(c), c.is_whitespace());
        }
    }
}
