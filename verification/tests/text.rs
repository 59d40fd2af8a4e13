use benchmark_games::text::char_is_whitespace;

#[test]
fn whitespace_is_the_unicode_white_space_property() {
    for code in 0u32..0x3100 {
        if let Some(c) = char::from_u32(code) {
            assert_eq!(char_is_whitespace(c), c.is_whitespace(), "{code:#x}");
        }
    }
    assert!(char_is_whitespace('\r'));
    assert!(char_is_whitespace(' '));
    assert!(!char_is_whitespace('\u{200B}'));
}
