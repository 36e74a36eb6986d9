use pbft::config::is_white_space_char;

#[test]
fn white_space_agrees_with_std() {
    for u in 0u32..0x3100 {
        if let Some(c) = char::from_u32(u) {
            assert_eq!(is_white_space_char(c), c.is_whitespace(), "code point {:x}", u);
        }
    }
}

#[test]
fn white_space_examples() {
    assert!(is_white_space_char(' '));
    assert!(is_white_space_char('\u{2028}'));
    assert!(!is_white_space_char('a'));
    assert!(!is_white_space_char(','));
}
