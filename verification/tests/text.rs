use mkbib::text::normalize;

#[test]
fn normalize_keeps_alphanumerics_in_lower_case() {
    assert_eq!(normalize("Phys. Rev. B"), "physrevb");
    assert_eq!(normalize("  A-1 / b_2 !"), "a1b2");
    assert_eq!(normalize(""), "");
    assert_eq!(normalize("\u{c9}cole 42"), "\u{e9}cole42");
}

fn listed_as_whitespace(c: char) -> bool {
    matches!(
        c as u32,
        0x09..=0x0D | 0x20 | 0x85 | 0xA0 | 0x1680 | 0x2000..=0x200A | 0x2028 | 0x2029 | 0x202F | 0x205F | 0x3000
    )
}

#[test]
fn whitespace_is_the_twenty_five_characters_of_the_class() {
    let mut count = 0;
    for u in 0..=0x10FFFFu32 {
        if let Some(c) = char::from_u32(u) {
            assert_eq!(c.is_whitespace(), listed_as_whitespace(c), "U+{:04X}", u);
            if c.is_whitespace() {
                count += 1;
            }
        }
    }
    assert_eq!(count, 25);
}

#[test]
fn blank_texts_hold_whitespace_only() {
    assert!(mkbib::editing::is_blank(" \t\r\n\u{b}\u{c}\u{85}\u{a0}\u{1680}\u{2000}\u{200a}\u{2028}\u{2029}\u{202f}\u{205f}\u{3000}"));
    assert!(!mkbib::editing::is_blank("\u{200b}"));
    assert!(!mkbib::editing::is_blank("\u{feff}"));
    assert!(!mkbib::editing::is_blank(" . "));
}
