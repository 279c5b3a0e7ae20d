use julix::text::{is_alphabetic, is_alphanumeric, is_whitespace};

#[test]
fn whitespace_matches_the_unicode_property() {
    for u in 0u32..0x11000 {
        if let Some(c) = char::from_u32(u) {
            assert_eq!(is_whitespace(c), c.is_whitespace(), "U+{:04X}", u);
        }
    }
}

#[test]
fn ascii_letters_and_digits() {
    for u in 0u32..128 {
        let c = char::from_u32(u).unwrap();
        assert_eq!(is_alphabetic(c), c.is_ascii_alphabetic());
        assert_eq!(is_alphanumeric(c), c.is_ascii_alphanumeric());
    }
}
