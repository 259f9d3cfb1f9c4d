use wallpaper_shuffler::text::is_whitespace;

/// The white-space test agrees with `char::is_whitespace` on every character.
#[test]
fn whitespace_matches_std_on_every_char() {
    for v in 0u32..=0x10FFFF {
        if let Some(c) = char::from_u32(v) {
            assert_eq!(is_whitespace(c), c.is_whitespace(), "U+{v:04X}");
        }
    }
}
