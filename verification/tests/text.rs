use homeedge::text::{is_blank, trimmed_string};

#[test]
fn trimmed_string_agrees_with_std_trim_on_every_char() {
    for code in 0u32..=0x10FFFF {
        if let Some(c) = char::from_u32(code) {
            let padded = format!("{c}a{c}b{c}");
            assert_eq!(trimmed_string(&padded), padded.trim(), "char U+{code:04X}");
            let single = c.to_string();
            assert_eq!(trimmed_string(&single), single.trim(), "char U+{code:04X}");
            assert_eq!(is_blank(&single), single.trim().is_empty(), "char U+{code:04X}");
        }
    }
}

#[test]
fn trimmed_string_removes_mixed_white_space_on_both_ends() {
    assert_eq!(trimmed_string(" \t\u{3000}lighting v1\u{2028}\n "), "lighting v1");
    assert_eq!(trimmed_string("lighting"), "lighting");
    assert_eq!(trimmed_string(" \u{85} "), "");
}

#[test]
fn empty_and_white_space_texts_are_blank() {
    assert!(is_blank(""));
    assert!(is_blank(" \t\n\u{a0}"));
    assert!(!is_blank(" x "));
    assert!(!is_blank("\u{200b}"));
}
