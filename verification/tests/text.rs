use crazydog::text::{is_white_space, same_text, trim};

#[test]
fn white_space_is_that_of_unicode() {
    for code in 0..=0x10FFFFu32 {
        if let Some(c) = char::from_u32(code) {
            assert_eq!(is_white_space(c), c.is_whitespace());
        }
    }
}

#[test]
fn trimming_removes_both_ends_only() {
    for text in ["", " ", "\t\n", "a", " a", "a ", "  a b\u{2003}c \u{85}", "\u{200B}x ", "käse\u{3000}", "\u{1680}"] {
        assert_eq!(trim(text), text.trim());
    }
}

#[test]
fn texts_are_compared_by_content() {
    assert!(same_text("patrol", &String::from("patrol")));
    assert!(!same_text("patrol", "patrol "));
    assert!(!same_text("patrol", "Patrol"));
    assert!(same_text("", ""));
}
