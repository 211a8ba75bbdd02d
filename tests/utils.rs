use whisper_text::{is_zero_width_char, strip_hidden};

#[test]
fn test_is_zero_width_char() {
    assert!(is_zero_width_char('\u{200B}'));
    assert!(is_zero_width_char('\u{200C}'));
    assert!(is_zero_width_char('\u{200D}'));
    assert!(is_zero_width_char('\u{FEFF}'));
    assert!(!is_zero_width_char('a'));
    assert!(!is_zero_width_char(' '));
}

#[test]
fn test_strip_hidden() {
    let text = "H\u{200B}e\u{200C}l\u{200D}l\u{FEFF}o";
    assert_eq!(strip_hidden(text), "Hello");
}

#[test]
fn test_strip_hidden_no_hidden() {
    let text = "Hello, World!";
    assert_eq!(strip_hidden(text), text);
}

#[test]
fn strip_hidden_of_only_hidden_is_empty() {
    assert_eq!(strip_hidden("\u{200B}\u{200C}\u{200D}\u{FEFF}"), "");
    assert_eq!(strip_hidden(""), "");
}

#[test]
fn other_zero_width_characters_are_kept() {
    assert!(!is_zero_width_char('\u{200E}'));
    assert_eq!(strip_hidden("a\u{2060}b"), "a\u{2060}b");
}
