use ferrum::interface::{key_from, Key};

#[test]
fn named_keys_are_recognised() {
    assert_eq!(key_from("up"), Some(Key::Up));
    assert_eq!(key_from("pagedown"), Some(Key::PageDown));
    assert_eq!(key_from("backspace"), Some(Key::Backspace));
    assert_eq!(key_from("edit"), Some(Key::Edit));
    assert_eq!(key_from("escape"), Some(Key::Escape));
}

#[test]
fn other_text_is_a_keystroke() {
    assert_eq!(key_from("a"), Some(Key::Typed("a".to_string())));
    assert_eq!(key_from("Up"), Some(Key::Typed("Up".to_string())));
    assert_eq!(key_from("é"), Some(Key::Typed("é".to_string())));
}

#[test]
fn nothing_and_control_characters_are_not_keystrokes() {
    assert_eq!(key_from(""), None);
    assert_eq!(key_from("\u{7f}"), None);
    assert_eq!(key_from("a\u{1b}"), None);
    assert_eq!(key_from("\u{85}"), None);
    assert_eq!(key_from("\u{f700}"), Some(Key::Typed("\u{f700}".to_string())));
}
