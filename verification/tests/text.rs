use polyshell::text::{slice, str_eq};

#[test]
fn slice_by_byte_offsets() {
    assert_eq!(slice("hello world", 6, 11), "world");
    assert_eq!(slice("hello", 0, 5), "hello");
    assert_eq!(slice("hello", 2, 2), "");
    assert_eq!(slice("", 0, 0), "");
}

#[test]
fn slice_between_wide_characters() {
    assert_eq!(slice("aéb", 1, 3), "é");
    assert_eq!(slice("aéb", 3, 4), "b");
}

#[test]
fn equal_texts() {
    assert!(str_eq("", ""));
    assert!(str_eq("let", "let"));
    assert!(str_eq("é", "é"));
}

#[test]
fn different_texts() {
    assert!(!str_eq("let", "lets"));
    assert!(!str_eq("let", "led"));
    assert!(!str_eq("", "a"));
    assert!(!str_eq("e", "é"));
}
