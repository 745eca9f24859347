//! Characters, words and lists.

use harvest::text::{
    begins_str, bytes_in, chars_of, contains_str, count_leading, count_trailing, count_until,
    is_white_space, push_new, same, split_str, text_of, trim_bounds, words_str, CharClass,
};

#[test]
fn white_space_agrees_with_the_standard_library() {
    for n in 0..=0x10ffff_u32 {
        if let Some(c) = char::from_u32(n) {
            assert_eq!(is_white_space(c), c.is_whitespace(), "{n:x}");
            assert_eq!(CharClass::AsciiWhite.test(c), c.is_ascii_whitespace(), "{n:x}");
            assert_eq!(CharClass::Digit.test(c), c.is_ascii_digit(), "{n:x}");
        }
    }
}

#[test]
fn bytes_and_characters() {
    assert_eq!(bytes_in("a\u{e9}\u{279c}"), 6);
    let cs = chars_of("a\u{e9}\u{279c}b");
    assert_eq!(cs.len(), 4);
    assert_eq!(text_of(&cs, 1, 3), "\u{e9}\u{279c}");
    assert!(same("ab", "ab"));
    assert!(!same("ab", "abc"));
}

#[test]
fn runs_at_the_ends() {
    let cs = chars_of("  ab  ");
    assert_eq!(count_leading(&cs, 0, 6, CharClass::White), 2);
    assert_eq!(count_trailing(&cs, 0, 6, CharClass::White), 2);
    assert_eq!(count_until(&cs, 2, 6, CharClass::Space), 2);
    assert_eq!(trim_bounds(&cs, 0, 6, CharClass::White), (2, 4));
    assert_eq!(trim_bounds(&cs, 0, 2, CharClass::White), (2, 2));
}

#[test]
fn pieces_and_words() {
    assert_eq!(split_str("/a//b", CharClass::Slash), vec!["", "a", "", "b"]);
    assert_eq!(split_str("", CharClass::Slash), vec![""]);
    assert_eq!(words_str("  a \u{2003}b\n", CharClass::White), vec!["a", "b"]);
    assert_eq!(words_str("a\u{2003}b c", CharClass::AsciiWhite), vec!["a\u{2003}b", "c"]);
}

#[test]
fn text_within_text() {
    assert!(contains_str("abc", "bc"));
    assert!(contains_str("abc", ""));
    assert!(!contains_str("abc", "cb"));
    assert!(begins_str("abc", "ab"));
    assert!(!begins_str("abc", "bc"));
    assert!(!begins_str("a", "ab"));
}

#[test]
fn list_keeps_each_text_once() {
    let mut list: Vec<String> = Vec::new();
    for s in ["a", "b", "a"] {
        push_new(&mut list, s.to_string());
    }
    assert_eq!(list, vec!["a", "b"]);
}
