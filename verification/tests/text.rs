//! Numerals, white space and replacement.
use svg_layers::filter::numbered_text;
use svg_layers::text::{
    chars_of, decimal_text, find, is_blank, is_white_space, push_hex, replace_all, rfind, text_of,
};

#[test]
fn numerals_are_decimal() {
    for n in 0..2000usize {
        assert_eq!(decimal_text(n), format!("{n}"));
    }
    assert_eq!(decimal_text(usize::MAX), format!("{}", usize::MAX));
    assert_eq!(numbered_text("clip", 10), "clip10");
}

#[test]
fn numerals_of_different_numbers_differ() {
    let mut seen: Vec<String> = (0..300usize).map(decimal_text).collect();
    seen.sort();
    seen.dedup();
    assert_eq!(seen.len(), 300);
}

#[test]
fn bytes_are_two_upper_case_digits() {
    for b in 0..=255u8 {
        let mut text = "#".to_string();
        push_hex(&mut text, b);
        assert_eq!(text, format!("#{b:02X}"));
    }
}

#[test]
fn white_space_is_that_of_unicode() {
    for u in 0..=0x10FFFFu32 {
        if let Some(c) = char::from_u32(u) {
            assert_eq!(is_white_space(c), c.is_whitespace(), "{u:X}");
        }
    }
    assert!(is_blank(""));
    assert!(is_blank(" \n\t\u{3000}"));
    assert!(!is_blank(" x "));
}

#[test]
fn replacement_goes_from_left_to_right() {
    assert_eq!(replace_all("aaa", "aa", "b"), "aaa".replace("aa", "b"));
    assert_eq!(replace_all("a.b.c", ".", "::"), "a::b::c");
    assert_eq!(replace_all("abc", "x", "y"), "abc");
    assert_eq!(replace_all("", "x", "y"), "");
    assert_eq!(replace_all("id=\"a\"", "id=\"a\"", "id=\"a\"id=\"a\""), "id=\"a\"id=\"a\"");
}

#[test]
fn searches_find_the_first_and_the_last() {
    let text = chars_of("abcabc");
    let pattern = chars_of("bc");
    assert_eq!(find(&text, &pattern, 0), Some(1));
    assert_eq!(find(&text, &pattern, 2), Some(4));
    assert_eq!(find(&text, &pattern, 5), None);
    assert_eq!(rfind(&text, &pattern), Some(4));
    assert_eq!(rfind(&text, &chars_of("x")), None);
    assert_eq!(text_of(&text, 1, 3), "bc");
}
