use aero_mitosis::text::{
    chars_of, contains, decimal_text, ends_with, find, hex_text, is_white_space, joined, lines_of, part_of, same,
    signed_decimal_text, starts_with, text_of, trim, words_of,
};

fn text(chars: &Vec<char>) -> String {
    text_of(chars, 0, chars.len())
}

#[test]
fn lines_are_split_like_those_of_a_string() {
    for sample in ["", "\n", "a", "a\n", "a\r\nb\n\nc", "a\rb\r\n", "\r\n", "x\n\r", "\u{e9}\n\u{1F600}"] {
        let found: Vec<String> = lines_of(sample).iter().map(text).collect();
        let expected: Vec<String> = sample.lines().map(|line| line.to_string()).collect();
        assert_eq!(found, expected, "{sample:?}");
    }
}

#[test]
fn words_and_trimming_agree_with_strings() {
    for sample in ["", "  ", "a", " a b\tc\n", "\u{a0}x\u{2003}y", "one  two", "\u{3000}"] {
        let chars = chars_of(sample);
        let found: Vec<String> = words_of(&chars).iter().map(text).collect();
        let expected: Vec<String> = sample.split_whitespace().map(|word| word.to_string()).collect();
        assert_eq!(found, expected, "{sample:?}");
        assert_eq!(text(&trim(&chars)), sample.trim(), "{sample:?}");
    }
}

#[test]
fn white_space_is_that_of_unicode() {
    for code in 0..0x11000u32 {
        if let Some(c) = char::from_u32(code) {
            assert_eq!(is_white_space(c), c.is_whitespace(), "{code:#x}");
        }
    }
}

#[test]
fn searching_agrees_with_strings() {
    let hay = chars_of("abcabc");
    assert_eq!(find(&hay, &chars_of("ca")), Some(2));
    assert_eq!(find(&hay, &chars_of("abc")), Some(0));
    assert_eq!(find(&hay, &chars_of("")), Some(0));
    assert_eq!(find(&hay, &chars_of("x")), None);
    assert_eq!(find(&chars_of(""), &chars_of("abc")), None);
    assert!(contains("hello", "ell"));
    assert!(!contains("hello", "elo"));
    assert!(starts_with(&hay, "ab"));
    assert!(!starts_with(&hay, "b"));
    assert!(ends_with(&hay, "bc"));
    assert!(!ends_with(&hay, "xabcabc"));
    assert!(same("x", "x"));
    assert!(!same("x", "y"));
    assert_eq!(joined("a", "b"), "ab");
    assert_eq!(part_of(&hay, 1, 3), vec!['b', 'c']);
}

#[test]
fn numbers_are_written_like_those_of_format() {
    for n in [0u128, 9, 10, 99, 12345, u64::MAX as u128, u128::MAX] {
        assert_eq!(decimal_text(n), format!("{n}"));
    }
    for n in [0i64, -1, 42, i64::MIN, i64::MAX] {
        assert_eq!(signed_decimal_text(n), format!("{n}"));
    }
    for n in [0u64, 15, 16, 255, 0xdead_beef, u64::MAX] {
        assert_eq!(hex_text(n), format!("{n:x}"));
    }
}
