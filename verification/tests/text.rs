//! Text helpers.

use pptx_notes::text::{
    contains_name, decimal_text, find_text, is_white_space, join_with_char, parse_digits, parse_u32,
    replace_first, split_at_char, starts_with, trim, utf8_bytes,
};

fn chars(s: &str) -> Vec<char> {
    s.chars().collect()
}

fn string(s: &[char]) -> String {
    s.iter().collect()
}

#[test]
fn white_space_is_that_of_unicode() {
    for n in 0..0x11_0000u32 {
        if let Some(c) = char::from_u32(n) {
            assert_eq!(is_white_space(c), c.is_whitespace(), "{n:x}");
        }
    }
}

#[test]
fn trimming_takes_white_space_off_both_ends() {
    for s in ["", " ", "a", " a b\n", "\u{feff}a", "\u{85}\u{1680}x\u{3000}"] {
        let t = chars(s);
        assert_eq!(string(trim(&t)), s.trim());
    }
}

#[test]
fn splitting_and_joining() {
    for s in ["", "/", "a", "a/b", "/a//b/"] {
        let parts = split_at_char(&chars(s), '/');
        let expected: Vec<Vec<char>> = s.split('/').map(chars).collect();
        assert_eq!(parts, expected);
        assert_eq!(string(&join_with_char(&parts, '/')), s);
    }
    assert_eq!(string(&join_with_char(&vec![], '/')), "");
}

#[test]
fn searching_and_replacing() {
    assert_eq!(find_text(&chars("abcabc"), &chars("ca")), Some(2));
    assert_eq!(find_text(&chars("abc"), &chars("abcd")), None);
    assert_eq!(find_text(&chars("aab"), &chars("ab")), Some(1));
    assert_eq!(string(&replace_first(&chars("x</T></T>"), &chars("</T>"), &chars("!"))), "x!</T>");
    assert_eq!(string(&replace_first(&chars("x"), &chars("</T>"), &chars("!"))), "x");
    assert!(starts_with(&chars("rId3"), &chars("rId")));
    assert!(!starts_with(&chars("rI"), &chars("rId")));
}

#[test]
fn decimal_numbers_read_back() {
    for n in [0u32, 7, 10, 99, 100, 12345, u32::MAX] {
        let text = decimal_text(n as u128);
        assert_eq!(text, n.to_string());
        assert_eq!(parse_u32(&chars(&text)), Some(n));
    }
    assert_eq!(decimal_text(u128::MAX), u128::MAX.to_string());
}

#[test]
fn different_numbers_have_different_decimal_forms() {
    let forms: Vec<String> = (0..300).map(decimal_text).collect();
    for i in 0..forms.len() {
        for j in 0..i {
            assert_ne!(forms[i], forms[j]);
        }
    }
}

#[test]
fn numbers_are_read_as_the_standard_library_reads_them() {
    for s in ["", "+", "+5", "-5", "5", "05", "4294967295", "4294967296", "1x", "++1", " 1"] {
        assert_eq!(parse_u32(&chars(s)), s.parse::<u32>().ok(), "{s}");
    }
    assert_eq!(parse_digits(&chars("+5")), None);
    assert_eq!(parse_digits(&chars("42")), Some(42));
}

#[test]
fn names_and_bytes() {
    let names = vec!["a".to_string(), "나".to_string()];
    assert!(contains_name(&names, "나"));
    assert!(!contains_name(&names, "b"));
    assert_eq!(utf8_bytes("aé가😀"), "aé가😀".as_bytes().to_vec());
}
