use first_follow::text::{
    chars_of, ends_with_chars, is_uppercase_char, is_whitespace_char, split_bounds, string_of,
    strip_whitespace, trim_bounds,
};

#[test]
fn is_whitespace_char_agrees_with_the_standard_library() {
    let mut code: u32 = 0;
    while code <= 0x10FFFF {
        if let Some(c) = char::from_u32(code) {
            assert_eq!(is_whitespace_char(c), c.is_whitespace(), "at {}", code);
        }
        code += 1;
    }
}

#[test]
fn is_uppercase_char_takes_the_letters_a_to_z() {
    let mut code: u32 = 0;
    while code <= 0x10FFFF {
        if let Some(c) = char::from_u32(code) {
            assert_eq!(is_uppercase_char(c), c.is_ascii_uppercase(), "at {}", code);
        }
        code += 1;
    }
}

#[test]
fn chars_of_and_string_of_are_inverse() {
    let chars = chars_of("a£id");
    assert_eq!(chars, vec!['a', '£', 'i', 'd']);
    assert_eq!(string_of(&chars, 0, 4), "a£id");
    assert_eq!(string_of(&chars, 1, 3), "£i");
    assert_eq!(string_of(&chars, 2, 2), "");
}

#[test]
fn strip_whitespace_removes_all_of_it() {
    assert_eq!(strip_whitespace(" a b\t\n c\u{3000}"), "abc");
    assert_eq!(strip_whitespace(""), "");
    assert_eq!(strip_whitespace("  "), "");
    assert_eq!(strip_whitespace("£|$"), "£|$");
}

#[test]
fn trim_bounds_leaves_the_ends_out() {
    let chars = chars_of("  a b \t");
    assert_eq!(trim_bounds(&chars, 0, chars.len()), (2, 5));
    assert_eq!(trim_bounds(&chars, 3, 4), (4, 4));
    assert_eq!(trim_bounds(&chars, 2, 5), (2, 5));
    let blank = chars_of("   ");
    assert_eq!(trim_bounds(&blank, 0, 3), (3, 3));
    let none = chars_of("");
    assert_eq!(trim_bounds(&none, 0, 0), (0, 0));
}

#[test]
fn ends_with_chars_compares_the_end() {
    let text = chars_of("abc");
    assert!(ends_with_chars(&text, &chars_of("c")));
    assert!(ends_with_chars(&text, &chars_of("bc")));
    assert!(ends_with_chars(&text, &chars_of("abc")));
    assert!(ends_with_chars(&text, &chars_of("")));
    assert!(!ends_with_chars(&text, &chars_of("b")));
    assert!(!ends_with_chars(&text, &chars_of("xabc")));
}

#[test]
fn split_bounds_gives_the_pieces_between_the_separators() {
    assert_eq!(split_bounds(&chars_of("aA|b||£"), '|'), vec![(0, 2), (3, 4), (5, 5), (6, 7)]);
    assert_eq!(split_bounds(&chars_of(""), '|'), vec![(0, 0)]);
    assert_eq!(split_bounds(&chars_of("|"), '|'), vec![(0, 0), (1, 1)]);
    assert_eq!(split_bounds(&chars_of("ab"), '|'), vec![(0, 2)]);
    assert_eq!(split_bounds(&chars_of("a,b"), ','), vec![(0, 1), (2, 3)]);
}
