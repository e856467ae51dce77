use labs::text::{chars_of, contains_chars, first_two_pieces, last_piece_of, parse_usize_chars, split_chars, split_whitespace, trim_end_chars};

#[test]
fn splitting_text() {
    assert_eq!(split_chars("a  b", ' '), vec!["a", "", "b"]);
    assert_eq!(split_chars("", ' '), vec![""]);
    assert_eq!(split_whitespace("  a \t b\n"), vec!["a", "b"]);
    assert!(split_whitespace(" \n").is_empty());
    assert_eq!(trim_end_chars("x y \n\t"), "x y");
    let (first, second) = first_two_pieces(&chars_of("larger:10:x"), ':');
    assert_eq!(first, chars_of("larger"));
    assert_eq!(second, Some(chars_of("10")));
    assert_eq!(last_piece_of(&chars_of("a.b.txt"), '.'), chars_of("txt"));
}

#[test]
fn searching_and_parsing() {
    assert!(contains_chars(&chars_of("ciao mondo"), &chars_of("o m")));
    assert!(!contains_chars(&chars_of("ciao"), &chars_of("mondo")));
    assert_eq!(parse_usize_chars(&chars_of("+42")), Some(42));
    assert_eq!(parse_usize_chars(&chars_of("4x")), None);
    assert_eq!(parse_usize_chars(&chars_of("")), None);
    assert_eq!(parse_usize_chars(&chars_of("99999999999999999999999")), None);
}

#[test]
fn unicode_white_space_separates_words() {
    assert_eq!(
        split_whitespace("a\u{3000}b\u{85}c\u{2009}d\u{200b}e"),
        vec!["a", "b", "c", "d\u{200b}e"]
    );
    assert_eq!(trim_end_chars("ab\u{a0}\u{2028}\t "), "ab");
}

#[test]
fn white_space_agrees_with_std_on_every_char() {
    for n in 0u32..=0x10ffff {
        if let Some(c) = char::from_u32(n) {
            let text = format!("a{}b", c);
            let expected = if c.is_whitespace() { 2 } else { 1 };
            assert_eq!(split_whitespace(&text).len(), expected, "{:x}", n);
        }
    }
}
