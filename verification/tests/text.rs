use chemtool::text::{
    char_width, holds, parse_unsigned, push_decimal, string_of, to_chars, CharClass,
};

fn chars(s: &str) -> Vec<char> {
    s.chars().collect()
}

fn parsed(s: &str, max: u32) -> Option<u32> {
    let v = chars(s);
    parse_unsigned(&v, 0, v.len(), max)
}

#[test]
fn characters_of_a_text() {
    assert_eq!(to_chars("H\u{e9}\u{20ac}\u{1f600}"), vec!['H', '\u{e9}', '\u{20ac}', '\u{1f600}']);
    assert_eq!(to_chars(""), Vec::new());
    assert_eq!(string_of(&chars("water"), 1, 4), "ate");
    assert_eq!(string_of(&chars("water"), 2, 2), "");
}

#[test]
fn widths_are_those_of_utf8() {
    for c in ['\0', 'a', '\u{7f}', '\u{80}', '\u{7ff}', '\u{800}', '\u{ffff}', '\u{10000}', '\u{10ffff}']
    {
        assert_eq!(char_width(c), c.len_utf8());
    }
}

#[test]
fn unsigned_numbers_are_read_as_the_standard_library_reads_them() {
    let texts = [
        "0", "7", "007", "+7", "65535", "65536", "4294967295", "4294967296", "99999999999999999999",
        "", "+", "-1", "1+", "1 ", " 1", "1a", "\u{663}", "++1", "0000000000000000000000001",
    ];
    for text in texts.iter() {
        assert_eq!(parsed(text, u32::MAX), text.parse::<u32>().ok(), "{:?}", text);
        assert_eq!(
            parsed(text, 65535).map(|n| n as u16),
            text.parse::<u16>().ok(),
            "{:?}",
            text
        );
    }
}

#[test]
fn part_of_a_text_is_read() {
    let v = chars("C23H");
    assert_eq!(parse_unsigned(&v, 1, 3, u32::MAX), Some(23));
    assert_eq!(parse_unsigned(&v, 1, 4, u32::MAX), None);
    assert_eq!(parse_unsigned(&v, 1, 1, u32::MAX), None);
    assert_eq!(parse_unsigned(&v, 1, 3, 22), None);
    assert_eq!(parse_unsigned(&v, 1, 3, 23), Some(23));
}

#[test]
fn numbers_are_written_in_decimal() {
    for n in [0, 1, 9, 10, 11, 99, 100, 4294967295] {
        let mut out = "x".to_string();
        push_decimal(&mut out, n);
        assert_eq!(out, format!("x{}", n));
    }
}

#[test]
fn classes_are_those_of_unicode() {
    for c in ['a', 'Z', '7', ' ', '\t', '\n', '\u{e9}', '\u{c9}', '\u{663}', '\u{a0}', '+', '\u{2003}'] {
        assert_eq!(holds(CharClass::Lowercase, c), c.is_lowercase(), "{:?}", c);
        assert_eq!(holds(CharClass::Numeric, c), c.is_numeric(), "{:?}", c);
        assert_eq!(holds(CharClass::Whitespace, c), c.is_whitespace(), "{:?}", c);
    }
    assert!(holds(CharClass::Lowercase, 'a') && !holds(CharClass::Lowercase, 'A'));
    assert!(holds(CharClass::Numeric, '7') && !holds(CharClass::Numeric, 'a'));
    assert!(holds(CharClass::Whitespace, ' ') && !holds(CharClass::Whitespace, '_'));
}
