use hyprscrolling_orchestrator::text::{
    chars_of, find_char, is_digit_char, is_space_char, join_strings, line_ranges, parse_digits,
    parse_signed, parse_unsigned, same_text, trim_range, write_decimal,
};

fn lines_of(text: &str) -> Vec<String> {
    let chars = chars_of(text);
    line_ranges(&chars).into_iter().map(|(a, b)| chars[a..b].iter().collect()).collect()
}

#[test]
fn chars_are_those_of_the_text() {
    assert_eq!(chars_of("a\u{e9}\u{1f600}"), vec!['a', '\u{e9}', '\u{1f600}']);
    assert_eq!(chars_of(""), Vec::<char>::new());
}

#[test]
fn lines_end_at_line_feeds() {
    assert_eq!(lines_of("a\nb\r\nc"), vec!["a", "b", "c"]);
    assert_eq!(lines_of("a\n"), vec!["a"]);
    assert_eq!(lines_of("a\n\nb"), vec!["a", "", "b"]);
    assert_eq!(lines_of("\n"), vec![""]);
    assert_eq!(lines_of(""), Vec::<String>::new());
}

#[test]
fn lines_agree_with_the_standard_library() {
    for text in ["", "\n", "\r\n", "a", "a\r", "a\r\n", "a\rb\n", "\r\r\n", "x\n\ny\r\n\r\nz\r", "\n\r"] {
        let expected: Vec<String> = text.lines().map(|l| l.to_string()).collect();
        assert_eq!(lines_of(text), expected, "for {text:?}");
    }
}

#[test]
fn whitespace_is_what_the_standard_library_calls_whitespace() {
    for code in 0..=0x3100u32 {
        if let Some(c) = char::from_u32(code) {
            assert_eq!(is_space_char(c), c.is_whitespace(), "for U+{code:04X}");
        }
    }
    assert!(!is_space_char('\u{feff}'));
    assert!(!is_space_char('\u{10ffff}'));
}

#[test]
fn digits_are_the_ascii_digits() {
    for code in 0..=0x800u32 {
        if let Some(c) = char::from_u32(code) {
            assert_eq!(is_digit_char(c), c.is_ascii_digit());
        }
    }
}

#[test]
fn trim_range_cuts_whitespace_at_both_ends() {
    let chars = chars_of("ab  c d \t.");
    assert_eq!(trim_range(&chars, 2, 9), (4, 7));
    assert_eq!(trim_range(&chars, 2, 4), (4, 4));
    assert_eq!(trim_range(&chars, 0, 10), (0, 10));
    assert_eq!(trim_range(&chars, 5, 5), (5, 5));
}

#[test]
fn find_char_gives_the_first_or_the_end() {
    let chars = chars_of("a.b.c");
    assert_eq!(find_char(&chars, 0, 5, '.'), 1);
    assert_eq!(find_char(&chars, 2, 5, '.'), 3);
    assert_eq!(find_char(&chars, 4, 5, '.'), 5);
    assert_eq!(find_char(&chars, 0, 1, '.'), 1);
}

#[test]
fn numbers_agree_with_the_standard_library() {
    let samples = [
        "", "0", "7", "007", "+7", "-7", "+", "-", "+-7", "--7", "7+", " 7", "7 ", "1_0", "12a",
        "9223372036854775807", "9223372036854775808", "-9223372036854775808",
        "-9223372036854775809", "18446744073709551615", "18446744073709551616",
        "000000000000000000000000000000001", "٣",
    ];
    for text in samples {
        let chars = chars_of(text);
        assert_eq!(parse_signed(&chars, 0, chars.len()), text.parse::<i64>().ok(), "for {text:?}");
        assert_eq!(
            parse_unsigned(&chars, 0, chars.len(), u64::MAX),
            text.parse::<u64>().ok(),
            "for {text:?}"
        );
        assert_eq!(
            parse_unsigned(&chars, 0, chars.len(), 255),
            text.parse::<u8>().ok().map(u64::from),
            "for {text:?}"
        );
    }
}

#[test]
fn digits_are_read_up_to_the_limit() {
    let chars = chars_of("x1234y");
    assert_eq!(parse_digits(&chars, 1, 5, 1234), Some(1234));
    assert_eq!(parse_digits(&chars, 1, 5, 1233), None);
    assert_eq!(parse_digits(&chars, 1, 3, 12), Some(12));
    assert_eq!(parse_digits(&chars, 0, 3, 100), None);
    assert_eq!(parse_digits(&chars, 2, 2, 100), None);
}

#[test]
fn same_text_compares_characters() {
    assert!(same_text("", ""));
    assert!(same_text("windows", "windows"));
    assert!(!same_text("windows", "Windows"));
    assert!(!same_text("window", "windows"));
}

#[test]
fn decimal_is_written_without_leading_zeros() {
    assert_eq!(write_decimal(0), "0");
    assert_eq!(write_decimal(9), "9");
    assert_eq!(write_decimal(10), "10");
    assert_eq!(write_decimal(1234567890), "1234567890");
    assert_eq!(write_decimal(u64::MAX), "18446744073709551615");
}

#[test]
fn join_puts_the_separator_between() {
    let parts = vec!["a".to_string(), String::new(), "c".to_string()];
    assert_eq!(join_strings(&parts, ", "), "a, , c");
    assert_eq!(join_strings(&parts[..1].to_vec(), ", "), "a");
    assert_eq!(join_strings(&Vec::new(), ", "), "");
}
