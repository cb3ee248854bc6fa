use fung::text::{
    chars_of, i64_decimal, lines, parse_i64, parse_u64_upto, split_char, split_whitespace, str_lt,
    string_of, trim, u64_decimal, utf8_len_at_most,
};

fn text(chars: &[char]) -> String {
    chars.iter().collect()
}

#[test]
fn trimming_follows_str_trim() {
    for sample in ["  a b  ", "\u{3000}ข้อความ\u{2003}", "", "   ", "\tx\n"] {
        assert_eq!(text(&trim(&chars_of(sample))), sample.trim(), "{sample:?}");
    }
}

#[test]
fn numbers_are_spelled_and_read_in_decimal() {
    assert_eq!(text(&u64_decimal(0)), "0");
    assert_eq!(text(&u64_decimal(u64::MAX)), u64::MAX.to_string());
    assert_eq!(text(&i64_decimal(i64::MIN)), i64::MIN.to_string());
    assert_eq!(text(&i64_decimal(-42)), "-42");
    assert_eq!(parse_i64(&chars_of("-9223372036854775808")), Some(i64::MIN));
    assert_eq!(parse_i64(&chars_of("9223372036854775808")), None);
    assert_eq!(parse_i64(&chars_of("+12")), "+12".parse::<i64>().ok());
    assert_eq!(parse_i64(&chars_of("")), None);
    assert_eq!(parse_u64_upto(&chars_of("00042"), 100), Some(42));
    assert_eq!(parse_u64_upto(&chars_of("101"), 100), None);
}

#[test]
fn texts_split_as_std_splits_them() {
    let words: Vec<String> = split_whitespace(&chars_of("  one two\tthree\n")).iter().map(|w| text(w)).collect();
    assert_eq!(words, vec!["one", "two", "three"]);
    let parts: Vec<String> = split_char(&chars_of("a,,b"), ',').iter().map(|p| text(p)).collect();
    assert_eq!(parts, vec!["a", "", "b"]);
    let ls: Vec<String> = lines(&chars_of("x\r\ny\n")).iter().map(|l| text(l)).collect();
    assert_eq!(ls, "x\r\ny\n".lines().collect::<Vec<_>>());
    assert_eq!(string_of(&chars_of("ข้อ")), "ข้อ");
}

#[test]
fn texts_compare_as_strings_compare() {
    assert!(str_lt("2026-01-01", "2026-02-01"));
    assert!(!str_lt("b", "a"));
    assert!(str_lt("a", "ab"));
    assert!(!str_lt("same", "same"));
    assert!(utf8_len_at_most(&chars_of("กข"), 6));
    assert!(!utf8_len_at_most(&chars_of("กข"), 5));
}
