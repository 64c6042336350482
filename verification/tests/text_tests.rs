use scan_code_sync::text::{
    chars_eq, chars_eq_str, chars_of, contains_chars, decimal_string, find, is_whitespace_char,
    lines_of, parse_i32_chars, parse_u16, parse_u32, parse_u64, push_str, split_chars,
    split_once_chars, string_from, trim_chars, trim_end_chars, trim_start_chars,
};

fn c(s: &str) -> Vec<char> {
    s.chars().collect()
}

#[test]
fn chars_round_trip() {
    let v = chars_of("héllo");
    assert_eq!(v, vec!['h', 'é', 'l', 'l', 'o']);
    assert_eq!(string_from(&v), "héllo");
}

#[test]
fn push_str_appends() {
    let mut v = c("ab");
    push_str(&mut v, "cd");
    assert_eq!(string_from(&v), "abcd");
}

#[test]
fn chars_equality() {
    assert!(chars_eq(&c("abc"), &c("abc")));
    assert!(!chars_eq(&c("abc"), &c("abd")));
    assert!(!chars_eq(&c("abc"), &c("ab")));
    assert!(chars_eq_str(&c("key"), "key"));
    assert!(!chars_eq_str(&c("key"), "Key"));
}

#[test]
fn split_chars_keeps_empty_pieces() {
    let pieces: Vec<String> = split_chars(&c("a,,b,"), ',').iter().map(|p| string_from(p)).collect();
    assert_eq!(pieces, vec!["a", "", "b", ""]);
    let single: Vec<String> = split_chars(&c(""), ',').iter().map(|p| string_from(p)).collect();
    assert_eq!(single, vec![""]);
}

#[test]
fn find_and_contains() {
    assert_eq!(find(&c("abcabc"), &c("ca")), Some(2));
    assert_eq!(find(&c("abc"), &c("x")), None);
    assert_eq!(find(&c("abc"), &c("")), Some(0));
    assert!(contains_chars(&c("hello world"), &c("o w")));
    assert!(!contains_chars(&c("hello"), &c("hello!")));
}

#[test]
fn split_once_at_first_occurrence() {
    let (a, b) = split_once_chars(&c("a-b-c"), &c("-")).unwrap();
    assert_eq!(string_from(&a), "a");
    assert_eq!(string_from(&b), "b-c");
    assert!(split_once_chars(&c("abc"), &c("-")).is_none());
}

#[test]
fn parse_unsigned_numbers() {
    assert_eq!(parse_u64(&c("1700000000000")), Some(1700000000000));
    assert_eq!(parse_u64(&c("+7")), Some(7));
    assert_eq!(parse_u64(&c("")), None);
    assert_eq!(parse_u64(&c("-1")), None);
    assert_eq!(parse_u64(&c("18446744073709551616")), None);
    assert_eq!(parse_u32(&c("4294967295")), Some(4294967295));
    assert_eq!(parse_u32(&c("4294967296")), None);
    assert_eq!(parse_u16(&c("65535")), Some(65535));
    assert_eq!(parse_u16(&c("65536")), None);
    assert_eq!(parse_u16(&c(" 5")), None);
}

#[test]
fn parse_signed_numbers() {
    assert_eq!(parse_i32_chars(&c("-2147483648")), Some(-2147483648));
    assert_eq!(parse_i32_chars(&c("2147483647")), Some(2147483647));
    assert_eq!(parse_i32_chars(&c("2147483648")), None);
    assert_eq!(parse_i32_chars(&c("+12")), Some(12));
    assert_eq!(parse_i32_chars(&c("-")), None);
}

#[test]
fn lines_like_str_lines() {
    for text in ["a\nb\r\nc", "a\n", "", "\n\n", "x\r", "one\r\n\r\ntwo\n"] {
        let got: Vec<String> = lines_of(&c(text)).iter().map(|l| string_from(l)).collect();
        let want: Vec<String> = text.lines().map(|l| l.to_string()).collect();
        assert_eq!(got, want, "text {:?}", text);
    }
}

#[test]
fn trimming_like_str_trim() {
    for text in ["  a b  ", "\t\n x", "y \u{3000}", "", "   "] {
        assert_eq!(string_from(&trim_chars(&c(text))), text.trim());
        assert_eq!(string_from(&trim_start_chars(&c(text))), text.trim_start());
        assert_eq!(string_from(&trim_end_chars(&c(text))), text.trim_end());
    }
}

#[test]
fn whitespace_like_char_is_whitespace() {
    for ch in [' ', '\t', '\n', '\u{85}', '\u{a0}', '\u{2028}', 'a', '0', '\u{200b}'] {
        assert_eq!(is_whitespace_char(ch), ch.is_whitespace(), "char {:?}", ch);
    }
}

#[test]
fn decimal_text() {
    assert_eq!(decimal_string(0), "0");
    assert_eq!(decimal_string(907), "907");
    assert_eq!(decimal_string(u64::MAX), "18446744073709551615");
}
