use appoptr::text::{
    bytes_below, decimal_i64, decimal_u64, ends_str, join_lines, lowered, next_word, parse_digits,
    parse_unsigned, replace_str, rfind_char, split_lines, split_pieces, string_of, text2, text3,
    text5, trimmed_str, with_control,
};

fn chars(s: &str) -> Vec<char> {
    s.chars().collect()
}

fn shown(lines: &[Vec<char>]) -> Vec<String> {
    lines.iter().map(|l| l.iter().collect()).collect()
}

#[test]
fn numbers_are_written_and_read() {
    assert_eq!(string_of(&decimal_u64(0)), "0");
    assert_eq!(string_of(&decimal_u64(u64::MAX)), "18446744073709551615");
    assert_eq!(string_of(&decimal_i64(i64::MIN)), "-9223372036854775808");
    assert_eq!(string_of(&decimal_i64(-7)), "-7");
    assert_eq!(parse_digits(&chars("0042")), Some(42));
    assert_eq!(parse_digits(&chars("18446744073709551615")), Some(u64::MAX));
    assert_eq!(parse_digits(&chars("18446744073709551616")), None);
    assert_eq!(parse_unsigned(&chars("+7"), 10), Some(7));
    assert_eq!(parse_unsigned(&chars("11"), 10), None);
    assert_eq!(parse_unsigned(&chars("+"), 10), None);
    assert_eq!(parse_unsigned(&chars("-1"), 10), None);
}

#[test]
fn lines_are_split_and_joined() {
    assert_eq!(shown(&split_lines(&chars("a\r\nb\n\nc"))), ["a", "b", "", "c"]);
    assert_eq!(shown(&split_lines(&chars("a\n"))), ["a"]);
    assert!(split_lines(&chars("")).is_empty());
    assert_eq!(join_lines(&vec![chars("a"), chars("b")]), "a\nb\n");
    assert_eq!(join_lines(&Vec::new()), "\n");
}

#[test]
fn texts_are_searched() {
    assert_eq!(rfind_char(&chars("a=b=c"), '='), Some(3));
    assert_eq!(rfind_char(&chars("abc"), '='), None);
    assert!(ends_str(&chars("host:8889"), ":8889"));
    assert_eq!(shown(&split_pieces(&chars("a//b"), '/')), ["a", "", "b"]);
    assert_eq!(
        string_of(&replace_str(&chars("u{x}{x}"), "{x}", &chars("7"))),
        "u77"
    );
    let line = chars("  GET /x");
    let (word, rest) = next_word(&line).unwrap();
    assert_eq!(word, chars("GET"));
    assert_eq!(rest, &chars(" /x")[..]);
    assert!(next_word(&chars("  ")).is_none());
}

#[test]
fn texts_are_measured_in_bytes() {
    assert!(bytes_below(&chars("abc"), 4));
    assert!(!bytes_below(&chars("abc"), 3));
    assert!(!bytes_below(&chars("\u{4e2d}"), 3));
    assert!(bytes_below(&chars("\u{4e2d}"), 4));
    assert!(with_control(&chars("a\u{7f}")));
    assert!(!with_control(&chars("a b")));
}

#[test]
fn texts_are_changed() {
    assert_eq!(string_of(&lowered(&chars("AbC\u{c4}"))), "abc\u{c4}");
    assert_eq!(trimmed_str(" \u{3000}a b\t"), chars("a b"));
    assert_eq!(text2("a", "b"), "ab");
    assert_eq!(text3("a", "b", "c"), "abc");
    assert_eq!(text5("a", "b", "c", "d", "e"), "abcde");
}
