use diorama::decimal::{parse_usize, push_decimal};
use diorama::text::{line_end, skip_token, skip_whitespace, trim_bounds};
use diorama::utf8::is_valid_utf8;

fn parse_all(s: &[u8]) -> Option<usize> {
    parse_usize(s, 0, s.len())
}

#[test]
fn parse_usize_reads_like_str_parse() {
    for text in ["0", "7", "+7", "007", "255", "+0255", "18446744073709551615", "", "+", "-0", "1 ", " 1", "1a", "++1"] {
        let expected: Option<usize> = text.parse::<usize>().ok();
        assert_eq!(parse_all(text.as_bytes()), expected, "reading {:?}", text);
    }
    assert_eq!(parse_all(b"99999999999999999999999"), None);
    assert_eq!(parse_usize(b"x123y", 1, 4), Some(123));
}

#[test]
fn push_decimal_appends_digits() {
    let mut out = b"n=".to_vec();
    push_decimal(&mut out, 0);
    assert_eq!(out, b"n=0".to_vec());
    push_decimal(&mut out, 90210);
    assert_eq!(out, b"n=090210".to_vec());
    let mut max = Vec::new();
    push_decimal(&mut max, usize::MAX);
    assert_eq!(max, usize::MAX.to_string().into_bytes());
}

#[test]
fn lines_end_after_line_feed() {
    let s = b"ab\ncd\n\nef";
    assert_eq!(line_end(s, 0), 3);
    assert_eq!(line_end(s, 3), 6);
    assert_eq!(line_end(s, 6), 7);
    assert_eq!(line_end(s, 7), 9);
    assert_eq!(line_end(s, 9), 9);
}

#[test]
fn trimming_and_tokens() {
    let s = b" \t ab c\r\n";
    assert_eq!(trim_bounds(s, 0, s.len()), (3, 7));
    assert_eq!(skip_whitespace(s, 0, s.len()), 3);
    assert_eq!(skip_token(s, 3, s.len()), 5);
    assert_eq!(skip_whitespace(s, 5, s.len()), 6);
    assert_eq!(skip_token(s, 6, s.len()), 7);
    let blank = b" \x0b\x0c ";
    let (a, b) = trim_bounds(blank, 0, blank.len());
    assert_eq!(a, b);
}

#[test]
fn unicode_whitespace_is_trimmed_like_str_trim() {
    let texts = ["\u{a0}ab\u{3000}", "\u{1680} x \u{2028}", "\u{200a}\u{2009}", "é ", " \u{85}\u{202f}q", "\u{200b}z"];
    for text in texts {
        let s = text.as_bytes();
        let (a, b) = trim_bounds(s, 0, s.len());
        assert_eq!(&text[a..b], text.trim(), "trimming {:?}", text);
    }
}

#[test]
fn tokens_split_like_split_whitespace() {
    let text = "\u{a0}12\u{2001}ab\u{3000}\u{3000}c";
    let s = text.as_bytes();
    let mut tokens = Vec::new();
    let mut i = 0;
    loop {
        let a = skip_whitespace(s, i, s.len());
        if a == s.len() {
            break;
        }
        let b = skip_token(s, a, s.len());
        tokens.push(&text[a..b]);
        i = b;
    }
    assert_eq!(tokens, text.split_whitespace().collect::<Vec<_>>());
}

#[test]
fn utf8_check_agrees_with_std() {
    let cases: [&[u8]; 10] = [
        b"", b"abc", "é\u{3000}\u{1f600}".as_bytes(), b"\xff", b"\xc2", b"\xc0\x80",
        b"\xed\xa0\x80", b"\xf4\x90\x80\x80", b"\xe2\x82", b"a\xe2\x82\xacb",
    ];
    for bytes in cases {
        assert_eq!(is_valid_utf8(bytes, 0, bytes.len()), std::str::from_utf8(bytes).is_ok(), "{:?}", bytes);
    }
    assert!(is_valid_utf8(b"\xffab", 1, 3));
}
