use bind_studio::text::{
    chars_of, contains_crlf, is_whitespace, join_strings, lines_of, parse_u8, push_dec,
    push_dec_padded, replace_crlf, split_at_char, split_words, str_lt, string_from, trimmed,
};

fn chars(s: &str) -> Vec<char> {
    chars_of(s)
}

fn text(v: &[char]) -> String {
    string_from(v)
}

#[test]
fn whitespace_is_unicode_white_space() {
    for c in [' ', '\t', '\n', '\r', '\u{b}', '\u{c}', '\u{85}', '\u{a0}', '\u{2003}', '\u{3000}'] {
        assert!(is_whitespace(c), "{:?}", c);
        assert_eq!(is_whitespace(c), c.is_whitespace());
    }
    for c in ['a', '_', '\u{200b}', '\u{feff}', '0'] {
        assert!(!is_whitespace(c));
        assert_eq!(is_whitespace(c), c.is_whitespace());
    }
}

#[test]
fn trimming_and_splitting_follow_str() {
    for s in ["", "  ", " a ", "\u{a0}Device 7  KEY_J\t->  Atk1 \u{3000}", "x"] {
        assert_eq!(text(&trimmed(&chars(s))), s.trim());
        let words: Vec<String> = split_words(&chars(s)).iter().map(|w| text(w)).collect();
        let expected: Vec<&str> = s.split_whitespace().collect();
        assert_eq!(words, expected);
    }
    for s in ["", "+", "a+b", "+a++b+"] {
        let pieces: Vec<String> = split_at_char(&chars(s), '+').iter().map(|w| text(w)).collect();
        let expected: Vec<&str> = s.split('+').collect();
        assert_eq!(pieces, expected);
    }
}

#[test]
fn bytes_parse_like_str_parse() {
    for s in ["0", "7", "+7", "007", "255", "256", "", "+", "-1", "-0", " 1", "1 ", "x", "99999999999"] {
        assert_eq!(parse_u8(&chars(s)), s.parse::<u8>().ok(), "{:?}", s);
    }
}

#[test]
fn numbers_are_written_in_decimal() {
    let mut out = String::from("n=");
    push_dec(&mut out, 0);
    assert_eq!(out, "n=0");
    let mut out = String::new();
    push_dec(&mut out, 4_294_967_295);
    assert_eq!(out, "4294967295");
    let mut out = String::new();
    push_dec_padded(&mut out, 7, 3);
    assert_eq!(out, "007");
    let mut out = String::new();
    push_dec_padded(&mut out, 1234, 3);
    assert_eq!(out, "1234");
}

#[test]
fn lines_and_line_endings_follow_str() {
    for s in ["", "a", "a\n", "a\n\nb", "a\r\nb\r\n", "a\rb\r", "\n", "\r\r\n", "x\r\n\r"] {
        let replaced = text(&replace_crlf(&chars(s)));
        assert_eq!(replaced, s.replace("\r\n", "\n"), "{:?}", s);
        let lines = lines_of(&chars(&replaced));
        let expected: Vec<&str> = replaced.lines().collect();
        assert_eq!(lines, expected, "{:?}", s);
        assert_eq!(contains_crlf(&chars(s)), s.contains("\r\n"));
    }
    let pieces = vec!["a".to_owned(), String::new(), "b".to_owned()];
    assert_eq!(join_strings(&pieces, "\r\n"), "a\r\n\r\nb");
    assert_eq!(join_strings(&Vec::new(), "-"), "");
}

#[test]
fn strings_order_like_string() {
    let samples = ["", "a", "ab", "b", "KEY_A", "KEY_a", "KEY_\u{e9}", "KEY_Z"];
    for a in samples {
        for b in samples {
            assert_eq!(str_lt(a, b), a < b, "{:?} {:?}", a, b);
        }
    }
}
