use rust_server::fibonacci::fibonacci;
use rust_server::text::{
    ascii_lowered, ascii_tokens, bracket_join, char_is_ascii_whitespace, char_is_whitespace,
    parse_usize, str_eq, trimmed, usize_to_string,
};

#[test]
fn white_space_is_what_std_says() {
    let mut code = 0u32;
    while code <= 0x10ffff {
        if let Some(c) = char::from_u32(code) {
            assert_eq!(c.is_whitespace(), char_is_whitespace(c));
            if c.is_ascii() {
                assert_eq!((c as u8).is_ascii_whitespace(), char_is_ascii_whitespace(c));
            } else {
                assert!(!char_is_ascii_whitespace(c));
            }
        }
        code += 1;
    }
}

#[test]
fn trimmed_is_what_std_says() {
    for s in ["", " ", "a", "  a b \t", "\u{a0}x\u{3000}", "\r\n", " \u{85}\u{2028} y"] {
        assert_eq!(s.trim(), trimmed(s));
    }
}

#[test]
fn tokens_are_what_std_says() {
    for s in ["", "  ", "a", " a  b\tc\n", "a\u{b}b c", "x\u{a0}y z "] {
        let expected: Vec<&str> = s.split_ascii_whitespace().collect();
        assert_eq!(expected, ascii_tokens(s));
    }
}

#[test]
fn numbers_are_read_as_std_reads_them() {
    let max = usize::MAX.to_string();
    let over = format!("{}0", max);
    for s in ["", "+", "0", "007", "+12", "-1", "12a", " 1", "1 ", "١", max.as_str(), over.as_str()] {
        assert_eq!(s.parse::<usize>().ok(), parse_usize(s));
    }
    assert_eq!(Some(42), parse_usize("42"));
}

#[test]
fn numbers_are_written_in_decimal() {
    for n in [0, 1, 9, 10, 99, 100, 12345, usize::MAX] {
        assert_eq!(n.to_string(), usize_to_string(n));
        assert_eq!(Some(n), parse_usize(&usize_to_string(n)));
    }
}

#[test]
fn ascii_capitals_are_lowered() {
    assert_eq!("content-length \u{c4}@[`{", ascii_lowered("Content-LENGTH \u{c4}@[`{"));
    assert!(str_eq("abc", "abc"));
    assert!(!str_eq("abc", "abd"));
    assert!(!str_eq("abc", "ab"));
}

#[test]
fn lists_are_printed_between_brackets() {
    assert_eq!("[]", bracket_join(&vec![]));
    assert_eq!("[a]", bracket_join(&vec!["a".to_owned()]));
    assert_eq!("[a, b]", bracket_join(&vec!["a".to_owned(), "b".to_owned()]));
}

#[test]
fn fibonacci_numbers() {
    let expected = [0u32, 1, 1, 2, 3, 5, 8, 13, 21, 34];
    for (n, value) in expected.iter().enumerate() {
        assert_eq!(*value, fibonacci(n as u32));
    }
    assert_eq!(2971215073, fibonacci(47));
}
