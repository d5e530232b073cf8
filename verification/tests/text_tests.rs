use luther::text::{parse_usize, split_ws, str_eq, usize_to_string};

#[test]
fn split_on_runs_of_whitespace() {
    let toks = split_ws("  - 0 \t E  1 E \n");
    assert_eq!(toks, vec!["-", "0", "E", "1", "E"]);
}

#[test]
fn split_on_unicode_whitespace() {
    let toks = split_ws("a\u{a0}b\u{2003}c");
    assert_eq!(toks, vec!["a", "b", "c"]);
}

#[test]
fn split_of_blank_line_is_empty() {
    assert_eq!(split_ws(""), Vec::<String>::new());
    assert_eq!(split_ws(" \t "), Vec::<String>::new());
}

#[test]
fn parse_decimal_values() {
    assert_eq!(parse_usize("0"), Some(0));
    assert_eq!(parse_usize("123"), Some(123));
    assert_eq!(parse_usize("007"), Some(7));
    assert_eq!(parse_usize(""), None);
    assert_eq!(parse_usize("E"), None);
    assert_eq!(parse_usize("1x"), None);
    assert_eq!(parse_usize("-1"), None);
    assert_eq!(parse_usize("99999999999999999999999999"), None);
}

#[test]
fn render_decimal_values() {
    assert_eq!(usize_to_string(0), "0");
    assert_eq!(usize_to_string(7), "7");
    assert_eq!(usize_to_string(1234), "1234");
}

#[test]
fn string_equality_by_characters() {
    assert!(str_eq("", ""));
    assert!(str_eq("IGNORE", "IGNORE"));
    assert!(!str_eq("IGNORE", "ignore"));
    assert!(!str_eq("ab", "abc"));
}
