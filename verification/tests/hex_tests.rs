use luther::alphabet_translator::{char_to_hex, char_to_hex_a_string, hex_to_char};

#[test]
fn trans_with_wacks() {
    assert_eq!("x61x62x5Cx61x62", char_to_hex_a_string("ab\\ab"));
}

#[test]
fn simple_str_trans() {
    assert_eq!("x61x62", char_to_hex_a_string("ab"));
}

#[test]
fn a_char() {
    assert_eq!("x61", char_to_hex('a'));
}

#[test]
fn space_char() {
    assert_eq!("x20", char_to_hex(' '));
}

#[test]
fn newline_char() {
    assert_eq!("x0A", char_to_hex('\n'));
}

#[test]
fn wack_char() {
    assert_eq!("x5C", char_to_hex('\\'));
}

#[test]
fn a_hex() {
    assert_eq!('a', hex_to_char("61"));
}

#[test]
fn space_hex() {
    assert_eq!(' ', hex_to_char("20"));
}

#[test]
fn newline_hex() {
    assert_eq!('\n', hex_to_char("0A"));
}

#[test]
fn wack_hex() {
    assert_eq!('\\', hex_to_char("5C"));
}

#[test]
fn lower_case_hex_accepted() {
    assert_eq!('\n', hex_to_char("0a"));
    assert_eq!('\\', hex_to_char("5c"));
    assert_eq!('\u{ff}', hex_to_char("ff"));
}

#[test]
fn hex_round_trip_all_bytes() {
    for b in 0u32..=255u32 {
        let c = char::from_u32(b).unwrap();
        let h = char_to_hex(c);
        assert_eq!(h.len(), 3);
        assert_eq!(&h[0..1], "x");
        assert_eq!(hex_to_char(&h[1..]), c);
    }
}

#[test]
fn encode_empty_string() {
    assert_eq!("", char_to_hex_a_string(""));
}
