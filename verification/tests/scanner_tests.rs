use luther::alphabet::Alphabet;
use luther::dfa::DFA;
use luther::scanner::{Scanner, TransitionTable};

#[test]
fn one_char_alphabet() {
    let mut b = Alphabet::new();
    b.insert('a', 0);
    assert_eq!(Scanner::alphabet_build("a").unwrap().0, b);
}

#[test]
fn two_char_alphabet() {
    let mut b = Alphabet::new();
    b.insert('a', 0);
    b.insert('b', 1);
    assert_eq!(Scanner::alphabet_build("ab").unwrap().0, b);
}

#[test]
fn new_line_alphabet() {
    let mut b = Alphabet::new();
    b.insert('\n', 0);
    assert_eq!(Scanner::alphabet_build("x0a").unwrap().0, b);
}

#[test]
fn ugly_symbols_line_alphabet() {
    let mut b = Alphabet::new();
    b.insert('\n', 0);
    b.insert(' ', 1);
    b.insert('\\', 2);
    assert_eq!(Scanner::alphabet_build("x0ax20x5C").unwrap(), (b, '\n'));
}

#[test]
fn alphabet_from_description() {
    let mut b = Alphabet::new();
    b.insert('\n', 0);
    b.insert(' ', 1);
    b.insert('\\', 2);
    b.insert('o', 3);
    b.insert('p', 4);
    b.insert('q', 5);
    b.insert('r', 6);
    b.insert('s', 7);
    assert_eq!(
        Scanner::alphabet_build("x0ax20x5C x6fpqrx73").unwrap(),
        (b, '\n')
    );
}

#[test]
fn empty_alphabet_line_rejected() {
    assert!(Scanner::alphabet_build("").is_err());
    assert!(Scanner::alphabet_build("   ").is_err());
}

#[test]
fn duplicate_alphabet_char_rejected() {
    assert!(Scanner::alphabet_build("aa").is_err());
    assert!(Scanner::alphabet_build("ax61").is_err());
}

#[test]
fn short_hex_escape_rejected() {
    // A literal x always opens an escape, so it cannot name itself.
    assert!(Scanner::alphabet_build("xx").is_err());
    assert!(Scanner::alphabet_build("ax0").is_err());
    assert!(Scanner::alphabet_build("xzz").is_err());
}

#[test]
fn alphabet_lookup_is_dense() {
    let (a, nl) = Scanner::alphabet_build("x0ax20x5C x6fpqrx73").unwrap();
    assert_eq!(nl, '\n');
    assert_eq!(a.len(), 8);
    assert_eq!(a.lookup('\n'), Some(0));
    assert_eq!(a.lookup(' '), Some(1));
    assert_eq!(a.lookup('\\'), Some(2));
    assert_eq!(a.lookup('o'), Some(3));
    assert_eq!(a.lookup('s'), Some(7));
    assert_eq!(a.lookup('z'), None);
}

#[test]
fn tt_from_str_with_replace() {
    let (file, id, replace) =
        TransitionTable::parse_line("wiki/whackamole.tt     whack         x5cooox5cx20x5cooox5c")
            .unwrap();
    assert_eq!(id, "whack".to_string());
    assert_eq!(replace, Some("x5cooox5cx20x5cooox5c".to_string()));
    assert_eq!(file, "wiki/whackamole.tt".to_string());
}

#[test]
fn tt_from_str_no_replace() {
    let (file, id, replace) = TransitionTable::parse_line("wiki/nots.tt           opqr").unwrap();
    assert_eq!(id, "opqr".to_string());
    assert_eq!(replace, None);
    assert_eq!(file, "wiki/nots.tt".to_string());
}

#[test]
fn tt_from_empty_str() {
    assert!(TransitionTable::parse_line("").is_err());
    assert!(TransitionTable::parse_line("only_one_field").is_err());
    assert!(TransitionTable::parse_line("one two three four").is_err());
}

#[test]
fn tt_from_str_empty_file() {
    // An empty DFA file is a valid (zero-row) table behind an entry line.
    let (file, id, replace) =
        TransitionTable::parse_line("tests/empty_file.tt           opqr").unwrap();
    assert_eq!(id, "opqr".to_string());
    assert_eq!(replace, None);
    assert_eq!(file, "tests/empty_file.tt".to_string());
    let dfa = DFA::from_lines(&Vec::new());
    assert_eq!(dfa.len(), 0);
    let entry = TransitionTable::new(dfa, id, replace);
    assert_eq!(entry.id, "opqr".to_string());
}

#[test]
fn entry_lines_accumulate_until_first_bad_line() {
    let lines: Vec<String> = [
        "wiki/noto.tt           pqrs",
        "wiki/whackamole.tt     whack         x5cooox5cx20x5cooox5c",
        "",
        "wiki/nots.tt           opqr",
    ]
    .iter()
    .map(|x| x.to_string())
    .collect();
    let entries = TransitionTable::parse_lines(&lines);
    assert_eq!(
        entries,
        vec![
            ("wiki/noto.tt".to_string(), "pqrs".to_string(), None),
            (
                "wiki/whackamole.tt".to_string(),
                "whack".to_string(),
                Some("x5cooox5cx20x5cooox5c".to_string())
            ),
        ]
    );
}

#[test]
fn scanner_well_formedness() {
    let (alpha, nl) = Scanner::alphabet_build("x0ax20x5C x6fpqrx73").unwrap();
    let rows = vec!["- 0 E E E E 1 1 1 1".to_string(), "+ 1 E E E E 1 1 1 1".to_string()];
    let good = Scanner::new(
        nl,
        alpha.clone(),
        vec![TransitionTable::new(DFA::from_lines(&rows), "pqrs".to_string(), None)],
    );
    assert!(good.is_well_formed());
    assert_eq!(good.get_alpha(), alpha);
    assert_eq!(good.get_trans().len(), 1);

    // A row with too few transition columns for the alphabet.
    let narrow = vec!["+ 0 1 1".to_string()];
    let bad = Scanner::new(
        nl,
        alpha.clone(),
        vec![TransitionTable::new(DFA::from_lines(&narrow), "pqrs".to_string(), None)],
    );
    assert!(!bad.is_well_formed());

    // A zero-row table has no start state.
    let empty = Scanner::new(
        nl,
        alpha,
        vec![TransitionTable::new(DFA::from_lines(&Vec::new()), "pqrs".to_string(), None)],
    );
    assert!(!empty.is_well_formed());
}
