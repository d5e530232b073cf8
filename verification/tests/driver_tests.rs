use luther::dfa::DFA;
use luther::driver::{Driver, TokenizeError};
use luther::scanner::{Scanner, TransitionTable};

fn lines(xs: &[&str]) -> Vec<String> {
    xs.iter().map(|x| x.to_string()).collect()
}

/// Runs of {p, q, r, s} over the wiki alphabet.
fn noto_rows() -> Vec<String> {
    lines(&["- 0 E E E E 1 1 1 1", "+ 1 E E E E 1 1 1 1"])
}

/// Runs of whitespace (newline and space) over the wiki alphabet.
fn whitespace_rows() -> Vec<String> {
    lines(&["- 0 1 1 E E E E E E", "+ 1 1 1 E E E E E E"])
}

fn pqrs_scanner() -> Scanner {
    let (alpha, nl) = Scanner::alphabet_build("x0ax20x5C x6fpqrx73").unwrap();
    let s = Scanner::new(
        nl,
        alpha,
        vec![TransitionTable::new(DFA::from_lines(&noto_rows()), "pqrs".to_string(), None)],
    );
    assert!(s.is_well_formed());
    s
}

#[test]
fn single_token_line() {
    let scanner = pqrs_scanner();
    let (out, err) = Driver::run(&scanner, "pqrs");
    assert_eq!(out, "pqrs x70x71x72x73 1 1\n");
    assert_eq!(err, None);
}

#[test]
fn no_rule_match_aborts_with_position() {
    let scanner = pqrs_scanner();
    let (out, err) = Driver::run(&scanner, "pqrso");
    assert_eq!(out, "pqrs x70x71x72x73 1 1\n");
    assert_eq!(err, Some(TokenizeError::NoRuleMatch { line: 1, column: 5 }));
}

#[test]
fn ignore_rule_suppresses_token_and_tracks_lines() {
    let (alpha, nl) = Scanner::alphabet_build("x0ax20x5C x6fpqrx73").unwrap();
    let scanner = Scanner::new(
        nl,
        alpha,
        vec![
            TransitionTable::new(DFA::from_lines(&noto_rows()), "pqrs".to_string(), None),
            TransitionTable::new(DFA::from_lines(&whitespace_rows()), "IGNORE".to_string(), None),
        ],
    );
    assert!(scanner.is_well_formed());
    let (out, err) = Driver::run(&scanner, "pqrs\npq");
    assert_eq!(out, "pqrs x70x71x72x73 1 1\npqrs x70x71 2 1\n");
    assert_eq!(err, None);
}

#[test]
fn replace_with_is_emitted_verbatim() {
    let (alpha, nl) = Scanner::alphabet_build("x0ax20x5C x6f").unwrap();
    // Exactly the text \ooo\ \ooo\ over the alphabet {newline, space, \, o}.
    let whack_rows = lines(&[
        "- 0 E E 1 E",
        "- 1 E E E 2",
        "- 2 E E E 3",
        "- 3 E E E 4",
        "- 4 E E 5 E",
        "- 5 E 6 E E",
        "- 6 E E 7 E",
        "- 7 E E E 8",
        "- 8 E E E 9",
        "- 9 E E E 10",
        "- 10 E E 11 E",
        "+ 11 E E E E",
    ]);
    let scanner = Scanner::new(
        nl,
        alpha,
        vec![TransitionTable::new(
            DFA::from_lines(&whack_rows),
            "whack".to_string(),
            Some("x5cooox5cx20x5cooox5c".to_string()),
        )],
    );
    assert!(scanner.is_well_formed());
    let (out, err) = Driver::run(&scanner, "\\ooo\\ \\ooo\\");
    assert_eq!(out, "whack x5cooox5cx20x5cooox5c 1 1\n");
    assert_eq!(err, None);
}

#[test]
fn unknown_character_aborts() {
    let scanner = pqrs_scanner();
    let (out, err) = Driver::run(&scanner, "pqz");
    assert_eq!(out, "");
    assert_eq!(err, Some(TokenizeError::CharNotInAlphabet));
}

#[test]
fn empty_source_emits_nothing() {
    let scanner = pqrs_scanner();
    let (out, err) = Driver::run(&scanner, "");
    assert_eq!(out, "");
    assert_eq!(err, None);
}

#[test]
fn runs_are_deterministic() {
    let scanner = pqrs_scanner();
    let first = Driver::run(&scanner, "pqrs pqrs");
    let second = Driver::run(&scanner, "pqrs pqrs");
    assert_eq!(first, second);
}

#[test]
fn earlier_table_wins_ties() {
    let (alpha, nl) = Scanner::alphabet_build("x0ax20x5C x6fpqrx73").unwrap();
    // Two tables matching the same runs; the first one must name the token.
    let scanner = Scanner::new(
        nl,
        alpha,
        vec![
            TransitionTable::new(DFA::from_lines(&noto_rows()), "first".to_string(), None),
            TransitionTable::new(DFA::from_lines(&noto_rows()), "second".to_string(), None),
        ],
    );
    assert!(scanner.is_well_formed());
    let (out, err) = Driver::run(&scanner, "pq");
    assert_eq!(out, "first x70x71 1 1\n");
    assert_eq!(err, None);
}

#[test]
fn lexeme_lengths_cover_the_source() {
    let (alpha, nl) = Scanner::alphabet_build("x0ax20x5C x6fpqrx73").unwrap();
    let scanner = Scanner::new(
        nl,
        alpha,
        vec![
            TransitionTable::new(DFA::from_lines(&noto_rows()), "pqrs".to_string(), None),
            TransitionTable::new(DFA::from_lines(&whitespace_rows()), "ws".to_string(), None),
        ],
    );
    assert!(scanner.is_well_formed());
    let source = "pqrs pq\nrs  q";
    let (out, err) = Driver::run(&scanner, source);
    assert_eq!(err, None);
    // Each payload hex-encodes its lexeme, three characters per source byte.
    let total: usize = out
        .lines()
        .map(|l| l.split_whitespace().nth(1).unwrap().len() / 3)
        .sum();
    assert_eq!(total, source.len());
}
