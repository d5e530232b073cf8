use luther::alphabet::Alphabet;
use luther::dfa::{Row, DFA};
use luther::regex::{Regex, ScanError};

fn wiki_alphabet() -> Alphabet {
    let mut a = Alphabet::new();
    a.insert('\n', 0);
    a.insert(' ', 1);
    a.insert('\\', 2);
    a.insert('o', 3);
    a.insert('p', 4);
    a.insert('q', 5);
    a.insert('r', 6);
    a.insert('s', 7);
    a
}

fn dfa(rows: &[&str]) -> DFA {
    let mut v: Vec<Row> = Vec::new();
    for (i, line) in rows.iter().enumerate() {
        let row = Row::from_str_custom(line).unwrap();
        assert_eq!(row.id, i);
        v.push(row);
    }
    DFA::new(v)
}

/// Runs of {p, q, r, s}.
fn noto_dfa() -> DFA {
    dfa(&["- 0 E E E E 1 1 1 1", "+ 1 E E E E 1 1 1 1"])
}

/// Runs of {o, p, q, r}.
fn nots_dfa() -> DFA {
    dfa(&["- 0 E E E 1 1 1 1 E", "+ 1 E E E 1 1 1 1 E"])
}

/// Words over {o, p, q, r, s} that end in q and do not start with s.
fn endsq_dfa() -> DFA {
    dfa(&["- 0 E E E 2 2 1 2 E", "+ 1 E E E 2 2 1 2 2", "- 2 E E E 2 2 1 2 2"])
}

/// Two words of two to four letters, each followed by spaces.
fn twosmallwords_dfa() -> DFA {
    dfa(&[
        "- 0 E E E 1 1 1 1 1",
        "- 1 E E E 2 2 2 2 2",
        "- 2 E 5 E 3 3 3 3 3",
        "- 3 E 5 E 4 4 4 4 4",
        "- 4 E 5 E E E E E E",
        "- 5 E 5 E 6 6 6 6 6",
        "- 6 E E E 7 7 7 7 7",
        "- 7 E 10 E 8 8 8 8 8",
        "- 8 E 10 E 9 9 9 9 9",
        "- 9 E 10 E E E E E E",
        "+ 10 E 10 E E E E E E",
    ])
}

#[test]
fn noto() {
    let alpha = wiki_alphabet();
    let dfa = noto_dfa();
    let mut regex = Regex::new(&dfa, None, &alpha, None);

    assert!(regex.full_match("pqrs").unwrap());

    assert_eq!(regex.first_match("poo", '\n').unwrap(), (1, 0, 1));
    assert_eq!(regex.first_match("pqo", '\n').unwrap(), (2, 0, 2));
    assert_eq!(regex.first_match("rspqo", '\n').unwrap(), (4, 0, 4));
    assert_eq!(regex.first_match("oprqs", '\n').unwrap(), (0, 0, 0));
    assert_eq!(regex.first_match("owdadfqdasdwa", '\n').unwrap(), (0, 0, 0));
}

#[test]
fn nots() {
    let alpha = wiki_alphabet();
    let dfa = nots_dfa();
    let mut regex = Regex::new(&dfa, None, &alpha, None);

    assert!(regex.full_match("pqro").unwrap());

    assert_eq!(regex.first_match("pss", '\n').unwrap(), (1, 0, 1));
    assert_eq!(regex.first_match("pqs", '\n').unwrap(), (2, 0, 2));
    assert_eq!(regex.first_match("ropqs", '\n').unwrap(), (4, 0, 4));
    assert_eq!(regex.first_match("sprqo", '\n').unwrap(), (0, 0, 0));
    assert_eq!(regex.first_match("swdadfqdasdwa", '\n').unwrap(), (0, 0, 0));
}

#[test]
fn endsq() {
    let alpha = wiki_alphabet();
    let dfa = endsq_dfa();
    let mut regex = Regex::new(&dfa, None, &alpha, None);

    assert!(regex.full_match("prsprssprq").unwrap());

    assert_eq!(regex.first_match("q", '\n').unwrap(), (1, 0, 1));
    assert_eq!(regex.first_match("pssq", '\n').unwrap(), (4, 0, 4));
    assert_eq!(regex.first_match("prqqqqq", '\n').unwrap(), (7, 0, 7));
    assert_eq!(regex.first_match("roposq", '\n').unwrap(), (6, 0, 6));
    assert_eq!(regex.first_match("oprsq", '\n').unwrap(), (5, 0, 5));

    assert_eq!(regex.first_match("sprqo", '\n').unwrap(), (0, 0, 0));
    assert_eq!(regex.first_match("p", '\n').unwrap(), (0, 0, 0));
    assert_eq!(regex.first_match("r", '\n').unwrap(), (0, 0, 0));
}

#[test]
fn twosmallwords() {
    let alpha = wiki_alphabet();
    let dfa = twosmallwords_dfa();
    let mut regex = Regex::new(&dfa, None, &alpha, None);

    assert!(regex.full_match("opqr opqr ").unwrap());
    assert!(regex.full_match("opqr  opqr ").unwrap());
    assert!(regex.full_match("opqr opq ").unwrap());
    assert_eq!(regex.first_match("qpq rrr qpr", '\n').unwrap(), (8, 0, 8));
    assert_eq!(regex.first_match("pppp  rrrp qpr", '\n').unwrap(), (11, 0, 11));

    assert_eq!(regex.first_match("pppp o qpr", '\n').unwrap(), (0, 0, 0));
    assert_eq!(regex.first_match("p", '\n').unwrap(), (0, 0, 0));
    assert_eq!(regex.first_match("q p", '\n').unwrap(), (0, 0, 0));
}

#[test]
fn first_match_repeats_identically() {
    let alpha = wiki_alphabet();
    let dfa = noto_dfa();
    let mut regex = Regex::new(&dfa, None, &alpha, None);
    let first = regex.first_match("rspqo", '\n').unwrap();
    let second = regex.first_match("rspqo", '\n').unwrap();
    assert_eq!(first, second);
}

#[test]
fn first_match_counts_newlines_and_column() {
    let alpha = wiki_alphabet();
    // Runs over the whole alphabet, newline included.
    let any = dfa(&["- 0 1 1 1 1 1 1 1 1", "+ 1 1 1 1 1 1 1 1 1"]);
    let mut regex = Regex::new(&any, None, &alpha, None);
    // Two newlines; the running column is 1 at each newline and steps once
    // per character after it.
    assert_eq!(regex.first_match("pq\nrs\nop", '\n').unwrap(), (8, 2, 3));
}

#[test]
fn first_match_unknown_character_is_fatal() {
    let alpha = wiki_alphabet();
    let dfa = noto_dfa();
    let mut regex = Regex::new(&dfa, None, &alpha, None);
    assert_eq!(
        regex.first_match("pqz", '\n'),
        Err(ScanError::CharNotInAlphabet)
    );
    assert_eq!(regex.full_match("pqz"), Err(ScanError::CharNotInAlphabet));
}

#[test]
fn first_match_resets_the_runner() {
    let alpha = wiki_alphabet();
    let dfa = noto_dfa();
    let mut regex = Regex::new(&dfa, None, &alpha, None);
    assert_eq!(regex.accept('p').unwrap(), Some(1));
    assert_eq!(regex.len(), 1);
    assert_eq!(regex.first_match("pqo", '\n').unwrap(), (2, 0, 2));
    assert_eq!(regex.len(), 0);
    assert!(regex.full_match("pqrs").unwrap());
    assert_eq!(regex.len(), 0);
}

#[test]
fn accept_and_reset_runner_state() {
    let alpha = wiki_alphabet();
    let dfa = noto_dfa();
    let mut regex = Regex::new(&dfa, None, &alpha, None);
    assert_eq!(regex.accept('p').unwrap(), Some(1));
    assert!(regex.currently_accepting());
    assert_eq!(regex.len(), 1);
    assert_eq!(regex.accept('o').unwrap(), None);
    assert!(!regex.currently_accepting());
    assert_eq!(regex.len(), 1);
    regex.reset();
    assert_eq!(regex.len(), 0);
    assert!(regex.does_accept(1));
    assert!(!regex.does_accept(0));
}
