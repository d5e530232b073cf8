use luther::dfa::{Row, DFA};

fn lines(xs: &[&str]) -> Vec<String> {
    xs.iter().map(|x| x.to_string()).collect()
}

#[test]
fn dfa_good_str_for_str_parse() {
    let r = Row::from_str_custom("- 0 E 1 E").unwrap();
    assert_eq!(r, Row::new(false, 0, vec![None, Some(1), None]));
}

#[test]
fn dfa_another_good_str_for_str_parse() {
    let r = Row::from_str_custom("- 1 2 E E").unwrap();
    assert_eq!(r, Row::new(false, 1, vec![Some(2), None, None]));
}

#[test]
fn dfa_accepting_and_another_id() {
    let r = Row::from_str_custom("+ 1 2 E E").unwrap();
    assert_eq!(r, Row::new(true, 1, vec![Some(2), None, None]));
}

#[test]
fn dfa_empty_str_parse() {
    assert!(Row::from_str_custom("").is_err());
}

#[test]
fn dfa_some_invalid_str_str_parse() {
    assert!(Row::from_str_custom("It would not make sense to parse this").is_err());
}

#[test]
fn dfa_two_line_valid_file() {
    let in_file = DFA::from_lines(&lines(&["- 0 E 1 E", "- 1 2 E E"]));
    assert_eq!(
        in_file.rows,
        vec![
            Row::new(false, 0, vec![None, Some(1), None]),
            Row::new(false, 1, vec![Some(2), None, None])
        ]
    );
}

#[test]
fn dfa_empty_file_test() {
    let in_file = DFA::from_lines(&lines(&[]));
    assert_eq!(in_file.rows, vec![]);
}

#[test]
fn dfa_two_line_valid_file_with_extra_lines() {
    let in_file = DFA::from_lines(&lines(&[
        "- 0 E 1 E",
        "- 1 2 E E",
        "",
        "a trailing comment line",
    ]));
    assert_eq!(
        in_file.rows,
        vec![
            Row::new(false, 0, vec![None, Some(1), None]),
            Row::new(false, 1, vec![Some(2), None, None])
        ]
    );
}

#[test]
fn dfa_accumulation_stops_at_first_bad_line() {
    let in_file = DFA::from_lines(&lines(&["+ 0 1 1", "not a row", "+ 1 0 0"]));
    assert_eq!(in_file.rows, vec![Row::new(true, 0, vec![Some(1), Some(1)])]);
}

#[test]
fn dfa_transition_and_accepting() {
    let d = DFA::from_lines(&lines(&["- 0 E 1 E", "+ 1 2 E E"]));
    assert_eq!(d.transition(0, 1), Some(1));
    assert_eq!(d.transition(0, 0), None);
    assert_eq!(d.transition(1, 0), Some(2));
    assert!(!d.is_accepting(0));
    assert!(d.is_accepting(1));
    assert_eq!(d.len(), 2);
}
