use luther::transition_table::{Row, TransitionTable};

fn lines(xs: &[&str]) -> Vec<String> {
    xs.iter().map(|x| x.to_string()).collect()
}

#[test]
fn transition_table_good_str_for_str_parse() {
    let r = Row::from_str_custom("- 0 E 1 E", 0).unwrap();
    assert_eq!(r, Row::new(false, 0, vec![Some(0), None, Some(1), None]));
}

#[test]
fn transition_table_another_good_str_for_str_parse() {
    let r = Row::from_str_custom("- 1 2 E E", 0).unwrap();
    assert_eq!(r, Row::new(false, 0, vec![Some(1), Some(2), None, None]));
}

#[test]
fn transition_table_accepting_and_another_id() {
    let r = Row::from_str_custom("+ 1 2 E E", 2).unwrap();
    assert_eq!(r, Row::new(true, 2, vec![Some(1), Some(2), None, None]));
}

#[test]
fn transition_table_empty_str_parse() {
    assert!(Row::from_str_custom("", 0).is_err());
}

#[test]
fn transition_table_some_invalid_str_str_parse() {
    assert!(Row::from_str_custom("It would not make sense to parse this", 0).is_err());
}

#[test]
fn transition_table_two_line_valid_file() {
    let in_file = TransitionTable::from_lines(&lines(&["- 0 E 1 E", "- 1 2 E E"]));
    assert_eq!(
        in_file.rows,
        vec![
            Row::new(false, 0, vec![Some(0), None, Some(1), None]),
            Row::new(false, 1, vec![Some(1), Some(2), None, None])
        ]
    );
}

#[test]
fn transition_table_empty_file_test() {
    let in_file = TransitionTable::from_lines(&lines(&[]));
    assert_eq!(in_file.rows, vec![]);
}

#[test]
fn transition_table_two_line_valid_file_with_extra_lines() {
    let in_file = TransitionTable::from_lines(&lines(&[
        "- 0 E 1 E",
        "- 1 2 E E",
        "",
        "a trailing comment line",
    ]));
    assert_eq!(
        in_file.rows,
        vec![
            Row::new(false, 0, vec![Some(0), None, Some(1), None]),
            Row::new(false, 1, vec![Some(1), Some(2), None, None])
        ]
    );
}
