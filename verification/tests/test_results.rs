use test_dependencies::test_results::{
    line_count, marker_of, marker_value, parse, space_flags, AllTestResults, CsvTestSource,
    ParseError, Test,
};

fn parse_string(input: &str) -> Result<Vec<Test>, ParseError> {
    let formatted = format!("{}\n", input);
    parse(&formatted)
}

fn result(test_name: &str, results: &[bool]) -> Result<Vec<Test>, ParseError> {
    Ok(vec![test_history(test_name, 0, results)])
}

fn test_history(test_name: &str, id: i32, results: &[bool]) -> Test {
    Test::new(id, test_name.to_owned(), results.to_vec())
}

#[test]
fn should_fail_no_name_if_blank_line() {
    assert_eq!(parse_string(""), Err(ParseError::NoTestExecutions));
}

#[test]
fn should_fail_invalid_format_if_not_1_or_0() {
    assert_eq!(parse_string("Test name,A"), Err(ParseError::InvalidFormat));
}

#[test]
fn should_parse_valid_data() {
    assert_eq!(
        parse_string("Test name,1,0,0,1"),
        result("Test name", &[true, false, false, true])
    );
}

#[test]
fn should_parse_valid_data_with_spaces() {
    assert_eq!(
        parse_string("Test name,1  ,0, 0,1 "),
        result("Test name", &[true, false, false, true])
    );
}

#[test]
fn should_assign_increasing_test_id() {
    assert_eq!(
        parse_string("A,1,0\nB,0,0"),
        Ok(vec![
            test_history("A", 0, &[true, false]),
            test_history("B", 1, &[false, false])
        ])
    );
}

#[test]
fn should_parse_an_empty_text_to_no_test() {
    assert_eq!(parse(""), Ok(vec![]));
}

#[test]
fn should_parse_a_last_line_without_line_feed() {
    assert_eq!(
        parse("A,1\nB,0"),
        Ok(vec![test_history("A", 0, &[true]), test_history("B", 1, &[false])])
    );
}

#[test]
fn should_leave_out_the_carriage_return_before_a_line_feed() {
    assert_eq!(
        parse("A,1,0\r\nB,0,1\r\n"),
        Ok(vec![test_history("A", 0, &[true, false]), test_history("B", 1, &[false, true])])
    );
}

#[test]
fn should_fail_on_an_empty_outcome() {
    assert_eq!(parse_string("A,1,,0"), Err(ParseError::InvalidFormat));
    assert_eq!(parse_string("A,"), Err(ParseError::InvalidFormat));
    assert_eq!(parse_string("A,10"), Err(ParseError::InvalidFormat));
    assert_eq!(parse_string("A,1 1"), Err(ParseError::InvalidFormat));
}

#[test]
fn should_fail_on_a_name_without_outcomes() {
    assert_eq!(parse_string("A"), Err(ParseError::NoTestExecutions));
    assert_eq!(parse_string("A,1\n\nB,1"), Err(ParseError::NoTestExecutions));
}

#[test]
fn should_fail_with_the_error_of_the_first_bad_line() {
    assert_eq!(parse_string("A,1\nB,x\nC"), Err(ParseError::InvalidFormat));
    assert_eq!(parse_string("A,1\nC\nB,x"), Err(ParseError::NoTestExecutions));
}

#[test]
fn should_take_any_white_space_around_an_outcome() {
    assert_eq!(
        parse_string("A,\t1\u{a0},\u{2003}0"),
        result("A", &[true, false])
    );
}

#[test]
fn should_keep_the_name_as_it_is_written() {
    assert_eq!(parse_string(" t\u{e9}st one ,1"), result(" t\u{e9}st one ", &[true]));
    assert_eq!(parse_string(",0"), result("", &[false]));
}

#[test]
fn should_hold_what_it_was_made_of() {
    let all = AllTestResults::new(vec![test_history("A", 0, &[true])]);
    assert_eq!(all.results, vec![test_history("A", 0, &[true])]);
    let source = CsvTestSource::new("history.csv");
    assert_eq!(source.filename(), "history.csv");
}

#[test]
fn should_fail_on_a_line_with_fewer_outcomes_than_the_first() {
    assert_eq!(parse("A,1,0\nB,1\n"), Err(ParseError::InvalidFormat));
}

#[test]
fn should_fail_on_a_line_with_more_outcomes_than_the_first() {
    assert_eq!(parse_string("A,1\nB,1,0"), Err(ParseError::InvalidFormat));
    assert_eq!(parse_string("A,1,1\nB,0,0\nC,1,1,1"), Err(ParseError::InvalidFormat));
}

#[test]
fn should_report_the_first_bad_line_whatever_is_wrong_with_it() {
    assert_eq!(parse_string("A,1,0\nB,1\nC"), Err(ParseError::InvalidFormat));
    assert_eq!(parse_string("A,1,0\nC\nB,1"), Err(ParseError::NoTestExecutions));
    assert_eq!(parse_string("A\nB,1"), Err(ParseError::NoTestExecutions));
}

#[test]
fn should_read_tests_that_report_on_the_same_executions() {
    let tests = parse_string("A,1,0,1\nB,0,0,0\nC, 1,1 ,0").unwrap();
    assert_eq!(tests.len(), 3);
    assert!(tests.iter().all(|test| test.executions.len() == 3));
    assert_eq!(tests[2], test_history("C", 2, &[true, true, false]));
}

#[test]
fn should_read_an_outcome_by_the_flags_it_is_given() {
    assert_eq!(marker_of(&vec![' ', '1', '\t'], &vec![true, false, true]), Some(true));
    assert_eq!(marker_of(&vec!['0'], &vec![false]), Some(false));
    assert_eq!(marker_of(&vec!['x', '0', 'x'], &vec![true, false, true]), Some(false));
    assert_eq!(marker_of(&vec![' ', '1'], &vec![false, false]), None);
    assert_eq!(marker_of(&vec!['1'], &vec![true]), None);
    assert_eq!(marker_of(&vec!['2'], &vec![false]), None);
    assert_eq!(marker_of(&vec![], &vec![]), None);
    assert_eq!(marker_of(&vec![' ', ' '], &vec![true, true]), None);
    assert_eq!(marker_of(&vec!['1'], &vec![false, true]), None);
}

#[test]
fn should_flag_white_space() {
    let field: Vec<char> = " 1\t\u{a0}x".chars().collect();
    assert_eq!(space_flags(&field), vec![true, false, true, true, false]);
    let line: Vec<char> = "A, 1 ,0x".chars().collect();
    assert_eq!(marker_value(&line, 2, 5), Some(true));
    assert_eq!(marker_value(&line, 6, 8), None);
    assert_eq!(marker_value(&line, 6, 7), Some(false));
}

#[test]
fn should_count_the_lines_of_a_text() {
    assert_eq!(line_count(""), 0);
    assert_eq!(line_count("\n"), 1);
    assert_eq!(line_count("A,1"), 1);
    assert_eq!(line_count("A,1\n"), 1);
    assert_eq!(line_count("A,1\r\nB,0"), 2);
    assert_eq!(line_count("A,1\n\nB,0\n"), 3);
}
