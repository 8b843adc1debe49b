use test_dependencies::args_parse::{parse_cli_args, ArgsParseException, Arguments};

#[test]
fn should_err_on_wrong_count_of_params() {
    let result = parse_cli_args(vec!["test-dependencies".to_owned()]);
    assert_eq!(result, Err(ArgsParseException::InvalidNumberOfArguments(1)));
}

#[test]
fn should_put_args_in_correct_order() {
    let result = parse_cli_args(vec![
        "test-dependencies".to_owned(),
        "input.csv".to_owned(),
        "output.json".to_owned(),
    ]);
    assert_eq!(
        result,
        Ok(Arguments {
            input_filename: "input.csv".to_owned(),
            output_filename: "output.json".to_owned()
        })
    );
}

#[test]
fn should_err_on_too_many_params() {
    let words: Vec<String> = vec!["a".to_owned(), "b".to_owned(), "c".to_owned(), "d".to_owned()];
    assert_eq!(parse_cli_args(words), Err(ArgsParseException::InvalidNumberOfArguments(4)));
    assert_eq!(parse_cli_args(vec![]), Err(ArgsParseException::InvalidNumberOfArguments(0)));
}
