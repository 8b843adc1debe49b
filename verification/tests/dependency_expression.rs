use test_dependencies::dependency_expression::{dependency_expression, is_rectangular};
use test_dependencies::expression::{Expression, Operand, Operator};

fn outcomes_of(results: &[&[bool]], execution: usize) -> Vec<bool> {
    results.iter().map(|test| test[execution]).collect()
}

fn identity(count: usize) -> Vec<usize> {
    (0..count).collect()
}

#[test]
fn should_and_operator_simultaneously_passing() {
    let slice: &[&[bool]] = &[&[true], &[true], &[true]];
    assert_eq!(
        dependency_expression(slice, 0),
        Some(Expression {
            operator: Operator::Or,
            operands: vec![Operand::Expression(Expression {
                operator: Operator::And,
                operands: vec![Operand::Test(1), Operand::Test(2)],
            })],
        })
    );
}

#[test]
fn should_or_operator_separately_passing() {
    let slice: &[&[bool]] = &[&[true, true], &[true, false], &[false, true]];
    assert_eq!(
        dependency_expression(slice, 0),
        Some(Expression {
            operator: Operator::Or,
            operands: vec![
                Operand::Expression(Expression {
                    operator: Operator::And,
                    operands: vec![Operand::Test(1)],
                }),
                Operand::Expression(Expression {
                    operator: Operator::And,
                    operands: vec![Operand::Test(2)],
                }),
            ],
        })
    );
}

#[test]
fn should_work_with_more_complex_example() {
    let slice: &[&[bool]] = &[
        &[true, true, false, true, true],
        &[true, false, false, false, true],
        &[true, true, true, false, true],
        &[false, true, false, true, true],
    ];

    assert_eq!(
        dependency_expression(slice, 0),
        Some(Expression {
            operator: Operator::Or,
            operands: vec![
                Operand::Expression(Expression {
                    operator: Operator::And,
                    operands: vec![Operand::Test(1), Operand::Test(2)],
                }),
                Operand::Expression(Expression {
                    operator: Operator::And,
                    operands: vec![Operand::Test(2), Operand::Test(3)],
                }),
                Operand::Expression(Expression {
                    operator: Operator::And,
                    operands: vec![Operand::Test(3)],
                }),
                Operand::Expression(Expression {
                    operator: Operator::And,
                    operands: vec![Operand::Test(1), Operand::Test(2), Operand::Test(3)],
                }),
            ],
        })
    );

    assert_eq!(
        dependency_expression(slice, 1),
        Some(Expression {
            operator: Operator::Or,
            operands: vec![
                Operand::Expression(Expression {
                    operator: Operator::And,
                    operands: vec![Operand::Test(0), Operand::Test(2)],
                }),
                Operand::Expression(Expression {
                    operator: Operator::And,
                    operands: vec![Operand::Test(0), Operand::Test(2), Operand::Test(3)],
                }),
            ],
        })
    );

    assert_eq!(dependency_expression(slice, 2), None);

    assert_eq!(
        dependency_expression(slice, 3),
        Some(Expression {
            operator: Operator::Or,
            operands: vec![
                Operand::Expression(Expression {
                    operator: Operator::And,
                    operands: vec![Operand::Test(0), Operand::Test(2)],
                }),
                Operand::Expression(Expression {
                    operator: Operator::And,
                    operands: vec![Operand::Test(0)],
                }),
                Operand::Expression(Expression {
                    operator: Operator::And,
                    operands: vec![Operand::Test(0), Operand::Test(1), Operand::Test(2)],
                }),
            ],
        })
    );
}

#[test]
fn should_give_an_empty_disjunction_when_the_target_never_passes() {
    let slice: &[&[bool]] = &[&[false], &[false], &[false]];
    assert_eq!(
        dependency_expression(slice, 0),
        Some(Expression { operator: Operator::Or, operands: vec![] })
    );
}

#[test]
fn should_find_no_dependency_when_the_target_passes_alone() {
    let slice: &[&[bool]] = &[
        &[true, true, true],
        &[true, false, true],
        &[true, false, false],
    ];
    assert_eq!(dependency_expression(slice, 0), None);
    let single: &[&[bool]] = &[&[false, true]];
    assert_eq!(dependency_expression(single, 0), None);
}

#[test]
fn should_hold_on_every_execution_in_which_the_target_passed() {
    let slice: &[&[bool]] = &[
        &[true, true, false, true, true, false],
        &[true, false, false, false, true, false],
        &[true, true, true, false, true, false],
        &[false, true, false, true, true, true],
    ];
    let expression = dependency_expression(slice, 0).unwrap();
    let mapping = identity(4);
    let values: Vec<bool> = (0..6)
        .map(|execution| expression.evaluate(&outcomes_of(slice, execution), &mapping))
        .collect();
    assert_eq!(values, vec![true, true, false, true, true, true]);
}

#[test]
fn should_hold_on_a_failing_execution_that_includes_a_passing_one() {
    let slice: &[&[bool]] = &[&[true, false], &[true, true]];
    let expression = dependency_expression(slice, 0).unwrap();
    let mapping = identity(2);
    assert_eq!(expression.evaluate(&outcomes_of(slice, 0), &mapping), true);
    assert_eq!(expression.evaluate(&outcomes_of(slice, 1), &mapping), true);
}

#[test]
fn should_tell_whether_all_tests_report_on_the_same_executions() {
    let even: &[&[bool]] = &[&[true, false], &[false, false], &[true, true]];
    let ragged: &[&[bool]] = &[&[true, false], &[false], &[true, true]];
    let none: &[&[bool]] = &[];
    assert!(is_rectangular(even));
    assert!(!is_rectangular(ragged));
    assert!(is_rectangular(none));
}
