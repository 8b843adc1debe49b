use test_dependencies::analysis::all_dependencies;
use test_dependencies::expression::{Expression, Operand, Operator};
use test_dependencies::quine_mccluskey::ReduceError;

#[test]
fn should_analyse_every_test_of_the_suite() {
    let slice: &[&[bool]] = &[
        &[true, true, false, true, true],
        &[true, false, false, false, true],
        &[true, true, true, false, true],
        &[false, true, false, true, true],
    ];
    let all = all_dependencies(slice);
    assert_eq!(all.len(), 4);
    assert_eq!(
        all[0],
        Ok(Some(Expression {
            operator: Operator::Or,
            operands: vec![
                Operand::Expression(Expression {
                    operator: Operator::And,
                    operands: vec![Operand::Test(1), Operand::Test(2)],
                }),
                Operand::Test(3),
            ],
        }))
    );
    assert_eq!(
        all[1],
        Ok(Some(Expression {
            operator: Operator::And,
            operands: vec![Operand::Test(0), Operand::Test(2)],
        }))
    );
    assert_eq!(all[2], Ok(None));
    assert_eq!(
        all[3],
        Ok(Some(Expression { operator: Operator::Or, operands: vec![Operand::Test(0)] }))
    );
}

#[test]
fn should_analyse_a_suite_without_tests() {
    let none: &[&[bool]] = &[];
    assert_eq!(all_dependencies(none), vec![]);
}

#[test]
fn should_go_on_after_a_test_that_is_refused() {
    let passing: Vec<bool> = vec![true];
    let failing: Vec<bool> = vec![false];
    let mut rows: Vec<&[bool]> = vec![&passing; 32];
    rows.push(&failing);
    let all = all_dependencies(&rows);
    assert_eq!(all.len(), 33);
    assert_eq!(all[0], Err(ReduceError::TooManyVariables));
    assert_eq!(all[31], Err(ReduceError::TooManyVariables));
    assert_eq!(all[32], Ok(None));
}
