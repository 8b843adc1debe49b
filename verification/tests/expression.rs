use test_dependencies::expression::{evaluate_operand, Expression, Operand, Operator};

fn evaluate(expression: &Expression, results: &Vec<bool>) -> bool {
    let mut mapping = Vec::<usize>::with_capacity(results.len());
    mapping.extend(0..results.len());
    expression.evaluate(results, &mapping)
}

#[test]
fn should_evaluate_and() {
    let expression = Expression {
        operator: Operator::And,
        operands: vec![Operand::Test(0), Operand::Test(1)],
    };
    assert_eq!(evaluate(&expression, &vec![false, false]), false);
    assert_eq!(evaluate(&expression, &vec![false, true]), false);
    assert_eq!(evaluate(&expression, &vec![true, false]), false);
    assert_eq!(evaluate(&expression, &vec![true, true]), true);
}

#[test]
fn should_evaluate_or() {
    let expression = Expression {
        operator: Operator::Or,
        operands: vec![Operand::Test(0), Operand::Test(1)],
    };
    assert_eq!(evaluate(&expression, &vec![false, false]), false);
    assert_eq!(evaluate(&expression, &vec![false, true]), true);
    assert_eq!(evaluate(&expression, &vec![true, false]), true);
    assert_eq!(evaluate(&expression, &vec![true, true]), true);
}

#[test]
fn should_evaluate_sub_expression() {
    let expression = Expression {
        operator: Operator::Or,
        operands: vec![
            Operand::Expression(Expression {
                operator: Operator::And,
                operands: vec![Operand::Test(0), Operand::Test(1)],
            }),
            Operand::Expression(Expression {
                operator: Operator::And,
                operands: vec![Operand::Test(1), Operand::Test(2)],
            }),
        ],
    };
    assert_eq!(evaluate(&expression, &vec![false, false, false]), false);
    assert_eq!(evaluate(&expression, &vec![false, false, true]), false);
    assert_eq!(evaluate(&expression, &vec![false, true, false]), false);
    assert_eq!(evaluate(&expression, &vec![false, true, true]), true);
    assert_eq!(evaluate(&expression, &vec![true, false, false]), false);
    assert_eq!(evaluate(&expression, &vec![true, false, true]), false);
    assert_eq!(evaluate(&expression, &vec![true, true, false]), true);
    assert_eq!(evaluate(&expression, &vec![true, true, true]), true);
}

#[test]
fn should_calculate_unique_variable_count_when_one_operator() {
    let expression = Expression {
        operator: Operator::And,
        operands: vec![
            Operand::Test(0),
            Operand::Test(1),
            Operand::Test(5),
            Operand::Test(0),
            Operand::Test(6),
            Operand::Test(6),
        ],
    };
    assert_eq!(vec![0, 1, 5, 6], expression.variables());
}

#[test]
fn should_calculate_unique_variable_count_with_child_expressions() {
    let expression = Expression {
        operator: Operator::And,
        operands: vec![
            Operand::Expression(Expression {
                operator: Operator::Or,
                operands: vec![Operand::Test(0), Operand::Test(1)],
            }),
            Operand::Expression(Expression {
                operator: Operator::Or,
                operands: vec![Operand::Test(1), Operand::Test(2)],
            }),
        ],
    };
    assert_eq!(vec![0, 1, 2], expression.variables());
}

#[test]
fn empty_conjunction_is_true_and_empty_disjunction_is_false() {
    let all = Expression { operator: Operator::And, operands: vec![] };
    let any = Expression { operator: Operator::Or, operands: vec![] };
    assert_eq!(evaluate(&all, &vec![]), true);
    assert_eq!(evaluate(&any, &vec![]), false);
    assert_eq!(all.variables(), Vec::<i32>::new());
}

#[test]
fn should_evaluate_negated_test() {
    let expression = Expression {
        operator: Operator::And,
        operands: vec![Operand::Test(0), Operand::NotTest(1)],
    };
    assert_eq!(evaluate(&expression, &vec![false, false]), false);
    assert_eq!(evaluate(&expression, &vec![false, true]), false);
    assert_eq!(evaluate(&expression, &vec![true, false]), true);
    assert_eq!(evaluate(&expression, &vec![true, true]), false);
}

#[test]
fn should_evaluate_negated_sub_expression() {
    let expression = Expression {
        operator: Operator::Or,
        operands: vec![
            Operand::NotExpression(Expression {
                operator: Operator::Or,
                operands: vec![Operand::Test(0), Operand::Test(1)],
            }),
            Operand::Test(2),
        ],
    };
    assert_eq!(evaluate(&expression, &vec![false, false, false]), true);
    assert_eq!(evaluate(&expression, &vec![true, false, false]), false);
    assert_eq!(evaluate(&expression, &vec![false, true, false]), false);
    assert_eq!(evaluate(&expression, &vec![true, true, true]), true);
}

#[test]
fn should_evaluate_through_a_sparse_index_table() {
    let expression = Expression {
        operator: Operator::And,
        operands: vec![Operand::Test(4), Operand::Test(2)],
    };
    let table: Vec<usize> = vec![0, 0, 1, 0, 0];
    assert_eq!(expression.evaluate(&vec![true, false], &table), false);
    assert_eq!(expression.evaluate(&vec![true, true], &table), true);
    assert_eq!(evaluate_operand(&Operand::Test(2), &vec![true, false], &table), false);
    assert_eq!(evaluate_operand(&Operand::NotTest(2), &vec![true, false], &table), true);
    assert_eq!(evaluate_operand(&Operand::Test(4), &vec![true, false], &table), true);
}

#[test]
fn should_list_variables_of_negated_operands_in_order_of_first_occurrence() {
    let expression = Expression {
        operator: Operator::Or,
        operands: vec![
            Operand::NotTest(7),
            Operand::NotExpression(Expression {
                operator: Operator::And,
                operands: vec![Operand::Test(3), Operand::Test(7), Operand::NotTest(1)],
            }),
            Operand::Test(3),
        ],
    };
    assert_eq!(vec![7, 3, 1], expression.variables());
}

#[test]
fn should_tell_whether_identifiers_are_in_range() {
    let expression = Expression {
        operator: Operator::Or,
        operands: vec![
            Operand::Test(3),
            Operand::Expression(Expression {
                operator: Operator::And,
                operands: vec![Operand::Test(0), Operand::Test(7)],
            }),
        ],
    };
    assert!(expression.is_well_formed());
    assert!(expression.is_within(8));
    assert!(!expression.is_within(7));
    let negative = Expression { operator: Operator::And, operands: vec![Operand::NotTest(-1)] };
    assert!(!negative.is_well_formed());
    assert!(!negative.is_within(8));
}

#[test]
fn should_tell_whether_an_expression_can_be_evaluated() {
    let expression = Expression {
        operator: Operator::And,
        operands: vec![Operand::Test(1), Operand::Test(2)],
    };
    assert!(expression.can_evaluate(&vec![true, false], &vec![0, 0, 1]));
    assert!(!expression.can_evaluate(&vec![true, false], &vec![0, 0]));
    assert!(!expression.can_evaluate(&vec![true], &vec![0, 0, 1]));
    assert!(!expression.can_evaluate(&vec![true, false], &vec![0, 2, 1]));
}

#[test]
fn should_tell_whether_an_expression_has_a_negation() {
    let plain = Expression {
        operator: Operator::Or,
        operands: vec![
            Operand::Test(0),
            Operand::Expression(Expression { operator: Operator::And, operands: vec![Operand::Test(1)] }),
        ],
    };
    assert!(plain.is_positive());
    let negated = Expression {
        operator: Operator::Or,
        operands: vec![
            Operand::Test(0),
            Operand::Expression(Expression {
                operator: Operator::And,
                operands: vec![Operand::NotTest(1)],
            }),
        ],
    };
    assert!(!negated.is_positive());
    let nested = Expression {
        operator: Operator::Or,
        operands: vec![Operand::NotExpression(Expression { operator: Operator::And, operands: vec![] })],
    };
    assert!(!nested.is_positive());
}
