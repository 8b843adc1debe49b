use test_dependencies::dependency_expression::dependency_expression;
use test_dependencies::expression::{Expression, Operand, Operator};
use test_dependencies::quine_mccluskey::{
    index_table, reduce, reduce_within, truth_table, ReduceError, MAX_VARIABLES,
};

fn or(operands: Vec<Operand>) -> Expression {
    Expression { operator: Operator::Or, operands }
}

fn and(operands: Vec<Operand>) -> Expression {
    Expression { operator: Operator::And, operands }
}

fn conjunction(operands: Vec<Operand>) -> Operand {
    Operand::Expression(and(operands))
}

fn assignments(count: usize) -> Vec<Vec<bool>> {
    (0..(1usize << count))
        .map(|index| (0..count).map(|bit| (index >> bit) & 1 == 1).collect())
        .collect()
}

fn same_value_everywhere(first: &Expression, second: &Expression, count: usize) -> bool {
    let mapping: Vec<usize> = (0..count).collect();
    assignments(count)
        .iter()
        .all(|values| first.evaluate(values, &mapping) == second.evaluate(values, &mapping))
}

#[test]
fn should_build_the_truth_table_row_by_row() {
    let expression = or(vec![Operand::Test(0), Operand::Test(1)]);
    let table = truth_table(&expression, 2, &vec![0, 1]);
    assert_eq!(
        table,
        vec![
            vec![false, false, false],
            vec![true, false, true],
            vec![false, true, true],
            vec![true, true, true],
        ]
    );
}

#[test]
fn should_build_the_truth_table_through_a_sparse_index_table() {
    let expression = and(vec![Operand::Test(5), Operand::NotTest(2)]);
    let variables = expression.variables();
    assert_eq!(variables, vec![5, 2]);
    let variable_to_index = index_table(&variables);
    assert_eq!(variable_to_index, vec![0, 0, 1, 0, 0, 0]);
    let table = truth_table(&expression, 2, &variable_to_index);
    assert_eq!(
        table,
        vec![
            vec![false, false, false],
            vec![true, false, true],
            vec![false, true, false],
            vec![true, true, false],
        ]
    );
}

#[test]
fn should_build_a_single_row_for_no_variables() {
    let table = truth_table(&and(vec![]), 0, &vec![0]);
    assert_eq!(table, vec![vec![true]]);
    let table = truth_table(&or(vec![]), 0, &vec![0]);
    assert_eq!(table, vec![vec![false]]);
}

#[test]
fn should_reduce_a_target_that_never_passes_to_nothing() {
    let slice: &[&[bool]] = &[&[false], &[false], &[false]];
    let inferred = dependency_expression(slice, 0).unwrap();
    assert_eq!(inferred, or(vec![]));
    assert_eq!(reduce(&inferred), Ok(None));
}

#[test]
fn should_reduce_a_single_conjunction_to_itself() {
    let slice: &[&[bool]] = &[&[true], &[true], &[true]];
    let inferred = dependency_expression(slice, 0).unwrap();
    assert_eq!(inferred, or(vec![conjunction(vec![Operand::Test(1), Operand::Test(2)])]));
    assert_eq!(reduce(&inferred), Ok(Some(and(vec![Operand::Test(1), Operand::Test(2)]))));
}

#[test]
fn should_drop_a_conjunction_that_a_literal_implies() {
    let expression = or(vec![
        conjunction(vec![Operand::Test(1), Operand::Test(2)]),
        Operand::Test(1),
    ]);
    assert_eq!(reduce(&expression), Ok(Some(or(vec![Operand::Test(1)]))));
}

#[test]
fn should_reduce_separately_passing_tests_to_a_disjunction_of_literals() {
    let slice: &[&[bool]] = &[&[true, true], &[true, false], &[false, true]];
    let inferred = dependency_expression(slice, 0).unwrap();
    let reduced = reduce(&inferred).unwrap().unwrap();
    assert_eq!(reduced, or(vec![Operand::Test(1), Operand::Test(2)]));
    assert!(same_value_everywhere(&inferred, &reduced, 3));
}

#[test]
fn should_keep_conjunctions_of_several_literals_as_nested_expressions() {
    let expression = or(vec![
        conjunction(vec![Operand::Test(0), Operand::Test(1)]),
        conjunction(vec![Operand::Test(2), Operand::Test(3)]),
        conjunction(vec![Operand::Test(0), Operand::Test(1), Operand::Test(2)]),
    ]);
    let reduced = reduce(&expression).unwrap().unwrap();
    assert_eq!(reduced.operator, Operator::Or);
    assert_eq!(reduced.operands.len(), 2);
    assert!(reduced.operands.contains(&conjunction(vec![Operand::Test(0), Operand::Test(1)])));
    assert!(reduced.operands.contains(&conjunction(vec![Operand::Test(2), Operand::Test(3)])));
    assert!(same_value_everywhere(&expression, &reduced, 4));
}

#[test]
fn should_fail_when_no_prime_implicant_is_essential() {
    let minterm = |a: bool, b: bool, c: bool| {
        let literal = |id: i32, value: bool| {
            if value {
                Operand::Test(id)
            } else {
                Operand::NotTest(id)
            }
        };
        conjunction(vec![literal(0, a), literal(1, b), literal(2, c)])
    };
    let expression = or(vec![
        minterm(false, false, false),
        minterm(true, false, false),
        minterm(false, true, false),
        minterm(true, false, true),
        minterm(false, true, true),
        minterm(true, true, true),
    ]);
    assert_eq!(reduce(&expression), Err(ReduceError::UncoveredMinterms));
}

#[test]
fn should_refuse_more_variables_than_the_ceiling() {
    let literals: Vec<Operand> = (0..=(MAX_VARIABLES as i32)).map(Operand::Test).collect();
    assert_eq!(reduce(&and(literals)), Err(ReduceError::TooManyVariables));
}

#[test]
fn should_keep_the_value_of_an_expression_without_negation() {
    let slice: &[&[bool]] = &[
        &[true, true, false, true, true],
        &[true, false, false, false, true],
        &[true, true, true, false, true],
        &[false, true, false, true, true],
    ];
    for target in [0usize, 1, 3] {
        let inferred = dependency_expression(slice, target).unwrap();
        let reduced = reduce(&inferred).unwrap().unwrap();
        assert!(same_value_everywhere(&inferred, &reduced, 4));
    }
    let inferred = dependency_expression(slice, 0).unwrap();
    assert_eq!(
        reduce(&inferred),
        Ok(Some(or(vec![
            conjunction(vec![Operand::Test(1), Operand::Test(2)]),
            Operand::Test(3)
        ])))
    );
}

#[test]
fn should_reduce_a_reduced_expression_to_the_same_value() {
    let expression = or(vec![
        conjunction(vec![Operand::Test(0), Operand::Test(1)]),
        conjunction(vec![Operand::Test(1), Operand::Test(2)]),
        conjunction(vec![Operand::Test(0), Operand::Test(1), Operand::Test(2)]),
        Operand::Test(3),
    ]);
    let once = reduce(&expression).unwrap().unwrap();
    let twice = reduce(&once).unwrap().unwrap();
    assert!(same_value_everywhere(&once, &twice, 4));
    assert_eq!(once.operands.len(), twice.operands.len());
    assert!(same_value_everywhere(&expression, &twice, 4));
}

#[test]
fn should_leave_out_the_false_states_of_an_implicant() {
    let expression = and(vec![Operand::Test(0), Operand::NotTest(1)]);
    assert_eq!(reduce(&expression), Ok(Some(or(vec![Operand::Test(0)]))));
}

#[test]
fn should_reduce_an_always_true_expression_to_the_empty_conjunction() {
    let expression = or(vec![Operand::Test(4), Operand::NotTest(4)]);
    assert_eq!(reduce(&expression), Ok(Some(and(vec![]))));
    assert_eq!(reduce(&and(vec![])), Ok(Some(and(vec![]))));
}

#[test]
fn should_use_the_identifiers_of_sparse_variables() {
    let expression = or(vec![
        conjunction(vec![Operand::Test(9), Operand::Test(4)]),
        conjunction(vec![Operand::Test(9), Operand::Test(4), Operand::Test(20)]),
    ]);
    assert_eq!(reduce(&expression), Ok(Some(and(vec![Operand::Test(9), Operand::Test(4)]))));
}

#[test]
fn should_always_reduce_an_expression_that_stays_true_when_more_tests_pass() {
    let expression = or(vec![
        conjunction(vec![Operand::Test(0), Operand::Test(1)]),
        conjunction(vec![Operand::Test(1), Operand::Test(2)]),
        conjunction(vec![Operand::Test(0), Operand::Test(2)]),
    ]);
    let reduced = reduce(&expression).unwrap().unwrap();
    assert_eq!(reduced.operands.len(), 3);
    assert!(same_value_everywhere(&expression, &reduced, 3));
    let with_negation = or(vec![
        Operand::Test(0),
        conjunction(vec![Operand::NotTest(0), Operand::Test(1)]),
    ]);
    let reduced = reduce(&with_negation).unwrap().unwrap();
    assert!(same_value_everywhere(&with_negation, &reduced, 2));
}

fn literal_sets(expression: &Expression) -> Vec<Vec<i32>> {
    let of_operand = |operand: &Operand| match operand {
        Operand::Expression(e) => e.variables(),
        Operand::Test(id) => vec![*id],
        _ => unreachable!(),
    };
    let mut sets: Vec<Vec<i32>> = if expression.operator == Operator::And {
        vec![expression.variables()]
    } else {
        expression.operands.iter().map(of_operand).collect()
    };
    for set in sets.iter_mut() {
        set.sort();
    }
    sets.sort();
    sets
}

#[test]
fn should_refuse_more_variables_than_a_given_ceiling() {
    let expression = or(vec![Operand::Test(0), Operand::Test(1), Operand::Test(2)]);
    assert_eq!(reduce_within(&expression, 2), Err(ReduceError::TooManyVariables));
    assert_eq!(reduce_within(&expression, 0), Err(ReduceError::TooManyVariables));
    assert_eq!(reduce_within(&expression, 3), reduce(&expression));
    assert_eq!(reduce_within(&expression, u32::MAX), reduce(&expression));
    assert_eq!(reduce_within(&or(vec![]), 0), Ok(None));
    let many: Vec<Operand> = (0..=(MAX_VARIABLES as i32)).map(Operand::Test).collect();
    assert_eq!(reduce_within(&and(many), u32::MAX), Err(ReduceError::TooManyVariables));
}

#[test]
fn should_find_the_same_implicants_when_reducing_again() {
    let expression = or(vec![
        conjunction(vec![Operand::Test(4), Operand::Test(1)]),
        conjunction(vec![Operand::Test(1), Operand::Test(2)]),
        conjunction(vec![Operand::Test(4), Operand::Test(1), Operand::Test(2)]),
        conjunction(vec![Operand::Test(7), Operand::Test(9)]),
        Operand::Test(3),
    ]);
    let once = reduce(&expression).unwrap().unwrap();
    let twice = reduce(&once).unwrap().unwrap();
    assert_eq!(literal_sets(&once), vec![vec![1, 2], vec![1, 4], vec![3], vec![7, 9]]);
    assert_eq!(literal_sets(&twice), literal_sets(&once));
    let single = and(vec![Operand::Test(5), Operand::Test(6)]);
    let once = reduce(&single).unwrap().unwrap();
    let twice = reduce(&once).unwrap().unwrap();
    assert_eq!(literal_sets(&once), vec![vec![5, 6]]);
    assert_eq!(literal_sets(&twice), vec![vec![5, 6]]);
}

#[test]
fn should_merge_implicants_of_an_expression_with_negation_when_reducing_again() {
    let expression = and(vec![
        Operand::Test(0),
        Operand::NotExpression(and(vec![Operand::Test(1), Operand::Test(2)])),
    ]);
    let once = reduce(&expression).unwrap().unwrap();
    assert_eq!(once, or(vec![Operand::Test(0), Operand::Test(0)]));
    let twice = reduce(&once).unwrap().unwrap();
    assert_eq!(twice, or(vec![Operand::Test(0)]));
}
