use test_dependencies::combination::prime_implicants;
use test_dependencies::cover::{essential_cover, implicants_expression, sole_covering};
use test_dependencies::expression::{Expression, Operand, Operator};
use test_dependencies::implicant::{AllQMSteps, QMStepRow, VariableState};
use test_dependencies::quine_mccluskey::ReduceError;

use VariableState::{Factored, False, True};

fn row(states: Vec<VariableState>, covered_rows: Vec<usize>) -> QMStepRow {
    let true_count = states.iter().filter(|state| **state == True).count();
    QMStepRow { row: states, true_count, covered_rows }
}

fn states_of(rows: &Vec<QMStepRow>) -> Vec<Vec<VariableState>> {
    rows.iter().map(|row| row.row.clone()).collect()
}

#[test]
fn should_combine_rows_that_differ_in_one_state() {
    let combined = row(vec![True, False, True], vec![5]).reduce(&row(vec![True, True, True], vec![7]));
    let combined = combined.unwrap();
    assert_eq!(combined.row, vec![True, Factored, True]);
    assert_eq!(combined.true_count, 2);
    assert_eq!(combined.covered_rows, vec![5, 7]);
}

#[test]
fn should_combine_rows_with_the_same_factored_states() {
    let first = row(vec![Factored, False, False], vec![0, 1]);
    let second = row(vec![Factored, True, False], vec![2, 3]);
    let combined = first.reduce(&second).unwrap();
    assert_eq!(combined.row, vec![Factored, Factored, False]);
    assert_eq!(combined.true_count, 0);
    assert_eq!(combined.covered_rows, vec![0, 1, 2, 3]);
}

#[test]
fn should_not_combine_rows_that_differ_in_two_states_or_none() {
    let first = row(vec![True, False, False], vec![1]);
    assert!(first.reduce(&row(vec![False, True, False], vec![2])).is_none());
    assert!(first.reduce(&row(vec![True, False, False], vec![1])).is_none());
}

#[test]
fn should_not_combine_a_factored_state_with_another() {
    let first = row(vec![Factored, True], vec![2, 3]);
    assert!(first.reduce(&row(vec![True, True], vec![3])).is_none());
    assert!(row(vec![False, True], vec![2]).reduce(&first).is_none());
}

#[test]
fn should_compare_rows_by_their_states() {
    let first = row(vec![True, Factored], vec![1, 3]);
    assert!(first.same_states(&row(vec![True, Factored], vec![3, 1])));
    assert!(first == row(vec![True, Factored], vec![3]));
    assert!(first != row(vec![Factored, True], vec![1, 3]));
    assert!(!first.same_states(&row(vec![True, False], vec![1])));
    assert!(!first.same_states(&row(vec![True], vec![1])));
    let copy = first.duplicate();
    assert_eq!(copy.row, first.row);
    assert_eq!(copy.true_count, 1);
    assert_eq!(copy.covered_rows, vec![1, 3]);
}

#[test]
fn should_start_with_one_empty_group_per_count() {
    let mut all = AllQMSteps::new(3);
    assert_eq!(all.steps.len(), 4);
    assert!(all.is_empty());
    all.steps[2].push(row(vec![True, True, False], vec![3]));
    assert!(!all.is_empty());
    assert!(AllQMSteps::new(0).is_empty());
    assert_eq!(AllQMSteps::new(0).steps.len(), 1);
}

#[test]
fn should_find_the_prime_implicants_of_a_table() {
    let table = vec![
        vec![false, false, false],
        vec![true, false, true],
        vec![false, true, false],
        vec![true, true, true],
    ];
    let primes = prime_implicants(&table, 2);
    assert_eq!(states_of(&primes), vec![vec![True, Factored]]);
    assert_eq!(primes[0].covered_rows, vec![1, 3]);
    let none = prime_implicants(&vec![vec![false, false], vec![true, false]], 1);
    assert!(none.is_empty());
}

#[test]
fn should_select_the_essential_implicants_in_order() {
    let primes = vec![
        row(vec![True, Factored], vec![1, 3]),
        row(vec![Factored, True], vec![2, 3]),
    ];
    let outputs = vec![false, true, true, true];
    assert_eq!(sole_covering(&primes, 1), Some(0));
    assert_eq!(sole_covering(&primes, 2), Some(1));
    assert_eq!(sole_covering(&primes, 3), None);
    assert_eq!(sole_covering(&primes, 0), None);
    let cover = essential_cover(&primes, &outputs).unwrap();
    assert_eq!(states_of(&cover), vec![vec![True, Factored], vec![Factored, True]]);
}

#[test]
fn should_leave_out_an_implicant_that_is_not_essential() {
    let primes = vec![
        row(vec![False, Factored, False], vec![0, 2]),
        row(vec![Factored, True, False], vec![2, 3]),
        row(vec![True, True, Factored], vec![3, 7]),
    ];
    let outputs = vec![true, false, true, true, false, false, false, true];
    let cover = essential_cover(&primes, &outputs).unwrap();
    assert_eq!(
        states_of(&cover),
        vec![vec![False, Factored, False], vec![True, True, Factored]]
    );
}

#[test]
fn should_fail_on_rows_that_only_implicants_that_are_not_essential_cover() {
    let primes = vec![
        row(vec![True, Factored, False], vec![1, 3]),
        row(vec![Factored, True, False], vec![2, 3]),
        row(vec![True, False, Factored], vec![1, 5]),
        row(vec![False, True, Factored], vec![2, 6]),
        row(vec![Factored, False, True], vec![5, 4]),
        row(vec![False, Factored, True], vec![6, 4]),
    ];
    let outputs = vec![false, true, true, true, true, true, true, false];
    assert_eq!(essential_cover(&primes, &outputs).err(), Some(ReduceError::UncoveredMinterms));
}

#[test]
fn should_write_no_expression_for_no_implicant() {
    assert_eq!(implicants_expression(&vec![], &vec![1, 2]), None);
}

#[test]
fn should_write_a_single_implicant_without_a_wrapper() {
    let variables = vec![10, 20, 30];
    let several = vec![row(vec![True, Factored, True], vec![5, 7])];
    assert_eq!(
        implicants_expression(&several, &variables),
        Some(Expression {
            operator: Operator::And,
            operands: vec![Operand::Test(10), Operand::Test(30)]
        })
    );
    let one = vec![row(vec![Factored, True, False], vec![2, 3])];
    assert_eq!(
        implicants_expression(&one, &variables),
        Some(Expression { operator: Operator::Or, operands: vec![Operand::Test(20)] })
    );
}

#[test]
fn should_write_several_implicants_as_a_disjunction() {
    let variables = vec![10, 20, 30];
    let cover = vec![
        row(vec![True, True, Factored], vec![3, 7]),
        row(vec![Factored, False, True], vec![4, 5]),
        row(vec![False, False, False], vec![0]),
    ];
    assert_eq!(
        implicants_expression(&cover, &variables),
        Some(Expression {
            operator: Operator::Or,
            operands: vec![
                Operand::Expression(Expression {
                    operator: Operator::And,
                    operands: vec![Operand::Test(10), Operand::Test(20)]
                }),
                Operand::Test(30),
                Operand::Expression(Expression { operator: Operator::And, operands: vec![] }),
            ]
        })
    );
}

#[test]
fn should_find_every_prime_implicant_once() {
    let outputs = [true, true, true, false, false, true, true, true];
    let table: Vec<Vec<bool>> = (0..8usize)
        .map(|index| vec![index & 1 == 1, index & 2 == 2, index & 4 == 4, outputs[index]])
        .collect();
    let primes = prime_implicants(&table, 3);
    let mut found = states_of(&primes);
    found.sort_by_key(|states| format!("{:?}", states));
    let mut expected = vec![
        vec![Factored, False, False],
        vec![False, Factored, False],
        vec![True, False, Factored],
        vec![False, True, Factored],
        vec![True, Factored, True],
        vec![Factored, True, True],
    ];
    expected.sort_by_key(|states| format!("{:?}", states));
    assert_eq!(found, expected);
    for prime in &primes {
        let mut covered = prime.covered_rows.clone();
        covered.sort();
        let agreeing: Vec<usize> = (0..8usize)
            .filter(|index| {
                prime.row.iter().enumerate().all(|(j, state)| match state {
                    True => (index >> j) & 1 == 1,
                    False => (index >> j) & 1 == 0,
                    Factored => true,
                })
            })
            .collect();
        assert_eq!(covered, agreeing);
    }
}

#[test]
fn should_select_in_the_order_of_the_first_row_that_each_alone_covers() {
    let primes = vec![
        row(vec![Factored, True], vec![2, 3]),
        row(vec![True, Factored], vec![1, 3]),
    ];
    let outputs = vec![false, true, true, true];
    let cover = essential_cover(&primes, &outputs).unwrap();
    assert_eq!(states_of(&cover), vec![vec![True, Factored], vec![Factored, True]]);
    assert_eq!(cover[0].covered_rows, vec![1, 3]);
    assert_eq!(cover[1].true_count, 1);
}
