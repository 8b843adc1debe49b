//! Inference of a test's dependency expression from the execution history.

use crate::expression::{is_conjunction_of, Expression, Operand, Operator};
use vstd::prelude::*;

verus! {

/// The execution history as a matrix: one row per test, one column per execution.
pub open spec fn outcomes(results: &[&[bool]]) -> Seq<Seq<bool>> {
    Seq::new(results@.len(), |i: int| results@[i]@)
}

/// Every test reports on the same number of executions.
pub open spec fn rectangular(matrix: Seq<Seq<bool>>) -> bool {
    forall|i: int| 0 <= i < matrix.len() ==> (#[trigger] matrix[i]).len() == matrix[0].len()
}

/// The assignment that one execution stands for: a test is true iff it passed in it.
pub open spec fn execution_assignment(matrix: Seq<Seq<bool>>, execution: int) -> spec_fn(
    i32,
) -> bool {
    |id: i32| 0 <= id < matrix.len() && matrix[id as int][execution]
}

/// Among the first `count` tests, those other than `target` that passed in
/// `execution`, each as a literal, in order of their identifiers.
pub open spec fn passed_alongside(
    matrix: Seq<Seq<bool>>,
    target: int,
    execution: int,
    count: nat,
) -> Seq<Operand>
    decreases count,
{
    if count == 0 {
        Seq::empty()
    } else {
        let other = count - 1;
        let before = passed_alongside(matrix, target, execution, other as nat);
        if other != target && matrix[other][execution] {
            before.push(Operand::Test(other as i32))
        } else {
            before
        }
    }
}

/// Among the first `count` executions, those in which `target` passed, in order.
pub open spec fn passing_executions(matrix: Seq<Seq<bool>>, target: int, count: nat) -> Seq<int>
    decreases count,
{
    if count == 0 {
        Seq::empty()
    } else {
        let before = passing_executions(matrix, target, (count - 1) as nat);
        if matrix[target][count - 1] {
            before.push(count - 1)
        } else {
            before
        }
    }
}

/// Every test other than `target` that passed in `execution` is true under `assignment`.
pub open spec fn companions_hold(
    matrix: Seq<Seq<bool>>,
    target: int,
    execution: int,
    assignment: spec_fn(i32) -> bool,
) -> bool {
    forall|other: int|
        0 <= other < matrix.len() && other != target && #[trigger] matrix[other][execution]
            ==> assignment(other as i32)
}

/// `target` passed in `execution` while every other test failed.
pub open spec fn passed_alone(matrix: Seq<Seq<bool>>, target: int, execution: int) -> bool {
    &&& 0 <= execution < matrix[0].len()
    &&& matrix[target][execution]
    &&& forall|other: int|
        0 <= other < matrix.len() && other != target ==> !#[trigger] matrix[other][execution]
}

/// What the inferred expression means: in some execution in which `target`
/// passed, every test that passed with it is true under `assignment`.
pub open spec fn inferred_holds(
    matrix: Seq<Seq<bool>>,
    target: int,
    assignment: spec_fn(i32) -> bool,
) -> bool {
    exists|execution: int|
        0 <= execution < matrix[0].len() && #[trigger] matrix[target][execution]
            && companions_hold(matrix, target, execution, assignment)
}

/// The shape of the inferred expression: a disjunction with one conjunction
/// per execution in which `target` passed, in order, each holding the literals
/// of the tests that passed alongside.
pub open spec fn is_inferred(expression: Expression, matrix: Seq<Seq<bool>>, target: int) -> bool {
    let passing = passing_executions(matrix, target, matrix[0].len());
    &&& expression.operator is Or
    &&& expression.operands@.len() == passing.len()
    &&& forall|k: int|
        0 <= k < passing.len() ==> is_conjunction_of(
            #[trigger] expression.operands@[k],
            passed_alongside(matrix, target, passing[k], matrix.len()),
        )
}

/// The literals of `passed_alongside` are exactly the other tests that passed.
pub proof fn lemma_passed_alongside(
    matrix: Seq<Seq<bool>>,
    target: int,
    execution: int,
    count: nat,
)
    requires
        count <= i32::MAX + 1,
    ensures
        forall|i: int|
            0 <= i < passed_alongside(matrix, target, execution, count).len() ==> {
                let op = #[trigger] passed_alongside(matrix, target, execution, count)[i];
                &&& op matches Operand::Test(id)
                &&& 0 <= id < count
                &&& id != target
                &&& matrix[id as int][execution]
            },
        forall|other: int|
            0 <= other < count && other != target && #[trigger] matrix[other][execution]
                ==> passed_alongside(matrix, target, execution, count).contains(
                Operand::Test(other as i32),
            ),
    decreases count,
{
    if count > 0 {
        let before = passed_alongside(matrix, target, execution, (count - 1) as nat);
        let now = passed_alongside(matrix, target, execution, count);
        lemma_passed_alongside(matrix, target, execution, (count - 1) as nat);
        assert forall|other: int|
            0 <= other < count && other != target && #[trigger] matrix[other][execution]
                implies now.contains(Operand::Test(other as i32)) by {
            if other < count - 1 {
                let k = choose|k: int|
                    0 <= k < before.len() && before[k] == Operand::Test(other as i32);
                assert(now[k] == Operand::Test(other as i32));
            } else {
                assert(now[before.len() as int] == Operand::Test(other as i32));
            }
        }
    }
}

/// The operands of `passed_alongside` are tests, and there is none iff no
/// other test passed.
pub proof fn lemma_passed_alongside_any(
    matrix: Seq<Seq<bool>>,
    target: int,
    execution: int,
    count: nat,
)
    ensures
        forall|i: int|
            0 <= i < passed_alongside(matrix, target, execution, count).len() ==> (
            #[trigger] passed_alongside(matrix, target, execution, count)[i]) is Test,
        passed_alongside(matrix, target, execution, count).len() == 0 <==> forall|other: int|
            0 <= other < count && other != target ==> !#[trigger] matrix[other][execution],
    decreases count,
{
    if count > 0 {
        lemma_passed_alongside_any(matrix, target, execution, (count - 1) as nat);
        let before = passed_alongside(matrix, target, execution, (count - 1) as nat);
        let now = passed_alongside(matrix, target, execution, count);
        assert forall|i: int| 0 <= i < now.len() implies (#[trigger] now[i]) is Test by {
            if i < before.len() {
                assert(now[i] == before[i]);
            }
        }
        if now.len() == 0 {
            assert(before.len() == 0);
        }
        if forall|other: int|
            0 <= other < count && other != target ==> !#[trigger] matrix[other][execution] {
            assert forall|other: int| 0 <= other < count - 1 && other != target implies !#[trigger] matrix[other][execution] by {}
        }
    }
}

/// The executions of `passing_executions` are exactly those in which `target` passed.
pub proof fn lemma_passing_executions(matrix: Seq<Seq<bool>>, target: int, count: nat)
    ensures
        forall|k: int|
            0 <= k < passing_executions(matrix, target, count).len() ==> {
                let e = #[trigger] passing_executions(matrix, target, count)[k];
                0 <= e < count && matrix[target][e]
            },
        forall|e: int|
            0 <= e < count && #[trigger] matrix[target][e] ==> passing_executions(
                matrix,
                target,
                count,
            ).contains(e),
    decreases count,
{
    if count > 0 {
        let before = passing_executions(matrix, target, (count - 1) as nat);
        let now = passing_executions(matrix, target, count);
        lemma_passing_executions(matrix, target, (count - 1) as nat);
        assert forall|e: int| 0 <= e < count && #[trigger] matrix[target][e] implies now.contains(
            e,
        ) by {
            if e < count - 1 {
                let k = choose|k: int| 0 <= k < before.len() && before[k] == e;
                assert(now[k] == e);
            } else {
                assert(now[before.len() as int] == e);
            }
        }
    }
}

/// An expression of the inferred shape is true under an assignment iff, in
/// some execution in which the target passed, every test that passed
/// alongside is true under it.
pub proof fn lemma_inferred_meaning(
    expression: Expression,
    matrix: Seq<Seq<bool>>,
    target: int,
    assignment: spec_fn(i32) -> bool,
)
    requires
        is_inferred(expression, matrix, target),
        matrix.len() <= i32::MAX + 1,
    ensures
        expression.holds(assignment) == inferred_holds(matrix, target, assignment),
{
    let passing = passing_executions(matrix, target, matrix[0].len());
    lemma_passing_executions(matrix, target, matrix[0].len());
    assert forall|k: int| 0 <= k < passing.len() implies (#[trigger] expression.operands@[k]).holds(
        assignment,
    ) == companions_hold(matrix, target, passing[k], assignment) by {
        let e = passing[k];
        let literals = passed_alongside(matrix, target, e, matrix.len());
        lemma_passed_alongside(matrix, target, e, matrix.len());
        let op = expression.operands@[k];
        assert(is_conjunction_of(op, literals));
        match op {
            Operand::Expression(c) => {
                assert(c.operands@ == literals);
                if companions_hold(matrix, target, e, assignment) {
                    assert forall|i: int| 0 <= i < c.operands@.len() implies (
                    #[trigger] c.operands@[i]).holds(assignment) by {
                    }
                    assert(c.holds(assignment));
                } else {
                    let other = choose|other: int|
                        0 <= other < matrix.len() && other != target
                            && #[trigger] matrix[other][e] && !assignment(other as i32);
                    let i = choose|i: int|
                        0 <= i < literals.len() && literals[i] == Operand::Test(other as i32);
                    assert(!c.operands@[i].holds(assignment));
                    assert(!c.holds(assignment));
                }
            },
            _ => {},
        }
    }
    if expression.holds(assignment) {
        let k = choose|k: int|
            0 <= k < expression.operands@.len() && (#[trigger] expression.operands@[k]).holds(
                assignment,
            );
        let e = passing[k];
        assert(matrix[target][e] && companions_hold(matrix, target, e, assignment));
    }
    if inferred_holds(matrix, target, assignment) {
        let e = choose|e: int|
            0 <= e < matrix[0].len() && #[trigger] matrix[target][e] && companions_hold(
                matrix,
                target,
                e,
                assignment,
            );
        let k = choose|k: int| 0 <= k < passing.len() && passing[k] == e;
        assert(expression.operands@[k].holds(assignment));
    }
}

/// The inferred expression is true on every execution in which the target
/// passed, and on an execution in which it failed exactly when the tests that
/// passed in it include all those that passed alongside the target in some
/// execution in which the target passed.
pub proof fn lemma_inferred_on_executions(
    expression: Expression,
    matrix: Seq<Seq<bool>>,
    target: int,
    execution: int,
)
    requires
        is_inferred(expression, matrix, target),
        matrix.len() <= i32::MAX + 1,
        0 <= target < matrix.len(),
        0 <= execution < matrix[0].len(),
    ensures
        matrix[target][execution] ==> expression.holds(execution_assignment(matrix, execution)),
        expression.holds(execution_assignment(matrix, execution)) <==> exists|e: int|
            0 <= e < matrix[0].len() && #[trigger] matrix[target][e] && forall|other: int|
                0 <= other < matrix.len() && other != target && #[trigger] matrix[other][e]
                    ==> matrix[other][execution],
{
    let a = execution_assignment(matrix, execution);
    lemma_inferred_meaning(expression, matrix, target, a);
    assert forall|e: int| 0 <= e < matrix[0].len() implies (companions_hold(matrix, target, e, a)
        <==> forall|other: int|
        0 <= other < matrix.len() && other != target && #[trigger] matrix[other][e]
            ==> matrix[other][execution]) by {
        if companions_hold(matrix, target, e, a) {
            assert forall|other: int|
                0 <= other < matrix.len() && other != target && #[trigger] matrix[other][e]
                    implies matrix[other][execution] by {
                assert(a(other as i32));
            }
        }
    }
    if matrix[target][execution] {
        assert(companions_hold(matrix, target, execution, a));
    }
}

/// Whether every test reports on the same number of executions.
pub fn is_rectangular(results: &[&[bool]]) -> (rectangular: bool)
    ensures
        rectangular == self::rectangular(outcomes(results)),
{
    let ghost matrix = outcomes(results);
    let mut i: usize = 0;
    while i < results.len()
        invariant
            i <= results@.len(),
            matrix == outcomes(results),
            forall|k: int| 0 <= k < i ==> (#[trigger] matrix[k]).len() == matrix[0].len(),
        decreases results@.len() - i,
    {
        assert(matrix[i as int] == results@[i as int]@);
        assert(matrix[0] == results@[0]@);
        if results[i].len() != results[0].len() {
            return false;
        }
        i += 1;
    }
    true
}

/// Infers from the execution history when the test `target_id` passes.
///
/// `results` holds one row per test and one column per execution. The result
/// is `None` iff the test passed in some execution in which every other test
/// failed: it then depends on no other test. Otherwise it is a disjunction
/// with, for each execution in which the test passed, the conjunction of the
/// tests that passed alongside it.
///
/// A test is named by its row number as an `i32`: what the expression means
/// is stated for suites whose row numbers fit.
pub fn dependency_expression(results: &[&[bool]], target_id: usize) -> (inferred: Option<
    Expression,
>)
    requires
        target_id < results@.len(),
        rectangular(outcomes(results)),
    ensures
        inferred is None <==> exists|execution: int|
            passed_alone(outcomes(results), target_id as int, execution),
        inferred matches Some(expression) ==> {
            &&& is_inferred(expression, outcomes(results), target_id as int)
            &&& expression.positive()
            &&& results@.len() <= i32::MAX + 1 ==> {
                &&& expression.well_formed()
                &&& forall|assignment: spec_fn(i32) -> bool|
                    #[trigger] expression.holds(assignment) == inferred_holds(
                        outcomes(results),
                        target_id as int,
                        assignment,
                    )
            }
        },
{
    let ghost matrix = outcomes(results);
    let test_count = results.len();
    let executions = results[0].len();
    assert(matrix[0] == results@[0]@);
    let mut subexpressions = Vec::<Operand>::new();
    let mut execution_index: usize = 0;
    while execution_index < executions
        invariant
            execution_index <= executions,
            executions == matrix[0].len(),
            test_count == results@.len(),
            matrix == outcomes(results),
            target_id < test_count,
            rectangular(matrix),
            forall|e: int| 0 <= e < execution_index ==> !passed_alone(matrix, target_id as int, e),
            subexpressions@.len() == passing_executions(
                matrix,
                target_id as int,
                execution_index as nat,
            ).len(),
            forall|k: int|
                0 <= k < subexpressions@.len() ==> is_conjunction_of(
                    #[trigger] subexpressions@[k],
                    passed_alongside(
                        matrix,
                        target_id as int,
                        passing_executions(matrix, target_id as int, execution_index as nat)[k],
                        matrix.len(),
                    ),
                ),
        decreases executions - execution_index,
    {
        assert(matrix[target_id as int] == results@[target_id as int]@);
        assert(matrix[target_id as int].len() == matrix[0].len());
        if results[target_id][execution_index] {
            let mut other_passing = Vec::<Operand>::new();
            let mut other_id: usize = 0;
            while other_id < test_count
                invariant
                    other_id <= test_count,
                    test_count == results@.len(),
                    matrix == outcomes(results),
                    target_id < test_count,
                    rectangular(matrix),
                    execution_index < matrix[0].len(),
                    other_passing@ == passed_alongside(
                        matrix,
                        target_id as int,
                        execution_index as int,
                        other_id as nat,
                    ),
                decreases test_count - other_id,
            {
                assert(matrix[other_id as int] == results@[other_id as int]@);
                assert(matrix[other_id as int].len() == matrix[0].len());
                if other_id != target_id && results[other_id][execution_index] {
                    other_passing.push(Operand::Test(#[verifier::truncate] (other_id as i32)));
                }
                other_id += 1;
            }
            proof {
                lemma_passed_alongside_any(
                    matrix,
                    target_id as int,
                    execution_index as int,
                    matrix.len(),
                );
            }
            if other_passing.len() == 0 {
                assert(passed_alone(matrix, target_id as int, execution_index as int));
                return None;
            }
            assert(!passed_alone(matrix, target_id as int, execution_index as int));
            subexpressions.push(
                Operand::Expression(Expression { operator: Operator::And, operands: other_passing }),
            );
        }
        execution_index += 1;
    }
    let expression = Expression { operator: Operator::Or, operands: subexpressions };
    proof {
        assert(is_inferred(expression, matrix, target_id as int));
        lemma_passing_executions(matrix, target_id as int, matrix[0].len());
        assert forall|k: int| 0 <= k < expression.operands@.len() implies (
        #[trigger] expression.operands@[k]).positive() by {
            let e = passing_executions(matrix, target_id as int, matrix[0].len())[k];
            lemma_passed_alongside_any(matrix, target_id as int, e, matrix.len());
            match expression.operands@[k] {
                Operand::Expression(c) => {
                    assert forall|i: int| 0 <= i < c.operands@.len() implies (
                    #[trigger] c.operands@[i]).positive() by {
                        assert(c.operands@[i] == passed_alongside(
                            matrix,
                            target_id as int,
                            e,
                            matrix.len(),
                        )[i]);
                    }
                },
                _ => {},
            }
        }
        if matrix.len() <= i32::MAX + 1 {
            assert forall|id: i32| #[trigger] expression.mentions(id) implies id >= 0 by {
                let k = choose|k: int|
                    0 <= k < expression.operands@.len() && (
                    #[trigger] expression.operands@[k]).mentions(id);
                let e = passing_executions(matrix, target_id as int, matrix[0].len())[k];
                lemma_passed_alongside(matrix, target_id as int, e, matrix.len());
                match expression.operands@[k] {
                    Operand::Expression(c) => {
                        let i = choose|i: int|
                            0 <= i < c.operands@.len() && (#[trigger] c.operands@[i]).mentions(id);
                        assert(c.operands@[i] == passed_alongside(
                            matrix,
                            target_id as int,
                            e,
                            matrix.len(),
                        )[i]);
                    },
                    _ => {},
                }
            }
            assert forall|assignment: spec_fn(i32) -> bool|
                #[trigger] expression.holds(assignment) == inferred_holds(
                    matrix,
                    target_id as int,
                    assignment,
                ) by {
                lemma_inferred_meaning(expression, matrix, target_id as int, assignment);
            }
        }
    }
    Some(expression)
}

} // verus!
