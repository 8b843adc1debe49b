//! The whole analysis: for every test of a suite, the reduced expression
//! that tells on which other tests it depends.

use crate::dependency_expression::{
    dependency_expression, is_inferred, outcomes, passed_alone, rectangular,
};
use crate::expression::{lemma_positive_is_monotone, Expression};
use crate::quine_mccluskey::{
    essentials_fall_short, is_minimal_form, reduce, reduces_to, unsatisfiable, ReduceError,
    MAX_VARIABLES,
};
use vstd::prelude::*;

verus! {

/// `reduced` is what the reduction of `expression` gives: a refusal iff the
/// expression has too many variables, nothing iff no assignment makes it
/// true, a failure iff its essential prime implicants fall short, and else
/// its reduced form.
pub open spec fn is_reduction_of(
    expression: Expression,
    reduced: Result<Option<Expression>, ReduceError>,
) -> bool {
    &&& (reduced matches Err(ReduceError::TooManyVariables)) <==> expression.variable_seq().len()
        > MAX_VARIABLES
    &&& (reduced matches Ok(None)) <==> expression.variable_seq().len() <= MAX_VARIABLES
        && unsatisfiable(expression)
    &&& (reduced matches Err(ReduceError::UncoveredMinterms)) <==> expression.variable_seq().len()
        <= MAX_VARIABLES && essentials_fall_short(expression)
    &&& reduced matches Ok(Some(minimal)) ==> {
        &&& is_minimal_form(expression, minimal)
        &&& reduces_to(expression, minimal)
        &&& minimal.positive()
        &&& minimal.well_formed()
        &&& forall|id: i32| #[trigger] minimal.mentions(id) ==> expression.mentions(id)
    }
}

/// `outcome` is the result of the analysis for the test `target`: nothing
/// where the test passed in some execution in which every other test failed;
/// else the reduction of the expression inferred for it, which fails only
/// where more than `MAX_VARIABLES` tests passed alongside it.
pub open spec fn is_dependency_of(
    outcome: Result<Option<Expression>, ReduceError>,
    matrix: Seq<Seq<bool>>,
    target: int,
) -> bool {
    if exists|execution: int| passed_alone(matrix, target, execution) {
        outcome matches Ok(None)
    } else {
        &&& exists|inferred: Expression| #[trigger]
            is_inferred(inferred, matrix, target) && is_reduction_of(inferred, outcome)
        &&& outcome matches Err(e) ==> e == ReduceError::TooManyVariables
    }
}

/// Infers and reduces the dependency expression of every test of the suite.
/// Each test is analysed on its own: the outcome for one test does not
/// depend on whether the analysis of another failed.
pub fn all_dependencies(results: &[&[bool]]) -> (all: Vec<Result<Option<Expression>, ReduceError>>)
    requires
        results@.len() <= i32::MAX + 1,
        rectangular(outcomes(results)),
    ensures
        all@.len() == results@.len(),
        forall|target: int|
            0 <= target < all@.len() ==> is_dependency_of(
                #[trigger] all@[target],
                outcomes(results),
                target,
            ),
{
    let mut all = Vec::<Result<Option<Expression>, ReduceError>>::new();
    let mut target: usize = 0;
    while target < results.len()
        invariant
            target <= results@.len(),
            results@.len() <= i32::MAX + 1,
            rectangular(outcomes(results)),
            all@.len() == target,
            forall|t: int|
                0 <= t < all@.len() ==> is_dependency_of(#[trigger] all@[t], outcomes(results), t),
        decreases results@.len() - target,
    {
        let outcome = match dependency_expression(results, target) {
            None => Ok(None),
            Some(inferred) => {
                proof {
                    lemma_positive_is_monotone(inferred);
                }
                let reduced = reduce(&inferred);
                assert(is_inferred(inferred, outcomes(results), target as int) && is_reduction_of(
                    inferred,
                    reduced,
                ));
                reduced
            },
        };
        assert(is_dependency_of(outcome, outcomes(results), target as int));
        all.push(outcome);
        target += 1;
    }
    all
}

} // verus!
