//! Truth tables and the Quine-McCluskey reduction of an expression.
//!
//! The table of an expression over `n` variables has `2^n` rows, so both time
//! and memory grow exponentially with the number of distinct tests that the
//! expression refers to. `reduce` refuses more than `MAX_VARIABLES` of them.

use crate::bits::{bit, encode, lemma_encode, pow2, row_count, test_bit};
use crate::combination::{
    enumerates_inputs, implicant_of, implicants, output_column, prime_implicants,
};
use crate::cover::{
    all_primes, cover_holds, essential_cover, implicant_holds, implicants_expression,
    is_cover_expression, is_essential_cover, lacks_essential, lemma_cover_expression,
    lemma_cover_expression_literals, lemma_selection_covers,
    lemma_selection_is_essential_cover, lemma_uncovered_meaning, uncovered,
};
use crate::expression::{
    below, holds_below, indexed_assignment, lemma_fewer_variables, lemma_holds_agree,
    lemma_monotone_holds_below, lemma_positive_is_monotone, monotone, Expression,
};
use crate::implicant::{row_matches, QMStepRow, VariableState};
use crate::monotone::lemma_monotone_never_falls_short;
use vstd::prelude::*;

verus! {

/// The largest number of distinct tests in an expression that `reduce`
/// accepts, and the highest ceiling that `reduce_within` goes by: a table of
/// more rows than two to the power of this is not built.
pub const MAX_VARIABLES: u32 = 30;

/// Why an expression could not be reduced.
#[derive(Debug, PartialEq, Eq, Clone, Copy, Structural)]
pub enum ReduceError {
    /// The expression refers to more distinct tests than the ceiling allows.
    TooManyVariables,
    /// The essential prime implicants leave a row of the truth table
    /// uncovered. Choosing among the others is not supported.
    UncoveredMinterms,
}

/// The assignment that row `index` of a truth table stands for: the test
/// `variables[j]` is true iff bit `j` of `index` is set; any other test is false.
pub open spec fn row_assignment(variables: Seq<i32>, index: int) -> spec_fn(i32) -> bool {
    |id: i32| exists|j: int| 0 <= j < variables.len() && #[trigger] variables[j] == id && bit(index, j)
}

/// `row` is row `index` of the truth table of `expression`: one input per
/// variable, input `j` being bit `j` of `index`, then the value of the
/// expression on these inputs.
pub open spec fn is_table_row(
    row: Seq<bool>,
    index: int,
    expression: Expression,
    variable_count: int,
    variable_to_index: Seq<usize>,
) -> bool {
    &&& row.len() == variable_count + 1
    &&& forall|j: int| 0 <= j < variable_count ==> #[trigger] row[j] == bit(index, j)
    &&& row[variable_count] == expression.holds(
        indexed_assignment(row.take(variable_count), variable_to_index),
    )
}

/// Builds the truth table of `expression` over `variable_count` variables,
/// the test `id` being the variable with index `variable_to_index[id]`.
///
/// The table has two to the power `variable_count` rows.
pub fn truth_table(
    expression: &Expression,
    variable_count: u32,
    variable_to_index: &Vec<usize>,
) -> (table: Vec<Vec<bool>>)
    requires
        variable_count <= 30,
        forall|id: i32| #[trigger]
            expression.mentions(id) ==> 0 <= id < variable_to_index@.len()
                && variable_to_index@[id as int] < variable_count,
    ensures
        table@.len() == pow2(variable_count as nat),
        forall|k: int|
            0 <= k < table@.len() ==> is_table_row(
                (#[trigger] table@[k])@,
                k,
                *expression,
                variable_count as int,
                variable_to_index@,
            ),
{
    let case_count = row_count(variable_count);
    let inputs = variable_count as usize;
    let mut table = Vec::<Vec<bool>>::new();
    let mut case_index: usize = 0;
    while case_index < case_count
        invariant
            case_index <= case_count,
            inputs == variable_count,
            table@.len() == case_index,
            forall|id: i32| #[trigger]
                expression.mentions(id) ==> 0 <= id < variable_to_index@.len()
                    && variable_to_index@[id as int] < variable_count,
            forall|k: int|
                0 <= k < table@.len() ==> is_table_row(
                    (#[trigger] table@[k])@,
                    k,
                    *expression,
                    variable_count as int,
                    variable_to_index@,
                ),
        decreases case_count - case_index,
    {
        let mut case = Vec::<bool>::new();
        let mut test_index: usize = 0;
        while test_index < inputs
            invariant
                test_index <= inputs,
                case@.len() == test_index,
                forall|j: int| 0 <= j < test_index ==> #[trigger] case@[j] == bit(case_index as int, j),
            decreases inputs - test_index,
        {
            case.push(test_bit(case_index, test_index));
            test_index += 1;
        }
        let result = expression.evaluate(&case, variable_to_index);
        let ghost given = case@;
        case.push(result);
        assert(case@.take(variable_count as int) =~= given);
        table.push(case);
        case_index += 1;
    }
    table
}

/// No assignment makes the expression true.
pub open spec fn unsatisfiable(expression: Expression) -> bool {
    forall|assignment: spec_fn(i32) -> bool| !#[trigger] expression.holds(assignment)
}

/// `variables` lists the tests of `expression`, and `variable_to_index`
/// gives each its place in the list.
pub open spec fn dense_indexing(
    expression: Expression,
    variables: Seq<i32>,
    variable_to_index: Seq<usize>,
) -> bool {
    &&& forall|id: i32| variables.contains(id) <==> expression.mentions(id)
    &&& forall|j: int|
        0 <= j < variables.len() ==> 0 <= #[trigger] variables[j] < variable_to_index.len()
            && variable_to_index[variables[j] as int] == j
}

/// `outputs` is the output column of the truth table of `expression` over `variables`.
pub open spec fn outputs_of(outputs: Seq<bool>, expression: Expression, variables: Seq<i32>) -> bool {
    &&& outputs.len() == pow2(variables.len())
    &&& forall|k: int|
        0 <= k < outputs.len() ==> #[trigger] outputs[k] == expression.holds(
            row_assignment(variables, k),
        )
}

/// The output column of the truth table of `expression` over its own
/// variables, in the order in which `variables` lists them.
pub open spec fn truth_outputs(expression: Expression) -> Seq<bool> {
    Seq::new(
        pow2(expression.variable_seq().len()),
        |k: int| expression.holds(row_assignment(expression.variable_seq(), k)),
    )
}

/// `minimal` is how the essential prime implicants of `expression` are
/// written, each once, in the order of the first row of the truth table
/// with which each alone agrees.
pub open spec fn is_minimal_form(expression: Expression, minimal: Expression) -> bool {
    exists|cover: Seq<QMStepRow>|
        is_essential_cover(cover, truth_outputs(expression), expression.variable_seq().len())
            && #[trigger] is_cover_expression(minimal, cover, expression.variable_seq())
}

/// Some row of the truth table of `expression` has the output true and
/// agrees with no essential prime implicant.
pub open spec fn essentials_fall_short(expression: Expression) -> bool {
    exists|k: int| #[trigger]
        lacks_essential(truth_outputs(expression), expression.variable_seq().len(), k)
}

/// `minimal` is a reduced form of `expression`: it is true under an
/// assignment iff `expression` is true under that assignment or under one
/// that makes fewer tests true.
pub open spec fn reduces_to(expression: Expression, minimal: Expression) -> bool {
    forall|assignment: spec_fn(i32) -> bool| #[trigger]
        minimal.holds(assignment) == holds_below(expression, assignment)
}

/// The output of a table row is the value of the expression under the
/// assignment that the row stands for.
pub proof fn lemma_table_output(
    expression: Expression,
    variables: Seq<i32>,
    variable_to_index: Seq<usize>,
    row: Seq<bool>,
    index: int,
)
    requires
        is_table_row(row, index, expression, variables.len() as int, variable_to_index),
        dense_indexing(expression, variables, variable_to_index),
    ensures
        row[variables.len() as int] == expression.holds(row_assignment(variables, index)),
{
    let inputs = row.take(variables.len() as int);
    let first = indexed_assignment(inputs, variable_to_index);
    let second = row_assignment(variables, index);
    assert forall|id: i32| #[trigger] expression.mentions(id) implies first(id) == second(id) by {
        assert(variables.contains(id));
        let j = choose|j: int| 0 <= j < variables.len() && variables[j] == id;
        assert(variable_to_index[variables[j] as int] == j);
        assert(first(id) == row[j]);
        if bit(index, j) {
            assert(0 <= j < variables.len() && variables[j] == id && bit(index, j));
        } else {
            assert forall|c: int|
                0 <= c < variables.len() && #[trigger] variables[c] == id implies !bit(index, c) by {
                assert(variable_to_index[variables[c] as int] == c);
            }
        }
    }
    lemma_holds_agree(expression, first, second);
}

/// Implicants that cover every row whose output is true describe the
/// expression up to the tests that they leave out: one of them has all its
/// `True` variables true under an assignment iff the expression is true
/// under that assignment or under one that makes fewer tests true.
pub proof fn lemma_cover_meaning(
    expression: Expression,
    variables: Seq<i32>,
    outputs: Seq<bool>,
    cover: Seq<QMStepRow>,
    assignment: spec_fn(i32) -> bool,
)
    requires
        variables.no_duplicates(),
        forall|id: i32| variables.contains(id) <==> expression.mentions(id),
        outputs_of(outputs, expression, variables),
        implicants(cover, outputs, variables.len()),
        forall|k: int|
            0 <= k < outputs.len() && #[trigger] outputs[k] ==> exists|c: int|
                0 <= c < cover.len() && (#[trigger] cover[c]).covered_rows@.contains(k as usize),
        outputs.len() <= usize::MAX,
    ensures
        cover_holds(cover, variables, assignment) == holds_below(expression, assignment),
{
    let n = variables.len();
    if cover_holds(cover, variables, assignment) {
        let c = choose|c: int|
            0 <= c < cover.len() && implicant_holds(
                (#[trigger] cover[c]).row@,
                variables,
                assignment,
            );
        let states = cover[c].row@;
        assert(implicant_of(cover[c], outputs, n));
        let pattern = Seq::new(n, |j: int| states[j] == VariableState::True);
        let m = encode(pattern);
        lemma_encode(pattern);
        assert forall|j: int| 0 <= j < states.len() implies match #[trigger] states[j] {
            VariableState::True => bit(m, j),
            VariableState::False => !bit(m, j),
            VariableState::Factored => true,
        } by {
            assert(bit(m, j) == pattern[j]);
        }
        assert(row_matches(states, m));
        assert(outputs[m]);
        let lower = row_assignment(variables, m);
        assert forall|id: i32| #[trigger] lower(id) implies assignment(id) by {
            let j = choose|j: int| 0 <= j < variables.len() && #[trigger] variables[j] == id && bit(m, j);
            assert(bit(m, j) == pattern[j]);
            assert(states[j] == VariableState::True);
        }
        assert(below(lower, assignment) && expression.holds(lower));
    }
    if holds_below(expression, assignment) {
        let lower = choose|lower: spec_fn(i32) -> bool|
            below(lower, assignment) && #[trigger] expression.holds(lower);
        let pattern = Seq::new(n, |j: int| lower(variables[j]));
        let k = encode(pattern);
        lemma_encode(pattern);
        let of_row = row_assignment(variables, k);
        assert forall|id: i32| #[trigger] expression.mentions(id) implies of_row(id) == lower(
            id,
        ) by {
            assert(variables.contains(id));
            let j = choose|j: int| 0 <= j < variables.len() && variables[j] == id;
            assert(bit(k, j) == pattern[j]);
            if bit(k, j) {
                assert(0 <= j < variables.len() && variables[j] == id && bit(k, j));
            }
        }
        lemma_holds_agree(expression, of_row, lower);
        assert(outputs[k]);
        let c = choose|c: int|
            0 <= c < cover.len() && (#[trigger] cover[c]).covered_rows@.contains(k as usize);
        assert(implicant_of(cover[c], outputs, n));
        let states = cover[c].row@;
        let i = choose|i: int|
            0 <= i < cover[c].covered_rows@.len() && cover[c].covered_rows@[i] == k as usize;
        assert(row_matches(states, cover[c].covered_rows@[i] as int));
        assert forall|j: int|
            0 <= j < states.len() && #[trigger] states[j]
                == VariableState::True implies assignment(variables[j]) by {
            assert(bit(k, j) == pattern[j]);
            assert(lower(variables[j]));
        }
        assert(implicant_holds(cover[c].row@, variables, assignment));
    }
}

/// Reduction changes the form of a monotone expression, never its value:
/// the reduced form of an expression that stays true when more tests pass is
/// true under exactly the assignments under which the expression is.
pub proof fn lemma_reduction_keeps_value(
    expression: Expression,
    minimal: Expression,
    assignment: spec_fn(i32) -> bool,
)
    requires
        monotone(expression),
        reduces_to(expression, minimal),
    ensures
        minimal.holds(assignment) == expression.holds(assignment),
{
    lemma_monotone_holds_below(expression, assignment);
}

/// Reduction never changes the value of an expression without negation.
pub proof fn lemma_reduction_keeps_positive_value(
    expression: Expression,
    minimal: Expression,
    assignment: spec_fn(i32) -> bool,
)
    requires
        expression.positive(),
        reduces_to(expression, minimal),
    ensures
        minimal.holds(assignment) == expression.holds(assignment),
{
    lemma_positive_is_monotone(expression);
    lemma_reduction_keeps_value(expression, minimal, assignment);
}

/// A reduced form is monotone, and some assignment makes it true iff some
/// assignment makes the expression true.
pub proof fn lemma_reduced_is_monotone(expression: Expression, minimal: Expression)
    requires
        reduces_to(expression, minimal),
    ensures
        monotone(minimal),
        unsatisfiable(minimal) == unsatisfiable(expression),
{
    assert forall|lower: spec_fn(i32) -> bool, upper: spec_fn(i32) -> bool|
        below(lower, upper) && #[trigger] minimal.holds(lower) implies #[trigger] minimal.holds(
        upper,
    ) by {
        assert(holds_below(expression, lower));
        let least = choose|least: spec_fn(i32) -> bool|
            below(least, lower) && #[trigger] expression.holds(least);
        assert(below(least, upper));
        assert(holds_below(expression, upper));
    }
    if unsatisfiable(expression) {
        assert forall|assignment: spec_fn(i32) -> bool| !#[trigger] minimal.holds(assignment) by {
            if holds_below(expression, assignment) {
                let least = choose|least: spec_fn(i32) -> bool|
                    below(least, assignment) && #[trigger] expression.holds(least);
            }
        }
    }
    if unsatisfiable(minimal) {
        assert forall|assignment: spec_fn(i32) -> bool| !#[trigger] expression.holds(assignment) by {
            if expression.holds(assignment) {
                assert(below(assignment, assignment));
                assert(holds_below(expression, assignment));
                assert(minimal.holds(assignment));
            }
        }
    }
}

/// Reducing a reduced form again gives an expression of the same value.
pub proof fn lemma_reduction_idempotent(
    expression: Expression,
    once: Expression,
    twice: Expression,
    assignment: spec_fn(i32) -> bool,
)
    requires
        reduces_to(expression, once),
        reduces_to(once, twice),
    ensures
        twice.holds(assignment) == once.holds(assignment),
{
    lemma_reduced_is_monotone(expression, once);
    lemma_reduction_keeps_value(once, twice, assignment);
}

/// Reducing a reduced form again never fails: the reduced form of an
/// expression that was not refused is not refused, is monotone, and its
/// essential prime implicants cover its truth table.
pub proof fn lemma_reduced_reduces_again(expression: Expression, once: Expression)
    requires
        reduces_to(expression, once),
        forall|id: i32| #[trigger] once.mentions(id) ==> expression.mentions(id),
        expression.variable_seq().len() <= MAX_VARIABLES,
    ensures
        once.variable_seq().len() <= MAX_VARIABLES,
        monotone(once),
        !essentials_fall_short(once),
        unsatisfiable(once) == unsatisfiable(expression),
{
    lemma_fewer_variables(once, expression);
    lemma_reduced_is_monotone(expression, once);
    lemma_monotone_never_falls_short(once);
}

/// A list of `count` zeros.
pub fn zero_indices(count: usize) -> (indices: Vec<usize>)
    ensures
        indices@.len() == count,
        forall|i: int| 0 <= i < count ==> indices@[i] == 0,
{
    let mut indices = Vec::<usize>::new();
    let mut i: usize = 0;
    while i < count
        invariant
            i <= count,
            indices@.len() == i,
            forall|k: int| 0 <= k < i ==> indices@[k] == 0,
        decreases count - i,
    {
        indices.push(0);
        i += 1;
    }
    indices
}

/// The table that gives each of `variables` its place in the list. Its
/// length is the largest of them plus one; entries of other numbers are zero.
pub fn index_table(variables: &Vec<i32>) -> (variable_to_index: Vec<usize>)
    requires
        variables@.no_duplicates(),
        forall|j: int| 0 <= j < variables@.len() ==> variables@[j] >= 0,
    ensures
        forall|j: int|
            0 <= j < variables@.len() ==> 0 <= #[trigger] variables@[j] < variable_to_index@.len()
                && variable_to_index@[variables@[j] as int] == j,
        forall|v: int|
            0 <= v < variable_to_index@.len() && !variables@.contains(v as i32)
                ==> #[trigger] variable_to_index@[v] == 0,
        variables@.len() == 0 ==> variable_to_index@.len() == 1,
        variables@.len() > 0 ==> variables@.contains((variable_to_index@.len() - 1) as i32),
{
    let mut max_variable: usize = 0;
    let mut i: usize = 0;
    while i < variables.len()
        invariant
            i <= variables@.len(),
            forall|j: int| 0 <= j < variables@.len() ==> variables@[j] >= 0,
            forall|j: int| 0 <= j < i ==> variables@[j] <= max_variable,
            max_variable <= i32::MAX,
            i == 0 ==> max_variable == 0,
            i > 0 ==> exists|j: int| 0 <= j < i && variables@[j] == max_variable,
        decreases variables@.len() - i,
    {
        let converted_variable = variables[i] as usize;
        if converted_variable > max_variable {
            max_variable = converted_variable;
        }
        i += 1;
    }
    max_variable += 1;
    let mut variable_to_index = zero_indices(max_variable);
    let mut i: usize = 0;
    while i < variables.len()
        invariant
            i <= variables@.len(),
            variables@.no_duplicates(),
            variable_to_index@.len() == max_variable,
            forall|j: int| 0 <= j < variables@.len() ==> 0 <= #[trigger] variables@[j] < max_variable,
            forall|j: int|
                0 <= j < i ==> variable_to_index@[(#[trigger] variables@[j]) as int] == j,
            forall|v: int|
                0 <= v < max_variable && !variables@.contains(v as i32)
                    ==> #[trigger] variable_to_index@[v] == 0,
        decreases variables@.len() - i,
    {
        let variable = variables[i] as usize;
        assert(variables@.contains(variable as i32));
        variable_to_index[variable] = i;
        i += 1;
    }
    proof {
        if variables@.len() > 0 {
            let j = choose|j: int| 0 <= j < variables@.len() && variables@[j] == max_variable - 1;
            assert(variables@[j] == (max_variable - 1) as i32);
        }
    }
    variable_to_index
}

/// The ceiling that `reduce_within` goes by: `ceiling`, but `MAX_VARIABLES` at most.
pub open spec fn effective_ceiling(ceiling: u32) -> int {
    if ceiling < MAX_VARIABLES {
        ceiling as int
    } else {
        MAX_VARIABLES as int
    }
}

/// Reduces an expression to an irredundant disjunction of conjunctions of
/// positive literals with the Quine-McCluskey method.
///
/// The result is `Ok(None)` iff no assignment makes the expression true.
/// Otherwise the reduced expression is true under an assignment iff the
/// expression is true under it or under one that makes fewer tests true; for
/// a monotone expression, and so for every expression without negation, it
/// has the value of the expression under every assignment. A state `False`
/// of an implicant leaves no negated literal.
///
/// The reduced expression is how the essential prime implicants of the
/// expression are written, each once: the prime implicants that alone agree
/// with some row of the truth table, in the order of the first such row.
///
/// The table of the expression has two to the power of its number of
/// distinct tests rows: an expression with more than `MAX_VARIABLES` of them
/// is refused. The reduction fails too, and only then, where some row of the
/// table with the output true agrees with no essential prime implicant; of a
/// monotone expression there is no such row.
pub fn reduce(expression: &Expression) -> (reduced: Result<Option<Expression>, ReduceError>)
    requires
        expression.well_formed(),
    ensures
        reduced matches Err(ReduceError::TooManyVariables) <==> expression.variable_seq().len()
            > MAX_VARIABLES,
        reduced matches Ok(None) <==> expression.variable_seq().len() <= MAX_VARIABLES
            && unsatisfiable(*expression),
        reduced matches Err(ReduceError::UncoveredMinterms) <==> expression.variable_seq().len()
            <= MAX_VARIABLES && essentials_fall_short(*expression),
        expression.variable_seq().len() <= MAX_VARIABLES && monotone(*expression) ==> reduced is Ok,
        reduced matches Ok(Some(minimal)) ==> {
            &&& is_minimal_form(*expression, minimal)
            &&& reduces_to(*expression, minimal)
            &&& minimal.positive()
            &&& minimal.well_formed()
            &&& forall|id: i32| #[trigger] minimal.mentions(id) ==> expression.mentions(id)
        },
{
    reduce_within(expression, MAX_VARIABLES)
}

/// Reduces an expression as `reduce` does, but refuses it where it refers to
/// more than `ceiling` distinct tests. A ceiling above `MAX_VARIABLES` counts
/// as `MAX_VARIABLES`.
pub fn reduce_within(expression: &Expression, ceiling: u32) -> (reduced: Result<
    Option<Expression>,
    ReduceError,
>)
    requires
        expression.well_formed(),
    ensures
        reduced matches Err(ReduceError::TooManyVariables) <==> expression.variable_seq().len()
            > effective_ceiling(ceiling),
        reduced matches Ok(None) <==> expression.variable_seq().len() <= effective_ceiling(ceiling)
            && unsatisfiable(*expression),
        reduced matches Err(ReduceError::UncoveredMinterms) <==> expression.variable_seq().len()
            <= effective_ceiling(ceiling) && essentials_fall_short(*expression),
        expression.variable_seq().len() <= effective_ceiling(ceiling) && monotone(*expression)
            ==> reduced is Ok,
        reduced matches Ok(Some(minimal)) ==> {
            &&& is_minimal_form(*expression, minimal)
            &&& reduces_to(*expression, minimal)
            &&& minimal.positive()
            &&& minimal.well_formed()
            &&& forall|id: i32| #[trigger] minimal.mentions(id) ==> expression.mentions(id)
        },
{
    let variables = expression.variables();
    let limit = if ceiling < MAX_VARIABLES {
        ceiling
    } else {
        MAX_VARIABLES
    };
    if variables.len() > limit as usize {
        return Err(ReduceError::TooManyVariables);
    }
    let variable_count = variables.len();
    assert forall|j: int| 0 <= j < variables@.len() implies variables@[j] >= 0 by {
        assert(variables@.contains(variables@[j]));
        assert(expression.mentions(variables@[j]));
    }
    let variable_to_index = index_table(&variables);
    assert(dense_indexing(*expression, variables@, variable_to_index@));
    assert forall|id: i32| #[trigger] expression.mentions(id) implies 0 <= id
        < variable_to_index@.len() && variable_to_index@[id as int] < variable_count by {
        assert(variables@.contains(id));
        let j = choose|j: int| 0 <= j < variables@.len() && variables@[j] == id;
        assert(variable_to_index@[variables@[j] as int] == j);
    }
    let table = truth_table(expression, variable_count as u32, &variable_to_index);
    let mut outputs = Vec::<bool>::new();
    let mut k: usize = 0;
    while k < table.len()
        invariant
            k <= table@.len(),
            outputs@.len() == k,
            forall|r: int|
                0 <= r < table@.len() ==> (#[trigger] table@[r])@.len() == variable_count + 1,
            forall|r: int| 0 <= r < k ==> outputs@[r] == table@[r]@[variable_count as int],
        decreases table@.len() - k,
    {
        outputs.push(table[k][variable_count]);
        k += 1;
    }
    assert(outputs@ =~= output_column(table@, variable_count as int));
    assert(enumerates_inputs(table@, variable_count as nat));
    proof {
        assert forall|r: int| 0 <= r < outputs@.len() implies #[trigger] outputs@[r]
            == expression.holds(row_assignment(variables@, r)) by {
            lemma_table_output(*expression, variables@, variable_to_index@, table@[r]@, r);
        }
        assert(outputs_of(outputs@, *expression, variables@));
        assert(outputs@ =~= truth_outputs(*expression));
    }
    let primes = prime_implicants(&table, variable_count);
    proof {
        assert(all_primes(primes@, outputs@, variable_count as nat));
        assert forall|k: int| #[trigger]
            lacks_essential(outputs@, variable_count as nat, k) implies uncovered(
            primes@,
            outputs@,
            k as usize,
        ) by {
            lemma_uncovered_meaning(primes@, outputs@, variable_count as nat, k as usize);
        }
    }
    let selected = essential_cover(&primes, &outputs);
    match selected {
        Err(e) => {
            proof {
                let r = choose|r: usize| uncovered(primes@, outputs@, r);
                assert(expression.holds(row_assignment(variables@, r as int)));
                lemma_uncovered_meaning(primes@, outputs@, variable_count as nat, r);
                assert(lacks_essential(outputs@, variable_count as nat, r as int));
                if monotone(*expression) {
                    lemma_monotone_never_falls_short(*expression);
                }
            }
            Err(e)
        },
        Ok(cover) => {
            proof {
                lemma_selection_is_essential_cover(
                    cover@,
                    primes@,
                    outputs@,
                    variable_count as nat,
                );
                assert(implicants(cover@, outputs@, variable_count as nat));
                assert forall|c: int| 0 <= c < cover@.len() implies (#[trigger] cover@[c]).row@.len()
                    <= variables@.len() by {
                    assert(implicant_of(cover@[c], outputs@, variable_count as nat));
                }
                assert forall|r: int| 0 <= r < outputs@.len() && #[trigger] outputs@[r] implies exists|
                    c: int,
                |
                    0 <= c < cover@.len() && (#[trigger] cover@[c]).covered_rows@.contains(
                        r as usize,
                    ) by {
                    assert(!uncovered(primes@, outputs@, r as usize));
                    lemma_selection_covers(cover@, primes@, outputs@, r as usize);
                }
            }
            let written = implicants_expression(&cover, &variables);
            proof {
                assert forall|assignment: spec_fn(i32) -> bool|
                    cover_holds(cover@, variables@, assignment) == holds_below(
                        *expression,
                        assignment,
                    ) by {
                    lemma_cover_meaning(*expression, variables@, outputs@, cover@, assignment);
                }
                if written is None {
                    assert forall|assignment: spec_fn(i32) -> bool| !#[trigger] expression.holds(
                        assignment,
                    ) by {
                        if expression.holds(assignment) {
                            assert(below(assignment, assignment));
                            assert(holds_below(*expression, assignment));
                            assert(cover_holds(cover@, variables@, assignment));
                        }
                    }
                } else {
                    let minimal = written->Some_0;
                    assert forall|assignment: spec_fn(i32) -> bool| #[trigger]
                        minimal.holds(assignment) == holds_below(*expression, assignment) by {
                        lemma_cover_expression(minimal, cover@, variables@, assignment);
                    }
                    lemma_cover_expression_literals(minimal, cover@, variables@);
                    assert(is_cover_expression(minimal, cover@, variables@));
                    assert forall|id: i32| #[trigger] minimal.mentions(id) implies id >= 0
                        && expression.mentions(id) by {
                        assert(variables@.contains(id));
                        assert(expression.mentions(id));
                    }
                    let first = cover@[0];
                    assert(implicant_of(first, outputs@, variable_count as nat));
                    let r = first.covered_rows@[0];
                    assert(row_matches(first.row@, r as int));
                    assert(outputs@[r as int]);
                    assert(expression.holds(row_assignment(variables@, r as int)));
                }
            }
            Ok(written)
        },
    }
}

} // verus!
